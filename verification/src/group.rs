//! Group analysis over the board graph: connected-component ("group")
//! discovery by breadth-first search, liberty counting, and capture of
//! groups whose liberty set is empty.

use vstd::prelude::*;
use std::collections::VecDeque;
use crate::board::{connects, is_pos_adjacent, lemma_occupied_at_in, lemma_push_stones, lemma_stones_pos_unique, linked, occupied_in, Edge, pos_adjacent, node_in_vec, point_in_vec, Color, Graph, GroupError, Node, PlacementError};

verus! {

broadcast use vstd::seq_lib::lemma_seq_contains_after_push, vstd::seq_lib::seq_to_set_is_finite;

/// `p` is a walk through the stones of `s`: nonempty, every stone live, and
/// each consecutive pair linked (same color, orthogonally adjacent).
pub open spec fn is_path(s: Set<Node>, p: Seq<Node>) -> bool {
    &&& p.len() > 0
    &&& forall|i: int| 0 <= i < p.len() ==> s.contains(#[trigger] p[i])
    &&& forall|i: int| 0 <= i < p.len() - 1 ==> linked(#[trigger] p[i], p[i + 1])
}

/// `b` can be reached from `a` by a walk through same-colored, orthogonally
/// adjacent live stones.
pub open spec fn reachable(s: Set<Node>, a: Node, b: Node) -> bool {
    exists|p: Seq<Node>| #[trigger] is_path(s, p) && p.first() == a && p.last() == b
}

/// The group of `seed` on board `s`: the maximal connected set of
/// same-colored stones reachable from it.
pub open spec fn group_of(s: Set<Node>, seed: Node) -> Set<Node> {
    Set::new(|n: Node| reachable(s, seed, n))
}

/// The stone `m` is orthogonally adjacent to the board point `q`.
pub open spec fn adj_point(m: Node, q: (i16, i16)) -> bool {
    ||| (m.x == q.0 && (m.y - q.1 == 1 || q.1 - m.y == 1))
    ||| (m.y == q.1 && (m.x - q.0 == 1 || q.0 - m.x == 1))
}

/// The liberties of the stone set `grp` on board `s`: the distinct points
/// orthogonally adjacent to at least one member that hold no stone of any
/// color.
pub open spec fn liberties(s: Set<Node>, grp: Set<Node>) -> Set<(i16, i16)> {
    Set::new(
        |q: (i16, i16)|
            !occupied_in(s, q) && exists|m: Node| #[trigger] grp.contains(m) && adj_point(m, q),
    )
}

/// The stone set `grp` has no liberty at all.
pub open spec fn no_liberties(s: Set<Node>, grp: Set<Node>) -> bool {
    forall|q: (i16, i16)| !liberties(s, grp).contains(q)
}

/// A live seed whose whole group is out of liberties, judged against `s`.
pub open spec fn seed_captures(s: Set<Node>, d: Node) -> bool {
    s.contains(d) && no_liberties(s, group_of(s, d))
}

/// The stones captured when the groups seeded by `seeds` are resolved
/// against board `s`: every member of the group of each live seed whose
/// liberty set is empty, all judged against the one snapshot `s`.
pub open spec fn captured(s: Set<Node>, seeds: Set<Node>) -> Set<Node> {
    Set::new(
        |n: Node|
            exists|d: Node|
                #[trigger] seeds.contains(d) && seed_captures(s, d) && group_of(s, d).contains(n),
    )
}

/// The live opposing stones orthogonally adjacent to `stone`: the seeds of
/// the groups whose capture a placement of `stone` can cause.
pub open spec fn opposing_neighbors(s: Set<Node>, stone: Node) -> Set<Node> {
    Set::new(|d: Node| s.contains(d) && d.c != stone.c && pos_adjacent(d, stone))
}

/// The stone set after `stone` is played on `s` (an unoccupied point):
/// the stone is inserted; the adjacent opposing groups out of liberties are
/// all captured at once, judged against the post-placement board; only then
/// is the played stone's own group examined, and removed if it still has no
/// liberty (capturing the opponent first can restore its liberties).
pub open spec fn play_outcome(s: Set<Node>, stone: Node) -> Set<Node> {
    let s1 = s.insert(stone);
    let s2 = s1.difference(captured(s1, opposing_neighbors(s1, stone)));
    if s2.contains(stone) && no_liberties(s2, group_of(s2, stone)) {
        s2.difference(group_of(s2, stone))
    } else {
        s2
    }
}

/// A live stone reaches itself.
pub proof fn lemma_reachable_self(s: Set<Node>, a: Node)
    requires
        s.contains(a),
    ensures
        reachable(s, a, a),
{
    let p = seq![a];
    assert(is_path(s, p));
    assert(p.first() == a && p.last() == a);
}

/// Reachability extends along one more link to a live stone.
pub proof fn lemma_reachable_step(s: Set<Node>, a: Node, b: Node, c: Node)
    requires
        reachable(s, a, b),
        s.contains(c),
        linked(b, c),
    ensures
        reachable(s, a, c),
{
    let p = choose|p: Seq<Node>| #[trigger] is_path(s, p) && p.first() == a && p.last() == b;
    let q = p.push(c);
    assert forall|i: int| 0 <= i < q.len() - 1 implies linked(#[trigger] q[i], q[i + 1]) by {
        if i < p.len() - 1 {
            assert(q[i] == p[i] && q[i + 1] == p[i + 1]);
        } else {
            assert(q[i] == p.last() && q[i + 1] == c);
        }
    }
    assert(is_path(s, q));
    assert(q.first() == a && q.last() == c);
}

/// Every stone of a walk is live and carries the color of the walk's start.
proof fn lemma_path_members(s: Set<Node>, p: Seq<Node>)
    requires
        is_path(s, p),
    ensures
        forall|i: int| 0 <= i < p.len() ==> (#[trigger] p[i]).c == p.first().c,
    decreases p.len(),
{
    if p.len() > 1 {
        let q = p.drop_last();
        assert(is_path(s, q));
        lemma_path_members(s, q);
        assert forall|i: int| 0 <= i < p.len() implies (#[trigger] p[i]).c == p.first().c by {
            if i < p.len() - 1 {
                assert(q[i] == p[i]);
            } else {
                assert(linked(p[p.len() - 2], p[p.len() - 1]));
                assert(q[p.len() - 2] == p[p.len() - 2]);
            }
        }
    }
}

/// Whatever a stone reaches is live and has the stone's color, and the
/// stone itself is live.
pub proof fn lemma_reachable_in(s: Set<Node>, a: Node, b: Node)
    requires
        reachable(s, a, b),
    ensures
        s.contains(a),
        s.contains(b),
        a.c == b.c,
{
    let p = choose|p: Seq<Node>| #[trigger] is_path(s, p) && p.first() == a && p.last() == b;
    lemma_path_members(s, p);
    assert(s.contains(p[0]));
    assert(s.contains(p[p.len() - 1]));
    assert(p[p.len() - 1].c == p.first().c);
}

/// The last stone of a walk that starts in a link-closed set lies in that
/// set.
proof fn lemma_path_in_closed(s: Set<Node>, t: Set<Node>, p: Seq<Node>)
    requires
        is_path(s, p),
        t.contains(p.first()),
        forall|a: Node, c: Node|
            #[trigger] t.contains(a) && #[trigger] s.contains(c) && linked(a, c) ==> t.contains(c),
    ensures
        t.contains(p.last()),
    decreases p.len(),
{
    if p.len() > 1 {
        let q = p.drop_last();
        assert(is_path(s, q));
        lemma_path_in_closed(s, t, q);
        assert(q.last() == p[p.len() - 2]);
        assert(linked(p[p.len() - 2], p[p.len() - 1]));
        assert(s.contains(p[p.len() - 1]));
    }
}

/// A set that contains `u` and is closed under the link relation on live
/// stones contains everything reachable from `u`: group discovery cannot
/// stop short of the whole component.
pub proof fn lemma_closed_contains_reachable(s: Set<Node>, t: Set<Node>, u: Node, b: Node)
    requires
        t.contains(u),
        forall|a: Node, c: Node|
            #[trigger] t.contains(a) && #[trigger] s.contains(c) && linked(a, c) ==> t.contains(c),
        reachable(s, u, b),
    ensures
        t.contains(b),
{
    let p = choose|p: Seq<Node>| #[trigger] is_path(s, p) && p.first() == u && p.last() == b;
    lemma_path_in_closed(s, t, p);
}

/// Reachability is transitive.
pub proof fn lemma_reachable_trans(s: Set<Node>, a: Node, b: Node, c: Node)
    requires
        reachable(s, a, b),
        reachable(s, b, c),
    ensures
        reachable(s, a, c),
{
    let p = choose|p: Seq<Node>| #[trigger] is_path(s, p) && p.first() == a && p.last() == b;
    let q = choose|q: Seq<Node>| #[trigger] is_path(s, q) && q.first() == b && q.last() == c;
    if q.len() == 1 {
        assert(b == c);
    } else {
        let r = p + q.subrange(1, q.len() as int);
        assert(r.len() == p.len() + q.len() - 1);
        assert forall|i: int| 0 <= i < r.len() implies s.contains(#[trigger] r[i]) by {
            if i < p.len() {
                assert(r[i] == p[i]);
            } else {
                assert(r[i] == q[i - p.len() + 1]);
            }
        }
        assert forall|i: int| 0 <= i < r.len() - 1 implies linked(#[trigger] r[i], r[i + 1]) by {
            if i + 1 < p.len() {
                assert(r[i] == p[i] && r[i + 1] == p[i + 1]);
            } else if i + 1 == p.len() {
                assert(r[i] == p[p.len() - 1]);
                assert(r[i + 1] == q[1]);
                assert(linked(q[0], q[1]));
            } else {
                assert(r[i] == q[i - p.len() + 1] && r[i + 1] == q[i - p.len() + 2]);
                assert(linked(q[i - p.len() + 1], q[i - p.len() + 2]));
            }
        }
        assert(is_path(s, r));
        assert(r.first() == a);
        assert(r.last() == q[q.len() - 1]);
    }
}

/// Reachability is symmetric: walks reverse, because the link relation is
/// symmetric.
pub proof fn lemma_reachable_sym(s: Set<Node>, a: Node, b: Node)
    requires
        reachable(s, a, b),
    ensures
        reachable(s, b, a),
{
    let p = choose|p: Seq<Node>| #[trigger] is_path(s, p) && p.first() == a && p.last() == b;
    let n = p.len() as int;
    let r = Seq::new(p.len(), |i: int| p[n - 1 - i]);
    assert forall|i: int| 0 <= i < r.len() - 1 implies linked(#[trigger] r[i], r[i + 1]) by {
        assert(r[i] == p[n - 1 - i] && r[i + 1] == p[n - 2 - i]);
        assert(linked(p[n - 2 - i], p[n - 1 - i]));
    }
    assert(is_path(s, r));
    assert(r.first() == b && r.last() == a);
}

/// Every member of a group seeds the same group: groups are whole connected
/// components, not dependent on the chosen seed.
pub proof fn lemma_group_member_same_group(s: Set<Node>, seed: Node, m: Node)
    requires
        group_of(s, seed).contains(m),
    ensures
        group_of(s, m) == group_of(s, seed),
{
    assert(reachable(s, seed, m));
    lemma_reachable_sym(s, seed, m);
    assert forall|n: Node| group_of(s, m).contains(n) implies group_of(s, seed).contains(n) by {
        lemma_reachable_trans(s, seed, m, n);
    }
    assert forall|n: Node| group_of(s, seed).contains(n) implies group_of(s, m).contains(n) by {
        lemma_reachable_trans(s, m, seed, n);
    }
    assert(group_of(s, m) =~= group_of(s, seed));
}

/// A seed that captures nothing extends the resolved prefix without
/// changing the doomed point set.
proof fn lemma_prefix_unchanged(s: Set<Node>, seeds: Seq<Node>, doomed: Seq<(i16, i16)>, i: int)
    requires
        0 <= i < seeds.len(),
        !seed_captures(s, seeds[i]),
        forall|q: (i16, i16)|
            #[trigger] doomed.contains(q) <==> (exists|k: int, n: Node|
                0 <= k < i && seed_captures(s, seeds[k]) && #[trigger] group_of(
                    s,
                    seeds[k],
                ).contains(n) && n.x == q.0 && n.y == q.1),
    ensures
        forall|q: (i16, i16)|
            #[trigger] doomed.contains(q) <==> (exists|k: int, n: Node|
                0 <= k < i + 1 && seed_captures(s, seeds[k]) && #[trigger] group_of(
                    s,
                    seeds[k],
                ).contains(n) && n.x == q.0 && n.y == q.1),
{
    assert forall|q: (i16, i16)|
        #[trigger] doomed.contains(q) <==> (exists|k: int, n: Node|
            0 <= k < i + 1 && seed_captures(s, seeds[k]) && #[trigger] group_of(
                s,
                seeds[k],
            ).contains(n) && n.x == q.0 && n.y == q.1) by {
        if exists|k: int, n: Node|
            0 <= k < i + 1 && seed_captures(s, seeds[k]) && #[trigger] group_of(
                s,
                seeds[k],
            ).contains(n) && n.x == q.0 && n.y == q.1 {
            let (k, n) = choose|k: int, n: Node|
                0 <= k < i + 1 && seed_captures(s, seeds[k]) && #[trigger] group_of(
                    s,
                    seeds[k],
                ).contains(n) && n.x == q.0 && n.y == q.1;
            assert(k < i);
            assert(doomed.contains(q));
        }
        if doomed.contains(q) {
            let (k, n) = choose|k: int, n: Node|
                0 <= k < i && seed_captures(s, seeds[k]) && #[trigger] group_of(
                    s,
                    seeds[k],
                ).contains(n) && n.x == q.0 && n.y == q.1;
            assert(0 <= k < i + 1 && seed_captures(s, seeds[k]) && group_of(s, seeds[k]).contains(
                n,
            ) && n.x == q.0 && n.y == q.1);
        }
    }
}

impl Graph {
    /// Computes the connected same-colored component containing the live
    /// stone `u`, by breadth-first search: a frontier queue and a visited
    /// list both start at `u`; each stone popped from the queue has its
    /// unvisited linked neighbors marked visited and enqueued. The visited
    /// list, free of duplicates, is exactly `u`'s group.
    #[verifier::rlimit(60)]
    pub fn find_component_containing(&self, u: Node) -> (component: Vec<Node>)
        requires
            self.wf(),
            self.stones().contains(u),
        ensures
            component@.no_duplicates(),
            component@.to_set() == group_of(self.stones(), u),
    {
        let ghost s = self.stones();
        let mut reached: VecDeque<Node> = VecDeque::new();
        let mut searched: Vec<Node> = Vec::new();
        reached.push_back(u);
        searched.push(u);
        proof {
            lemma_reachable_self(s, u);
            assert(searched@[0] == u);
            assert(searched@.contains(u));
            assert(searched@.to_set().subset_of(s)) by {
                assert forall|n: Node| searched@.to_set().contains(n) implies s.contains(n) by {
                    assert(n == u);
                }
            }
            searched@.unique_seq_to_set();
            vstd::set_lib::lemma_len_subset(searched@.to_set(), s);
        }
        while reached.len() > 0
            invariant
                self.wf(),
                s == self.stones(),
                s.finite(),
                s.contains(u),
                searched@.no_duplicates(),
                searched@.contains(u),
                searched@.len() <= s.len(),
                forall|n: Node| #[trigger] searched@.contains(n) ==> reachable(s, u, n),
                forall|k: int| 0 <= k < reached@.len() ==> searched@.contains(#[trigger] reached@[k]),
                forall|a: Node, b: Node|
                    #[trigger] searched@.contains(a) && #[trigger] s.contains(b) && linked(a, b)
                        && !reached@.contains(a) ==> searched@.contains(b),
            decreases s.len() - searched@.len(), reached@.len(),
        {
            let ghost pre_reached = reached@;
            let ghost pre_searched = searched@;
            let v = reached.pop_front().unwrap();
            proof {
                assert(v == pre_reached[0]);
                assert(pre_reached.contains(v));
                assert(searched@.contains(v));
            }
            let neighbors = self.neighbors_of(v);
            proof {
                // after the pop, only `v` itself may have left the frontier
                assert forall|a: Node|
                    !reached@.contains(a) && a != v implies !pre_reached.contains(a) by {
                    if pre_reached.contains(a) {
                        let k = choose|k: int| 0 <= k < pre_reached.len() && pre_reached[k] == a;
                        if k > 0 {
                            assert(reached@[k - 1] == pre_reached[k]);
                            assert(reached@.contains(a));
                        }
                    }
                }
            }
            let mut t: usize = 0;
            while t < neighbors.len()
                invariant
                    self.wf(),
                    s == self.stones(),
                    s.finite(),
                    s.contains(u),
                    0 <= t <= neighbors@.len(),
                    searched@.no_duplicates(),
                    searched@.contains(u),
                    searched@.contains(v),
                    searched@.len() <= s.len(),
                    pre_searched.len() <= searched@.len(),
                    pre_searched.len() < searched@.len() || reached@.len() < pre_reached.len(),
                    reached@.len() <= pre_reached.len() - 1 + searched@.len()
                        - pre_searched.len(),
                    forall|m: Node|
                        #[trigger] neighbors@.contains(m) <==> self.nodes@.contains(m) && linked(
                            m,
                            v,
                        ),
                    forall|n: Node| #[trigger] searched@.contains(n) ==> reachable(s, u, n),
                    forall|n: Node| pre_searched.contains(n) ==> searched@.contains(n),
                    forall|k: int|
                        0 <= k < reached@.len() ==> searched@.contains(#[trigger] reached@[k]),
                    forall|k: int| 0 <= k < t ==> searched@.contains(#[trigger] neighbors@[k]),
                    forall|a: Node, b: Node|
                        #[trigger] searched@.contains(a) && #[trigger] s.contains(b) && linked(a, b)
                            && !reached@.contains(a) && a != v ==> searched@.contains(b),
                decreases neighbors@.len() - t,
            {
                let m = neighbors[t];
                proof {
                    assert(neighbors@.contains(m));
                }
                if !node_in_vec(&searched, &m) {
                    proof {
                        assert(self.nodes@.contains(m) && linked(m, v));
                        assert(s.contains(m));
                        assert(reachable(s, u, v));
                        lemma_reachable_step(s, u, v, m);
                        // the visited list stays a duplicate-free subset of the board
                        assert(searched@.push(m).to_set().subset_of(s)) by {
                            assert forall|n: Node|
                                searched@.push(m).to_set().contains(n) implies s.contains(n) by {
                                if n == m {
                                } else {
                                    assert(searched@.contains(n));
                                    lemma_reachable_in(s, u, n);
                                }
                            }
                        }
                        searched@.push(m).unique_seq_to_set();
                        vstd::set_lib::lemma_len_subset(searched@.push(m).to_set(), s);
                    }
                    searched.push(m);
                    reached.push_back(m);
                }
                t = t + 1;
            }
            proof {
                // v is fully expanded: every live stone linked to it is visited
                assert forall|b: Node| s.contains(b) && linked(v, b) implies searched@.contains(
                    b,
                ) by {
                    assert(self.nodes@.contains(b));
                    assert(linked(b, v));
                    assert(neighbors@.contains(b));
                    let k = choose|k: int| 0 <= k < neighbors@.len() && neighbors@[k] == b;
                    assert(searched@.contains(neighbors@[k]));
                }
            }
        }
        proof {
            let t_set = searched@.to_set();
            assert(reached@.len() == 0);
            assert forall|n: Node| t_set.contains(n) implies group_of(s, u).contains(n) by {
                assert(searched@.contains(n));
            }
            assert forall|n: Node| group_of(s, u).contains(n) implies t_set.contains(n) by {
                assert forall|a: Node, c: Node|
                    #[trigger] t_set.contains(a) && #[trigger] s.contains(c) && linked(
                        a,
                        c,
                    ) implies t_set.contains(c) by {
                    assert(searched@.contains(a));
                    assert(!reached@.contains(a));
                    assert(searched@.contains(c));
                }
                lemma_closed_contains_reachable(s, t_set, u, n);
            }
            assert(t_set =~= group_of(s, u));
        }
        searched
    }

    /// Records the point `q` as a liberty if it is unoccupied and not yet
    /// recorded.
    fn consider_point(&self, libs: &mut Vec<(i16, i16)>, q: (i16, i16))
        requires
            old(libs)@.no_duplicates(),
        ensures
            final(libs)@.no_duplicates(),
            forall|r: (i16, i16)|
                #[trigger] final(libs)@.contains(r) <==> old(libs)@.contains(r) || (r == q
                    && !self.occupied_at(q.0, q.1)),
    {
        if !self.occupied(q.0, q.1) {
            if !point_in_vec(libs, q) {
                let ghost prev = libs@;
                libs.push(q);
                proof {
                    assert forall|i: int, j: int| 0 <= i < j < libs@.len() implies libs@[i]
                        != libs@[j] by {
                        if j == prev.len() {
                            assert(libs@[j] == q);
                            assert(libs@[i] == prev[i]);
                            if prev[i] == q {
                                assert(prev.contains(q));
                            }
                        } else {
                            assert(libs@[i] == prev[i] && libs@[j] == prev[j]);
                        }
                    }
                }
            }
        }
    }

    /// The set of liberties of the stone list `group`: the distinct
    /// unoccupied board points orthogonally adjacent to at least one member.
    /// A point adjacent to several members is reported once.
    #[verifier::rlimit(40)]
    pub fn liberties_of(&self, group: &Vec<Node>) -> (libs: Vec<(i16, i16)>)
        ensures
            libs@.no_duplicates(),
            forall|q: (i16, i16)|
                #[trigger] libs@.contains(q) <==> liberties(self.stones(), group@.to_set()).contains(
                    q,
                ),
    {
        let ghost s = self.stones();
        let ghost grp = group@.to_set();
        let mut libs: Vec<(i16, i16)> = Vec::new();
        let mut i: usize = 0;
        while i < group.len()
            invariant
                s == self.stones(),
                grp == group@.to_set(),
                0 <= i <= group@.len(),
                libs@.no_duplicates(),
                forall|q: (i16, i16)|
                    #[trigger] libs@.contains(q) ==> liberties(s, grp).contains(q),
                forall|k: int, q: (i16, i16)|
                    0 <= k < i && #[trigger] adj_point(group@[k], q) && !occupied_in(s, q)
                        ==> libs@.contains(q),
            decreases group@.len() - i,
        {
            let m = group[i];
            proof {
                assert(group@[i as int] == m);
                assert(group@.contains(m));
                assert(grp.contains(m));
            }
            let ghost l0 = libs@;
            if m.y < i16::MAX {
                self.consider_point(&mut libs, (m.x, m.y + 1));
                proof {
                    lemma_occupied_at_in(*self, (m.x, (m.y + 1) as i16));
                }
            }
            let ghost l1 = libs@;
            if m.y > i16::MIN {
                self.consider_point(&mut libs, (m.x, m.y - 1));
                proof {
                    lemma_occupied_at_in(*self, (m.x, (m.y - 1) as i16));
                }
            }
            let ghost l2 = libs@;
            if m.x < i16::MAX {
                self.consider_point(&mut libs, (m.x + 1, m.y));
                proof {
                    lemma_occupied_at_in(*self, ((m.x + 1) as i16, m.y));
                }
            }
            let ghost l3 = libs@;
            if m.x > i16::MIN {
                self.consider_point(&mut libs, (m.x - 1, m.y));
                proof {
                    lemma_occupied_at_in(*self, ((m.x - 1) as i16, m.y));
                }
            }
            proof {
                // the list only grows
                assert(forall|q: (i16, i16)| l0.contains(q) ==> l1.contains(q));
                assert(forall|q: (i16, i16)| l1.contains(q) ==> l2.contains(q));
                assert(forall|q: (i16, i16)| l2.contains(q) ==> l3.contains(q));
                assert(forall|q: (i16, i16)| l3.contains(q) ==> libs@.contains(q));
                // what was added is a liberty of m
                assert forall|q: (i16, i16)| #[trigger] libs@.contains(q) implies liberties(
                    s,
                    grp,
                ).contains(q) by {
                    if !l0.contains(q) {
                        assert(!occupied_in(s, q));
                        assert(adj_point(m, q));
                    }
                }
                // every empty point next to m has been recorded
                assert forall|q: (i16, i16)|
                    #[trigger] adj_point(m, q) && !occupied_in(s, q) implies libs@.contains(q) by {
                    if m.x == q.0 && q.1 - m.y == 1 {
                        assert(q == (m.x, (m.y + 1) as i16));
                        assert(l1.contains(q));
                    } else if m.x == q.0 && m.y - q.1 == 1 {
                        assert(q == (m.x, (m.y - 1) as i16));
                        assert(l2.contains(q));
                    } else if m.y == q.1 && q.0 - m.x == 1 {
                        assert(q == ((m.x + 1) as i16, m.y));
                        assert(l3.contains(q));
                    } else {
                        assert(m.y == q.1 && m.x - q.0 == 1);
                        assert(q == ((m.x - 1) as i16, m.y));
                    }
                }
                // earlier members keep their recorded liberties
                assert forall|k: int, q: (i16, i16)|
                    0 <= k < i + 1 && #[trigger] adj_point(group@[k], q) && !occupied_in(
                        s,
                        q,
                    ) implies libs@.contains(q) by {
                    if k < i {
                        assert(l0.contains(q));
                    }
                }
            }
            i = i + 1;
        }
        proof {
            assert forall|q: (i16, i16)|
                liberties(s, grp).contains(q) implies #[trigger] libs@.contains(q) by {
                let m = choose|m: Node| #[trigger] grp.contains(m) && adj_point(m, q);
                assert(group@.contains(m));
                let k = choose|k: int| 0 <= k < group@.len() && group@[k] == m;
                assert(adj_point(group@[k], q));
            }
        }
        libs
    }

    /// Resolves captures for the candidate `seeds` (typically the group just
    /// played into and every opposing group adjacent to the new stone): the
    /// group of each live seed whose liberty set is empty is removed in its
    /// entirety, and all such groups are removed in one pass, every one
    /// judged against the board state before any removal.
    #[verifier::rlimit(60)]
    pub fn resolve_captures(&mut self, seeds: &Vec<Node>)
        requires
            old(self).wf(),
        ensures
            final(self).wf(),
            final(self).stones() == old(self).stones().difference(
                captured(old(self).stones(), seeds@.to_set()),
            ),
    {
        let ghost s = old(self).stones();
        let mut doomed: Vec<(i16, i16)> = Vec::new();
        let mut i: usize = 0;
        while i < seeds.len()
            invariant
                *self == *old(self),
                old(self).wf(),
                s == old(self).stones(),
                0 <= i <= seeds@.len(),
                forall|q: (i16, i16)|
                    #[trigger] doomed@.contains(q) <==> (exists|k: int, n: Node|
                        0 <= k < i && seed_captures(s, seeds@[k]) && #[trigger] group_of(
                            s,
                            seeds@[k],
                        ).contains(n) && n.x == q.0 && n.y == q.1),
            decreases seeds@.len() - i,
        {
            let d = seeds[i];
            let ghost pre = doomed@;
            proof {
                assert(seeds@[i as int] == d);
            }
            if node_in_vec(&self.nodes, &d) {
                proof {
                    assert(s.contains(d));
                }
                let grp = self.find_component_containing(d);
                let libs = self.liberties_of(&grp);
                if libs.len() == 0 {
                    proof {
                        assert(grp@.to_set() == group_of(s, d));
                        assert forall|q: (i16, i16)|
                            !liberties(s, group_of(s, d)).contains(q) by {
                            if liberties(s, group_of(s, d)).contains(q) {
                                assert(libs@.contains(q));
                                let t2 = choose|t2: int| 0 <= t2 < libs@.len() && libs@[t2] == q;
                            }
                        }
                        assert(seed_captures(s, d));
                    }
                    let mut t: usize = 0;
                    while t < grp.len()
                        invariant
                            0 <= t <= grp@.len(),
                            0 <= i < seeds@.len(),
                            d == seeds@[i as int],
                            grp@.to_set() == group_of(s, d),
                            seed_captures(s, d),
                            forall|q: (i16, i16)|
                                #[trigger] doomed@.contains(q) <==> (pre.contains(q) || (exists|
                                    t2: int,
                                |
                                    0 <= t2 < t && (#[trigger] grp@[t2]).x == q.0 && grp@[t2].y
                                        == q.1)),
                        decreases grp@.len() - t,
                    {
                        let m = grp[t];
                        let ghost dpre = doomed@;
                        proof {
                            assert(grp@[t as int] == m);
                        }
                        if !point_in_vec(&doomed, (m.x, m.y)) {
                            doomed.push((m.x, m.y));
                        }
                        proof {
                            assert forall|q: (i16, i16)|
                                #[trigger] doomed@.contains(q) <==> (pre.contains(q) || (exists|
                                    t2: int,
                                |
                                    0 <= t2 < t + 1 && (#[trigger] grp@[t2]).x == q.0 && grp@[t2].y
                                        == q.1)) by {
                                if dpre.contains((m.x, m.y)) {
                                    assert(doomed@ == dpre);
                                } else {
                                    assert(doomed@ == dpre.push((m.x, m.y)));
                                }
                                if doomed@.contains(q) {
                                    if dpre.contains(q) {
                                        if !pre.contains(q) {
                                            let t2 = choose|t2: int|
                                                0 <= t2 < t && (#[trigger] grp@[t2]).x == q.0
                                                    && grp@[t2].y == q.1;
                                        }
                                    } else {
                                        assert(q == (m.x, m.y));
                                        assert((grp@[t as int]).x == q.0 && grp@[t as int].y
                                            == q.1);
                                    }
                                }
                                if !doomed@.contains(q) {
                                    assert(!dpre.contains(q));
                                    if exists|t2: int|
                                        0 <= t2 < t + 1 && (#[trigger] grp@[t2]).x == q.0
                                            && grp@[t2].y == q.1 {
                                        let t2 = choose|t2: int|
                                            0 <= t2 < t + 1 && (#[trigger] grp@[t2]).x == q.0
                                                && grp@[t2].y == q.1;
                                        if t2 == t {
                                            assert(q == (m.x, m.y));
                                            assert(doomed@.contains(q));
                                        }
                                    }
                                }
                            }
                        }
                        t = t + 1;
                    }
                    proof {
                        assert forall|q: (i16, i16)|
                            #[trigger] doomed@.contains(q) <==> (exists|k: int, n: Node|
                                0 <= k < i + 1 && seed_captures(s, seeds@[k])
                                    && #[trigger] group_of(s, seeds@[k]).contains(n) && n.x == q.0
                                    && n.y == q.1) by {
                            if doomed@.contains(q) {
                                if pre.contains(q) {
                                    let (k, n) = choose|k: int, n: Node|
                                        0 <= k < i && seed_captures(s, seeds@[k])
                                            && #[trigger] group_of(s, seeds@[k]).contains(n) && n.x
                                            == q.0 && n.y == q.1;
                                    assert(0 <= k < i + 1 && seed_captures(s, seeds@[k])
                                        && group_of(s, seeds@[k]).contains(n) && n.x == q.0 && n.y
                                        == q.1);
                                } else {
                                    let t2 = choose|t2: int|
                                        0 <= t2 < grp@.len() && (#[trigger] grp@[t2]).x == q.0
                                            && grp@[t2].y == q.1;
                                    let n = grp@[t2];
                                    assert(grp@.contains(n));
                                    assert(group_of(s, seeds@[i as int]).contains(n));
                                    assert(seed_captures(s, seeds@[i as int]) && n.x == q.0 && n.y
                                        == q.1);
                                }
                            }
                            if exists|k: int, n: Node|
                                0 <= k < i + 1 && seed_captures(s, seeds@[k])
                                    && #[trigger] group_of(s, seeds@[k]).contains(n) && n.x == q.0
                                    && n.y == q.1 {
                                let (k, n) = choose|k: int, n: Node|
                                    0 <= k < i + 1 && seed_captures(s, seeds@[k])
                                        && #[trigger] group_of(s, seeds@[k]).contains(n) && n.x
                                        == q.0 && n.y == q.1;
                                if k < i {
                                    assert(pre.contains(q));
                                } else {
                                    assert(group_of(s, d).contains(n));
                                    assert(grp@.to_set().contains(n));
                                    assert(grp@.contains(n));
                                    let t2 = choose|t2: int|
                                        0 <= t2 < grp@.len() && grp@[t2] == n;
                                    assert((grp@[t2]).x == q.0 && grp@[t2].y == q.1);
                                }
                                assert(doomed@.contains(q));
                            }
                        }
                    }
                } else {
                    proof {
                        assert(libs@.contains(libs@[0]));
                        assert(liberties(s, group_of(s, d)).contains(libs@[0]));
                        assert(!seed_captures(s, d));
                        lemma_prefix_unchanged(s, seeds@, doomed@, i as int);
                    }
                }
            } else {
                proof {
                    assert(!s.contains(d)) by {
                        if s.contains(d) {
                            assert(old(self).nodes@.contains(d));
                        }
                    }
                    assert(!seed_captures(s, d));
                    lemma_prefix_unchanged(s, seeds@, doomed@, i as int);
                }
            }
            i = i + 1;
        }
        self.remove_group(&doomed);
        proof {
            lemma_stones_pos_unique(*old(self));
            let caught = captured(s, seeds@.to_set());
            assert forall|n: Node|
                #[trigger] self.stones().contains(n) <==> s.contains(n) && !caught.contains(
                    n,
                ) by {
                assert(self.stones().contains(n) == self.nodes@.contains(n));
                assert(s.contains(n) == old(self).nodes@.contains(n));
                if s.contains(n) {
                    assert(doomed@.contains((n.x, n.y)) <==> caught.contains(n)) by {
                        if doomed@.contains((n.x, n.y)) {
                            let (k, m) = choose|k: int, m: Node|
                                0 <= k < seeds@.len() && seed_captures(s, seeds@[k])
                                    && #[trigger] group_of(s, seeds@[k]).contains(m) && m.x == n.x
                                    && m.y == n.y;
                            assert(reachable(s, seeds@[k], m));
                            lemma_reachable_in(s, seeds@[k], m);
                            assert(s.contains(m));
                            assert(m == n);
                            assert(seeds@.contains(seeds@[k]));
                            assert(seeds@.to_set().contains(seeds@[k]));
                            assert(caught.contains(n));
                        }
                        if caught.contains(n) {
                            let dd = choose|dd: Node|
                                #[trigger] seeds@.to_set().contains(dd) && seed_captures(s, dd)
                                    && group_of(s, dd).contains(n);
                            assert(seeds@.contains(dd));
                            let k = choose|k: int| 0 <= k < seeds@.len() && seeds@[k] == dd;
                            assert(seed_captures(s, seeds@[k]));
                            assert(group_of(s, seeds@[k]).contains(n));
                            assert(doomed@.contains((n.x, n.y)));
                        }
                    }
                }
            }
            assert(self.stones() =~= s.difference(caught));
        }
    }

    /// Plays a stone: places it, then applies the capture rule. Fails with
    /// `Occupied` (leaving the board untouched) on an occupied point. On
    /// success the resulting stone set is exactly `play_outcome`: adjacent
    /// opposing zero-liberty groups fall first, in one pass; the played
    /// stone's own group falls afterwards only if it still has no liberty.
    #[verifier::rlimit(60)]
    pub fn play(&mut self, position: (i16, i16), color: Color) -> (result: Result<
        (),
        PlacementError,
    >)
        requires
            old(self).wf(),
        ensures
            final(self).wf(),
            old(self).occupied_at(position.0, position.1) ==> result == Err::<(), PlacementError>(
                PlacementError::Occupied,
            ) && *final(self) == *old(self),
            !old(self).occupied_at(position.0, position.1) ==> result == Ok::<(), PlacementError>(
                (),
            ) && final(self).stones() == play_outcome(
                old(self).stones(),
                Node { x: position.0, y: position.1, c: color },
            ),
    {
        let stone = Node { x: position.0, y: position.1, c: color };
        match self.place(position, color) {
            Err(e) => {
                return Err(e);
            },
            Ok(()) => {},
        }
        proof {
            lemma_push_stones(*old(self), *self, stone);
        }
        let ghost s1 = self.stones();
        let ghost g1 = *self;
        let mut opp_seeds: Vec<Node> = Vec::new();
        let mut i: usize = 0;
        while i < self.nodes.len()
            invariant
                *self == g1,
                stone == (Node { x: position.0, y: position.1, c: color }),
                0 <= i <= self.nodes@.len(),
                forall|d: Node|
                    #[trigger] opp_seeds@.contains(d) <==> (exists|k: int|
                        0 <= k < i && #[trigger] g1.nodes@[k] == d && d.c != stone.c
                            && pos_adjacent(d, stone)),
            decreases self.nodes@.len() - i,
        {
            let m = self.nodes[i];
            let ghost prev = opp_seeds@;
            if !(m.c == color) && is_pos_adjacent(&m, &stone) {
                opp_seeds.push(m);
            }
            proof {
                assert(g1.nodes@[i as int] == m);
                assert forall|d: Node|
                    #[trigger] opp_seeds@.contains(d) <==> (exists|k: int|
                        0 <= k < i + 1 && #[trigger] g1.nodes@[k] == d && d.c != stone.c
                            && pos_adjacent(d, stone)) by {
                    if opp_seeds@.contains(d) {
                        if prev.contains(d) {
                            let k = choose|k: int|
                                0 <= k < i && #[trigger] g1.nodes@[k] == d && d.c != stone.c
                                    && pos_adjacent(d, stone);
                        } else {
                            assert(d == m);
                            assert(g1.nodes@[i as int] == d);
                        }
                    }
                    if exists|k: int|
                        0 <= k < i + 1 && #[trigger] g1.nodes@[k] == d && d.c != stone.c
                            && pos_adjacent(d, stone) {
                        let k = choose|k: int|
                            0 <= k < i + 1 && #[trigger] g1.nodes@[k] == d && d.c != stone.c
                                && pos_adjacent(d, stone);
                        if k < i {
                            assert(prev.contains(d));
                        } else {
                            assert(d == m);
                        }
                        assert(opp_seeds@.contains(d));
                    }
                }
            }
            i = i + 1;
        }
        proof {
            let opp = opposing_neighbors(s1, stone);
            assert forall|d: Node| opp_seeds@.to_set().contains(d) <==> opp.contains(d) by {
                if opp_seeds@.to_set().contains(d) {
                    assert(opp_seeds@.contains(d));
                    let k = choose|k: int|
                        0 <= k < g1.nodes@.len() && #[trigger] g1.nodes@[k] == d && d.c != stone.c
                            && pos_adjacent(d, stone);
                    assert(g1.nodes@.contains(d));
                    assert(s1.contains(d));
                }
                if opp.contains(d) {
                    assert(g1.nodes@.contains(d));
                    let k = choose|k: int| 0 <= k < g1.nodes@.len() && g1.nodes@[k] == d;
                    assert(opp_seeds@.contains(d));
                }
            }
            assert(opp_seeds@.to_set() =~= opp);
        }
        self.resolve_captures(&opp_seeds);
        let ghost s2 = self.stones();
        let ghost g2 = *self;
        proof {
            assert(s2 == s1.difference(captured(s1, opposing_neighbors(s1, stone))));
        }
        if node_in_vec(&self.nodes, &stone) {
            proof {
                assert(s2.contains(stone));
            }
            let grp = self.find_component_containing(stone);
            let libs = self.liberties_of(&grp);
            if libs.len() == 0 {
                proof {
                    assert forall|q: (i16, i16)|
                        !liberties(s2, group_of(s2, stone)).contains(q) by {
                        if liberties(s2, group_of(s2, stone)).contains(q) {
                            assert(libs@.contains(q));
                            let t2 = choose|t2: int| 0 <= t2 < libs@.len() && libs@[t2] == q;
                        }
                    }
                    assert(no_liberties(s2, group_of(s2, stone)));
                }
                let mut pts: Vec<(i16, i16)> = Vec::new();
                let mut t: usize = 0;
                while t < grp.len()
                    invariant
                        *self == g2,
                        0 <= t <= grp@.len(),
                        forall|q: (i16, i16)|
                            #[trigger] pts@.contains(q) <==> (exists|t2: int|
                                0 <= t2 < t && (#[trigger] grp@[t2]).x == q.0 && grp@[t2].y
                                    == q.1),
                    decreases grp@.len() - t,
                {
                    let m = grp[t];
                    let ghost prev = pts@;
                    pts.push((m.x, m.y));
                    proof {
                        assert(grp@[t as int] == m);
                        assert forall|q: (i16, i16)|
                            #[trigger] pts@.contains(q) <==> (exists|t2: int|
                                0 <= t2 < t + 1 && (#[trigger] grp@[t2]).x == q.0 && grp@[t2].y
                                    == q.1) by {
                            if pts@.contains(q) {
                                if prev.contains(q) {
                                    let t2 = choose|t2: int|
                                        0 <= t2 < t && (#[trigger] grp@[t2]).x == q.0 && grp@[t2].y
                                            == q.1;
                                } else {
                                    assert(q == (m.x, m.y));
                                    assert((grp@[t as int]).x == q.0 && grp@[t as int].y == q.1);
                                }
                            }
                            if exists|t2: int|
                                0 <= t2 < t + 1 && (#[trigger] grp@[t2]).x == q.0 && grp@[t2].y
                                    == q.1 {
                                let t2 = choose|t2: int|
                                    0 <= t2 < t + 1 && (#[trigger] grp@[t2]).x == q.0 && grp@[t2].y
                                        == q.1;
                                if t2 < t {
                                    assert(prev.contains(q));
                                } else {
                                    assert(q == (m.x, m.y));
                                }
                                assert(pts@.contains(q));
                            }
                        }
                    }
                    t = t + 1;
                }
                self.remove_group(&pts);
                proof {
                    lemma_stones_pos_unique(g2);
                    let own = group_of(s2, stone);
                    assert forall|n: Node|
                        #[trigger] self.stones().contains(n) <==> s2.contains(n) && !own.contains(
                            n,
                        ) by {
                        assert(self.stones().contains(n) == self.nodes@.contains(n));
                        assert(s2.contains(n) == g2.nodes@.contains(n));
                        if s2.contains(n) {
                            assert(pts@.contains((n.x, n.y)) <==> own.contains(n)) by {
                                if pts@.contains((n.x, n.y)) {
                                    let t2 = choose|t2: int|
                                        0 <= t2 < grp@.len() && (#[trigger] grp@[t2]).x == n.x
                                            && grp@[t2].y == n.y;
                                    let m = grp@[t2];
                                    assert(grp@.contains(m));
                                    assert(grp@.to_set().contains(m));
                                    assert(own.contains(m));
                                    assert(reachable(s2, stone, m));
                                    lemma_reachable_in(s2, stone, m);
                                    assert(m == n);
                                }
                                if own.contains(n) {
                                    assert(grp@.to_set().contains(n));
                                    assert(grp@.contains(n));
                                    let t2 = choose|t2: int| 0 <= t2 < grp@.len() && grp@[t2] == n;
                                    assert((grp@[t2]).x == n.x && grp@[t2].y == n.y);
                                }
                            }
                        }
                    }
                    assert(self.stones() =~= s2.difference(own));
                    assert(self.stones() == play_outcome(old(self).stones(), stone));
                }
            } else {
                proof {
                    assert(libs@.contains(libs@[0]));
                    assert(liberties(s2, group_of(s2, stone)).contains(libs@[0]));
                    assert(!no_liberties(s2, group_of(s2, stone)));
                    assert(self.stones() == play_outcome(old(self).stones(), stone));
                }
            }
        } else {
            proof {
                assert(!self.nodes@.contains(stone));
                assert(!s2.contains(stone));
                assert(self.stones() == play_outcome(old(self).stones(), stone));
            }
        }
        Ok(())
    }

    /// Computes the group of `seed`, failing with `NoSuchStone` exactly when
    /// `seed` is not a live stone on the board.
    pub fn find_group(&self, seed: Node) -> (result: Result<Vec<Node>, GroupError>)
        requires
            self.wf(),
        ensures
            match result {
                Ok(component) => self.stones().contains(seed) && component@.no_duplicates()
                    && component@.to_set() == group_of(self.stones(), seed),
                Err(e) => e == GroupError::NoSuchStone && !self.stones().contains(seed),
            },
    {
        if node_in_vec(&self.nodes, &seed) {
            Ok(self.find_component_containing(seed))
        } else {
            Err(GroupError::NoSuchStone)
        }
    }
}

/// Builds a small board — two adjacent black stones and one distant white
/// stone — and returns the component containing the black stone at (1, 2):
/// exactly the two black stones, never the white one.
#[verifier::rlimit(30)]
pub fn find_component_doubleton() -> (component: Vec<Node>)
    ensures
        component@.len() == 2,
        component@.contains(Node { x: 1, y: 2, c: Color::Black }),
        component@.contains(Node { x: 2, y: 2, c: Color::Black }),
{
    let ghost b12 = Node { x: 1, y: 2, c: Color::Black };
    let ghost w55 = Node { x: 5, y: 5, c: Color::White };
    let ghost b22 = Node { x: 2, y: 2, c: Color::Black };
    let mut g = Graph::new();
    proof {
        if g.occupied_at(1, 2) {
            let n = choose|n: Node| #[trigger] g.nodes@.contains(n) && n.x == 1 && n.y == 2;
            let k = choose|k: int| 0 <= k < g.nodes@.len() && g.nodes@[k] == n;
        }
    }
    g.add_node_black((1, 2));
    proof {
        assert(g.nodes@[0] == b12);
        if g.occupied_at(5, 5) {
            let n = choose|n: Node| #[trigger] g.nodes@.contains(n) && n.x == 5 && n.y == 5;
            let k = choose|k: int| 0 <= k < g.nodes@.len() && g.nodes@[k] == n;
        }
    }
    g.add_node_white((5, 5));
    proof {
        assert(g.nodes@[0] == b12 && g.nodes@[1] == w55);
        if g.occupied_at(2, 2) {
            let n = choose|n: Node| #[trigger] g.nodes@.contains(n) && n.x == 2 && n.y == 2;
            let k = choose|k: int| 0 <= k < g.nodes@.len() && g.nodes@[k] == n;
        }
    }
    g.add_node_black((2, 2));
    let u = Node::new(1, 2, Color::Black);
    proof {
        assert(g.nodes@[0] == b12 && g.nodes@[1] == w55 && g.nodes@[2] == b22);
        assert(g.nodes@.contains(u));
        assert(g.stones().contains(u));
    }
    let component = g.find_component_containing(u);
    proof {
        let s = g.stones();
        let t = set![b12, b22];
        lemma_reachable_self(s, b12);
        assert(linked(b12, b22));
        lemma_reachable_step(s, u, b12, b22);
        assert(group_of(s, u).contains(b12));
        assert(group_of(s, u).contains(b22));
        assert forall|a: Node, c: Node|
            #[trigger] t.contains(a) && #[trigger] s.contains(c) && linked(a, c) implies t.contains(
            c,
        ) by {
            assert(g.nodes@.contains(c));
            let k = choose|k: int| 0 <= k < g.nodes@.len() && g.nodes@[k] == c;
            assert(c == b12 || c == w55 || c == b22);
            assert(c != w55);
        }
        assert forall|n: Node| group_of(s, u).contains(n) implies t.contains(n) by {
            lemma_closed_contains_reachable(s, t, u, n);
        }
        assert(component@.to_set() =~= t);
        assert(t.len() == 2);
        component@.unique_seq_to_set();
        assert(component@.to_set().contains(b12));
        assert(component@.to_set().contains(b22));
    }
    component
}

/// Adjacency correctness: on a well-formed board, two live stones are
/// joined by an edge exactly when they have one color and orthogonally
/// adjacent positions.
pub proof fn lemma_adjacency_exact(g: Graph, a: Node, b: Node)
    requires
        g.wf(),
        g.stones().contains(a),
        g.stones().contains(b),
    ensures
        g.has_edge(a, b) <==> linked(a, b),
{
    assert(g.nodes@.contains(a));
    assert(g.nodes@.contains(b));
    if g.has_edge(a, b) {
        let e = choose|e: Edge| #[trigger] g.edges@.contains(e) && connects(e, a, b);
        assert(linked(e.0, e.1));
    }
}

/// No cross-color edges: stones of different colors are never joined by an
/// edge, whatever their positions.
pub proof fn lemma_no_cross_color_edges(g: Graph, a: Node, b: Node)
    requires
        g.wf(),
        a.c != b.c,
    ensures
        !g.has_edge(a, b),
{
    if g.has_edge(a, b) {
        let e = choose|e: Edge| #[trigger] g.edges@.contains(e) && connects(e, a, b);
        assert(linked(e.0, e.1));
        assert(false);
    }
}

/// Group closure: a group is closed under same-color orthogonal adjacency —
/// no member has a live linked neighbor outside the group.
pub proof fn lemma_group_closed(s: Set<Node>, seed: Node, a: Node, b: Node)
    requires
        group_of(s, seed).contains(a),
        s.contains(b),
        linked(a, b),
    ensures
        group_of(s, seed).contains(b),
{
    lemma_reachable_step(s, seed, a, b);
}

/// Liberty monotonicity: placing an opposing stone on an empty point leaves
/// a group's member set unchanged and can only shrink its liberty set.
pub proof fn lemma_liberty_monotonic(s: Set<Node>, seed: Node, w: Node)
    requires
        s.contains(seed),
        w.c != seed.c,
        !occupied_in(s, (w.x, w.y)),
    ensures
        group_of(s.insert(w), seed) == group_of(s, seed),
        liberties(s.insert(w), group_of(s, seed)).subset_of(liberties(s, group_of(s, seed))),
{
    let s1 = s.insert(w);
    assert forall|n: Node|
        group_of(s1, seed).contains(n) implies group_of(s, seed).contains(n) by {
        let p = choose|p: Seq<Node>| #[trigger] is_path(s1, p) && p.first() == seed && p.last()
            == n;
        lemma_path_members(s1, p);
        assert forall|i: int| 0 <= i < p.len() implies s.contains(#[trigger] p[i]) by {
            assert(p[i].c == seed.c);
            assert(p[i] != w);
            assert(s1.contains(p[i]));
        }
        assert(is_path(s, p));
    }
    assert forall|n: Node|
        group_of(s, seed).contains(n) implies group_of(s1, seed).contains(n) by {
        let p = choose|p: Seq<Node>| #[trigger] is_path(s, p) && p.first() == seed && p.last()
            == n;
        assert forall|i: int| 0 <= i < p.len() implies s1.contains(#[trigger] p[i]) by {
            assert(s.contains(p[i]));
        }
        assert(is_path(s1, p));
    }
    assert(group_of(s1, seed) =~= group_of(s, seed));
    assert forall|q: (i16, i16)|
        liberties(s1, group_of(s, seed)).contains(q) implies liberties(
        s,
        group_of(s, seed),
    ).contains(q) by {
        if occupied_in(s, q) {
            let n = choose|n: Node| #[trigger] s.contains(n) && n.x == q.0 && n.y == q.1;
            assert(s1.contains(n));
        }
    }
}

/// A liberty count, measured on duplicate-free point lists, never rises
/// when the liberty set shrinks.
pub proof fn lemma_liberty_count_monotonic(before: Seq<(i16, i16)>, after: Seq<(i16, i16)>)
    requires
        before.no_duplicates(),
        after.no_duplicates(),
        after.to_set().subset_of(before.to_set()),
    ensures
        after.len() <= before.len(),
{
    after.unique_seq_to_set();
    before.unique_seq_to_set();
    vstd::set_lib::lemma_len_subset(after.to_set(), before.to_set());
}

/// Capture takes whole groups only: whatever holds a captured stone's group
/// is captured with it, so no partial removal can occur.
pub proof fn lemma_capture_whole_groups(s: Set<Node>, seeds: Set<Node>, n: Node, m: Node)
    requires
        captured(s, seeds).contains(n),
        group_of(s, n).contains(m),
    ensures
        captured(s, seeds).contains(m),
{
    let d = choose|d: Node|
        #[trigger] seeds.contains(d) && seed_captures(s, d) && group_of(s, d).contains(n);
    lemma_group_member_same_group(s, d, n);
    assert(group_of(s, d).contains(m));
}

/// Capture correctness: every member of a zero-liberty group whose seed is
/// offered for resolution is captured, and none survives the pass.
pub proof fn lemma_capture_total(s: Set<Node>, seeds: Set<Node>, d: Node, m: Node)
    requires
        seeds.contains(d),
        seed_captures(s, d),
        group_of(s, d).contains(m),
    ensures
        captured(s, seeds).contains(m),
        !s.difference(captured(s, seeds)).contains(m),
{
}

} // verus!
