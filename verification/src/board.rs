//! The board graph: the set of placed stones (nodes) and the derived
//! adjacency relation (edges) between same-colored orthogonal neighbors.

use vstd::prelude::*;
use std::collections::VecDeque;

verus! {

broadcast use vstd::seq_lib::lemma_seq_contains_after_push;

/// Stone color. An unoccupied board point is represented by the absence of
/// a node, never by a colorless stone.
#[derive(Structural, PartialEq, Eq, Clone, Copy, Debug)]
pub enum Color {
    Black,
    White,
}

/// A stone: a board coordinate together with a color. Two stones are equal
/// iff both position and color match.
#[derive(Structural, PartialEq, Eq, Clone, Copy, Debug)]
pub struct Node {
    pub x: i16,
    pub y: i16,
    pub c: Color,
}

/// An undirected edge between two same-colored, orthogonally adjacent stones.
#[derive(Structural, PartialEq, Eq, Clone, Copy, Debug)]
pub struct Edge(pub Node, pub Node);

/// Failure of a stone placement, reported to the caller.
#[derive(Structural, PartialEq, Eq, Clone, Copy, Debug)]
pub enum PlacementError {
    /// The target point already holds a stone.
    Occupied,
}

/// Failure of a group query, reported to the caller.
#[derive(Structural, PartialEq, Eq, Clone, Copy, Debug)]
pub enum GroupError {
    /// The seed is not a live stone on the board.
    NoSuchStone,
}

/// The positions of `a` and `b` differ by exactly 1 in exactly one axis
/// (orthogonal adjacency; diagonals do not count).
pub open spec fn pos_adjacent(a: Node, b: Node) -> bool {
    ||| (a.x == b.x && (a.y - b.y == 1 || b.y - a.y == 1))
    ||| (a.y == b.y && (a.x - b.x == 1 || b.x - a.x == 1))
}

/// Stones that the adjacency relation joins: equal color and orthogonally
/// adjacent positions.
pub open spec fn linked(a: Node, b: Node) -> bool {
    a.c == b.c && pos_adjacent(a, b)
}

/// Whether edge `e` joins the unordered stone pair `{a, b}`.
pub open spec fn connects(e: Edge, a: Node, b: Node) -> bool {
    (e.0 == a && e.1 == b) || (e.0 == b && e.1 == a)
}

/// Some stone of the set `s` occupies the point `q`.
pub open spec fn occupied_in(s: Set<Node>, q: (i16, i16)) -> bool {
    exists|n: Node| #[trigger] s.contains(n) && n.x == q.0 && n.y == q.1
}

/// The stone set that results from one placement attempt on `s`: unchanged
/// if the stone's point is occupied, otherwise grown by the stone.
pub open spec fn with_stone(s: Set<Node>, n: Node) -> Set<Node> {
    if occupied_in(s, (n.x, n.y)) {
        s
    } else {
        s.insert(n)
    }
}

impl Node {
    pub fn new(x: i16, y: i16, c: Color) -> (n: Node)
        ensures
            n == (Node { x, y, c }),
    {
        Node { x, y, c }
    }
}

/// Decides orthogonal adjacency of two stones' positions. The comparison is
/// made in a wider integer type, so coordinates anywhere in range are handled
/// without overflow.
pub fn is_pos_adjacent(a: &Node, b: &Node) -> (r: bool)
    ensures
        r == pos_adjacent(*a, *b),
{
    let ax = a.x as i32;
    let ay = a.y as i32;
    let bx = b.x as i32;
    let by = b.y as i32;
    (ax == bx && (ay - by == 1 || by - ay == 1)) || (ay == by && (ax - bx == 1 || bx - ax == 1))
}

/// Linear membership scan over a queue of stones.
pub fn contained_in(n: &Node, v: &VecDeque<Node>) -> (found: bool)
    ensures
        found == v@.contains(*n),
{
    let mut i: usize = 0;
    while i < v.len()
        invariant
            0 <= i <= v@.len(),
            forall|k: int| 0 <= k < i ==> v@[k] != *n,
        decreases v@.len() - i,
    {
        let m: Node = v[i];
        if *n == m {
            assert(v@[i as int] == *n);
            return true;
        }
        i = i + 1;
    }
    false
}

/// Linear membership scan over a vector of stones.
pub fn node_in_vec(v: &Vec<Node>, n: &Node) -> (found: bool)
    ensures
        found == v@.contains(*n),
{
    let mut i: usize = 0;
    while i < v.len()
        invariant
            0 <= i <= v@.len(),
            forall|k: int| 0 <= k < i ==> v@[k] != *n,
        decreases v@.len() - i,
    {
        if *n == v[i] {
            assert(v@[i as int] == *n);
            return true;
        }
        i = i + 1;
    }
    false
}

/// Linear membership scan over a list of board points.
pub fn point_in_vec(v: &Vec<(i16, i16)>, q: (i16, i16)) -> (found: bool)
    ensures
        found == v@.contains(q),
{
    let mut i: usize = 0;
    while i < v.len()
        invariant
            0 <= i <= v@.len(),
            forall|k: int| 0 <= k < i ==> v@[k] != q,
        decreases v@.len() - i,
    {
        let w = v[i];
        if w.0 == q.0 && w.1 == q.1 {
            assert(v@[i as int] == q);
            return true;
        }
        i = i + 1;
    }
    false
}

/// The board graph: the full node set plus the derived edge set.
pub struct Graph {
    pub nodes: Vec<Node>,
    pub edges: Vec<Edge>,
}

impl Graph {
    /// The live stones, as a set.
    pub open spec fn stones(self) -> Set<Node> {
        self.nodes@.to_set()
    }

    /// Some live stone occupies the point `(x, y)`.
    pub open spec fn occupied_at(self, x: i16, y: i16) -> bool {
        exists|n: Node| #[trigger] self.nodes@.contains(n) && n.x == x && n.y == y
    }

    /// Some edge joins the unordered pair `{a, b}`.
    pub open spec fn has_edge(self, a: Node, b: Node) -> bool {
        exists|e: Edge| #[trigger] self.edges@.contains(e) && connects(e, a, b)
    }

    /// No two nodes share a position.
    pub open spec fn positions_unique(self) -> bool {
        forall|i: int, j: int|
            0 <= i < j < self.nodes@.len() ==> !((#[trigger] self.nodes@[i]).x
                == (#[trigger] self.nodes@[j]).x && self.nodes@[i].y == self.nodes@[j].y)
    }

    /// Every edge joins two live stones of one color at adjacent positions.
    pub open spec fn edges_sound(self) -> bool {
        forall|e: Edge| #[trigger] self.edges@.contains(e) ==> self.nodes@.contains(e.0)
            && self.nodes@.contains(e.1) && linked(e.0, e.1)
    }

    /// Every pair of live, same-colored, orthogonally adjacent stones has an
    /// edge.
    pub open spec fn edges_complete(self) -> bool {
        forall|a: Node, b: Node|
            #[trigger] self.nodes@.contains(a) && #[trigger] self.nodes@.contains(b) && linked(a, b)
                ==> self.has_edge(a, b)
    }

    /// No unordered pair of stones is joined by more than one edge.
    pub open spec fn edges_unique(self) -> bool {
        forall|i: int, j: int|
            0 <= i < j < self.edges@.len() ==> !connects(
                #[trigger] self.edges@[i],
                (#[trigger] self.edges@[j]).0,
                self.edges@[j].1,
            )
    }

    /// Well-formedness: positions are unique and the edge set is exactly the
    /// same-color orthogonal adjacency relation on the live stones, one edge
    /// per unordered pair. Every constructor establishes this and every
    /// mutator preserves it, so an edge referencing a removed or
    /// color-mismatched stone — the one fatal internal error the design
    /// names — cannot arise and needs no error variant.
    pub open spec fn wf(self) -> bool {
        self.positions_unique() && self.edges_sound() && self.edges_complete()
            && self.edges_unique()
    }

    /// Creates an empty board graph.
    pub fn new() -> (g: Graph)
        ensures
            g.wf(),
            g.nodes@.len() == 0,
            g.edges@.len() == 0,
    {
        Graph { nodes: Vec::new(), edges: Vec::new() }
    }

    /// Whether a live stone occupies the point `(x, y)`.
    pub fn occupied(&self, x: i16, y: i16) -> (r: bool)
        ensures
            r == self.occupied_at(x, y),
    {
        let mut i: usize = 0;
        while i < self.nodes.len()
            invariant
                0 <= i <= self.nodes@.len(),
                forall|k: int|
                    0 <= k < i ==> !((#[trigger] self.nodes@[k]).x == x && self.nodes@[k].y == y),
            decreases self.nodes@.len() - i,
        {
            let m = self.nodes[i];
            if m.x == x && m.y == y {
                assert(self.nodes@.contains(m));
                return true;
            }
            i = i + 1;
        }
        proof {
            if self.occupied_at(x, y) {
                let n = choose|n: Node| self.nodes@.contains(n) && n.x == x && n.y == y;
                let k = choose|k: int| 0 <= k < self.nodes@.len() && self.nodes@[k] == n;
                assert(false);
            }
        }
        false
    }

    /// All live same-colored stones orthogonally adjacent to `n`'s position.
    /// Pure query; scans the node list in insertion order.
    pub fn neighbors_of(&self, n: Node) -> (neighbors: Vec<Node>)
        requires
            self.wf(),
        ensures
            neighbors@.no_duplicates(),
            forall|m: Node|
                #[trigger] neighbors@.contains(m) <==> self.nodes@.contains(m) && linked(m, n),
            forall|m: Node|
                self.nodes@.contains(m) && linked(m, n) ==> #[trigger] neighbors@.contains(m),
    {
        let mut neighbors: Vec<Node> = Vec::new();
        let mut i: usize = 0;
        while i < self.nodes.len()
            invariant
                self.wf(),
                0 <= i <= self.nodes@.len(),
                neighbors@.no_duplicates(),
                forall|m: Node|
                    neighbors@.contains(m) <==> (exists|k: int|
                        0 <= k < i && #[trigger] self.nodes@[k] == m && linked(m, n)),
            decreases self.nodes@.len() - i,
        {
            let m = self.nodes[i];
            if m.c == n.c && is_pos_adjacent(&m, &n) {
                proof {
                    if neighbors@.contains(m) {
                        let k = choose|k: int|
                            0 <= k < i && #[trigger] self.nodes@[k] == m && linked(m, n);
                        assert(false);  // two indices, one position
                    }
                }
                let ghost prev = neighbors@;
                neighbors.push(m);
                proof {
                    assert forall|p: Node| neighbors@.contains(p) <==> (exists|k: int|
                        0 <= k < i + 1 && #[trigger] self.nodes@[k] == p && linked(p, n)) by {
                        if neighbors@.contains(p) {
                            let q = choose|q: int|
                                0 <= q < neighbors@.len() && neighbors@[q] == p;
                            if q < prev.len() {
                                assert(prev.contains(p));
                            } else {
                                assert(self.nodes@[i as int] == p);
                            }
                        }
                        if exists|k: int|
                            0 <= k < i + 1 && #[trigger] self.nodes@[k] == p && linked(p, n) {
                            let k = choose|k: int|
                                0 <= k < i + 1 && #[trigger] self.nodes@[k] == p && linked(p, n);
                            if k < i {
                                assert(prev.contains(p));
                                let q = choose|q: int| 0 <= q < prev.len() && prev[q] == p;
                                assert(neighbors@[q] == p);
                            } else {
                                assert(neighbors@[prev.len() as int] == p);
                            }
                            assert(neighbors@.contains(p));
                        }
                    }
                }
            }
            i = i + 1;
        }
        proof {
            assert forall|m: Node|
                neighbors@.contains(m) <==> self.nodes@.contains(m) && linked(m, n) by {
                if neighbors@.contains(m) {
                    let k = choose|k: int|
                        0 <= k < self.nodes@.len() && #[trigger] self.nodes@[k] == m && linked(
                            m,
                            n,
                        );
                    assert(self.nodes@.contains(m));
                }
                if self.nodes@.contains(m) && linked(m, n) {
                    let k = choose|k: int| 0 <= k < self.nodes@.len() && self.nodes@[k] == m;
                }
            }
        }
        neighbors
    }

    /// Places a stone of `color` at `position`. Fails with `Occupied` (and
    /// leaves the board untouched) if the point already holds a stone; on
    /// success inserts the node and one edge per same-colored orthogonally
    /// adjacent live stone, so the edge invariant holds again on return.
    /// Places a stone of `color` at `position`. Fails with `Occupied` (and
    /// leaves the board untouched) if the point already holds a stone; on
    /// success inserts the node and one edge per same-colored orthogonally
    /// adjacent live stone, so the edge invariant holds again on return.
    #[verifier::rlimit(30)]
    pub fn place(&mut self, position: (i16, i16), color: Color) -> (result: Result<
        (),
        PlacementError,
    >)
        requires
            old(self).wf(),
        ensures
            final(self).wf(),
            old(self).occupied_at(position.0, position.1) ==> result == Err::<(), PlacementError>(
                PlacementError::Occupied,
            ) && *final(self) == *old(self),
            !old(self).occupied_at(position.0, position.1) ==> result == Ok::<(), PlacementError>(
                (),
            ) && final(self).nodes@ == old(self).nodes@.push(
                Node { x: position.0, y: position.1, c: color },
            ),
    {
        if self.occupied(position.0, position.1) {
            return Err(PlacementError::Occupied);
        }
        let stone = Node { x: position.0, y: position.1, c: color };
        proof {
            assert forall|k: int| 0 <= k < self.nodes@.len() implies !((
            #[trigger] self.nodes@[k]).x == stone.x && self.nodes@[k].y == stone.y) by {
                if self.nodes@[k].x == stone.x && self.nodes@[k].y == stone.y {
                    assert(self.nodes@.contains(self.nodes@[k]));
                }
            }
        }
        let old_len = self.nodes.len();
        self.nodes.push(stone);
        let mut j: usize = 0;
        while j < old_len
            invariant
                old(self).wf(),
                old_len == old(self).nodes@.len(),
                0 <= j <= old_len,
                stone == (Node { x: position.0, y: position.1, c: color }),
                self.nodes@ == old(self).nodes@.push(stone),
                forall|k: int|
                    0 <= k < old_len ==> !((#[trigger] old(self).nodes@[k]).x == stone.x && old(
                        self,
                    ).nodes@[k].y == stone.y),
                self.edges@.len() >= old(self).edges@.len(),
                forall|k: int|
                    0 <= k < old(self).edges@.len() ==> #[trigger] self.edges@[k] == old(
                        self,
                    ).edges@[k],
                forall|k: int|
                    old(self).edges@.len() <= k < self.edges@.len() ==> (#[trigger] self.edges@[k]).0
                        == stone && (exists|l: int|
                        0 <= l < j && #[trigger] old(self).nodes@[l] == self.edges@[k].1 && linked(
                            stone,
                            self.edges@[k].1,
                        )),
                forall|l: int|
                    0 <= l < j && linked(stone, #[trigger] old(self).nodes@[l])
                        ==> self.has_edge(stone, old(self).nodes@[l]),
                forall|i1: int, k1: int|
                    0 <= i1 < k1 < self.edges@.len() ==> !connects(
                        #[trigger] self.edges@[i1],
                        (#[trigger] self.edges@[k1]).0,
                        self.edges@[k1].1,
                    ),
            decreases old_len - j,
        {
            let m = self.nodes[j];
            proof {
                assert(m == old(self).nodes@[j as int]);
            }
            if m.c == color && is_pos_adjacent(&m, &stone) {
                let ghost prev = self.edges@;
                let ghost oe = old(self).edges@.len() as int;
                self.edges.push(Edge(stone, m));
                proof {
                    let cur = self.edges@;
                    assert(cur == prev.push(Edge(stone, m)));
                    assert(cur[prev.len() as int] == Edge(stone, m));
                    assert(cur.contains(Edge(stone, m)));
                    assert(connects(Edge(stone, m), stone, m));
                    // structure of the edges added so far
                    assert forall|k: int| oe <= k < cur.len() implies (#[trigger] cur[k]).0 == stone
                        && (exists|l: int|
                        0 <= l < j + 1 && #[trigger] old(self).nodes@[l] == cur[k].1 && linked(
                            stone,
                            cur[k].1,
                        )) by {
                        if k < prev.len() {
                            assert(cur[k] == prev[k]);
                            let l = choose|l: int|
                                0 <= l < j && #[trigger] old(self).nodes@[l] == prev[k].1 && linked(
                                    stone,
                                    prev[k].1,
                                );
                            assert(0 <= l < j + 1 && old(self).nodes@[l] == cur[k].1 && linked(
                                stone,
                                cur[k].1,
                            ));
                        } else {
                            assert(cur[k] == Edge(stone, m));
                            assert(old(self).nodes@[j as int] == cur[k].1 && linked(
                                stone,
                                cur[k].1,
                            ));
                        }
                    }
                    // every processed linked neighbor has its edge
                    assert forall|l: int|
                        0 <= l < j + 1 && linked(stone, #[trigger] old(self).nodes@[l]) implies exists|e: Edge|
                        #[trigger] cur.contains(e) && connects(e, stone, old(self).nodes@[l]) by {
                        if l < j {
                            let e = choose|e: Edge|
                                #[trigger] prev.contains(e) && connects(
                                    e,
                                    stone,
                                    old(self).nodes@[l],
                                );
                            let k1 = choose|k1: int| 0 <= k1 < prev.len() && prev[k1] == e;
                            assert(cur[k1] == e);
                            assert(cur.contains(e));
                        } else {
                            assert(cur.contains(Edge(stone, m)) && connects(
                                Edge(stone, m),
                                stone,
                                old(self).nodes@[l],
                            ));
                        }
                    }
                    // one edge per unordered pair, still
                    assert forall|i1: int, k1: int| 0 <= i1 < k1 < cur.len() implies !connects(
                        #[trigger] cur[i1],
                        (#[trigger] cur[k1]).0,
                        cur[k1].1,
                    ) by {
                        if k1 < prev.len() {
                            assert(cur[i1] == prev[i1] && cur[k1] == prev[k1]);
                        } else {
                            assert(cur[k1] == Edge(stone, m));
                            let e = cur[i1];
                            assert(e == prev[i1]);
                            if connects(e, stone, m) {
                                if i1 < oe {
                                    // an old edge: both endpoints are old nodes, not the stone
                                    assert(old(self).edges@[i1] == e);
                                    assert(old(self).edges@.contains(e));
                                    lemma_stone_fresh(*old(self), stone, e);
                                    assert(false);
                                } else {
                                    // an edge added this call joins the stone to an old node
                                    let l = choose|l: int|
                                        0 <= l < j && #[trigger] old(self).nodes@[l] == e.1
                                            && linked(stone, e.1);
                                    if e.1 == m {
                                        // two distinct old indices, one position
                                        assert(old(self).nodes@[l] == old(self).nodes@[j as int]);
                                        assert(false);
                                    } else {
                                        assert(e.0 == m && e.1 == stone);
                                        assert(old(self).nodes@[l] == stone);
                                        assert(false);
                                    }
                                }
                            }
                        }
                    }
                }
            }
            j = j + 1;
        }
        proof {
            lemma_place_nodes_unique(*old(self), *self, stone);
            lemma_place_edges_sound(*old(self), *self, stone);
            lemma_place_edges_complete(*old(self), *self, stone);
        }
        Ok(())
    }

    /// Places a stone at `node`, treating an occupied target point as a safe
    /// no-op rather than an error.
    pub fn add_node(&mut self, node: (i16, i16), color: Color)
        requires
            old(self).wf(),
        ensures
            final(self).wf(),
            old(self).occupied_at(node.0, node.1) ==> *final(self) == *old(self),
            !old(self).occupied_at(node.0, node.1) ==> final(self).nodes@ == old(self).nodes@.push(
                Node { x: node.0, y: node.1, c: color },
            ),
    {
        let _ = self.place(node, color);
    }

    /// Places a black stone; an occupied target point is a no-op.
    pub fn add_node_black(&mut self, node: (i16, i16))
        requires
            old(self).wf(),
        ensures
            final(self).wf(),
            old(self).occupied_at(node.0, node.1) ==> *final(self) == *old(self),
            !old(self).occupied_at(node.0, node.1) ==> final(self).nodes@ == old(self).nodes@.push(
                Node { x: node.0, y: node.1, c: Color::Black },
            ),
    {
        self.add_node(node, Color::Black);
    }

    /// Places a white stone; an occupied target point is a no-op.
    pub fn add_node_white(&mut self, node: (i16, i16))
        requires
            old(self).wf(),
        ensures
            final(self).wf(),
            old(self).occupied_at(node.0, node.1) ==> *final(self) == *old(self),
            !old(self).occupied_at(node.0, node.1) ==> final(self).nodes@ == old(self).nodes@.push(
                Node { x: node.0, y: node.1, c: Color::White },
            ),
    {
        self.add_node(node, Color::White);
    }

    /// Places two black stones, at `src` and `dst`; the edge between them is
    /// derived, so it appears exactly when the two points are orthogonally
    /// adjacent and both placements took effect. Occupied points are no-ops:
    /// edges are never settable independently of the stones.
    pub fn add_edge_black(&mut self, src: (i16, i16), dst: (i16, i16))
        requires
            old(self).wf(),
        ensures
            final(self).wf(),
            final(self).stones() == with_stone(
                with_stone(old(self).stones(), Node { x: src.0, y: src.1, c: Color::Black }),
                Node { x: dst.0, y: dst.1, c: Color::Black },
            ),
    {
        let ghost a = Node { x: src.0, y: src.1, c: Color::Black };
        let ghost b = Node { x: dst.0, y: dst.1, c: Color::Black };
        let ghost s0 = self.stones();
        self.add_node(src, Color::Black);
        proof {
            lemma_occupied_at_in(*old(self), (src.0, src.1));
            if !old(self).occupied_at(src.0, src.1) {
                lemma_push_stones(*old(self), *self, a);
            }
            assert(self.stones() == with_stone(s0, a));
        }
        let ghost g1 = *self;
        self.add_node(dst, Color::Black);
        proof {
            lemma_occupied_at_in(g1, (dst.0, dst.1));
            if !g1.occupied_at(dst.0, dst.1) {
                lemma_push_stones(g1, *self, b);
            }
            assert(self.stones() == with_stone(g1.stones(), b));
        }
    }

    /// Places two white stones, at `src` and `dst`; the edge between them is
    /// derived, exactly as for the black variant.
    pub fn add_edge_white(&mut self, src: (i16, i16), dst: (i16, i16))
        requires
            old(self).wf(),
        ensures
            final(self).wf(),
            final(self).stones() == with_stone(
                with_stone(old(self).stones(), Node { x: src.0, y: src.1, c: Color::White }),
                Node { x: dst.0, y: dst.1, c: Color::White },
            ),
    {
        let ghost a = Node { x: src.0, y: src.1, c: Color::White };
        let ghost b = Node { x: dst.0, y: dst.1, c: Color::White };
        let ghost s0 = self.stones();
        self.add_node(src, Color::White);
        proof {
            lemma_occupied_at_in(*old(self), (src.0, src.1));
            if !old(self).occupied_at(src.0, src.1) {
                lemma_push_stones(*old(self), *self, a);
            }
            assert(self.stones() == with_stone(s0, a));
        }
        let ghost g1 = *self;
        self.add_node(dst, Color::White);
        proof {
            lemma_occupied_at_in(g1, (dst.0, dst.1));
            if !g1.occupied_at(dst.0, dst.1) {
                lemma_push_stones(g1, *self, b);
            }
            assert(self.stones() == with_stone(g1.stones(), b));
        }
    }

    /// Read-only view of the live stones, in insertion order, for a
    /// rendering collaborator.
    pub fn all_nodes(&self) -> (ns: &Vec<Node>)
        ensures
            ns@ == self.nodes@,
    {
        &self.nodes
    }

    /// Read-only view of the live edges, for a rendering collaborator.
    pub fn all_edges(&self) -> (es: &Vec<Edge>)
        ensures
            es@ == self.edges@,
    {
        &self.edges
    }

    /// Removes every stone that sits at one of `points`, together with every
    /// edge incident to a removed stone. Capture resolution is the only
    /// intended caller: it always hands over the point set of whole
    /// zero-liberty groups, never part of a live group.
    #[verifier::rlimit(30)]
    pub fn remove_group(&mut self, points: &Vec<(i16, i16)>)
        requires
            old(self).wf(),
        ensures
            final(self).wf(),
            forall|n: Node|
                #[trigger] final(self).nodes@.contains(n) <==> old(self).nodes@.contains(n)
                    && !points@.contains((n.x, n.y)),
            forall|e: Edge|
                #[trigger] final(self).edges@.contains(e) <==> old(self).edges@.contains(e)
                    && !points@.contains((e.0.x, e.0.y)) && !points@.contains((e.1.x, e.1.y)),
    {
        let mut kept_nodes: Vec<Node> = Vec::new();
        let mut i: usize = 0;
        while i < self.nodes.len()
            invariant
                *self == *old(self),
                old(self).wf(),
                0 <= i <= self.nodes@.len(),
                kept_nodes@.no_duplicates(),
                forall|n: Node|
                    #[trigger] kept_nodes@.contains(n) <==> (exists|k: int|
                        0 <= k < i && #[trigger] old(self).nodes@[k] == n && !points@.contains(
                            (n.x, n.y),
                        )),
            decreases self.nodes@.len() - i,
        {
            let n = self.nodes[i];
            if !point_in_vec(points, (n.x, n.y)) {
                proof {
                    if kept_nodes@.contains(n) {
                        let k = choose|k: int|
                            0 <= k < i && #[trigger] old(self).nodes@[k] == n && !points@.contains(
                                (n.x, n.y),
                            );
                        assert(false);  // two indices, one position
                    }
                }
                let ghost prev = kept_nodes@;
                kept_nodes.push(n);
                proof {
                    assert forall|m: Node|
                        #[trigger] kept_nodes@.contains(m) <==> (exists|k: int|
                            0 <= k < i + 1 && #[trigger] old(self).nodes@[k] == m
                                && !points@.contains((m.x, m.y))) by {
                        if kept_nodes@.contains(m) {
                            if m == n {
                                assert(old(self).nodes@[i as int] == m);
                            } else {
                                assert(prev.contains(m));
                            }
                        }
                        if exists|k: int|
                            0 <= k < i + 1 && #[trigger] old(self).nodes@[k] == m
                                && !points@.contains((m.x, m.y)) {
                            let k = choose|k: int|
                                0 <= k < i + 1 && #[trigger] old(self).nodes@[k] == m
                                    && !points@.contains((m.x, m.y));
                            if k < i {
                                assert(prev.contains(m));
                            } else {
                                assert(m == n);
                            }
                            assert(kept_nodes@.contains(m));
                        }
                    }
                }
            } else {
                proof {
                    assert(points@.contains((old(self).nodes@[i as int].x, old(
                        self,
                    ).nodes@[i as int].y)));
                    assert forall|m: Node|
                        #[trigger] kept_nodes@.contains(m) <==> (exists|k: int|
                            0 <= k < i + 1 && #[trigger] old(self).nodes@[k] == m
                                && !points@.contains((m.x, m.y))) by {
                        if exists|k: int|
                            0 <= k < i + 1 && #[trigger] old(self).nodes@[k] == m
                                && !points@.contains((m.x, m.y)) {
                            let k = choose|k: int|
                                0 <= k < i + 1 && #[trigger] old(self).nodes@[k] == m
                                    && !points@.contains((m.x, m.y));
                            assert(k < i);
                        }
                    }
                }
            }
            i = i + 1;
        }
        let mut kept_edges: Vec<Edge> = Vec::new();
        let mut j: usize = 0;
        while j < self.edges.len()
            invariant
                *self == *old(self),
                old(self).wf(),
                0 <= j <= self.edges@.len(),
                kept_edges@.no_duplicates(),
                forall|e: Edge|
                    #[trigger] kept_edges@.contains(e) <==> (exists|k: int|
                        0 <= k < j && #[trigger] old(self).edges@[k] == e && !points@.contains(
                            (e.0.x, e.0.y),
                        ) && !points@.contains((e.1.x, e.1.y))),
            decreases self.edges@.len() - j,
        {
            let e = self.edges[j];
            if !point_in_vec(points, (e.0.x, e.0.y)) && !point_in_vec(points, (e.1.x, e.1.y)) {
                proof {
                    if kept_edges@.contains(e) {
                        let k = choose|k: int|
                            0 <= k < j && #[trigger] old(self).edges@[k] == e && !points@.contains(
                                (e.0.x, e.0.y),
                            ) && !points@.contains((e.1.x, e.1.y));
                        assert(connects(
                            old(self).edges@[k],
                            old(self).edges@[j as int].0,
                            old(self).edges@[j as int].1,
                        ));
                        assert(false);  // one unordered pair, two edges
                    }
                }
                let ghost prev = kept_edges@;
                kept_edges.push(e);
                proof {
                    assert forall|f: Edge|
                        #[trigger] kept_edges@.contains(f) <==> (exists|k: int|
                            0 <= k < j + 1 && #[trigger] old(self).edges@[k] == f
                                && !points@.contains((f.0.x, f.0.y)) && !points@.contains(
                                (f.1.x, f.1.y),
                            )) by {
                        if kept_edges@.contains(f) {
                            if f == e {
                                assert(old(self).edges@[j as int] == f);
                            } else {
                                assert(prev.contains(f));
                            }
                        }
                        if exists|k: int|
                            0 <= k < j + 1 && #[trigger] old(self).edges@[k] == f
                                && !points@.contains((f.0.x, f.0.y)) && !points@.contains(
                                (f.1.x, f.1.y),
                            ) {
                            let k = choose|k: int|
                                0 <= k < j + 1 && #[trigger] old(self).edges@[k] == f
                                    && !points@.contains((f.0.x, f.0.y)) && !points@.contains(
                                    (f.1.x, f.1.y),
                                );
                            if k < j {
                                assert(prev.contains(f));
                            } else {
                                assert(f == e);
                            }
                            assert(kept_edges@.contains(f));
                        }
                    }
                }
            } else {
                proof {
                    assert forall|f: Edge|
                        #[trigger] kept_edges@.contains(f) <==> (exists|k: int|
                            0 <= k < j + 1 && #[trigger] old(self).edges@[k] == f
                                && !points@.contains((f.0.x, f.0.y)) && !points@.contains(
                                (f.1.x, f.1.y),
                            )) by {
                        if exists|k: int|
                            0 <= k < j + 1 && #[trigger] old(self).edges@[k] == f
                                && !points@.contains((f.0.x, f.0.y)) && !points@.contains(
                                (f.1.x, f.1.y),
                            ) {
                            let k = choose|k: int|
                                0 <= k < j + 1 && #[trigger] old(self).edges@[k] == f
                                    && !points@.contains((f.0.x, f.0.y)) && !points@.contains(
                                    (f.1.x, f.1.y),
                                );
                            assert(k < j);
                        }
                    }
                }
            }
            j = j + 1;
        }
        self.nodes = kept_nodes;
        self.edges = kept_edges;
        proof {
            assert forall|n: Node|
                #[trigger] self.nodes@.contains(n) <==> old(self).nodes@.contains(n)
                    && !points@.contains((n.x, n.y)) by {
                if self.nodes@.contains(n) {
                    let k = choose|k: int|
                        0 <= k < old(self).nodes@.len() && #[trigger] old(self).nodes@[k] == n
                            && !points@.contains((n.x, n.y));
                    assert(old(self).nodes@.contains(n));
                }
                if old(self).nodes@.contains(n) && !points@.contains((n.x, n.y)) {
                    let k = choose|k: int|
                        0 <= k < old(self).nodes@.len() && old(self).nodes@[k] == n;
                }
            }
            assert forall|e: Edge|
                #[trigger] self.edges@.contains(e) <==> old(self).edges@.contains(e)
                    && !points@.contains((e.0.x, e.0.y)) && !points@.contains((e.1.x, e.1.y)) by {
                if self.edges@.contains(e) {
                    let k = choose|k: int|
                        0 <= k < old(self).edges@.len() && #[trigger] old(self).edges@[k] == e
                            && !points@.contains((e.0.x, e.0.y)) && !points@.contains(
                            (e.1.x, e.1.y),
                        );
                    assert(old(self).edges@.contains(e));
                }
                if old(self).edges@.contains(e) && !points@.contains((e.0.x, e.0.y))
                    && !points@.contains((e.1.x, e.1.y)) {
                    let k = choose|k: int|
                        0 <= k < old(self).edges@.len() && old(self).edges@[k] == e;
                }
            }
            lemma_filtered_positions(*old(self), *self, points@);
            lemma_filtered_sound(*old(self), *self, points@);
            lemma_filtered_complete(*old(self), *self, points@);
            lemma_filtered_unique(*old(self), *self);
        }
    }
}

/// Dropping stones keeps node positions unique.
proof fn lemma_filtered_positions(og: Graph, ng: Graph, pts: Seq<(i16, i16)>)
    requires
        og.positions_unique(),
        ng.nodes@.no_duplicates(),
        forall|n: Node|
            #[trigger] ng.nodes@.contains(n) ==> og.nodes@.contains(n),
    ensures
        ng.positions_unique(),
{
    assert forall|i: int, k: int| 0 <= i < k < ng.nodes@.len() implies !((
    #[trigger] ng.nodes@[i]).x == (#[trigger] ng.nodes@[k]).x && ng.nodes@[i].y
        == ng.nodes@[k].y) by {
        let a = ng.nodes@[i];
        let b = ng.nodes@[k];
        assert(a != b);
        if a.x == b.x && a.y == b.y {
            assert(ng.nodes@.contains(a));
            assert(ng.nodes@.contains(b));
            let ia = choose|ia: int| 0 <= ia < og.nodes@.len() && og.nodes@[ia] == a;
            let ib = choose|ib: int| 0 <= ib < og.nodes@.len() && og.nodes@[ib] == b;
            assert(ia != ib);
            assert(false);
        }
    }
}

/// Dropping stones and their incident edges keeps the remaining edges
/// joined to live, linked stones.
proof fn lemma_filtered_sound(og: Graph, ng: Graph, pts: Seq<(i16, i16)>)
    requires
        og.edges_sound(),
        forall|n: Node|
            #[trigger] ng.nodes@.contains(n) <==> og.nodes@.contains(n) && !pts.contains(
                (n.x, n.y),
            ),
        forall|e: Edge|
            #[trigger] ng.edges@.contains(e) ==> og.edges@.contains(e) && !pts.contains(
                (e.0.x, e.0.y),
            ) && !pts.contains((e.1.x, e.1.y)),
    ensures
        ng.edges_sound(),
{
    assert forall|e: Edge| #[trigger] ng.edges@.contains(e) implies ng.nodes@.contains(e.0)
        && ng.nodes@.contains(e.1) && linked(e.0, e.1) by {
        assert(og.edges@.contains(e));
    }
}

/// Dropping whole stones (with their incident edges) keeps the edge set
/// complete: surviving linked pairs keep their edge.
proof fn lemma_filtered_complete(og: Graph, ng: Graph, pts: Seq<(i16, i16)>)
    requires
        og.edges_complete(),
        forall|n: Node|
            #[trigger] ng.nodes@.contains(n) ==> og.nodes@.contains(n) && !pts.contains(
                (n.x, n.y),
            ),
        forall|e: Edge|
            og.edges@.contains(e) && !pts.contains((e.0.x, e.0.y)) && !pts.contains(
                (e.1.x, e.1.y),
            ) ==> #[trigger] ng.edges@.contains(e),
    ensures
        ng.edges_complete(),
{
    assert forall|a: Node, b: Node|
        #[trigger] ng.nodes@.contains(a) && #[trigger] ng.nodes@.contains(b) && linked(
            a,
            b,
        ) implies ng.has_edge(a, b) by {
        assert(og.nodes@.contains(a));
        assert(og.nodes@.contains(b));
        assert(og.has_edge(a, b));
        let e = choose|e: Edge| #[trigger] og.edges@.contains(e) && connects(e, a, b);
        assert(ng.edges@.contains(e));
        assert(connects(e, a, b));
    }
}

/// Dropping edges keeps each unordered pair joined at most once.
proof fn lemma_filtered_unique(og: Graph, ng: Graph)
    requires
        og.edges_unique(),
        ng.edges@.no_duplicates(),
        forall|e: Edge|
            #[trigger] ng.edges@.contains(e) ==> og.edges@.contains(e),
    ensures
        ng.edges_unique(),
{
    assert forall|i: int, k: int| 0 <= i < k < ng.edges@.len() implies !connects(
        #[trigger] ng.edges@[i],
        (#[trigger] ng.edges@[k]).0,
        ng.edges@[k].1,
    ) by {
        let e1 = ng.edges@[i];
        let e2 = ng.edges@[k];
        assert(e1 != e2);
        if connects(e1, e2.0, e2.1) {
            assert(ng.edges@.contains(e1));
            assert(ng.edges@.contains(e2));
            let k1 = choose|k1: int| 0 <= k1 < og.edges@.len() && og.edges@[k1] == e1;
            let k2 = choose|k2: int| 0 <= k2 < og.edges@.len() && og.edges@[k2] == e2;
            assert(k1 != k2);
            if k1 < k2 {
                assert(!connects(og.edges@[k1], og.edges@[k2].0, og.edges@[k2].1));
            } else {
                assert(!connects(og.edges@[k2], og.edges@[k1].0, og.edges@[k1].1));
            }
            assert(false);
        }
    }
}

/// Appending a node to the node list inserts it into the stone set.
pub proof fn lemma_push_stones(og: Graph, ng: Graph, stone: Node)
    requires
        ng.nodes@ == og.nodes@.push(stone),
    ensures
        ng.stones() == og.stones().insert(stone),
{
    assert forall|n: Node|
        ng.stones().contains(n) <==> og.stones().insert(stone).contains(n) by {
        assert(ng.nodes@.contains(n) <==> og.nodes@.contains(n) || n == stone);
    }
    assert(ng.stones() =~= og.stones().insert(stone));
}

/// A graph's occupancy query agrees with occupancy of its stone set.
pub proof fn lemma_occupied_at_in(g: Graph, q: (i16, i16))
    ensures
        g.occupied_at(q.0, q.1) == occupied_in(g.stones(), q),
{
    if g.occupied_at(q.0, q.1) {
        let n = choose|n: Node| #[trigger] g.nodes@.contains(n) && n.x == q.0 && n.y == q.1;
        assert(g.stones().contains(n));
    }
    if occupied_in(g.stones(), q) {
        let n = choose|n: Node| #[trigger] g.stones().contains(n) && n.x == q.0 && n.y == q.1;
        assert(g.nodes@.contains(n));
    }
}

/// In a well-formed graph, a position determines its stone: two live stones
/// at one position are the same stone.
pub proof fn lemma_stones_pos_unique(g: Graph)
    requires
        g.wf(),
    ensures
        forall|m: Node, n: Node|
            #[trigger] g.stones().contains(m) && #[trigger] g.stones().contains(n) && m.x == n.x
                && m.y == n.y ==> m == n,
{
    assert forall|m: Node, n: Node|
        #[trigger] g.stones().contains(m) && #[trigger] g.stones().contains(n) && m.x == n.x
            && m.y == n.y implies m == n by {
        assert(g.nodes@.contains(m));
        assert(g.nodes@.contains(n));
        let ia = choose|ia: int| 0 <= ia < g.nodes@.len() && g.nodes@[ia] == m;
        let ib = choose|ib: int| 0 <= ib < g.nodes@.len() && g.nodes@[ib] == n;
        if ia != ib {
            assert(false);
        }
    }
}

/// An edge of a well-formed graph cannot touch a stone whose position is
/// fresh: both endpoints are live nodes, and no live node shares the fresh
/// stone's position.
proof fn lemma_stone_fresh(g: Graph, stone: Node, e: Edge)
    requires
        g.wf(),
        g.edges@.contains(e),
        forall|k: int|
            0 <= k < g.nodes@.len() ==> !((#[trigger] g.nodes@[k]).x == stone.x && g.nodes@[k].y
                == stone.y),
    ensures
        e.0 != stone,
        e.1 != stone,
{
    assert(g.nodes@.contains(e.0));
    assert(g.nodes@.contains(e.1));
    let ia = choose|ia: int| 0 <= ia < g.nodes@.len() && g.nodes@[ia] == e.0;
    let ib = choose|ib: int| 0 <= ib < g.nodes@.len() && g.nodes@[ib] == e.1;
    assert(!(g.nodes@[ia].x == stone.x && g.nodes@[ia].y == stone.y));
    assert(!(g.nodes@[ib].x == stone.x && g.nodes@[ib].y == stone.y));
}

/// Appending a stone at a fresh position keeps node positions unique.
proof fn lemma_place_nodes_unique(older: Graph, new: Graph, stone: Node)
    requires
        older.positions_unique(),
        new.nodes@ == older.nodes@.push(stone),
        forall|k: int|
            0 <= k < older.nodes@.len() ==> !((#[trigger] older.nodes@[k]).x == stone.x
                && older.nodes@[k].y == stone.y),
    ensures
        new.positions_unique(),
{
    let old_len = older.nodes@.len() as int;
    assert forall|i: int, k: int| 0 <= i < k < new.nodes@.len() implies !((
    #[trigger] new.nodes@[i]).x == (#[trigger] new.nodes@[k]).x && new.nodes@[i].y
        == new.nodes@[k].y) by {
        if k < old_len {
            assert(new.nodes@[i] == older.nodes@[i]);
            assert(new.nodes@[k] == older.nodes@[k]);
        } else {
            assert(new.nodes@[k] == stone);
            assert(new.nodes@[i] == older.nodes@[i]);
        }
    }
}

/// After a placement, every edge still joins two live, linked stones: the
/// old edges kept their old endpoints, and each added edge joins the new
/// stone to a linked live neighbor.
proof fn lemma_place_edges_sound(older: Graph, new: Graph, stone: Node)
    requires
        older.wf(),
        new.nodes@ == older.nodes@.push(stone),
        new.edges@.len() >= older.edges@.len(),
        forall|k: int|
            0 <= k < older.edges@.len() ==> #[trigger] new.edges@[k] == older.edges@[k],
        forall|k: int|
            older.edges@.len() <= k < new.edges@.len() ==> (#[trigger] new.edges@[k]).0 == stone
                && (exists|l: int|
                0 <= l < older.nodes@.len() && #[trigger] older.nodes@[l] == new.edges@[k].1
                    && linked(stone, new.edges@[k].1)),
    ensures
        new.edges_sound(),
{
    let old_len = older.nodes@.len() as int;
    assert forall|e: Edge| #[trigger] new.edges@.contains(e) implies new.nodes@.contains(e.0)
        && new.nodes@.contains(e.1) && linked(e.0, e.1) by {
        let k = choose|k: int| 0 <= k < new.edges@.len() && new.edges@[k] == e;
        if k < older.edges@.len() {
            assert(older.edges@[k] == e);
            assert(older.edges@.contains(e));
            let ia = choose|ia: int| 0 <= ia < older.nodes@.len() && older.nodes@[ia] == e.0;
            let ib = choose|ib: int| 0 <= ib < older.nodes@.len() && older.nodes@[ib] == e.1;
            assert(new.nodes@[ia] == e.0);
            assert(new.nodes@[ib] == e.1);
            assert(new.nodes@.contains(e.0));
            assert(new.nodes@.contains(e.1));
        } else {
            assert(e.0 == stone);
            let l = choose|l: int|
                0 <= l < old_len && #[trigger] older.nodes@[l] == e.1 && linked(stone, e.1);
            assert(new.nodes@[old_len] == stone);
            assert(new.nodes@.contains(stone));
            assert(new.nodes@[l] == e.1);
            assert(new.nodes@.contains(e.1));
        }
    }
}

/// After a placement, every linked pair of live stones has an edge: old
/// pairs keep their old edge, and each pair involving the new stone got one
/// while the neighbors were scanned.
proof fn lemma_place_edges_complete(older: Graph, new: Graph, stone: Node)
    requires
        older.wf(),
        new.nodes@ == older.nodes@.push(stone),
        new.edges@.len() >= older.edges@.len(),
        forall|k: int|
            0 <= k < older.edges@.len() ==> #[trigger] new.edges@[k] == older.edges@[k],
        forall|l: int|
            0 <= l < older.nodes@.len() && linked(stone, #[trigger] older.nodes@[l])
                ==> new.has_edge(stone, older.nodes@[l]),
    ensures
        new.edges_complete(),
{
    let old_len = older.nodes@.len() as int;
    assert forall|a: Node, b: Node|
        #[trigger] new.nodes@.contains(a) && #[trigger] new.nodes@.contains(b) && linked(
            a,
            b,
        ) implies new.has_edge(a, b) by {
        let ia = choose|ia: int| 0 <= ia < new.nodes@.len() && new.nodes@[ia] == a;
        let ib = choose|ib: int| 0 <= ib < new.nodes@.len() && new.nodes@[ib] == b;
        if ia < old_len && ib < old_len {
            assert(older.nodes@[ia] == a);
            assert(older.nodes@[ib] == b);
            assert(older.nodes@.contains(a));
            assert(older.nodes@.contains(b));
            let e = choose|e: Edge| #[trigger] older.edges@.contains(e) && connects(e, a, b);
            let k = choose|k: int| 0 <= k < older.edges@.len() && older.edges@[k] == e;
            assert(new.edges@[k] == e);
            assert(new.edges@.contains(e));
        } else if ia == old_len && ib < old_len {
            assert(a == stone);
            assert(older.nodes@[ib] == b);
            assert(new.has_edge(stone, b));
            let e = choose|e: Edge| #[trigger] new.edges@.contains(e) && connects(e, stone, b);
            assert(connects(e, a, b));
        } else if ib == old_len && ia < old_len {
            assert(b == stone);
            assert(older.nodes@[ia] == a);
            assert(new.has_edge(stone, a));
            let e = choose|e: Edge| #[trigger] new.edges@.contains(e) && connects(e, stone, a);
            assert(connects(e, a, b));
        } else {
            assert(a == stone && b == stone);
            assert(!pos_adjacent(a, b));
        }
    }
}

} // verus!
