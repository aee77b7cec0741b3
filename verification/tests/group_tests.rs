use go_graph::board::{Color, Graph, GroupError, Node};
use go_graph::group::find_component_doubleton;

fn count_color(g: &Graph, c: Color) -> usize {
    let mut n: usize = 0;
    for stone in g.nodes.iter() {
        if stone.c == c {
            n += 1;
        }
    }
    n
}

#[test]
fn doubleton_component_has_two_stones() {
    let component = find_component_doubleton();
    assert_eq!(2, component.len());
    assert!(component.contains(&Node::new(1, 2, Color::Black)));
    assert!(component.contains(&Node::new(2, 2, Color::Black)));
}

#[test]
fn find_group_rejects_absent_seed() {
    let g = Graph::new();
    let r = g.find_group(Node::new(0, 0, Color::Black));
    assert_eq!(Err(GroupError::NoSuchStone), r);
}

#[test]
fn find_group_needs_matching_color() {
    let mut g = Graph::new();
    g.add_node_black((0, 0));
    // a white stone at the same point is not the live stone
    let r = g.find_group(Node::new(0, 0, Color::White));
    assert_eq!(Err(GroupError::NoSuchStone), r);
}

#[test]
fn diamond_of_blacks_has_no_edges() {
    // four black stones around an empty center: none mutually adjacent
    let mut g = Graph::new();
    g.add_node_black((1, 2));
    g.add_node_black((2, 1));
    g.add_node_black((3, 2));
    g.add_node_black((2, 3));
    assert_eq!(4, g.nodes.len());
    assert_eq!(0, g.edges.len());
    // one white stone in the center does not surround the blacks
    g.add_node_white((2, 2));
    assert_eq!(1, count_color(&g, Color::White));
    // every black stone keeps liberties of its own
    let grp = g.find_group(Node::new(1, 2, Color::Black)).unwrap();
    let libs = g.liberties_of(&grp);
    assert!(libs.len() > 0);
}

#[test]
fn adjacent_blacks_form_one_group() {
    let mut g = Graph::new();
    g.add_node_black((1, 2));
    g.add_node_black((2, 2));
    assert_eq!(2, g.nodes.len());
    assert_eq!(1, g.edges.len());
    let grp = g.find_group(Node::new(1, 2, Color::Black)).unwrap();
    assert_eq!(2, grp.len());
    assert!(grp.contains(&Node::new(1, 2, Color::Black)));
    assert!(grp.contains(&Node::new(2, 2, Color::Black)));
}

#[test]
fn liberties_are_counted_once_per_point() {
    let mut g = Graph::new();
    g.add_node_black((1, 2));
    g.add_node_black((2, 2));
    let grp = g.find_group(Node::new(1, 2, Color::Black)).unwrap();
    let libs = g.liberties_of(&grp);
    // (0,2), (1,1), (1,3), (2,1), (2,3), (3,2)
    assert_eq!(6, libs.len());
    assert!(libs.contains(&(0, 2)));
    assert!(libs.contains(&(1, 1)));
    assert!(libs.contains(&(1, 3)));
    assert!(libs.contains(&(2, 1)));
    assert!(libs.contains(&(2, 3)));
    assert!(libs.contains(&(3, 2)));
}

#[test]
fn opposing_stone_never_raises_liberty_count() {
    let mut g = Graph::new();
    g.add_node_black((1, 2));
    g.add_node_black((2, 2));
    let grp = g.find_group(Node::new(1, 2, Color::Black)).unwrap();
    let libs_before = g.liberties_of(&grp).len();
    g.add_node_white((0, 2));
    let grp_after = g.find_group(Node::new(1, 2, Color::Black)).unwrap();
    assert_eq!(2, grp_after.len());
    let libs_after = g.liberties_of(&grp_after).len();
    assert!(libs_after <= libs_before);
    assert_eq!(5, libs_after);
}

#[test]
fn play_captures_a_surrounded_stone() {
    let mut g = Graph::new();
    assert_eq!(Ok(()), g.play((2, 2), Color::White));
    assert_eq!(Ok(()), g.play((1, 2), Color::Black));
    assert_eq!(Ok(()), g.play((2, 1), Color::Black));
    assert_eq!(Ok(()), g.play((3, 2), Color::Black));
    assert_eq!(Ok(()), g.play((2, 3), Color::Black));
    // the white stone lost its last liberty and the whole group fell
    assert_eq!(4, g.nodes.len());
    assert_eq!(0, count_color(&g, Color::White));
    assert!(!g.occupied(2, 2));
}

#[test]
fn capture_removes_the_whole_group() {
    // a two-stone white chain, surrounded and taken in one move
    let mut g = Graph::new();
    assert_eq!(Ok(()), g.play((1, 0), Color::White));
    assert_eq!(Ok(()), g.play((2, 0), Color::White));
    assert_eq!(Ok(()), g.play((0, 0), Color::Black));
    assert_eq!(Ok(()), g.play((1, 1), Color::Black));
    assert_eq!(Ok(()), g.play((2, 1), Color::Black));
    assert_eq!(Ok(()), g.play((3, 0), Color::Black));
    assert_eq!(Ok(()), g.play((1, -1), Color::Black));
    assert_eq!(2, count_color(&g, Color::White));
    assert_eq!(Ok(()), g.play((2, -1), Color::Black));
    assert_eq!(0, count_color(&g, Color::White));
    assert_eq!(6, g.nodes.len());
}

#[test]
fn one_move_captures_two_groups_at_once() {
    // two separate white stones share the point (2,0) as their last liberty
    let mut g = Graph::new();
    assert_eq!(Ok(()), g.play((1, 0), Color::White));
    assert_eq!(Ok(()), g.play((3, 0), Color::White));
    assert_eq!(Ok(()), g.play((0, 0), Color::Black));
    assert_eq!(Ok(()), g.play((1, 1), Color::Black));
    assert_eq!(Ok(()), g.play((1, -1), Color::Black));
    assert_eq!(Ok(()), g.play((3, 1), Color::Black));
    assert_eq!(Ok(()), g.play((3, -1), Color::Black));
    assert_eq!(Ok(()), g.play((4, 0), Color::Black));
    assert_eq!(2, count_color(&g, Color::White));
    assert_eq!(Ok(()), g.play((2, 0), Color::Black));
    assert_eq!(0, count_color(&g, Color::White));
    assert_eq!(7, g.nodes.len());
    // the capturing stone regained its liberties and stays
    assert!(g.occupied(2, 0));
}

#[test]
fn opponent_falls_before_the_played_stone() {
    // four white stones ring the empty point (0,0), each with that point as
    // its last liberty, and black surrounds the ring; playing black at
    // (0,0) would leave the played stone without liberties, but the white
    // captures are resolved first and free its four neighbors
    let mut g = Graph::new();
    assert_eq!(Ok(()), g.play((1, 0), Color::White));
    assert_eq!(Ok(()), g.play((-1, 0), Color::White));
    assert_eq!(Ok(()), g.play((0, 1), Color::White));
    assert_eq!(Ok(()), g.play((0, -1), Color::White));
    assert_eq!(Ok(()), g.play((2, 0), Color::Black));
    assert_eq!(Ok(()), g.play((1, 1), Color::Black));
    assert_eq!(Ok(()), g.play((1, -1), Color::Black));
    assert_eq!(Ok(()), g.play((-2, 0), Color::Black));
    assert_eq!(Ok(()), g.play((-1, 1), Color::Black));
    assert_eq!(Ok(()), g.play((-1, -1), Color::Black));
    assert_eq!(Ok(()), g.play((0, 2), Color::Black));
    assert_eq!(Ok(()), g.play((0, -2), Color::Black));
    assert_eq!(4, count_color(&g, Color::White));
    assert_eq!(Ok(()), g.play((0, 0), Color::Black));
    assert_eq!(0, count_color(&g, Color::White));
    assert_eq!(9, g.nodes.len());
    assert!(g.occupied(0, 0));
}

#[test]
fn suicide_removes_the_played_group() {
    // with no opposing capture to resolve, a stone played into a point with
    // no liberties falls itself
    let mut g = Graph::new();
    assert_eq!(Ok(()), g.play((1, 2), Color::Black));
    assert_eq!(Ok(()), g.play((2, 1), Color::Black));
    assert_eq!(Ok(()), g.play((3, 2), Color::Black));
    assert_eq!(Ok(()), g.play((2, 3), Color::Black));
    assert_eq!(Ok(()), g.play((2, 2), Color::White));
    assert_eq!(4, g.nodes.len());
    assert!(!g.occupied(2, 2));
}

#[test]
fn resolve_captures_judges_all_seeds_against_one_snapshot() {
    // build a board where one white stone is out of liberties and another
    // is not; a single resolution pass removes exactly the dead one
    let mut g = Graph::new();
    g.add_node_white((2, 2));
    g.add_node_white((7, 7));
    g.add_node_black((1, 2));
    g.add_node_black((2, 1));
    g.add_node_black((3, 2));
    g.add_node_black((2, 3));
    let seeds = vec![Node::new(2, 2, Color::White), Node::new(7, 7, Color::White)];
    g.resolve_captures(&seeds);
    assert!(!g.occupied(2, 2));
    assert!(g.occupied(7, 7));
    assert_eq!(5, g.nodes.len());
}
