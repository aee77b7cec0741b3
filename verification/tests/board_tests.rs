use std::collections::VecDeque;

use go_graph::board::{contained_in, Color, Graph, Node, PlacementError};

#[test]
fn add_node_increases_node_count() {
    let mut g = Graph::new();
    assert_eq!(0, g.nodes.len());
    g.add_node_black((1, 5));
    assert_eq!(1, g.nodes.len());

    // check that duplicates are not added
    g.add_node_black((1, 5));
    assert_eq!(1, g.nodes.len());
}

#[test]
fn add_node_increases_edge_count() {
    let mut g = Graph::new();
    assert_eq!(0, g.edges.len());
    g.add_node_black((1, 5));
    g.add_node_black((2, 5));
    assert_eq!(1, g.edges.len());
    // check that duplicates are not added
    g.add_node_black((2, 5));
    assert_eq!(1, g.edges.len());
}

#[test]
fn capture_single_works() {
    // capturing a single piece should work, assuming 22 is white
    // and 12, 22, 32 and 32 are black, then the black pieces
    // should capture the white 22 piece and remove it from the board.
    let mut g = Graph::new();
    /*
     *     21
     *  12 22 32
     *     23
     *
     *
     */
    g.add_node_black((1, 2));
    g.add_node_black((2, 1));
    g.add_node_black((3, 2));
    g.add_node_black((2, 3));
    assert_eq!(4, g.nodes.len());
    g.add_node_white((2, 2));
}

#[test]
fn contained_in_works() {
    let mut s: VecDeque<Node> = VecDeque::new();
    let n = Node::new(1, 2, Color::Black);
    assert_eq!(false, contained_in(&n, &s));
    s.push_front(n.clone());
    assert_eq!(true, contained_in(&n, &s));
}

#[test]
fn neighbors_of_works() {
    // capturing a single piece should work, assuming 22 is white
    // and 12, 22, 32 and 32 are black, then the black pieces
    // should capture the white 22 piece and remove it from the board.
    let mut g = Graph::new();
    /*
     *   x 21
     *  12 y 32
     *     23
     *
     *
     */
    g.add_node_black((1, 1));
    g.add_node_white((2, 2));
    g.add_node_black((1, 2));
    g.add_node_white((2, 3));
    g.add_node_black((2, 1));
    g.add_node_white((3, 2));

    let x = Node::new(1, 1, Color::Black);
    let neighbors_x = g.neighbors_of(x);
    let expected_neighbors_x = vec![Node::new(1, 2, Color::Black), Node::new(2, 1, Color::Black)];
    assert_eq!(neighbors_x, expected_neighbors_x);

    let y = Node::new(2, 2, Color::White);
    let neighbors_y = g.neighbors_of(y);
    let eypected_neighbors_y = vec![Node::new(2, 3, Color::White), Node::new(3, 2, Color::White)];
    assert_eq!(neighbors_y, eypected_neighbors_y);
}

#[test]
fn place_reports_occupied() {
    let mut g = Graph::new();
    assert_eq!(Ok(()), g.place((4, 4), Color::Black));
    assert_eq!(Err(PlacementError::Occupied), g.place((4, 4), Color::Black));
    assert_eq!(Err(PlacementError::Occupied), g.place((4, 4), Color::White));
    assert_eq!(1, g.nodes.len());
    assert_eq!(0, g.edges.len());
}

#[test]
fn placing_twice_changes_nothing() {
    let mut g = Graph::new();
    g.add_node_black((0, 0));
    g.add_node_black((0, 1));
    let nodes_before = g.nodes.len();
    let edges_before = g.edges.len();
    g.add_node_black((0, 1));
    assert_eq!(nodes_before, g.nodes.len());
    assert_eq!(edges_before, g.edges.len());
}

#[test]
fn no_cross_color_edges_between_adjacent_stones() {
    let mut g = Graph::new();
    g.add_node_black((0, 0));
    g.add_node_white((0, 1));
    assert_eq!(2, g.nodes.len());
    assert_eq!(0, g.edges.len());
}

#[test]
fn add_edge_black_links_adjacent_points_only() {
    let mut g = Graph::new();
    g.add_edge_black((0, 0), (0, 1));
    assert_eq!(2, g.nodes.len());
    assert_eq!(1, g.edges.len());

    let mut h = Graph::new();
    h.add_edge_black((0, 0), (5, 5));
    assert_eq!(2, h.nodes.len());
    assert_eq!(0, h.edges.len());
}

#[test]
fn add_edge_white_links_adjacent_points_only() {
    let mut g = Graph::new();
    g.add_edge_white((3, 3), (4, 3));
    assert_eq!(2, g.nodes.len());
    assert_eq!(1, g.edges.len());
}

#[test]
fn snapshots_reflect_the_board() {
    let mut g = Graph::new();
    g.add_node_black((1, 1));
    g.add_node_black((1, 2));
    let ns = g.all_nodes();
    assert_eq!(2, ns.len());
    assert_eq!(Node::new(1, 1, Color::Black), ns[0]);
    assert_eq!(Node::new(1, 2, Color::Black), ns[1]);
    let es = g.all_edges();
    assert_eq!(1, es.len());
}

#[test]
fn remove_group_takes_stones_and_incident_edges() {
    let mut g = Graph::new();
    g.add_node_black((0, 0));
    g.add_node_black((0, 1));
    g.add_node_black((5, 5));
    assert_eq!(3, g.nodes.len());
    assert_eq!(1, g.edges.len());
    g.remove_group(&vec![(0, 0), (0, 1)]);
    assert_eq!(1, g.nodes.len());
    assert_eq!(0, g.edges.len());
    assert_eq!(Node::new(5, 5, Color::Black), g.nodes[0]);
}
