//! A two-color stone board (as in the game of Go) modeled as a graph:
//! stones are nodes carrying a coordinate and a color, and edges join
//! orthogonally adjacent same-colored stones. On top of the graph sit
//! group (connected component) discovery, liberty counting, and capture
//! of groups whose liberty count reaches zero.

pub mod board;
pub mod group;
