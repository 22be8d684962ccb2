//! Graph objects (nodes, edges, graphs) and the operations on a graph that
//! compute a value from it: adjacency list, adjacency matrix, lookup by
//! identifier, induced subgraphs and isomorphism checking.

pub mod errors;
pub mod types;
pub mod misc;
pub mod laws;
