//! Path and spanning-structure algorithms over a dense weighted graph.
//!
//! The graph is a square matrix of integer weights: cell `(i, j)` is the
//! weight of the directed edge `i -> j`, and `0` means "no edge".  On top of
//! it the crate offers two single-source shortest-path engines (a
//! frontier-based one and a full-relaxation one that tolerates negative
//! weights), a minimum-spanning-tree builder, and a greedy maximum-weight
//! tour constructor.

pub mod bellman_ford;
pub mod dijkstra;
pub mod graph;
pub mod insertion;
pub mod kruskal;
pub mod utils;
