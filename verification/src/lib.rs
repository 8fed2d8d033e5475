//! Exact maximum-clique search over an in-memory undirected graph.
//!
//! The crate builds an immutable adjacency structure, seeds a lower bound
//! with a greedy heuristic, and then runs a branch-and-bound search that
//! prunes with a greedy-coloring upper bound.

pub mod coloring;
pub mod graph;
pub mod heuristic;
pub mod parse;
pub mod search;
pub mod vset;
