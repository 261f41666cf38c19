//! Optimal visiting orders over a small set of named locations.
//!
//! The pipeline has three stages: build a weighted undirected graph from raw
//! pairwise-distance records, reduce it to a minimum spanning forest with
//! Kruskal's algorithm, then exhaustively score permutations of a target
//! location subset against all-pairs shortest-path distances on the reduced
//! graph to find the cheapest open visiting order.

pub mod graph;
pub mod model;
pub mod mst;
pub mod traversal;
pub mod tsp;
