//! Maximum cut of an undirected graph: an adjacency-list graph, a greedy
//! 1/2-approximation, a randomized heuristic and the pieces of its parallel
//! forms, and parsers for two text formats.
pub mod graph;
pub mod cut;
pub mod approx;
pub mod heuristic;
pub mod text;
pub mod graph_parser;
pub mod quad_matrix_bool;
pub mod quad_matrix_usize;
pub mod ilp;
