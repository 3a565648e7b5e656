//! A weighted, undirected graph loaded from two comma-separated tables, and
//! a cost-bounded depth-first search that finds, for a chosen start vertex,
//! the reachable vertex with the fewest neighbors.

pub mod geopoint;
pub mod graph;
pub mod loader;
