//! Structural statistics of an undirected graph given as a list of edges.
//!
//! A [`graph::Graph`] is built once from 1-based vertex pairs and then
//! queried: shortest paths, degrees, asymmetric adjacency entries, and the
//! network diameter.

pub mod graph;
pub mod sorting;
pub mod paths;
mod search;
pub mod analysis;
pub mod edges;
