//! A weighted, undirected graph of integer-keyed nodes with a verified
//! single-source, single-target shortest-distance query.

pub mod entity;
pub mod graph;
pub mod path;
pub mod solver;

pub use entity::{Edge, Node};
pub use graph::Graph;
