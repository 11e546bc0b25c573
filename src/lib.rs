//! A directed graph over integer node identifiers, with a cycle-tolerant
//! post-order linearisation and a walk from a node up to a root.

pub mod graph;
pub mod laws;
pub mod render;

pub use graph::Graph;
