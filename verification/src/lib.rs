//! A directed social graph: a registry of named nodes, an adjacency map built
//! from raw edges, the node with the most outgoing edges, and how many nodes
//! it reaches within a bounded number of hops.

pub mod adjacency;
pub mod graph;
pub mod popular;
pub mod reach;
pub mod registry;
pub mod table;
pub mod text;

pub use crate::graph::{GraphData, GraphError};
