//! The stream topology: definitions, the graph of nodes, and the executor's core.

pub mod domain;
pub mod executor;
pub mod graph;
