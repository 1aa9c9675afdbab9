//! Stream nodes and the reducers they are built from.

pub mod aggregate_stream;
pub mod basic_stream;
pub mod domain;
pub mod merged_stream;
pub mod stream;
