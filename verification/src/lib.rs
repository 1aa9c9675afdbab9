//! An embedded time-series store with incrementally maintained derived streams.
//!
//! Samples are appended to time-bucketed pages; a graph of stream nodes keeps
//! windowed aggregates and multi-source merges up to date as samples arrive.
//! The library computes and decides; it performs no input or output itself.
//! Whatever has to reach a file is handed back as a list of page writes, and
//! whatever was read from a file is handed in as bytes.

pub mod config;
pub mod data_structures;
pub mod storage;
pub mod streaming;
