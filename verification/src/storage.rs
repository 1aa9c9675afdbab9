//! The bucketed page storage layer.

pub mod blob;
pub mod bucket;
pub mod bucket_issuer;
pub mod data_page;
pub mod file_handle;
pub mod file_system;
pub mod open_chunk;
pub mod record;
pub mod round_trip;
pub mod vessel;
