//! Chunks: runs of samples, in which a series holds its data.
pub mod chunk;
pub mod laws;
pub mod merge;
pub mod search;
pub mod uncompressed;
pub mod utils;
