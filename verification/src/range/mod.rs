//! Queries for ranges of samples, of one series or of many.
pub mod groups;
pub mod laws;
pub mod merge;
pub mod mrange;
pub mod nrange;
pub mod rows;
pub mod told_laws;
