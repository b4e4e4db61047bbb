//! A series: samples in chunks, with what is known about the series as a whole.
pub mod batch;
pub mod compaction;
pub mod cascade;
pub mod defrag;
pub mod digest;
pub mod faithful;
pub mod graph;
pub mod ingest;
pub mod ingest_laws;
pub mod laws;
pub mod link;
pub mod marker_laws;
pub mod policy;
pub mod policy_config;
pub mod policy_laws;
pub mod rule;
pub mod rule_laws;
pub mod rules;
pub mod snapshot;
pub mod span_laws;
pub mod store;
pub mod update;
pub mod written;
