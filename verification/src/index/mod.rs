//! What goes on around the indexes of the databases.
pub mod best;
pub mod bulk_build;
pub mod databases;
pub mod events;
pub mod hasher;
pub mod ids;
pub mod label_filter;
pub mod label_laws;
pub mod label_querier;
pub mod label_scan;
pub mod label_search;
pub mod label_top;
pub mod load;
pub mod load_laws;
pub mod memory;
pub mod migration;
pub mod persistence;
pub mod slot_laws;
pub mod slots;
pub mod state_laws;
pub mod stats;
pub mod stats_laws;
pub mod sweep;
pub mod timeseries_index;
