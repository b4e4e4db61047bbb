pub mod aggregation;
pub mod base_laws;
pub mod bytes;
pub mod chunks;
pub mod encoding;
pub mod error;
pub mod index;
pub mod labels;
pub mod multi_del;
pub mod postings;
pub mod querier;
pub mod querier_laws;
pub mod range;
pub mod rank_heap;
pub mod regexp;
pub mod sample;
pub mod selector_laws;
pub mod series;
pub mod text;
pub mod text_map;
pub mod time;
