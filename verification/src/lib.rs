pub mod single;
pub mod bits;
pub mod docs;
pub mod posting;
pub mod formula;
pub mod heap;
pub mod accumulator;
pub mod ranking;
pub mod scoring;
pub mod search;
pub mod laws;
pub mod query_laws;
pub mod length_laws;
pub mod values;
pub mod score_laws;
pub mod sum_laws;
pub mod search_laws;
pub mod data_laws;
