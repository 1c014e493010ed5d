//! An embedded vector store.

pub mod ann;
pub mod arena;
pub mod binding_laws;
pub mod bulk;
pub mod candidates;
pub mod change;
pub mod cli;
pub mod codec;
pub mod commit;
pub mod config;
pub mod database;
pub mod document_laws;
pub mod error;
pub mod filter;
pub mod filter_laws;
pub mod filter_model;
pub mod float_bits;
pub mod format_laws;
pub mod hits;
pub mod hybrid;
pub mod index_laws;
pub mod json;
pub mod json_filter;
pub mod json_output;
pub mod json_records;
pub mod json_search;
pub mod json_text;
pub mod json_tokens;
pub mod json_values;
pub mod json_vectors;
pub mod laws;
pub mod lifecycle;
pub mod maintenance;
pub mod manifest;
pub mod metadata;
pub mod metric;
pub mod number_laws;
pub mod opening;
pub mod order;
pub mod ordered_map;
pub mod ordered_set;
pub mod payload_index;
pub mod plan_laws;
pub mod python_filter;
pub mod python_values;
pub mod quant_laws;
pub mod quantization;
pub mod quantized;
pub mod quantizers;
pub mod ranking;
pub mod ranking_laws;
pub mod read_laws;
pub mod record;
pub mod record_codec;
pub mod render;
pub mod rerank;
pub mod results;
pub mod search;
pub mod search_laws;
pub mod search_options;
pub mod settings;
pub mod snapshot;
pub mod sort;
pub mod soundness;
pub mod sparse_index;
pub mod sparse_laws;
pub mod store;
pub mod table;
pub mod terms;
pub mod text;
pub mod text_laws;
pub mod token_index;
pub mod token_laws;
pub mod transaction;
pub mod two_bit;
pub mod upkeep_laws;
pub mod validation;
pub mod value_codec;
pub mod wal;
pub mod write_laws;
