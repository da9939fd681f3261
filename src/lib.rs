//! A positional inverted index with phrase matching and ranking support.

pub mod common;
pub mod positions;
pub mod phrase;
pub mod dictionary;
pub mod inverted_index;
pub mod index;
pub mod laws;
pub mod ranking;
pub mod tokenizer;
pub mod analyzer;
pub mod doc;
pub mod jsonlines;
pub mod engine;
