//! A small text search engine: a tokenizer that normalizes text into terms,
//! a per-document term-frequency map, a corpus-wide index, the integer core
//! of TF-IDF ranking, and a persisted JSON form of the index with a proved
//! save/load round trip.
pub mod chars;
pub mod codec;
pub mod extract;
pub mod index;
pub mod ranker;
pub mod strutil;
pub mod tokenizer;
