//! Streaming construction of a term-level inverted index from a line-oriented
//! document collection.

pub mod filter;
pub mod index;
pub mod laws;
pub mod tables;
pub mod tokenizer;
