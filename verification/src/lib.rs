//! A small retrieval library: a text chunker that splits documents into
//! bounded, overlapping segments, a binary codec for embedding vectors, and
//! an embedded vector store with brute-force cosine-similarity search.

pub mod chunker;
pub mod codec;
pub mod errors;
pub mod score;
pub mod store;
pub mod text;
