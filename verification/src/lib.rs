//! Incremental semantic indexing: change detection over file-hash manifests,
//! extraction of content-addressed chunks from source text, and a bounded
//! least-recently-used cache for embedding vectors.

pub mod hashing;
pub mod text;
pub mod types;
pub mod chunker;
pub mod merkle;
pub mod parser;
pub mod embeddings;
pub mod performance;
