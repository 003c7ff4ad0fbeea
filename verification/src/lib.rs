//! An in-memory vector index with metadata filters, ranked queries and a
//! framed binary container.
//!
//! Vectors and scores are single-precision numbers held as their bit
//! patterns; the arithmetic that produces a score is the caller's.

pub mod chunk;
pub mod embeddings;
pub mod error;
pub mod ieee;
pub mod index;
pub mod manifest;
pub mod query;
pub mod rank;
pub mod serialize;
pub mod text;
pub mod value;

pub use chunk::{Chunk, ChunkMetadata, EmbeddedChunk};
pub use embeddings::FastembedConfig;
pub use error::VPackError;
pub use index::VPackIndex;
pub use query::{matches_filter, FilterOp, MetadataFilter, QueryOptions, QueryResult};
pub use serialize::{deserialize, serialize};
pub use value::{Number, Value};
