//! Settings of the indexing pipeline and the size bounds of the segmentation.
use vstd::prelude::*;

verus! {

/// A segment of at most this many bytes becomes one chunk as it stands.
pub const SEGMENT_MAX_BYTES: usize = 850;

/// Bound in bytes on each part of an oversized segment, and on a document without
/// headings before it is split.
pub const PART_MAX_BYTES: usize = 800;

/// Name of the embedding model.
pub const EMBEDDING_MODEL: &'static str = "qwen3-embedding:4b";

/// Dimension of the embedding vectors.
pub const EMBEDDING_DIM: usize = 2560;

/// Address of the vector store.
pub const QDRANT_URL: &'static str = "http://localhost:6334";

/// Address of the embedding service.
pub const OLLAMA_URL: &'static str = "http://localhost:11434";

} // verus!
