//! Domain types shared by the chunker, the store and the search engines.

use vstd::prelude::*;

verus! {

/// A chunk of a source document that is independently indexed.
///
/// `id` is globally unique (`"{doc_id}:{chunk_index}"`), `doc_id` is the file
/// stem, `doc_path` the original path, `category`/`category_text` the facet
/// path derived from the parent directory, `content` the text payload, and
/// `chunk_index`/`total_chunks` the position within the parent document.
#[derive(Debug, Clone)]
pub struct DocumentChunk {
    pub id: String,
    pub doc_id: String,
    pub doc_path: String,
    pub category: String,
    pub category_text: String,
    pub content: String,
    pub chunk_index: usize,
    pub total_chunks: usize,
}

/// Indicates which engine produced a result.
#[derive(Debug, Clone, Copy, PartialEq, Eq, Structural)]
pub enum SourceKind {
    Vector,
    Text,
}

/// The minimal surface returned by all engines.
///
/// `id` matches `DocumentChunk::id`. `score` is an order-preserving unsigned
/// encoding of an engine score where higher is always better; engines that
/// score with non-negative IEEE single-precision floats use the raw bit
/// pattern, whose unsigned order coincides with the float order on
/// non-negative values. `source` labels the origin engine.
#[derive(Debug, Clone)]
pub struct SearchHit {
    pub id: String,
    pub score: u32,
    pub source: SourceKind,
}

/// Per-row embedding lifecycle in the `documents` table.
#[derive(Debug, Clone, Copy, PartialEq, Eq, Structural)]
pub enum EmbeddingStatus {
    New,
    InProgress,
    Ready,
    Error,
}

/// Per-row index coverage in the `documents` table.
#[derive(Debug, Clone, Copy, PartialEq, Eq, Structural)]
pub enum IndexStatus {
    Stale,
    Ready,
}

} // verus!
