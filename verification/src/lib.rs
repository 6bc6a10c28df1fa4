//! A local hybrid document-search core: paragraph-centric chunking of text
//! files, a content-addressed embedding cache over a columnar store model, a
//! resumable status-driven embedding backfill, IVF-PQ index sizing with an
//! atomic active-index flip, and a hybrid fuser that merges a lexical and a
//! vector score stream into one ranked result list.

pub mod backfill;
pub mod chunker;
pub mod config;
pub mod embedder;
pub mod error;
pub mod hashing;
pub mod hybrid;
pub mod index_build;
pub mod numfmt;
pub mod params;
pub mod paths;
pub mod search;
pub mod store;
pub mod textops;
pub mod types;

use vstd::prelude::*;

verus! {

/// Embedding dimensionality used by the default provider.
pub const EMBEDDING_DIM: usize = 1024;

} // verus!
