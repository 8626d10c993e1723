//! Embedding-based pattern recommendation engine.
//!
//! The library stores mined development patterns together with fixed-length
//! embedding vectors, finds the stored patterns nearest to a query vector by
//! cosine similarity, and re-ranks the matches with recency, usage and
//! success signals.
//!
//! All scores and vector components are fixed-point numbers: an `i64` holds
//! the value scaled by [`SCALE`], so `SCALE` itself stands for `1.0`.

use vstd::prelude::*;

pub mod clock;
pub mod globs;
pub mod numeric;
pub mod observability_aggregator;
pub mod pattern_extractor;
pub mod ranker;
pub mod schema;
pub mod similarity;
pub mod storage;
pub mod text;
pub mod vector_store;

pub use observability_aggregator::{ObservabilityMode, PatternMetrics};
pub use pattern_extractor::{CommitInfo, Pattern};
pub use ranker::{Recommendation, RecommendationRanker};
pub use schema::{EmbeddingRecord, PerformanceMetrics};
pub use similarity::{SearchFilters, SimilarityResult, SimilaritySearch};
pub use vector_store::VectorStore;

verus! {

/// Number of components in every stored embedding vector.
pub const EMBEDDING_DIM: usize = 768;

/// Version tag written into every stored embedding record.
pub const SCHEMA_VERSION: u8 = 1;

/// Fixed-point scale: an `i64` score `s` stands for the real number `s / SCALE`.
pub const SCALE: i64 = 1_000_000;

/// Errors surfaced by the library.  Every variant carries what the caller
/// needs to report the failure; none is swallowed inside the library.
#[derive(Debug)]
pub enum TemporalAIError {
    /// The embedding model could not be loaded.
    ModelLoadError(String),
    /// The embedding model failed while producing a vector.
    InferenceError(String),
    /// The storage engine reported a failure.
    DatabaseError(String),
    /// The commit-history source reported a failure.
    GitError(String),
    /// A pattern id that was required to exist was absent.
    PatternNotFound(String),
    /// An embedding vector had the wrong length.
    DimensionMismatch { expected: usize, actual: usize },
    /// A stored record could not be encoded or decoded.
    SerializationError(String),
    /// An input/output failure, such as a malformed glob pattern.
    IoError(String),
    /// The observability backend reported a failure.
    ObservabilityError(String),
}

/// Default path of the embedding model file.
pub fn get_model_path() -> (r: String)
    ensures
        r@ == "models/embeddinggemma-300M-Q8_0.gguf"@,
{
    "models/embeddinggemma-300M-Q8_0.gguf".to_owned()
}

/// Default path of the vector store database file.
pub fn get_db_path() -> (r: String)
    ensures
        r@ == "data/temporal-ai.redb"@,
{
    "data/temporal-ai.redb".to_owned()
}

/// Default path of the repository to mine.
pub fn get_repo_path() -> (r: String)
    ensures
        r@ == "."@,
{
    ".".to_owned()
}

/// Flushes buffered telemetry.  The library itself keeps no tracing state,
/// so there is nothing to flush and the call always succeeds; an exporting
/// variant belongs to the application around the library.
pub fn shutdown_tracing() -> (r: Result<(), TemporalAIError>)
    ensures
        r is Ok,
{
    Ok(())
}

} // verus!
