//! The stored record shapes: embedding records and per-pattern usage metrics.

use vstd::prelude::*;

use crate::clock::now_unix_seconds;
use crate::numeric::{div_trunc_i128, div_trunc_spec, lemma_div_trunc_bound};
use crate::similarity::{bounded_vector, l2_norm, norm_spec};
use crate::{EMBEDDING_DIM, SCALE, SCHEMA_VERSION};

verus! {

/// The stored form of an embedding vector, with its precomputed L2 norm.
pub struct EmbeddingRecord {
    /// The fixed-point embedding vector; always [`EMBEDDING_DIM`] components.
    pub vector: Vec<i64>,
    /// Precomputed fixed-point L2 norm of `vector`, never recomputed at query time.
    pub norm: i64,
    /// Unix timestamp of record creation.
    pub created_at: i64,
    /// Schema version tag, kept for future migrations.
    pub version: u8,
}

/// Ghost image of an [`EmbeddingRecord`].
pub struct EmbeddingRecordView {
    pub vector: Seq<i64>,
    pub norm: i64,
    pub created_at: i64,
    pub version: u8,
}

impl View for EmbeddingRecord {
    type V = EmbeddingRecordView;

    open spec fn view(&self) -> EmbeddingRecordView {
        EmbeddingRecordView {
            vector: self.vector@,
            norm: self.norm,
            created_at: self.created_at,
            version: self.version,
        }
    }
}

/// A well-formed record: full dimension, bounded components, correct norm.
pub open spec fn embedding_record_wf(r: EmbeddingRecordView) -> bool {
    &&& r.vector.len() == EMBEDDING_DIM
    &&& bounded_vector(r.vector)
    &&& r.norm == norm_spec(r.vector)
}

impl Clone for EmbeddingRecord {
    fn clone(&self) -> (res: Self)
        ensures
            res@ == self@,
    {
        EmbeddingRecord {
            vector: self.vector.clone(),
            norm: self.norm,
            created_at: self.created_at,
            version: self.version,
        }
    }
}

impl EmbeddingRecord {
    /// Wraps a vector, computing its norm and stamping creation time and
    /// schema version.  The caller must supply a full-dimension vector;
    /// [`crate::vector_store::VectorStore::insert`] rejects any other length
    /// before reaching this constructor.
    pub fn new(vector: Vec<i64>) -> (r: Self)
        requires
            vector@.len() == EMBEDDING_DIM,
            bounded_vector(vector@),
        ensures
            r@.vector == vector@,
            r@.norm == norm_spec(vector@),
            r@.version == SCHEMA_VERSION,
            embedding_record_wf(r@),
    {
        let norm: i64 = l2_norm(&vector);
        EmbeddingRecord { vector, norm, created_at: now_unix_seconds(), version: SCHEMA_VERSION }
    }

    /// Rebuilds a stored record from its decoded fields, recomputing the
    /// norm so the well-formedness of the loaded record never rests on the
    /// file's bytes.
    pub(crate) fn with_metadata(vector: Vec<i64>, created_at: i64, version: u8) -> (r: Self)
        requires
            vector@.len() == EMBEDDING_DIM,
            bounded_vector(vector@),
        ensures
            r@.vector == vector@,
            r@.norm == norm_spec(vector@),
            r@.created_at == created_at,
            r@.version == version,
            embedding_record_wf(r@),
    {
        let norm: i64 = l2_norm(&vector);
        EmbeddingRecord { vector, norm, created_at, version }
    }

    /// The unit-length version of the vector, each component scaled by
    /// `SCALE / norm` and truncated toward zero; the vector itself when the
    /// norm is zero.
    pub fn normalized(&self) -> (r: Vec<i64>)
        requires
            bounded_vector(self@.vector),
            self@.norm == norm_spec(self@.vector),
        ensures
            r@.len() == self@.vector.len(),
            self@.norm == 0 ==> r@ == self@.vector,
            self@.norm != 0 ==> forall|i: int|
                0 <= i < r@.len() ==> #[trigger] r@[i] == crate::numeric::mul_div_spec(
                    self@.vector[i] as int,
                    SCALE as int,
                    self@.norm as int,
                ),
    {
        if self.norm == 0 {
            return self.vector.clone();
        }
        let mut out: Vec<i64> = Vec::new();
        let mut i: usize = 0;
        while i < self.vector.len()
            invariant
                0 <= i <= self.vector@.len(),
                bounded_vector(self.vector@),
                self.norm == norm_spec(self.vector@),
                self.norm != 0,
                out@.len() == i,
                forall|j: int|
                    0 <= j < i ==> #[trigger] out@[j] == crate::numeric::mul_div_spec(
                        self.vector@[j] as int,
                        SCALE as int,
                        self.norm as int,
                    ),
            decreases self.vector@.len() - i,
        {
            proof {
                crate::numeric::lemma_isqrt_bounds(
                    crate::similarity::dot_spec(self.vector@, self.vector@) as nat,
                );
                let c = self.vector@[i as int] as int;
                let mag = if c >= 0 { c } else { -c };
                assert(mag * SCALE <= 1_000_000_000i64 as int * SCALE) by (nonlinear_arith)
                    requires
                        0 <= mag <= 1_000_000_000,
                        SCALE > 0,
                ;
                vstd::arithmetic::div_mod::lemma_div_pos_is_pos(mag * SCALE, self.norm as int);
                vstd::arithmetic::div_mod::lemma_div_is_ordered(
                    mag * SCALE,
                    1_000_000_000i64 as int * SCALE,
                    self.norm as int,
                );
                vstd::arithmetic::div_mod::lemma_div_is_ordered_by_denominator(
                    1_000_000_000i64 as int * SCALE,
                    1,
                    self.norm as int,
                );
            }
            let c: i64 = self.vector[i];
            out.push(crate::numeric::mul_div_i64(c, SCALE as u64, self.norm as u64));
            i = i + 1;
        }
        out
    }
}

/// Rolling usage, relevance and feedback signal for one pattern.
pub struct PerformanceMetrics {
    /// Number of times the pattern was recommended; never decremented.
    pub usage_count: u64,
    /// Truncated running mean of the similarity scores seen at recommendation time.
    pub avg_relevance_score: i64,
    /// Unix timestamp of the latest recommendation.
    pub last_recommended: i64,
    /// Append-only discrete user judgments, each in `{-1, 0, 1}`.
    pub feedback_scores: Vec<i8>,
    /// Success rate from the observability backend; `None` means unknown, not zero.
    pub success_rate: Option<i64>,
    /// Average latency in milliseconds from the observability backend, if known.
    pub avg_latency_ms: Option<i64>,
    /// Error rate from the observability backend, if known.
    pub error_rate: Option<i64>,
}

/// Ghost image of a [`PerformanceMetrics`].
pub struct PerformanceMetricsView {
    pub usage_count: u64,
    pub avg_relevance_score: i64,
    pub last_recommended: i64,
    pub feedback_scores: Seq<i8>,
    pub success_rate: Option<i64>,
    pub avg_latency_ms: Option<i64>,
    pub error_rate: Option<i64>,
}

impl View for PerformanceMetrics {
    type V = PerformanceMetricsView;

    open spec fn view(&self) -> PerformanceMetricsView {
        PerformanceMetricsView {
            usage_count: self.usage_count,
            avg_relevance_score: self.avg_relevance_score,
            last_recommended: self.last_recommended,
            feedback_scores: self.feedback_scores@,
            success_rate: self.success_rate,
            avg_latency_ms: self.avg_latency_ms,
            error_rate: self.error_rate,
        }
    }
}

/// Metrics the arithmetic below accepts: the running mean stays a score and
/// every recorded judgment is one of `-1`, `0`, `1`.
pub open spec fn metrics_wf(m: PerformanceMetricsView) -> bool {
    &&& -SCALE <= m.avg_relevance_score <= SCALE
    &&& forall|i: int| 0 <= i < m.feedback_scores.len() ==> -1 <= #[trigger] m.feedback_scores[i] <= 1
}

/// The view of a freshly zeroed metrics value.
pub open spec fn fresh_metrics_view() -> PerformanceMetricsView {
    PerformanceMetricsView {
        usage_count: 0,
        avg_relevance_score: 0,
        last_recommended: 0,
        feedback_scores: Seq::empty(),
        success_rate: None,
        avg_latency_ms: None,
        error_rate: None,
    }
}

impl Clone for PerformanceMetrics {
    fn clone(&self) -> (res: Self)
        ensures
            res@ == self@,
    {
        PerformanceMetrics {
            usage_count: self.usage_count,
            avg_relevance_score: self.avg_relevance_score,
            last_recommended: self.last_recommended,
            feedback_scores: self.feedback_scores.clone(),
            success_rate: self.success_rate,
            avg_latency_ms: self.avg_latency_ms,
            error_rate: self.error_rate,
        }
    }
}

/// Sum of the first `n` feedback judgments.
pub open spec fn feedback_sum(s: Seq<i8>, n: int) -> int
    decreases n,
{
    if n <= 0 {
        0
    } else {
        feedback_sum(s, n - 1) + s[n - 1]
    }
}

/// Sums of judgments in `[-1, 1]` stay within `n`.
pub proof fn lemma_feedback_sum_bound(s: Seq<i8>, n: int)
    requires
        0 <= n <= s.len(),
        forall|i: int| 0 <= i < s.len() ==> -1 <= #[trigger] s[i] <= 1,
    ensures
        -n <= feedback_sum(s, n) <= n,
    decreases n,
{
    if n > 0 {
        lemma_feedback_sum_bound(s, n - 1);
    }
}

impl PerformanceMetrics {
    /// A freshly zeroed metrics value: no usage, no feedback, no
    /// observability data.
    pub fn new() -> (r: Self)
        ensures
            r@ == fresh_metrics_view(),
            metrics_wf(r@),
    {
        PerformanceMetrics {
            usage_count: 0,
            avg_relevance_score: 0,
            last_recommended: 0,
            feedback_scores: Vec::new(),
            success_rate: None,
            avg_latency_ms: None,
            error_rate: None,
        }
    }

    /// Records one recommendation of the pattern: bumps the usage counter,
    /// folds `score` into the running mean with the incremental mean formula
    /// (truncated toward zero), stamps the recommendation time, and appends
    /// the feedback judgment if one was given.
    pub fn record_recommendation(&mut self, score: i64, feedback: Option<i8>)
        requires
            old(self)@.usage_count < u64::MAX,
            -SCALE <= score <= SCALE,
            feedback matches Some(f) ==> -1 <= f <= 1,
            metrics_wf(old(self)@),
        ensures
            final(self)@.usage_count == old(self)@.usage_count + 1,
            final(self)@.avg_relevance_score == div_trunc_spec(
                old(self)@.avg_relevance_score * old(self)@.usage_count + score,
                old(self)@.usage_count + 1,
            ),
            final(self)@.feedback_scores == match feedback {
                Some(f) => old(self)@.feedback_scores.push(f),
                None => old(self)@.feedback_scores,
            },
            final(self)@.success_rate == old(self)@.success_rate,
            final(self)@.avg_latency_ms == old(self)@.avg_latency_ms,
            final(self)@.error_rate == old(self)@.error_rate,
            metrics_wf(final(self)@),
    {
        let prev_count: u64 = self.usage_count;
        self.usage_count = self.usage_count + 1;
        self.last_recommended = now_unix_seconds();

        proof {
            let total = self.avg_relevance_score as int * prev_count as int + score;
            assert(-(SCALE as int * (prev_count as int + 1)) <= total <= SCALE as int * (
            prev_count as int + 1)) by (nonlinear_arith)
                requires
                    -SCALE <= self.avg_relevance_score <= SCALE,
                    prev_count >= 0,
                    -SCALE <= score <= SCALE,
                    total == self.avg_relevance_score as int * prev_count as int + score,
            ;
            assert(SCALE as int * (prev_count as int + 1) <= 1000000int * 0x10000000000000000int)
                by (nonlinear_arith)
                requires
                    0 <= prev_count as int + 1 <= 0x10000000000000000int,
            ;
            lemma_div_trunc_bound(total, prev_count as int + 1, SCALE as int);
        }
        let total: i128 = (self.avg_relevance_score as i128) * (prev_count as i128) + (
        score as i128);
        let new_avg: i128 = div_trunc_i128(total, prev_count + 1);
        self.avg_relevance_score = new_avg as i64;

        if let Some(f) = feedback {
            self.feedback_scores.push(f);
        }
        proof {
            assert forall|j: int| 0 <= j < self@.feedback_scores.len() implies -1
                <= #[trigger] self@.feedback_scores[j] <= 1 by {
                if j < old(self)@.feedback_scores.len() {
                    assert(-1 <= old(self)@.feedback_scores[j] <= 1);
                }
            }
        }
    }

    /// The mean user judgment as a fixed-point score in `[-SCALE, SCALE]`;
    /// `0` when no feedback was recorded.
    pub fn avg_feedback(&self) -> (r: i64)
        requires
            metrics_wf(self@),
        ensures
            self@.feedback_scores.len() == 0 ==> r == 0,
            self@.feedback_scores.len() > 0 ==> r == div_trunc_spec(
                feedback_sum(self@.feedback_scores, self@.feedback_scores.len() as int) * SCALE,
                self@.feedback_scores.len() as int,
            ),
            -SCALE <= r <= SCALE,
    {
        let n: usize = self.feedback_scores.len();
        if n == 0 {
            return 0;
        }
        let mut sum: i128 = 0;
        let mut i: usize = 0;
        while i < n
            invariant
                0 <= i <= n,
                n == self.feedback_scores@.len(),
                metrics_wf(self@),
                sum == feedback_sum(self.feedback_scores@, i as int),
                -(i as int) <= sum <= i as int,
            decreases n - i,
        {
            proof {
                assert(-1 <= self@.feedback_scores[i as int] <= 1);
            }
            sum = sum + (self.feedback_scores[i] as i128);
            i = i + 1;
        }
        proof {
            let total = feedback_sum(self.feedback_scores@, n as int) * (SCALE as int);
            assert(-(SCALE as int) * (n as int) <= total <= (SCALE as int) * (n as int))
                by (nonlinear_arith)
                requires
                    -(n as int) <= feedback_sum(self.feedback_scores@, n as int) <= n as int,
                    SCALE > 0,
                    total == feedback_sum(self.feedback_scores@, n as int) * (SCALE as int),
            ;
            lemma_div_trunc_bound(total, n as int, SCALE as int);
        }
        let total: i128 = sum * (SCALE as i128);
        let q: i128 = div_trunc_i128(total, n as u64);
        q as i64
    }
}

} // verus!
