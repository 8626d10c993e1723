//! The data-model half of the observability integration: aggregated
//! per-pattern telemetry and the arithmetic that turns raw counts into
//! rates.  The HTTP client that fetches raw rows from the backend is I/O and
//! lives outside the library; it hands plain counts in and takes rates out.

use vstd::prelude::*;

use crate::SCALE;

verus! {

/// How the application connects to the observability backend.
#[derive(Debug, Clone, Copy, PartialEq)]
pub enum ObservabilityMode {
    /// Always use the local backend instance.
    Local,
    /// Always use the configured online backend.
    Online,
    /// Prefer the local instance, falling back to the online backend.
    Auto,
}

/// Aggregated telemetry for one pattern over a trailing window.
pub struct PatternMetrics {
    /// The pattern the telemetry belongs to.
    pub pattern_id: String,
    /// Mean latency in milliseconds, fixed point.
    pub avg_latency_ms: i64,
    /// Share of recommendations that failed, in `[0, SCALE]`.
    pub error_rate: i64,
    /// `SCALE` minus the error rate.
    pub success_rate: i64,
    /// Number of recommendations in the window.
    pub recommendation_count: u64,
}

/// Turns raw telemetry counts into per-pattern rates: the error rate is the
/// error share of all recommendations (zero when there were none), and the
/// success rate is its complement.
pub fn pattern_metrics_from_counts(
    pattern_id: String,
    avg_latency_ms: i64,
    error_count: u64,
    count: u64,
) -> (r: PatternMetrics)
    requires
        error_count <= count,
    ensures
        r.pattern_id@ == pattern_id@,
        r.avg_latency_ms == avg_latency_ms,
        r.recommendation_count == count,
        count == 0 ==> r.error_rate == 0,
        count > 0 ==> r.error_rate == (error_count as int) * (SCALE as int) / (count as int),
        r.success_rate == SCALE - r.error_rate,
        0 <= r.error_rate <= SCALE,
        0 <= r.success_rate <= SCALE,
{
    let error_rate: i64 = if count == 0 {
        0
    } else {
        proof {
            assert((error_count as int) * (SCALE as int) <= (count as int) * (SCALE as int))
                by (nonlinear_arith)
                requires
                    error_count <= count,
                    SCALE > 0,
            ;
            vstd::arithmetic::div_mod::lemma_div_pos_is_pos(
                error_count as int * SCALE as int,
                count as int,
            );
            vstd::arithmetic::div_mod::lemma_div_is_ordered(
                error_count as int * SCALE as int,
                count as int * SCALE as int,
                count as int,
            );
            assert((count as int * SCALE as int) / (count as int) == SCALE) by {
                vstd::arithmetic::div_mod::lemma_div_multiples_vanish(
                    SCALE as int,
                    count as int,
                );
            }
        }
        ((error_count as u128) * (SCALE as u128) / (count as u128)) as i64
    };
    PatternMetrics {
        pattern_id,
        avg_latency_ms,
        error_rate,
        success_rate: SCALE - error_rate,
        recommendation_count: count,
    }
}

} // verus!
