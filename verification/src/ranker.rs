//! Multi-factor re-ranking of similarity search results: a weighted linear
//! combination of similarity, recency, usage, and success-rate signals, each
//! a fixed-point score in `[0, SCALE]`.

use vstd::prelude::*;
use vstd::string::StringExecFns;

use crate::pattern_extractor::{Pattern, PatternView};
use crate::similarity::SimilarityResult;
use crate::text::{dec_str, join_str, join_strings, percent_str, percent_string, u64_to_string};
use crate::vector_store::VectorStore;
use crate::{TemporalAIError, SCALE};

verus! {

/// Per-day decay factor of the recency score: `e^(-0.01)` in fixed point.
pub const DAILY_DECAY: u64 = 990_050;

/// A final, scored and explained recommendation.
pub struct Recommendation {
    /// The recommended pattern.
    pub pattern: Pattern,
    /// The similarity component, clamped to `[0, SCALE]`.
    pub similarity_score: i64,
    /// The recency component: exponential decay over the pattern's age.
    pub recency_score: i64,
    /// The usage component: usage count capped at one hundred uses.
    pub usage_score: i64,
    /// The weighted final score, in `[0, SCALE]`.
    pub final_score: i64,
    /// Human-readable summary of the pattern and its score components.
    pub explanation: String,
}

/// Ghost image of a [`Recommendation`].
pub struct RecommendationView {
    pub pattern: PatternView,
    pub similarity_score: i64,
    pub recency_score: i64,
    pub usage_score: i64,
    pub final_score: i64,
    pub explanation: Seq<char>,
}

impl View for Recommendation {
    type V = RecommendationView;

    open spec fn view(&self) -> RecommendationView {
        RecommendationView {
            pattern: self.pattern@,
            similarity_score: self.similarity_score,
            recency_score: self.recency_score,
            usage_score: self.usage_score,
            final_score: self.final_score,
            explanation: self.explanation@,
        }
    }
}

/// Whole days elapsed from `ts` to `now`, never negative: patterns from the
/// future score like patterns from right now.
pub open spec fn spec_days_since(now: int, ts: int) -> int {
    if now <= ts {
        0
    } else {
        (now - ts) / 86400
    }
}

/// The recency score after `d` days: `SCALE` decayed by `DAILY_DECAY` per
/// day, rounding down.
pub open spec fn decay_pow(d: nat) -> int
    decreases d,
{
    if d == 0 {
        SCALE as int
    } else {
        decay_pow((d - 1) as nat) * DAILY_DECAY / (SCALE as int)
    }
}

/// The recency score always lies in `[0, SCALE]`.
pub proof fn lemma_decay_pow_bounds(d: nat)
    ensures
        0 <= decay_pow(d) <= SCALE,
    decreases d,
{
    if d > 0 {
        lemma_decay_pow_bounds((d - 1) as nat);
        let p = decay_pow((d - 1) as nat);
        assert(0 <= p * DAILY_DECAY <= SCALE as int * DAILY_DECAY) by (nonlinear_arith)
            requires
                0 <= p <= SCALE,
        ;
        vstd::arithmetic::div_mod::lemma_div_pos_is_pos(p * DAILY_DECAY, SCALE as int);
        vstd::arithmetic::div_mod::lemma_div_is_ordered(
            p * DAILY_DECAY,
            SCALE as int * DAILY_DECAY,
            SCALE as int,
        );
        assert((SCALE as int * DAILY_DECAY) / (SCALE as int) == DAILY_DECAY) by {
            vstd::arithmetic::div_mod::lemma_div_multiples_vanish(
                DAILY_DECAY as int,
                SCALE as int,
            );
        }
    }
}

/// Once the decayed score reaches zero it stays zero.
pub proof fn lemma_decay_pow_zero(d0: nat, d: nat)
    requires
        d0 <= d,
        decay_pow(d0) == 0,
    ensures
        decay_pow(d) == 0,
    decreases d - d0,
{
    if d > d0 {
        lemma_decay_pow_zero(d0, (d - 1) as nat);
        assert(0int * DAILY_DECAY == 0) by (nonlinear_arith);
        assert(0int / (SCALE as int) == 0);
    }
}

/// The recency score after `days` days.
pub fn recency_score_for(days: u64) -> (r: i64)
    ensures
        r == decay_pow(days as nat),
        0 <= r <= SCALE,
{
    proof {
        lemma_decay_pow_bounds(days as nat);
    }
    let mut s: u64 = SCALE as u64;
    let mut k: u64 = 0;
    while k < days
        invariant
            0 <= k <= days,
            s == decay_pow(k as nat),
            0 <= s <= SCALE,
        decreases days - k,
    {
        proof {
            lemma_decay_pow_bounds(k as nat);
            lemma_decay_pow_bounds((k + 1) as nat);
            assert(s * DAILY_DECAY <= 1_000_000u64 * DAILY_DECAY) by (nonlinear_arith)
                requires
                    0 <= s <= 1_000_000u64,
            ;
        }
        let next: u64 = s * DAILY_DECAY / (SCALE as u64);
        if next == 0 {
            proof {
                lemma_decay_pow_zero((k + 1) as nat, days as nat);
            }
            return 0;
        }
        s = next;
        k = k + 1;
    }
    s as i64
}

/// The usage score: `usage_count / 100`, capped at `1.0`, in fixed point.
pub open spec fn usage_score_spec(count: u64) -> int {
    if count >= 100 {
        SCALE as int
    } else {
        count * 10_000
    }
}

/// The usage component for a usage count.
pub fn usage_score_for(count: u64) -> (r: i64)
    ensures
        r == usage_score_spec(count),
        0 <= r <= SCALE,
{
    if count >= 100 {
        SCALE
    } else {
        (count * 10_000) as i64
    }
}

/// A score clamped into `[0, SCALE]`.
pub open spec fn clamp_score(v: int) -> int {
    if v < 0 {
        0
    } else if v > SCALE {
        SCALE as int
    } else {
        v
    }
}

/// Clamps a score into `[0, SCALE]`.
pub fn clamp_score_exec(v: i64) -> (r: i64)
    ensures
        r == clamp_score(v as int),
{
    if v < 0 {
        0
    } else if v > SCALE {
        SCALE
    } else {
        v
    }
}

/// The usage and success signals drawn from stored metrics: the usage count
/// (zero when no metrics exist — normal for fresh patterns) and the success
/// rate (a neutral half when unknown — absence of data is not failure).
pub open spec fn spec_usage_count(store: VectorStore, id: Seq<char>) -> u64 {
    match store.spec_metrics(id) {
        Some(m) => m@.usage_count,
        None => 0,
    }
}

/// The success-rate component for a pattern, from stored metrics.
pub open spec fn spec_success_rate(store: VectorStore, id: Seq<char>) -> int {
    match store.spec_metrics(id) {
        Some(m) => match m@.success_rate {
            Some(s) => s as int,
            None => SCALE as int / 2,
        },
        None => SCALE as int / 2,
    }
}

/// The weighted final score: each component already in `[0, SCALE]`, the
/// weights summing to `SCALE`, so the combination is again in `[0, SCALE]`.
pub open spec fn final_score_spec(
    sim_w: u64,
    rec_w: u64,
    use_w: u64,
    suc_w: u64,
    sim: int,
    rec: int,
    usg: int,
    suc: int,
) -> int {
    (sim_w * sim + rec_w * rec + use_w * usg + suc_w * suc) / (SCALE as int)
}

/// A weighted combination of scores in `[0, SCALE]` with weights summing to
/// `SCALE` lies in `[0, SCALE]`.
pub proof fn lemma_final_score_bounds(
    sim_w: u64,
    rec_w: u64,
    use_w: u64,
    suc_w: u64,
    sim: int,
    rec: int,
    usg: int,
    suc: int,
)
    requires
        sim_w + rec_w + use_w + suc_w == SCALE,
        0 <= sim <= SCALE,
        0 <= rec <= SCALE,
        0 <= usg <= SCALE,
        0 <= suc <= SCALE,
    ensures
        0 <= final_score_spec(sim_w, rec_w, use_w, suc_w, sim, rec, usg, suc) <= SCALE,
{
    let total = sim_w * sim + rec_w * rec + use_w * usg + suc_w * suc;
    assert(0 <= total <= (sim_w + rec_w + use_w + suc_w) * (SCALE as int)) by (nonlinear_arith)
        requires
            0 <= sim <= SCALE,
            0 <= rec <= SCALE,
            0 <= usg <= SCALE,
            0 <= suc <= SCALE,
            sim_w >= 0,
            rec_w >= 0,
            use_w >= 0,
            suc_w >= 0,
            total == sim_w * sim + rec_w * rec + use_w * usg + suc_w * suc,
    ;
    vstd::arithmetic::div_mod::lemma_div_pos_is_pos(total, SCALE as int);
    vstd::arithmetic::div_mod::lemma_div_is_ordered(
        total,
        SCALE as int * SCALE,
        SCALE as int,
    );
    assert((SCALE as int * SCALE) / (SCALE as int) == SCALE) by {
        vstd::arithmetic::div_mod::lemma_div_multiples_vanish(SCALE as int, SCALE as int);
    }
}

/// The output `out` correctly re-scores the input `src` against the store at
/// time `now`, under the given weights.
pub open spec fn rec_ok(
    store: VectorStore,
    now: i64,
    sim_w: u64,
    rec_w: u64,
    use_w: u64,
    suc_w: u64,
    src: SimilarityResult,
    out: Recommendation,
) -> bool {
    &&& out.pattern@ == src.pattern@
    &&& out.similarity_score == clamp_score(src.score as int)
    &&& out.recency_score == decay_pow(
        spec_days_since(now as int, src.pattern@.timestamp as int) as nat,
    )
    &&& out.usage_score == usage_score_spec(spec_usage_count(store, src.pattern@.id))
    &&& out.final_score == final_score_spec(
        sim_w,
        rec_w,
        use_w,
        suc_w,
        out.similarity_score as int,
        out.recency_score as int,
        out.usage_score as int,
        clamp_score(spec_success_rate(store, src.pattern@.id)),
    )
}

/// All four component scores and the final score lie in `[0, SCALE]`.
pub open spec fn rec_bounded(out: Recommendation) -> bool {
    &&& 0 <= out.similarity_score <= SCALE
    &&& 0 <= out.recency_score <= SCALE
    &&& 0 <= out.usage_score <= SCALE
    &&& 0 <= out.final_score <= SCALE
}

/// A recommendation list sorted by descending final score.
pub open spec fn recs_sorted_desc(s: Seq<Recommendation>) -> bool {
    forall|x: int, y: int| 0 <= x < y < s.len() ==> s[x].final_score >= s[y].final_score
}

/// Every element of `a` is an element of `b`.
pub open spec fn recs_from(a: Seq<Recommendation>, b: Seq<Recommendation>) -> bool {
    forall|x: int| 0 <= x < a.len() ==> b.contains(#[trigger] a[x])
}

/// Sorts recommendations by descending final score; the output holds exactly
/// the input's elements.
fn sort_recs(input: Vec<Recommendation>) -> (r: Vec<Recommendation>)
    ensures
        r@.len() == input@.len(),
        recs_sorted_desc(r@),
        recs_from(r@, input@),
        recs_from(input@, r@),
{
    let ghost v0 = input@;
    let mut v = input;
    let mut out: Vec<Recommendation> = Vec::new();
    let ghost mut p: int = 0;
    while v.len() > 0
        invariant
            0 <= p <= v0.len(),
            v@ == v0.skip(p),
            out@.len() == p,
            recs_sorted_desc(out@),
            recs_from(out@, v0.take(p)),
            recs_from(v0.take(p), out@),
        decreases v@.len(),
    {
        proof {
            assert(v0.skip(p).len() == v0.len() - p);
        }
        let item = v.remove(0);
        proof {
            assert(item == v0[p]);
            assert(v@ =~= v0.skip(p + 1));
        }
        let ghost o0 = out@;
        let mut pos: usize = 0;
        while pos < out.len() && out[pos].final_score >= item.final_score
            invariant
                0 <= pos <= o0.len(),
                out@ == o0,
                recs_sorted_desc(o0),
                forall|j: int| 0 <= j < pos ==> #[trigger] o0[j].final_score >= item.final_score,
            decreases o0.len() - pos,
        {
            pos = pos + 1;
        }
        out.insert(pos, item);
        proof {
            assert(out@ =~= o0.insert(pos as int, item));
            assert(out@[pos as int] == item);
            assert forall|x: int, y: int| 0 <= x < y < out@.len() implies out@[x].final_score
                >= out@[y].final_score by {
                if x < pos && y < pos {
                    assert(out@[x] == o0[x] && out@[y] == o0[y]);
                } else if x < pos && y == pos {
                    assert(out@[x] == o0[x]);
                } else if x < pos && y > pos {
                    assert(out@[x] == o0[x] && out@[y] == o0[y - 1]);
                } else if x == pos {
                    assert(out@[y] == o0[y - 1]);
                    assert(pos < o0.len());
                    assert(item.final_score > o0[pos as int].final_score);
                    if y - 1 > pos {
                        assert(o0[pos as int].final_score >= o0[y - 1].final_score);
                    }
                } else {
                    assert(out@[x] == o0[x - 1] && out@[y] == o0[y - 1]);
                }
            }
            let ghost taken = v0.take(p + 1);
            assert forall|x: int| 0 <= x < out@.len() implies taken.contains(#[trigger] out@[x]) by {
                if x == pos {
                    assert(taken[p] == out@[x]);
                } else {
                    let x0: int = if x < pos {
                        x
                    } else {
                        x - 1
                    };
                    assert(out@[x] == o0[x0]);
                    assert(v0.take(p).contains(o0[x0]));
                    let i = choose|i: int|
                        0 <= i < v0.take(p).len() && v0.take(p)[i] == o0[x0];
                    assert(taken[i] == out@[x]);
                }
            }
            assert forall|i: int| 0 <= i < taken.len() implies out@.contains(
                #[trigger] taken[i]) by {
                if i == p {
                    assert(out@[pos as int] == taken[i]);
                } else {
                    assert(v0.take(p)[i] == taken[i]);
                    assert(o0.contains(v0.take(p)[i]));
                    let x0 = choose|x0: int|
                        0 <= x0 < o0.len() && o0[x0] == v0.take(p)[i];
                    let x1: int = if x0 < pos {
                        x0
                    } else {
                        x0 + 1
                    };
                    assert(out@[x1] == o0[x0]);
                }
            }
        }
        proof {
            p = p + 1;
        }
    }
    proof {
        assert(v0.take(p) =~= v0);
    }
    out
}

} // verus!

use vstd::string::StrSliceExecFns;

verus! {

/// The first seven characters of a commit sha, or all of it when shorter.
pub open spec fn commit_short(sha: Seq<char>) -> Seq<char> {
    if sha.len() <= 7 {
        sha
    } else {
        sha.take(7)
    }
}

/// The explanation text for one recommendation: commit, tags, description,
/// and the numeric contributions.  Purely descriptive, never used in scoring.
pub open spec fn explanation_str(
    pattern: PatternView,
    similarity: i64,
    days_ago: int,
    usage_count: u64,
    success_rate: i64,
) -> Seq<char> {
    "Pattern from "@ + commit_short(pattern.commit_sha) + " ("@ + join_str(pattern.tags, ", "@)
        + "): "@ + pattern.description + " - Similarity: "@ + percent_str(similarity as int)
        + "%, Recency: "@ + crate::text::int_str(days_ago) + (if days_ago == 1 {
        " day ago, Usage: "@
    } else {
        " days ago, Usage: "@
    }) + dec_str(usage_count as nat) + " times, Success: "@ + percent_str(success_rate as int)
        + "%"@
}

/// The multi-factor scoring engine: weighted similarity, recency, usage and
/// success signals over a [`VectorStore`]'s metrics.
pub struct RecommendationRanker<'a> {
    /// The store whose metrics the ranker consults.
    pub store: &'a VectorStore,
    /// Weight of the recency signal; the four weights sum to [`SCALE`].
    pub recency_weight: u64,
    /// Weight of the usage signal.
    pub usage_weight: u64,
    /// Weight of the similarity signal.
    pub similarity_weight: u64,
    /// Weight of the success-rate signal.
    pub success_rate_weight: u64,
}

impl<'a> RecommendationRanker<'a> {
    /// The store whose metrics this ranker consults.
    pub open spec fn spec_store(self) -> VectorStore {
        *self.store
    }

    /// The four weights sum exactly to `SCALE`.
    pub open spec fn weights_wf(self) -> bool {
        self.recency_weight + self.usage_weight + self.similarity_weight
            + self.success_rate_weight == SCALE
    }

    /// A ranker with the default weights: similarity 0.35, recency 0.2,
    /// usage 0.3, success rate 0.15.
    pub fn new(store: &'a VectorStore) -> (r: Self)
        ensures
            r.spec_store() == *store,
            r.recency_weight == 200_000,
            r.usage_weight == 300_000,
            r.similarity_weight == 350_000,
            r.success_rate_weight == 150_000,
            r.weights_wf(),
    {
        RecommendationRanker {
            store,
            recency_weight: 200_000,
            usage_weight: 300_000,
            similarity_weight: 350_000,
            success_rate_weight: 150_000,
        }
    }

    /// A ranker with custom weights, normalized to sum exactly to `SCALE`;
    /// the similarity weight absorbs the rounding remainder.  All-zero
    /// weights fall back to equal weighting instead of dividing by zero.
    pub fn with_weights(
        store: &'a VectorStore,
        recency: u64,
        usage: u64,
        similarity: u64,
        success_rate: u64,
    ) -> (r: Self)
        ensures
            r.spec_store() == *store,
            r.weights_wf(),
            recency + usage + similarity + success_rate == 0 ==> r.recency_weight == 250_000
                && r.usage_weight == 250_000 && r.similarity_weight == 250_000
                && r.success_rate_weight == 250_000,
            recency + usage + similarity + success_rate > 0 ==> {
                let total = recency + usage + similarity + success_rate;
                &&& r.recency_weight == recency * SCALE / total
                &&& r.usage_weight == usage * SCALE / total
                &&& r.success_rate_weight == success_rate * SCALE / total
                &&& r.similarity_weight == SCALE - r.recency_weight - r.usage_weight
                    - r.success_rate_weight
            },
    {
        let total: u128 = recency as u128 + usage as u128 + similarity as u128
            + success_rate as u128;
        if total == 0 {
            RecommendationRanker {
                store,
                recency_weight: 250_000,
                usage_weight: 250_000,
                similarity_weight: 250_000,
                success_rate_weight: 250_000,
            }
        } else {
            proof {
                lemma_weight_share_bounds(recency as int, usage as int, similarity as int,
                    success_rate as int);
            }
            let rw: u64 = ((recency as u128) * (SCALE as u128) / total) as u64;
            let uw: u64 = ((usage as u128) * (SCALE as u128) / total) as u64;
            let cw: u64 = ((success_rate as u128) * (SCALE as u128) / total) as u64;
            let sw: u64 = (SCALE as u64) - rw - uw - cw;
            RecommendationRanker {
                store,
                recency_weight: rw,
                usage_weight: uw,
                similarity_weight: sw,
                success_rate_weight: cw,
            }
        }
    }
}

/// Each scaled weight share is at most `SCALE`, and the three shares other
/// than similarity leave a nonnegative remainder.
pub proof fn lemma_weight_share_bounds(rec: int, usg: int, sim: int, suc: int)
    requires
        rec >= 0,
        usg >= 0,
        sim >= 0,
        suc >= 0,
        rec + usg + sim + suc > 0,
    ensures
        ({
            let total = rec + usg + sim + suc;
            &&& 0 <= rec * SCALE / total <= SCALE
            &&& 0 <= usg * SCALE / total <= SCALE
            &&& 0 <= suc * SCALE / total <= SCALE
            &&& rec * SCALE / total + usg * SCALE / total + suc * SCALE / total <= SCALE
        }),
{
    let total = rec + usg + sim + suc;
    let a = rec * SCALE;
    let b = usg * SCALE;
    let c = suc * SCALE;
    assert(a >= 0 && b >= 0 && c >= 0 && a + b + c <= total * SCALE) by (nonlinear_arith)
        requires
            rec >= 0,
            usg >= 0,
            sim >= 0,
            suc >= 0,
            total == rec + usg + sim + suc,
            a == rec * SCALE,
            b == usg * SCALE,
            c == suc * SCALE,
    ;
    vstd::arithmetic::div_mod::lemma_div_pos_is_pos(a, total);
    vstd::arithmetic::div_mod::lemma_div_pos_is_pos(b, total);
    vstd::arithmetic::div_mod::lemma_div_pos_is_pos(c, total);
    vstd::arithmetic::div_mod::lemma_fundamental_div_mod(a, total);
    vstd::arithmetic::div_mod::lemma_fundamental_div_mod(b, total);
    vstd::arithmetic::div_mod::lemma_fundamental_div_mod(c, total);
    vstd::arithmetic::div_mod::lemma_mod_bound(a, total);
    vstd::arithmetic::div_mod::lemma_mod_bound(b, total);
    vstd::arithmetic::div_mod::lemma_mod_bound(c, total);
    let q = a / total + b / total + c / total;
    assert(total * q <= a + b + c) by (nonlinear_arith)
        requires
            total > 0,
            a == total * (a / total) + a % total,
            b == total * (b / total) + b % total,
            c == total * (c / total) + c % total,
            a % total >= 0,
            b % total >= 0,
            c % total >= 0,
            q == a / total + b / total + c / total,
    ;
    assert(q <= SCALE) by (nonlinear_arith)
        requires
            total > 0,
            total * q <= a + b + c,
            a + b + c <= total * SCALE,
    ;
    vstd::arithmetic::div_mod::lemma_div_is_ordered(a, total * SCALE, total);
    vstd::arithmetic::div_mod::lemma_div_is_ordered(b, total * SCALE, total);
    vstd::arithmetic::div_mod::lemma_div_is_ordered(c, total * SCALE, total);
    assert((total * SCALE) / total == SCALE) by {
        vstd::arithmetic::div_mod::lemma_div_multiples_vanish(SCALE as int, total);
    }
}

} // verus!

verus! {

/// `rec` is a correct re-scoring of one of the `results`.
pub open spec fn rec_matched(
    store: VectorStore,
    sim_w: u64,
    rec_w: u64,
    use_w: u64,
    suc_w: u64,
    now: i64,
    results: Seq<SimilarityResult>,
    rec: Recommendation,
) -> bool {
    exists|i: int|
        0 <= i < results.len() && rec_ok(store, now, sim_w, rec_w, use_w, suc_w, #[trigger] results[i], rec)
}

/// Some element of `recs` correctly re-scores the input `src`.
pub open spec fn rec_scored(
    store: VectorStore,
    sim_w: u64,
    rec_w: u64,
    use_w: u64,
    suc_w: u64,
    now: i64,
    src: SimilarityResult,
    recs: Seq<Recommendation>,
) -> bool {
    exists|x: int|
        0 <= x < recs.len() && rec_ok(store, now, sim_w, rec_w, use_w, suc_w, src, #[trigger] recs[x])
}

/// `recs` is exactly a re-scoring of `results` against `store` at time
/// `now`: every output re-scores some input and every input is re-scored by
/// some output.
pub open spec fn ranked_from(
    store: VectorStore,
    sim_w: u64,
    rec_w: u64,
    use_w: u64,
    suc_w: u64,
    now: i64,
    results: Seq<SimilarityResult>,
    recs: Seq<Recommendation>,
) -> bool {
    &&& forall|x: int|
        0 <= x < recs.len() ==> rec_matched(
            store,
            sim_w,
            rec_w,
            use_w,
            suc_w,
            now,
            results,
            #[trigger] recs[x],
        )
    &&& forall|i: int|
        0 <= i < results.len() ==> rec_scored(
            store,
            sim_w,
            rec_w,
            use_w,
            suc_w,
            now,
            #[trigger] results[i],
            recs,
        )
}

impl<'a> RecommendationRanker<'a> {
    /// The human-readable explanation for one recommendation.
    pub fn generate_explanation(
        &self,
        pattern: &Pattern,
        similarity: i64,
        days_ago: i64,
        usage_count: u64,
        success_rate: i64,
    ) -> (r: String)
        requires
            0 <= similarity <= SCALE,
            0 <= success_rate <= SCALE,
        ensures
            r@ == explanation_str(
                pattern@,
                similarity,
                days_ago as int,
                usage_count,
                success_rate,
            ),
    {
        let mut s = "Pattern from ".to_owned();
        let sha_len: usize = pattern.commit_sha.as_str().unicode_len();
        if sha_len <= 7 {
            s.append(pattern.commit_sha.as_str());
        } else {
            let short = pattern.commit_sha.as_str().substring_char(0, 7);
            s.append(short);
            proof {
                assert(short@ =~= commit_short(pattern@.commit_sha));
            }
        }
        s.append(" (");
        let tags_joined = join_strings(&pattern.tags, ", ");
        s.append(tags_joined.as_str());
        s.append("): ");
        s.append(pattern.description.as_str());
        s.append(" - Similarity: ");
        let sim_pct = percent_string(similarity);
        s.append(sim_pct.as_str());
        s.append("%, Recency: ");
        let days_text = crate::text::i64_to_string(days_ago);
        s.append(days_text.as_str());
        if days_ago == 1 {
            s.append(" day ago, Usage: ");
        } else {
            s.append(" days ago, Usage: ");
        }
        let usage_text = u64_to_string(usage_count);
        s.append(usage_text.as_str());
        s.append(" times, Success: ");
        let suc_pct = percent_string(success_rate);
        s.append(suc_pct.as_str());
        s.append("%");
        proof {
            reveal_strlit("Pattern from ");
            reveal_strlit(" (");
            reveal_strlit("): ");
            reveal_strlit(" - Similarity: ");
            reveal_strlit("%, Recency: ");
            reveal_strlit(" day ago, Usage: ");
            reveal_strlit(" days ago, Usage: ");
            reveal_strlit(" times, Success: ");
            reveal_strlit("%");
            reveal_strlit(", ");
            assert(s@ =~= explanation_str(
                pattern@,
                similarity,
                days_ago as int,
                usage_count,
                success_rate,
            ));
        }
        s
    }

    /// Re-scores one search result against the store's metrics at `now`.
    fn score_one(&self, res: SimilarityResult, now: i64) -> (rec: Recommendation)
        requires
            self.spec_store().wf(),
            self.weights_wf(),
        ensures
            rec_ok(
                self.spec_store(),
                now,
                self.similarity_weight,
                self.recency_weight,
                self.usage_weight,
                self.success_rate_weight,
                res,
                rec,
            ),
            rec_bounded(rec),
    {
        let ghost st = self.spec_store();
        let diff: i128 = now as i128 - res.pattern.timestamp as i128;
        let days: u64 = if diff <= 0 {
            0
        } else {
            proof {
                vstd::arithmetic::div_mod::lemma_div_pos_is_pos(diff as int, 86400);
                vstd::arithmetic::div_mod::lemma_div_is_ordered(
                    diff as int,
                    0x20000000000000000int,
                    86400,
                );
            }
            (diff / 86400) as u64
        };
        proof {
            assert(days as int == spec_days_since(now as int, res.pattern@.timestamp as int));
        }
        let recency = recency_score_for(days);
        let mut count: u64 = 0;
        let mut success: i64 = 500_000;
        match self.store.get_metrics(res.pattern.id.as_str()) {
            Ok(opt) => match opt {
                Some(m) => {
                    count = m.usage_count;
                    match m.success_rate {
                        Some(sv) => {
                            success = clamp_score_exec(sv);
                        },
                        None => {},
                    }
                },
                None => {},
            },
            Err(_) => {
                proof {
                    assert(false);
                }
            },
        }
        proof {
            assert(count == spec_usage_count(st, res.pattern@.id));
            assert(success == clamp_score(spec_success_rate(st, res.pattern@.id)));
        }
        let usage = usage_score_for(count);
        let sim_c = clamp_score_exec(res.score);
        proof {
            lemma_final_score_bounds(
                self.similarity_weight,
                self.recency_weight,
                self.usage_weight,
                self.success_rate_weight,
                sim_c as int,
                recency as int,
                usage as int,
                success as int,
            );
            assert((self.similarity_weight as int) * (sim_c as int) + (
            self.recency_weight as int) * (recency as int) + (self.usage_weight as int) * (
            usage as int) + (self.success_rate_weight as int) * (success as int)
                <= 4_000_000_000_000int) by (nonlinear_arith)
                requires
                    0 <= self.similarity_weight <= 1_000_000,
                    0 <= self.recency_weight <= 1_000_000,
                    0 <= self.usage_weight <= 1_000_000,
                    0 <= self.success_rate_weight <= 1_000_000,
                    0 <= sim_c <= 1_000_000,
                    0 <= recency <= 1_000_000,
                    0 <= usage <= 1_000_000,
                    0 <= success <= 1_000_000,
            ;
        }
        let numerator: u128 = (self.similarity_weight as u128) * (sim_c as u128) + (
        self.recency_weight as u128) * (recency as u128) + (self.usage_weight as u128) * (
        usage as u128) + (self.success_rate_weight as u128) * (success as u128);
        let final_score: i64 = (numerator / (SCALE as u128)) as i64;
        let explanation = self.generate_explanation(
            &res.pattern,
            sim_c,
            days as i64,
            count,
            success,
        );
        Recommendation {
            pattern: res.pattern,
            similarity_score: sim_c,
            recency_score: recency,
            usage_score: usage,
            final_score,
            explanation,
        }
    }

    /// Re-scores and sorts the search results against the store's metrics at
    /// time `now`: each output's components and final score follow the
    /// weighted model exactly, all scores lie in `[0, SCALE]`, and the output
    /// is the input re-scored, sorted by descending final score.
    pub fn rank_at(&self, results: Vec<SimilarityResult>, now: i64) -> (r: Vec<Recommendation>)
        requires
            self.spec_store().wf(),
            self.weights_wf(),
        ensures
            r@.len() == results@.len(),
            recs_sorted_desc(r@),
            forall|x: int| 0 <= x < r@.len() ==> rec_bounded(#[trigger] r@[x]),
            ranked_from(
                self.spec_store(),
                self.similarity_weight,
                self.recency_weight,
                self.usage_weight,
                self.success_rate_weight,
                now,
                results@,
                r@,
            ),
    {
        let ghost st = self.spec_store();
        let ghost r0 = results@;
        let mut v = results;
        let mut built: Vec<Recommendation> = Vec::new();
        let ghost mut p: int = 0;
        while v.len() > 0
            invariant
                0 <= p <= r0.len(),
                v@ == r0.skip(p),
                built@.len() == p,
                st == self.spec_store(),
                st.wf(),
                self.weights_wf(),
                forall|x: int|
                    0 <= x < p ==> rec_ok(
                        st,
                        now,
                        self.similarity_weight,
                        self.recency_weight,
                        self.usage_weight,
                        self.success_rate_weight,
                        r0[x],
                        #[trigger] built@[x],
                    ) && rec_bounded(built@[x]),
            decreases v@.len(),
        {
            proof {
                assert(r0.skip(p).len() == r0.len() - p);
            }
            let res = v.remove(0);
            proof {
                assert(res == r0[p]);
                assert(v@ =~= r0.skip(p + 1));
            }
            let item = self.score_one(res, now);
            let ghost b0 = built@;
            built.push(item);
            proof {
                assert(built@ =~= b0.push(item));
                p = p + 1;
            }
        }
        let ghost bf = built@;
        let out = sort_recs(built);
        proof {
            lemma_ranked_from_sorted(
                st,
                self.similarity_weight,
                self.recency_weight,
                self.usage_weight,
                self.success_rate_weight,
                now,
                r0,
                bf,
                out@,
            );
        }
        out
    }

    /// Re-scores and sorts the search results against the store's metrics at
    /// the present moment.
    pub fn rank(&self, results: Vec<SimilarityResult>) -> (r: Result<
        Vec<Recommendation>,
        TemporalAIError,
    >)
        requires
            self.spec_store().wf(),
            self.weights_wf(),
        ensures
            r matches Ok(recs) && {
                &&& recs@.len() == results@.len()
                &&& recs_sorted_desc(recs@)
                &&& forall|x: int| 0 <= x < recs@.len() ==> rec_bounded(#[trigger] recs@[x])
                &&& exists|t: i64|
                    #[trigger] ranked_from(
                        self.spec_store(),
                        self.similarity_weight,
                        self.recency_weight,
                        self.usage_weight,
                        self.success_rate_weight,
                        t,
                        results@,
                        recs@,
                    )
            },
    {
        let now: i64 = crate::clock::now_unix_seconds();
        let recs = self.rank_at(results, now);
        Ok(recs)
    }
}

/// A sorted permutation-by-membership of correctly re-scored outputs is
/// itself a correct re-scoring of the inputs.
proof fn lemma_ranked_from_sorted(
    st: VectorStore,
    sw: u64,
    rw: u64,
    uw: u64,
    cw: u64,
    now: i64,
    r0: Seq<SimilarityResult>,
    bf: Seq<Recommendation>,
    out: Seq<Recommendation>,
)
    requires
        bf.len() == r0.len(),
        out.len() == bf.len(),
        forall|x: int|
            0 <= x < bf.len() ==> rec_ok(st, now, sw, rw, uw, cw, r0[x], #[trigger] bf[x])
                && rec_bounded(bf[x]),
        recs_from(out, bf),
        recs_from(bf, out),
    ensures
        ranked_from(st, sw, rw, uw, cw, now, r0, out),
        forall|x: int| 0 <= x < out.len() ==> rec_bounded(#[trigger] out[x]),
{
    assert forall|x: int| 0 <= x < out.len() implies rec_bounded(#[trigger] out[x]) by {
        assert(bf.contains(out[x]));
        let b = choose|b: int| 0 <= b < bf.len() && bf[b] == out[x];
        assert(rec_bounded(bf[b]));
    }
    assert forall|x: int|
        0 <= x < out.len() implies rec_matched(st, sw, rw, uw, cw, now, r0, #[trigger] out[x]) by {
        assert(bf.contains(out[x]));
        let b = choose|b: int| 0 <= b < bf.len() && bf[b] == out[x];
        assert(rec_ok(st, now, sw, rw, uw, cw, r0[b], out[x]));
    }
    assert forall|i: int|
        0 <= i < r0.len() implies rec_scored(st, sw, rw, uw, cw, now, #[trigger] r0[i], out) by {
        assert(rec_ok(st, now, sw, rw, uw, cw, r0[i], bf[i]));
        assert(out.contains(bf[i]));
        let x = choose|x: int| 0 <= x < out.len() && out[x] == bf[i];
        assert(rec_ok(st, now, sw, rw, uw, cw, r0[i], out[x]));
    }
}

} // verus!
