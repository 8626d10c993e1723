//! Cosine-similarity search over fixed-point embedding vectors.
//!
//! A vector component `c: i64` stands for the real number `c / SCALE`.  The
//! dot product of two such vectors therefore carries the scale `SCALE^2`, and
//! so does the product of the two L2 norms, so the quotient
//! `dot * SCALE / (norm_a * norm_b)` is again a fixed-point number in
//! `[-SCALE, SCALE]`.

use vstd::prelude::*;

use crate::globs::{glob_check, glob_match, glob_matches, glob_valid};
use crate::numeric::{isqrt, isqrt_spec, lemma_isqrt_bounds};
use crate::pattern_extractor::{Pattern, PatternView};
use crate::vector_store::{no_dup_ids, VectorStore};
use crate::{TemporalAIError, SCALE};

verus! {

/// Largest admitted magnitude of a single vector component (1000.0 as fixed point).
pub const VEC_COMPONENT_LIMIT: i64 = 1_000_000_000;

/// Largest admitted vector length; keeps every dot product inside `i128`.
pub const MAX_VECTOR_LEN: usize = 65536;

/// Bound on the magnitude of one component product.
pub const COMPONENT_PRODUCT_BOUND: i128 = 1_000_000_000_000_000_000;

/// A vector the arithmetic below accepts: bounded length and components.
pub open spec fn bounded_vector(v: Seq<i64>) -> bool {
    &&& v.len() <= MAX_VECTOR_LEN
    &&& forall|i: int|
        0 <= i < v.len() ==> -VEC_COMPONENT_LIMIT <= #[trigger] v[i] <= VEC_COMPONENT_LIMIT
}

/// Sum of the first `n` component products of `a` and `b`.
pub open spec fn dot_prefix(a: Seq<i64>, b: Seq<i64>, n: int) -> int
    decreases n,
{
    if n <= 0 {
        0
    } else {
        dot_prefix(a, b, n - 1) + a[n - 1] * b[n - 1]
    }
}

/// Mathematical dot product of two equal-length vectors.
pub open spec fn dot_spec(a: Seq<i64>, b: Seq<i64>) -> int {
    dot_prefix(a, b, a.len() as int)
}

/// Every prefix sum of bounded vectors stays within `n * COMPONENT_PRODUCT_BOUND`.
pub proof fn lemma_dot_prefix_bound(a: Seq<i64>, b: Seq<i64>, n: int)
    requires
        0 <= n <= a.len(),
        n <= b.len(),
        bounded_vector(a),
        bounded_vector(b),
    ensures
        -(n * COMPONENT_PRODUCT_BOUND) <= dot_prefix(a, b, n) <= n * COMPONENT_PRODUCT_BOUND,
    decreases n,
{
    if n > 0 {
        lemma_dot_prefix_bound(a, b, n - 1);
        assert(-COMPONENT_PRODUCT_BOUND <= a[n - 1] * b[n - 1] <= COMPONENT_PRODUCT_BOUND)
            by (nonlinear_arith)
            requires
                -VEC_COMPONENT_LIMIT <= a[n - 1] <= VEC_COMPONENT_LIMIT,
                -VEC_COMPONENT_LIMIT <= b[n - 1] <= VEC_COMPONENT_LIMIT,
        ;
    }
}

/// A dot product of a vector with itself is a sum of squares, hence nonnegative.
pub proof fn lemma_dot_self_nonneg(v: Seq<i64>, n: int)
    requires
        0 <= n <= v.len(),
    ensures
        dot_prefix(v, v, n) >= 0,
    decreases n,
{
    if n > 0 {
        lemma_dot_self_nonneg(v, n - 1);
        assert(v[n - 1] * v[n - 1] >= 0) by (nonlinear_arith);
    }
}

/// Scalar dot product: the portable fallback path.
pub fn dot_product_fallback(a: &Vec<i64>, b: &Vec<i64>) -> (r: i128)
    requires
        a@.len() == b@.len(),
        bounded_vector(a@),
        bounded_vector(b@),
    ensures
        r == dot_spec(a@, b@),
{
    let mut sum: i128 = 0;
    let mut i: usize = 0;
    while i < a.len()
        invariant
            0 <= i <= a@.len(),
            a@.len() == b@.len(),
            bounded_vector(a@),
            bounded_vector(b@),
            sum == dot_prefix(a@, b@, i as int),
        decreases a@.len() - i,
    {
        proof {
            lemma_dot_prefix_bound(a@, b@, i as int);
            assert(-COMPONENT_PRODUCT_BOUND <= a@[i as int] * b@[i as int]
                <= COMPONENT_PRODUCT_BOUND) by (nonlinear_arith)
                requires
                    -VEC_COMPONENT_LIMIT <= a@[i as int] <= VEC_COMPONENT_LIMIT,
                    -VEC_COMPONENT_LIMIT <= b@[i as int] <= VEC_COMPONENT_LIMIT,
            ;
        }
        sum = sum + (a[i] as i128) * (b[i] as i128);
        i = i + 1;
    }
    sum
}

/// Lane-parallel dot product in the shape of the SIMD kernel: four running
/// lanes over 4-wide chunks, then a scalar tail.  Exactly equal to the
/// fallback path: both return `dot_spec`.
pub fn dot_product_simd(a: &Vec<i64>, b: &Vec<i64>) -> (r: i128)
    requires
        a@.len() == b@.len(),
        bounded_vector(a@),
        bounded_vector(b@),
    ensures
        r == dot_spec(a@, b@),
{
    let len: usize = a.len();
    let mut s0: i128 = 0;
    let mut s1: i128 = 0;
    let mut s2: i128 = 0;
    let mut s3: i128 = 0;
    let mut i: usize = 0;
    while i + 4 <= len
        invariant
            0 <= i <= len,
            len == a@.len(),
            a@.len() == b@.len(),
            bounded_vector(a@),
            bounded_vector(b@),
            s0 + s1 + s2 + s3 == dot_prefix(a@, b@, i as int),
            -(i as int * COMPONENT_PRODUCT_BOUND) <= s0 <= i as int * COMPONENT_PRODUCT_BOUND,
            -(i as int * COMPONENT_PRODUCT_BOUND) <= s1 <= i as int * COMPONENT_PRODUCT_BOUND,
            -(i as int * COMPONENT_PRODUCT_BOUND) <= s2 <= i as int * COMPONENT_PRODUCT_BOUND,
            -(i as int * COMPONENT_PRODUCT_BOUND) <= s3 <= i as int * COMPONENT_PRODUCT_BOUND,
        decreases len - i,
    {
        proof {
            let ii = i as int;
            assert(forall|j: int|
                ii <= j < ii + 4 ==> -COMPONENT_PRODUCT_BOUND <= #[trigger] (a@[j] * b@[j])
                    <= COMPONENT_PRODUCT_BOUND) by {
                assert forall|j: int|
                    ii <= j < ii + 4 implies -COMPONENT_PRODUCT_BOUND <= #[trigger] (a@[j] * b@[j])
                    <= COMPONENT_PRODUCT_BOUND by {
                    assert(-COMPONENT_PRODUCT_BOUND <= a@[j] * b@[j] <= COMPONENT_PRODUCT_BOUND)
                        by (nonlinear_arith)
                        requires
                            -VEC_COMPONENT_LIMIT <= a@[j] <= VEC_COMPONENT_LIMIT,
                            -VEC_COMPONENT_LIMIT <= b@[j] <= VEC_COMPONENT_LIMIT,
                    ;
                }
            }
            assert(dot_prefix(a@, b@, ii + 1) == dot_prefix(a@, b@, ii) + a@[ii] * b@[ii]);
            assert(dot_prefix(a@, b@, ii + 2) == dot_prefix(a@, b@, ii + 1) + a@[ii + 1] * b@[ii
                + 1]);
            assert(dot_prefix(a@, b@, ii + 3) == dot_prefix(a@, b@, ii + 2) + a@[ii + 2] * b@[ii
                + 2]);
            assert(dot_prefix(a@, b@, ii + 4) == dot_prefix(a@, b@, ii + 3) + a@[ii + 3] * b@[ii
                + 3]);
        }
        s0 = s0 + (a[i] as i128) * (b[i] as i128);
        s1 = s1 + (a[i + 1] as i128) * (b[i + 1] as i128);
        s2 = s2 + (a[i + 2] as i128) * (b[i + 2] as i128);
        s3 = s3 + (a[i + 3] as i128) * (b[i + 3] as i128);
        i = i + 4;
    }
    let mut sum: i128 = s0 + s1 + s2 + s3;
    while i < len
        invariant
            0 <= i <= len,
            len == a@.len(),
            a@.len() == b@.len(),
            bounded_vector(a@),
            bounded_vector(b@),
            sum == dot_prefix(a@, b@, i as int),
        decreases len - i,
    {
        proof {
            lemma_dot_prefix_bound(a@, b@, i as int);
            assert(-COMPONENT_PRODUCT_BOUND <= a@[i as int] * b@[i as int]
                <= COMPONENT_PRODUCT_BOUND) by (nonlinear_arith)
                requires
                    -VEC_COMPONENT_LIMIT <= a@[i as int] <= VEC_COMPONENT_LIMIT,
                    -VEC_COMPONENT_LIMIT <= b@[i as int] <= VEC_COMPONENT_LIMIT,
            ;
        }
        sum = sum + (a[i] as i128) * (b[i] as i128);
        i = i + 1;
    }
    sum
}

/// The two dot-product paths agree exactly on every pair of bounded vectors:
/// both compute `dot_spec`.
pub proof fn lemma_dot_paths_agree(a: Seq<i64>, b: Seq<i64>, r_simd: int, r_fallback: int)
    requires
        r_simd == dot_spec(a, b),
        r_fallback == dot_spec(a, b),
    ensures
        r_simd == r_fallback,
{
}

/// Fixed-point L2 norm: floor square root of the self dot product.
/// The result carries the scale `SCALE`, like the vector components.
pub open spec fn norm_spec(v: Seq<i64>) -> int {
    isqrt_spec(dot_spec(v, v) as nat) as int
}

/// Fixed-point cosine similarity of `a` and `b`:
/// `dot(a, b) * SCALE / (norm(a) * norm(b))`, clamped to `[-SCALE, SCALE]`
/// against floor-rounding of the norms; `0` for mismatched lengths or a zero
/// vector.
pub open spec fn cosine_spec(a: Seq<i64>, b: Seq<i64>) -> int {
    if a.len() != b.len() {
        0
    } else {
        let na = norm_spec(a);
        let nb = norm_spec(b);
        if na == 0 || nb == 0 {
            0
        } else {
            let d = dot_spec(a, b);
            if d >= 0 {
                vstd::math::min(d * SCALE / (na * nb), SCALE as int)
            } else {
                -vstd::math::min((-d) * SCALE / (na * nb), SCALE as int)
            }
        }
    }
}

/// L2 norm of a fixed-point vector.
pub fn l2_norm(v: &Vec<i64>) -> (r: i64)
    requires
        bounded_vector(v@),
    ensures
        r == norm_spec(v@),
        0 <= r < 0x4000000000000i64,
{
    let d: i128 = dot_product_simd(v, v);
    proof {
        lemma_dot_self_nonneg(v@, v@.len() as int);
        lemma_dot_prefix_bound(v@, v@, v@.len() as int);
        assert(v@.len() as int * COMPONENT_PRODUCT_BOUND <= 65536 * COMPONENT_PRODUCT_BOUND)
            by (nonlinear_arith)
            requires
                0 <= v@.len() as int <= 65536,
        ;
    }
    let r: u128 = isqrt(d as u128);
    r as i64
}

/// Cosine similarity of two fixed-point vectors, in `[-SCALE, SCALE]`.
///
/// Mismatched lengths and zero vectors give `0`: a zero vector counts as
/// maximally dissimilar to everything, including itself.
pub fn cosine_similarity(a: &Vec<i64>, b: &Vec<i64>) -> (r: i64)
    requires
        bounded_vector(a@),
        bounded_vector(b@),
    ensures
        r == cosine_spec(a@, b@),
        -SCALE <= r <= SCALE,
{
    proof {
        lemma_cosine_bounds(a@, b@);
    }
    if a.len() != b.len() {
        return 0;
    }
    let dot: i128 = dot_product_simd(a, b);
    let norm_a: i64 = l2_norm(a);
    let norm_b: i64 = l2_norm(b);
    if norm_a == 0 || norm_b == 0 {
        return 0;
    }
    proof {
        lemma_dot_prefix_bound(a@, b@, a@.len() as int);
        assert(a@.len() as int * COMPONENT_PRODUCT_BOUND <= 65536 * COMPONENT_PRODUCT_BOUND)
            by (nonlinear_arith)
            requires
                0 <= a@.len() as int <= 65536,
        ;
        assert(0 < (norm_a as int) * (norm_b as int) < 0x10000000000000000000000000int)
            by (nonlinear_arith)
            requires
                0 < norm_a < 0x4000000000000i64,
                0 < norm_b < 0x4000000000000i64,
        ;
    }
    let denom: u128 = (norm_a as u128) * (norm_b as u128);
    let neg: bool = dot < 0;
    let mag: u128 = if dot < 0 {
        (-dot) as u128
    } else {
        dot as u128
    };
    let scaled: u128 = mag * (SCALE as u128);
    let q: u128 = scaled / denom;
    let clamped: u128 = if q > SCALE as u128 {
        SCALE as u128
    } else {
        q
    };
    if neg {
        -(clamped as i64)
    } else {
        clamped as i64
    }
}

/// Cosine similarity always lies in `[-SCALE, SCALE]`.
pub proof fn lemma_cosine_bounds(a: Seq<i64>, b: Seq<i64>)
    ensures
        -SCALE <= cosine_spec(a, b) <= SCALE,
{
    if a.len() == b.len() {
        let na = norm_spec(a);
        let nb = norm_spec(b);
        lemma_isqrt_bounds(dot_spec(a, a) as nat);
        lemma_isqrt_bounds(dot_spec(b, b) as nat);
        if na != 0 && nb != 0 {
            let d = dot_spec(a, b);
            assert(na * nb > 0) by (nonlinear_arith)
                requires
                    na > 0,
                    nb > 0,
            ;
            if d >= 0 {
                vstd::arithmetic::div_mod::lemma_div_pos_is_pos(d * SCALE, na * nb);
                assert(d * SCALE >= 0) by (nonlinear_arith)
                    requires
                        d >= 0,
                        SCALE > 0,
                ;
            } else {
                vstd::arithmetic::div_mod::lemma_div_pos_is_pos((-d) * SCALE, na * nb);
                assert((-d) * SCALE >= 0) by (nonlinear_arith)
                    requires
                        -d >= 0,
                        SCALE > 0,
                ;
            }
        }
    }
}

/// A vector with a nonzero norm has cosine similarity exactly `SCALE`
/// (that is, `1.0`) with itself.
pub proof fn lemma_cosine_self(a: Seq<i64>)
    requires
        norm_spec(a) != 0,
    ensures
        cosine_spec(a, a) == SCALE,
{
    let na = norm_spec(a);
    let d = dot_spec(a, a);
    lemma_isqrt_bounds(d as nat);
    lemma_dot_self_nonneg(a, a.len() as int);
    assert(na * na <= d);
    assert(na * na > 0) by (nonlinear_arith)
        requires
            na > 0,
    ;
    assert(d * SCALE >= (na * na) * SCALE) by (nonlinear_arith)
        requires
            d >= na * na,
            SCALE > 0,
    ;
    assert(((na * na) * SCALE) / (na * na) == SCALE) by {
        vstd::arithmetic::div_mod::lemma_div_multiples_vanish(SCALE as int, na * na);
        assert((na * na) * SCALE == (na * na) * (SCALE as int)) by (nonlinear_arith);
    }
    vstd::arithmetic::div_mod::lemma_div_is_ordered((na * na) * SCALE, d * SCALE, na * na);
    assert(d * SCALE / (na * na) >= SCALE);
}

/// One hit of a similarity search: the matched pattern and its score.
pub struct SimilarityResult {
    /// The id of the matched pattern.
    pub pattern_id: String,
    /// Fixed-point cosine similarity of the query and the stored vector.
    pub score: i64,
    /// The matched pattern itself.
    pub pattern: Pattern,
}

/// Ghost image of a [`SimilarityResult`].
pub struct SimilarityResultView {
    pub pattern_id: Seq<char>,
    pub score: i64,
    pub pattern: PatternView,
}

impl View for SimilarityResult {
    type V = SimilarityResultView;

    open spec fn view(&self) -> SimilarityResultView {
        SimilarityResultView {
            pattern_id: self.pattern_id@,
            score: self.score,
            pattern: self.pattern@,
        }
    }
}

/// Optional constraints on a similarity search; the default is unfiltered.
pub struct SearchFilters {
    /// Keep only results scoring at least this much.
    pub min_score: Option<i64>,
    /// Keep only patterns with a file path matching this glob.
    pub file_path_glob: Option<String>,
    /// Restrict candidates to patterns carrying any of these tags.
    pub tags: Vec<String>,
    /// Keep only patterns at least this recent.
    pub since_timestamp: Option<i64>,
}

impl Default for SearchFilters {
    /// The unfiltered search.
    fn default() -> (r: Self)
        ensures
            r.min_score is None,
            r.file_path_glob is None,
            r.tags@.len() == 0,
            r.since_timestamp is None,
    {
        SearchFilters { min_score: None, file_path_glob: None, tags: Vec::new(), since_timestamp: None }
    }
}

/// Whether both halves of pattern `id` are stored: the unfiltered search
/// considers exactly these patterns.
pub open spec fn spec_stored(store: VectorStore, id: Seq<char>) -> bool {
    store.spec_embedding(id) is Some && store.spec_pattern(id) is Some
}

/// The similarity score of stored pattern `id` against `query`; `0` when no
/// embedding is stored.
pub open spec fn spec_score(store: VectorStore, query: Seq<i64>, id: Seq<char>) -> int {
    match store.spec_embedding(id) {
        Some(rec) => cosine_spec(query, rec@.vector),
        None => 0,
    }
}

/// Whether `id` is selected by the candidate-narrowing phase: by tag-index
/// union when tags are requested (a logical OR across the tags), by glob
/// scan when a path glob is given, and otherwise every stored pattern.
pub open spec fn spec_candidate(
    store: VectorStore,
    filters: SearchFilters,
    id: Seq<char>,
) -> bool {
    if filters.tags@.len() > 0 {
        exists|j: int|
            0 <= j < filters.tags@.len() && store.spec_tag_ids(
                #[trigger] filters.tags@[j]@,
            ).contains(id)
    } else {
        match filters.file_path_glob {
            Some(g) => store.spec_pattern(id) matches Some(p) && exists|j: int|
                0 <= j < p@.file_paths.len() && glob_matches(g@, #[trigger] p@.file_paths[j]),
            None => store.spec_pattern(id) is Some,
        }
    }
}

/// Whether candidate `id` survives the per-candidate filters: both record
/// halves stored, recent enough, and scoring at least the threshold.
pub open spec fn spec_survivor(
    store: VectorStore,
    query: Seq<i64>,
    filters: SearchFilters,
    id: Seq<char>,
) -> bool {
    &&& spec_candidate(store, filters, id)
    &&& store.spec_embedding(id) is Some
    &&& store.spec_pattern(id) is Some
    &&& (filters.since_timestamp matches Some(since) ==> store.spec_pattern(
        id,
    )->Some_0@.timestamp >= since)
    &&& (filters.min_score matches Some(ms) ==> spec_score(store, query, id) >= ms)
}

/// A result list sorted by descending score.
pub open spec fn sorted_desc(s: Seq<SimilarityResult>) -> bool {
    forall|x: int, y: int| 0 <= x < y < s.len() ==> s[x].score >= s[y].score
}

/// Whether some result in `s` carries pattern id `id`.
pub open spec fn in_results(s: Seq<SimilarityResult>, id: Seq<char>) -> bool {
    exists|x: int| 0 <= x < s.len() && s[x].pattern_id@ == id
}

/// A correct result entry: a survivor, reported with its stored pattern and
/// its true score.
pub open spec fn result_entry_ok(
    store: VectorStore,
    query: Seq<i64>,
    filters: SearchFilters,
    r: SimilarityResult,
) -> bool {
    &&& spec_survivor(store, query, filters, r.pattern_id@)
    &&& (store.spec_pattern(r.pattern_id@) matches Some(p) && r.pattern@ == p@)
    &&& r.score == spec_score(store, query, r.pattern_id@)
}

/// Every result in `s` carries an id from the first `c` candidates.
pub open spec fn from_candidates(s: Seq<SimilarityResult>, cd: Seq<Seq<char>>, c: int) -> bool {
    forall|x: int|
        0 <= x < s.len() ==> exists|ci: int| 0 <= ci < c && cd[ci] == (#[trigger] s[x]).pattern_id@
}

/// Pushing onto an id list extends what it contains by exactly the new id.
pub proof fn lemma_push_contains(s: Seq<Seq<char>>, x: Seq<char>, id: Seq<char>)
    ensures
        s.push(x).contains(id) <==> (s.contains(id) || id == x),
{
    if s.push(x).contains(id) {
        let i = choose|i: int| 0 <= i < s.push(x).len() && s.push(x)[i] == id;
        if i < s.len() {
            assert(s[i] == id);
        }
    }
    if s.contains(id) {
        let i = choose|i: int| 0 <= i < s.len() && s[i] == id;
        assert(s.push(x)[i] == id);
    }
    if id == x {
        assert(s.push(x)[s.len() as int] == id);
    }
}

/// Whether `ids` holds a string with view `id@`.
fn contains_id(ids: &Vec<String>, id: &String) -> (r: bool)
    ensures
        r == ids.deep_view().contains(id@),
{
    let mut j: usize = 0;
    while j < ids.len()
        invariant
            0 <= j <= ids@.len(),
            forall|q: int| 0 <= q < j ==> #[trigger] ids.deep_view()[q] != id@,
        decreases ids@.len() - j,
    {
        if ids[j] == *id {
            proof {
                assert(ids.deep_view()[j as int] == id@);
            }
            return true;
        }
        proof {
            assert(ids.deep_view()[j as int] == ids@[j as int]@);
        }
        j = j + 1;
    }
    proof {
        if ids.deep_view().contains(id@) {
            let q = choose|q: int|
                0 <= q < ids.deep_view().len() && ids.deep_view()[q] == id@;
            assert(ids.deep_view()[q] != id@);
        }
    }
    false
}

/// Admits `item` into the bounded top-`k` list `top`, kept sorted by
/// descending score: the item is placed at its rank and, past capacity, the
/// lowest-scoring entry is evicted — the bounded-memory top-k maintenance
/// step.
fn insert_top(top: &mut Vec<SimilarityResult>, item: SimilarityResult, k: usize)
    requires
        1 <= k,
        old(top)@.len() <= k,
        sorted_desc(old(top)@),
    ensures
        sorted_desc(final(top)@),
        final(top)@.len() <= k,
        old(top)@.len() < k ==> final(top)@.len() == old(top)@.len() + 1,
        old(top)@.len() == k ==> final(top)@.len() == k,
        forall|x: int|
            0 <= x < final(top)@.len() ==> final(top)@[x] == item || old(top)@.contains(
                #[trigger] final(top)@[x],
            ),
        final(top)@.contains(item) || (final(top)@.len() == k && forall|x: int|
            0 <= x < final(top)@.len() ==> #[trigger] final(top)@[x].score >= item.score),
        forall|e: SimilarityResult|
            old(top)@.contains(e) ==> final(top)@.contains(e) || (final(top)@.len() == k
                && forall|x: int|
                0 <= x < final(top)@.len() ==> #[trigger] final(top)@[x].score >= e.score),
        old(top)@.len() == k ==> forall|x: int|
            0 <= x < final(top)@.len() ==> #[trigger] final(top)@[x].score >= old(top)@[k
                - 1].score,
        (forall|x: int, y: int| 0 <= x < y < old(top)@.len() ==> old(top)@[x] != old(top)@[y])
            && !old(top)@.contains(item) ==> (forall|x: int, y: int|
            0 <= x < y < final(top)@.len() ==> final(top)@[x] != final(top)@[y]),
{
    let ghost t0 = top@;
    let mut pos: usize = 0;
    while pos < top.len() && top[pos].score >= item.score
        invariant
            0 <= pos <= t0.len(),
            top@ == t0,
            sorted_desc(t0),
            t0.len() <= k,
            forall|j: int| 0 <= j < pos ==> #[trigger] t0[j].score >= item.score,
        decreases t0.len() - pos,
    {
        pos = pos + 1;
    }
    let ghost hit_end = pos == t0.len();
    proof {
        if !hit_end {
            assert(t0[pos as int].score < item.score);
        }
    }
    top.insert(pos, item);
    let ghost t1 = top@;
    proof {
        assert(t1 =~= t0.insert(pos as int, item));
        assert(t1[pos as int] == item);
        if !t0.contains(item) {
            assert forall|x: int| 0 <= x < t1.len() && x != pos implies #[trigger] t1[x]
                != item by {
                if x < pos {
                    assert(t1[x] == t0[x]);
                    assert(t0.contains(t0[x]));
                } else {
                    assert(t1[x] == t0[x - 1]);
                    assert(t0.contains(t0[x - 1]));
                }
            }
            if forall|x: int, y: int| 0 <= x < y < t0.len() ==> t0[x] != t0[y] {
                assert forall|x: int, y: int| 0 <= x < y < t1.len() implies t1[x] != t1[y] by {
                    if x == pos {
                        assert(t1[y] != item);
                    } else if y == pos {
                        assert(t1[x] != item);
                    } else {
                        let x0: int = if x < pos {
                            x
                        } else {
                            x - 1
                        };
                        let y0: int = if y < pos {
                            y
                        } else {
                            y - 1
                        };
                        assert(t1[x] == t0[x0] && t1[y] == t0[y0]);
                        assert(x0 < y0);
                    }
                }
            }
        }
        assert forall|x: int, y: int| 0 <= x < y < t1.len() implies t1[x].score >= t1[y].score by {
            if x < pos && y < pos {
                assert(t1[x] == t0[x] && t1[y] == t0[y]);
            } else if x < pos && y == pos {
                assert(t1[x] == t0[x]);
            } else if x < pos && y > pos {
                assert(t1[x] == t0[x] && t1[y] == t0[y - 1]);
                assert(x < y - 1);
                assert(t0[x].score >= t0[y - 1].score);
            } else if x == pos {
                assert(t1[y] == t0[y - 1]);
                assert(y - 1 >= pos);
                assert(item.score > t0[pos as int].score);
                if y - 1 > pos {
                    assert(t0[pos as int].score >= t0[y - 1].score);
                }
            } else {
                assert(t1[x] == t0[x - 1] && t1[y] == t0[y - 1]);
                assert(t0[x - 1].score >= t0[y - 1].score);
            }
        }
    }
    if top.len() > k {
        let ghost dropped = t1[t1.len() - 1];
        let popped = top.pop();
        proof {
            assert(top@ =~= t1.drop_last());
            assert forall|x: int, y: int| 0 <= x < y < top@.len() implies top@[x].score
                >= top@[y].score by {
                assert(t1[x].score >= t1[y].score);
            }
            assert forall|x: int| 0 <= x < top@.len() implies #[trigger] top@[x].score
                >= dropped.score by {
                assert(t1[x].score >= t1[t1.len() - 1].score);
            }
            assert forall|x: int|
                0 <= x < top@.len() implies top@[x] == item || t0.contains(
                #[trigger] top@[x]) by {
                if x < pos {
                    assert(top@[x] == t0[x]);
                } else if x == pos {
                } else {
                    assert(top@[x] == t0[x - 1]);
                }
            }
            if dropped == item {
                assert(forall|x: int|
                    0 <= x < top@.len() ==> #[trigger] top@[x].score >= item.score);
            } else {
                assert(t1.len() - 1 != pos);
                assert(dropped == t0[t1.len() - 2]);
                assert(t0.len() == k);
                assert(top@.contains(item)) by {
                    assert(top@[pos as int] == item);
                }
            }
            assert forall|e: SimilarityResult| t0.contains(e) implies top@.contains(e) || (
            top@.len() == k && forall|x: int|
                0 <= x < top@.len() ==> #[trigger] top@[x].score >= e.score) by {
                let i = choose|i: int| 0 <= i < t0.len() && t0[i] == e;
                let i1: int = if i < pos {
                    i
                } else {
                    i + 1
                };
                assert(t1[i1] == e);
                if i1 < t1.len() - 1 {
                    assert(top@[i1] == e);
                    assert(top@.contains(e));
                } else {
                    assert(e == dropped);
                }
            }
            if t0.len() == k {
                assert forall|x: int| 0 <= x < top@.len() implies #[trigger] top@[x].score >= t0[
                    k - 1].score by {
                    assert(t1[x].score >= t1[t1.len() - 1].score);
                    if t1.len() - 1 == pos {
                        assert(top@ =~= t0);
                        assert(t0[x].score >= t0[k - 1].score);
                    } else {
                        assert(t1[t1.len() - 1] == t0[t1.len() - 2]);
                        assert(t1.len() - 2 == k - 1);
                    }
                }
            }
        }
    } else {
        proof {
            assert forall|x: int|
                0 <= x < top@.len() implies top@[x] == item || t0.contains(
                #[trigger] top@[x]) by {
                if x < pos {
                    assert(top@[x] == t0[x]);
                } else if x > pos {
                    assert(top@[x] == t0[x - 1]);
                }
            }
            assert(top@.contains(item)) by {
                assert(top@[pos as int] == item);
            }
            assert forall|e: SimilarityResult| t0.contains(e) implies top@.contains(e) by {
                let i = choose|i: int| 0 <= i < t0.len() && t0[i] == e;
                if i < pos {
                    assert(top@[i] == e);
                } else {
                    assert(top@[i + 1] == e);
                }
            }
            if t0.len() == k {
                assert(t1.len() > k);
                assert(false);
            }
        }
    }
}

/// The search engine: exact cosine-similarity top-k selection over a
/// [`VectorStore`], with candidate narrowing through the secondary indexes.
pub struct SimilaritySearch<'a> {
    store: &'a VectorStore,
}

impl<'a> SimilaritySearch<'a> {
    /// The store this engine searches.
    pub closed spec fn spec_store(self) -> VectorStore {
        *self.store
    }

    /// A search engine over `store`.
    pub fn new(store: &'a VectorStore) -> (r: Self)
        ensures
            r.spec_store() == *store,
    {
        SimilaritySearch { store }
    }

    /// Candidate ids for the given filters: the tag-index union, the glob
    /// scan, or every stored pattern.
    fn candidate_ids(&self, filters: &SearchFilters) -> (r: Result<Vec<String>, TemporalAIError>)
        requires
            self.spec_store().wf(),
        ensures
            match r {
                Ok(c) => no_dup_ids(c.deep_view()) && (forall|id: Seq<char>|
                    c.deep_view().contains(id) <==> spec_candidate(
                        self.spec_store(),
                        *filters,
                        id,
                    )) && (filters.tags@.len() == 0 && filters.file_path_glob is Some
                    ==> glob_valid(filters.file_path_glob->Some_0@)),
                Err(e) => e is IoError && filters.tags@.len() == 0 && (filters.file_path_glob
                    matches Some(g) && !glob_valid(g@)),
            },
    {
        let ghost st = self.spec_store();
        if filters.tags.len() > 0 {
            let mut out: Vec<String> = Vec::new();
            let mut ti: usize = 0;
            while ti < filters.tags.len()
                invariant
                    0 <= ti <= filters.tags@.len(),
                    st == self.spec_store(),
                    no_dup_ids(out.deep_view()),
                    forall|id: Seq<char>|
                        out.deep_view().contains(id) <==> exists|j: int|
                            0 <= j < ti && st.spec_tag_ids(#[trigger] filters.tags@[j]@).contains(
                                id,
                            ),
                decreases filters.tags@.len() - ti,
            {
                let ids = match self.store.find_by_tag(filters.tags[ti].as_str()) {
                    Ok(v) => v,
                    Err(e) => {
                        proof {
                            assert(false);
                        }
                        return Err(e);
                    },
                };
                let ghost tagv = filters.tags@[ti as int]@;
                let mut ii: usize = 0;
                while ii < ids.len()
                    invariant
                        0 <= ii <= ids@.len(),
                        st == self.spec_store(),
                        0 <= ti < filters.tags@.len(),
                        tagv == filters.tags@[ti as int]@,
                        ids.deep_view() == st.spec_tag_ids(tagv),
                        no_dup_ids(out.deep_view()),
                        forall|id: Seq<char>|
                            out.deep_view().contains(id) <==> ((exists|j: int|
                                0 <= j < ti && st.spec_tag_ids(
                                    #[trigger] filters.tags@[j]@,
                                ).contains(id)) || (exists|q: int|
                                0 <= q < ii && ids.deep_view()[q] == id)),
                    decreases ids@.len() - ii,
                {
                    let ghost out0 = out.deep_view();
                    let ghost idv = ids@[ii as int]@;
                    proof {
                        assert(ids.deep_view()[ii as int] == idv);
                    }
                    if !contains_id(&out, &ids[ii]) {
                        out.push(ids[ii].clone());
                        proof {
                            assert(out.deep_view() =~= out0.push(idv));
                            assert forall|a: int, b: int|
                                0 <= a < b < out.deep_view().len() implies out.deep_view()[a]
                                != out.deep_view()[b] by {
                                if b < out0.len() {
                                    assert(out0[a] != out0[b]);
                                } else {
                                    assert(out.deep_view()[b] == idv);
                                    if out0[a] == idv {
                                        assert(out0.contains(idv));
                                    }
                                }
                            }
                            assert forall|id: Seq<char>|
                                out.deep_view().contains(id) <==> ((exists|j: int|
                                    0 <= j < ti && st.spec_tag_ids(
                                        #[trigger] filters.tags@[j]@,
                                    ).contains(id)) || (exists|q: int|
                                    0 <= q < ii + 1 && ids.deep_view()[q] == id)) by {
                                lemma_push_contains(out0, idv, id);
                                if id == idv {
                                    assert(ids.deep_view()[ii as int] == id);
                                }
                            }
                        }
                    } else {
                        proof {
                            assert forall|id: Seq<char>|
                                out.deep_view().contains(id) <==> ((exists|j: int|
                                    0 <= j < ti && st.spec_tag_ids(
                                        #[trigger] filters.tags@[j]@,
                                    ).contains(id)) || (exists|q: int|
                                    0 <= q < ii + 1 && ids.deep_view()[q] == id)) by {
                                if id == idv {
                                    assert(ids.deep_view()[ii as int] == id);
                                }
                            }
                        }
                    }
                    ii = ii + 1;
                }
                proof {
                    assert forall|id: Seq<char>|
                        out.deep_view().contains(id) <==> exists|j: int|
                            0 <= j < ti + 1 && st.spec_tag_ids(
                                #[trigger] filters.tags@[j]@,
                            ).contains(id) by {
                        assert((exists|q: int|
                            0 <= q < ids.deep_view().len() && ids.deep_view()[q] == id)
                            == st.spec_tag_ids(tagv).contains(id));
                        if st.spec_tag_ids(tagv).contains(id) {
                            assert(st.spec_tag_ids(filters.tags@[ti as int]@).contains(id));
                        }
                    }
                }
                ti = ti + 1;
            }
            Ok(out)
        } else {
            match &filters.file_path_glob {
                Some(g) => {
                    match glob_check(g.as_str()) {
                        Err(msg) => Err(TemporalAIError::IoError(msg)),
                        Ok(()) => {
                            let ids = match self.store.list_patterns() {
                                Ok(v) => v,
                                Err(e) => {
                                    proof {
                                        assert(false);
                                    }
                                    return Err(e);
                                },
                            };
                            proof {
                                self.spec_store().lemma_pattern_ids();
                            }
                            let mut out: Vec<String> = Vec::new();
                            let mut ci: usize = 0;
                            while ci < ids.len()
                                invariant
                                    0 <= ci <= ids@.len(),
                                    st == self.spec_store(),
                                    st.wf(),
                                    glob_valid(g@),
                                    filters.tags@.len() == 0,
                                    filters.file_path_glob is Some,
                                    filters.file_path_glob->Some_0@ == g@,
                                    ids.deep_view() == st.spec_pattern_ids(),
                                    no_dup_ids(ids.deep_view()),
                                    forall|id: Seq<char>|
                                        st.spec_pattern_ids().contains(id)
                                            <==> (#[trigger] st.spec_pattern(id)) is Some,
                                    no_dup_ids(out.deep_view()),
                                    forall|id: Seq<char>|
                                        out.deep_view().contains(id) <==> ((exists|q: int|
                                            0 <= q < ci && ids.deep_view()[q] == id)
                                            && spec_candidate(st, *filters, id)),
                                decreases ids@.len() - ci,
                            {
                                let ghost idv = ids@[ci as int]@;
                                proof {
                                    assert(ids.deep_view()[ci as int] == idv);
                                }
                                let popt = match self.store.get_pattern(ids[ci].as_str()) {
                                    Ok(o) => o,
                                    Err(e) => {
                                        proof {
                                            assert(false);
                                        }
                                        return Err(e);
                                    },
                                };
                                let mut matched = false;
                                match popt {
                                    Some(p) => {
                                        let ghost pv = st.spec_pattern(idv)->Some_0@;
                                        let mut fj: usize = 0;
                                        let mut any = false;
                                        while fj < p.file_paths.len()
                                            invariant
                                                0 <= fj <= p.file_paths@.len(),
                                                glob_valid(g@),
                                                p@ == pv,
                                                any == exists|j: int|
                                                    0 <= j < fj && glob_matches(
                                                        g@,
                                                        #[trigger] pv.file_paths[j],
                                                    ),
                                            decreases p.file_paths@.len() - fj,
                                        {
                                            proof {
                                                assert(p.file_paths.deep_view()[fj as int]
                                                    == p.file_paths@[fj as int]@);
                                            }
                                            if glob_match(g.as_str(), p.file_paths[fj].as_str()) {
                                                any = true;
                                                proof {
                                                    assert(glob_matches(
                                                        g@,
                                                        pv.file_paths[fj as int],
                                                    ));
                                                }
                                            }
                                            fj = fj + 1;
                                        }
                                        matched = any;
                                    },
                                    None => {},
                                }
                                let ghost out0 = out.deep_view();
                                if matched {
                                    out.push(ids[ci].clone());
                                    proof {
                                        assert(out.deep_view() =~= out0.push(idv));
                                        assert(spec_candidate(st, *filters, idv));
                                        if out0.contains(idv) {
                                            let q = choose|q: int|
                                                0 <= q < ci && ids.deep_view()[q] == idv;
                                            assert(ids.deep_view()[q] == ids.deep_view()[
                                            ci as int]);
                                        }
                                        assert forall|a: int, b: int|
                                            0 <= a < b < out.deep_view().len() implies
                                            out.deep_view()[a] != out.deep_view()[b] by {
                                            if b < out0.len() {
                                                assert(out0[a] != out0[b]);
                                            } else {
                                                assert(out.deep_view()[b] == idv);
                                                if out0[a] == idv {
                                                    assert(out0.contains(idv));
                                                }
                                            }
                                        }
                                        assert forall|id: Seq<char>|
                                            out.deep_view().contains(id) <==> ((exists|q: int|
                                                0 <= q < ci + 1 && ids.deep_view()[q] == id)
                                                && spec_candidate(st, *filters, id)) by {
                                            lemma_push_contains(out0, idv, id);
                                            if id == idv {
                                                assert(ids.deep_view()[ci as int] == id);
                                            }
                                        }
                                    }
                                } else {
                                    proof {
                                        assert(!spec_candidate(st, *filters, idv));
                                        assert forall|id: Seq<char>|
                                            out.deep_view().contains(id) <==> ((exists|q: int|
                                                0 <= q < ci + 1 && ids.deep_view()[q] == id)
                                                && spec_candidate(st, *filters, id)) by {
                                            if id == idv {
                                                assert(ids.deep_view()[ci as int] == id);
                                            }
                                        }
                                    }
                                }
                                ci = ci + 1;
                            }
                            proof {
                                assert forall|id: Seq<char>|
                                    out.deep_view().contains(id) <==> spec_candidate(
                                        st,
                                        *filters,
                                        id,
                                    ) by {
                                    if spec_candidate(st, *filters, id) {
                                        assert(st.spec_pattern(id) is Some);
                                        assert(ids.deep_view().contains(id));
                                    }
                                }
                            }
                            Ok(out)
                        },
                    }
                },
                None => {
                    let ids = match self.store.list_patterns() {
                        Ok(v) => v,
                        Err(e) => {
                            proof {
                                assert(false);
                            }
                            return Err(e);
                        },
                    };
                    proof {
                        self.spec_store().lemma_pattern_ids();
                    }
                    Ok(ids)
                },
            }
        }
    }

    /// The `k` stored patterns most similar to the query, without filters:
    /// sorted by descending score, each reported with its stored pattern and
    /// exact score, and any stored pattern left out scores no better than
    /// everything returned, and then only because all `k` places are taken.
    /// Equal scores are broken deterministically: the candidate whose
    /// pattern was stored earlier keeps the earlier place.
    pub fn search(&self, query_embedding: &Vec<i64>, k: usize) -> (r: Result<
        Vec<SimilarityResult>,
        TemporalAIError,
    >)
        requires
            self.spec_store().wf(),
            bounded_vector(query_embedding@),
        ensures
            r is Ok,
            match r {
                Ok(res) => {
                    &&& sorted_desc(res@)
                    &&& res@.len() <= k
                    &&& forall|x: int|
                        #![trigger res@[x]]
                        0 <= x < res@.len() ==> {
                            &&& spec_stored(self.spec_store(), res@[x].pattern_id@)
                            &&& (self.spec_store().spec_pattern(res@[x].pattern_id@) matches Some(p)
                                && res@[x].pattern@ == p@)
                            &&& res@[x].score == spec_score(
                                self.spec_store(),
                                query_embedding@,
                                res@[x].pattern_id@,
                            )
                        }
                    &&& forall|x: int, y: int|
                        0 <= x < y < res@.len() ==> res@[x].pattern_id@ != res@[y].pattern_id@
                    &&& forall|id: Seq<char>|
                        #[trigger] spec_stored(self.spec_store(), id) && !in_results(res@, id)
                            ==> res@.len() == k && (forall|x: int|
                            0 <= x < res@.len() ==> #[trigger] res@[x].score >= spec_score(
                                self.spec_store(),
                                query_embedding@,
                                id,
                            ))
                },
                Err(_) => false,
            },
    {
        let filters = SearchFilters::default();
        let r = self.search_filtered(query_embedding, k, &filters);
        proof {
            let st = self.spec_store();
            let q = query_embedding@;
            if r is Err {
                assert(false);
            }
            let res = r->Ok_0;
            assert forall|id: Seq<char>|
                spec_survivor(st, q, filters, id) == spec_stored(st, id) by {
                assert(spec_candidate(st, filters, id) == (st.spec_pattern(id) is Some));
            }
            assert forall|x: int| #![trigger res@[x]] 0 <= x < res@.len() implies {
                &&& spec_stored(st, res@[x].pattern_id@)
                &&& (st.spec_pattern(res@[x].pattern_id@) matches Some(p) && res@[x].pattern@ == p@)
                &&& res@[x].score == spec_score(st, q, res@[x].pattern_id@)
            } by {
                assert(result_entry_ok(st, q, filters, res@[x]));
            }
        }
        r
    }

    /// The `k` stored patterns most similar to the query, after filtering:
    /// sorted by descending score, each reported with its stored pattern and
    /// exact score, and nothing better left out — any surviving pattern that
    /// is missing from the result scores no better than everything returned,
    /// and then only because all `k` places are taken.  Equal scores are
    /// broken deterministically, earlier-stored candidates first.  Fails
    /// only on a malformed file-path glob.
    pub fn search_filtered(
        &self,
        query_embedding: &Vec<i64>,
        k: usize,
        filters: &SearchFilters,
    ) -> (r: Result<Vec<SimilarityResult>, TemporalAIError>)
        requires
            self.spec_store().wf(),
            bounded_vector(query_embedding@),
        ensures
            match r {
                Ok(res) => {
                    &&& sorted_desc(res@)
                    &&& res@.len() <= k
                    &&& forall|x: int|
                        0 <= x < res@.len() ==> result_entry_ok(
                            self.spec_store(),
                            query_embedding@,
                            *filters,
                            #[trigger] res@[x],
                        )
                    &&& forall|x: int, y: int|
                        0 <= x < y < res@.len() ==> res@[x].pattern_id@ != res@[y].pattern_id@
                    &&& forall|id: Seq<char>|
                        #[trigger] spec_survivor(self.spec_store(), query_embedding@, *filters, id)
                            && !in_results(res@, id) ==> res@.len() == k && (forall|x: int|
                            0 <= x < res@.len() ==> #[trigger] res@[x].score >= spec_score(
                                self.spec_store(),
                                query_embedding@,
                                id,
                            ))
                },
                Err(e) => e is IoError && filters.tags@.len() == 0 && (filters.file_path_glob
                    matches Some(g) && !glob_valid(g@)),
            },
            filters.tags@.len() == 0 && filters.file_path_glob is Some && !glob_valid(
                filters.file_path_glob->Some_0@,
            ) ==> r is Err,
    {
        let ghost st = self.spec_store();
        let ghost q = query_embedding@;
        let cands = match self.candidate_ids(filters) {
            Ok(c) => c,
            Err(e) => {
                return Err(e);
            },
        };
        let ghost cd = cands.deep_view();
        let mut top: Vec<SimilarityResult> = Vec::new();
        if k == 0 {
            return Ok(top);
        }
        let mut c: usize = 0;
        while c < cands.len()
            invariant
                0 <= c <= cands@.len(),
                1 <= k,
                st == self.spec_store(),
                st.wf(),
                q == query_embedding@,
                bounded_vector(q),
                cd == cands.deep_view(),
                no_dup_ids(cd),
                forall|id: Seq<char>| cd.contains(id) <==> spec_candidate(st, *filters, id),
                sorted_desc(top@),
                top@.len() <= k,
                forall|x: int|
                    0 <= x < top@.len() ==> result_entry_ok(st, q, *filters, #[trigger] top@[x]),
                from_candidates(top@, cd, c as int),
                forall|x: int, y: int|
                    0 <= x < y < top@.len() ==> top@[x].pattern_id@ != top@[y].pattern_id@,
                forall|ci: int|
                    0 <= ci < c && spec_survivor(st, q, *filters, #[trigger] cd[ci]) ==> in_results(
                        top@,
                        cd[ci],
                    ) || (top@.len() == k && forall|x: int|
                        0 <= x < top@.len() ==> #[trigger] top@[x].score >= spec_score(
                            st,
                            q,
                            cd[ci],
                        )),
            decreases cands@.len() - c,
        {
            let ghost idv = cands@[c as int]@;
            proof {
                assert(cd[c as int] == idv);
            }
            let got = match self.store.get_embedding_and_pattern(cands[c].as_str()) {
                Ok(o) => o,
                Err(e) => {
                    proof {
                        assert(false);
                    }
                    return Err(e);
                },
            };
            let ghost top_before = top@;
            let mut skipped: bool = true;
            match got {
                None => {
                    proof {
                        assert(!spec_survivor(st, q, *filters, idv));
                    }
                },
                Some((emb, pat)) => {
                    let mut since_ok = true;
                    match filters.since_timestamp {
                        Some(since) => {
                            if pat.timestamp < since {
                                since_ok = false;
                            }
                        },
                        None => {},
                    }
                    if !since_ok {
                        proof {
                            assert(!spec_survivor(st, q, *filters, idv));
                        }
                    } else {
                        let score: i64 = cosine_similarity(query_embedding, &emb);
                        proof {
                            assert(score == spec_score(st, q, idv));
                        }
                        let mut score_ok = true;
                        match filters.min_score {
                            Some(ms) => {
                                if score < ms {
                                    score_ok = false;
                                }
                            },
                            None => {},
                        }
                        if !score_ok {
                            proof {
                                assert(!spec_survivor(st, q, *filters, idv));
                            }
                        } else {
                            skipped = false;
                            let item = SimilarityResult {
                                pattern_id: cands[c].clone(),
                                score,
                                pattern: pat,
                            };
                            proof {
                                assert(item.pattern_id@ == idv);
                                assert(cd.contains(idv)) by {
                                    assert(cd[c as int] == idv);
                                }
                                assert(result_entry_ok(st, q, *filters, item));
                                assert forall|x: int, y: int|
                                    0 <= x < y < top@.len() implies top@[x] != top@[y] by {
                                    assert(top@[x].pattern_id@ != top@[y].pattern_id@);
                                }
                                assert(!top@.contains(item)) by {
                                    if top@.contains(item) {
                                        let x0 = choose|x0: int|
                                            0 <= x0 < top@.len() && top@[x0] == item;
                                        let ci = choose|ci: int|
                                            0 <= ci < c && cd[ci] == top@[x0].pattern_id@;
                                        assert(cd[ci] == cd[c as int]);
                                    }
                                }
                            }
                            insert_top(&mut top, item, k);
                            proof {
                                assert forall|x: int|
                                    0 <= x < top@.len() implies result_entry_ok(
                                    st,
                                    q,
                                    *filters,
                                    #[trigger] top@[x],
                                ) by {
                                    if top@[x] != item {
                                        assert(top_before.contains(top@[x]));
                                        let i0 = choose|i0: int|
                                            0 <= i0 < top_before.len() && top_before[i0] == top@[x];
                                        assert(result_entry_ok(st, q, *filters, top_before[i0]));
                                    }
                                }
                                assert(from_candidates(top@, cd, c as int + 1)) by {
                                    assert forall|x: int|
                                        0 <= x < top@.len() implies exists|ci: int|
                                        0 <= ci < c + 1 && cd[ci] == (
                                        #[trigger] top@[x]).pattern_id@ by {
                                        if top@[x] == item {
                                            assert(cd[c as int] == top@[x].pattern_id@);
                                        } else {
                                            assert(top_before.contains(top@[x]));
                                            let i0 = choose|i0: int|
                                                0 <= i0 < top_before.len() && top_before[i0]
                                                    == top@[x];
                                            assert(from_candidates(top_before, cd, c as int));
                                            let ci = choose|ci: int|
                                                0 <= ci < c && cd[ci] == top_before[i0].pattern_id@;
                                            assert(cd[ci] == top@[x].pattern_id@);
                                        }
                                    }
                                }
                                assert forall|x: int, y: int|
                                    0 <= x < y < top@.len() implies top@[x].pattern_id@
                                    != top@[y].pattern_id@ by {
                                    lemma_distinct_after_insert(top_before, top@, item, cd, c as int);
                                }
                            }
                        }
                    }
                },
            }
            proof {
                if skipped {
                    assert(top@ == top_before);
                }
                assert forall|ci: int|
                    0 <= ci < c + 1 && spec_survivor(st, q, *filters, #[trigger] cd[ci]) implies
                    in_results(top@, cd[ci]) || (top@.len() == k && forall|x: int|
                        0 <= x < top@.len() ==> #[trigger] top@[x].score >= spec_score(
                            st,
                            q,
                            cd[ci],
                        )) by {
                    if ci == c {
                    } else {
                        if in_results(top_before, cd[ci]) {
                            let x0 = choose|x0: int|
                                0 <= x0 < top_before.len() && top_before[x0].pattern_id@ == cd[ci];
                            let e = top_before[x0];
                            if !skipped {
                                assert(top_before.contains(e));
                                if top@.contains(e) {
                                    let x1 = choose|x1: int|
                                        0 <= x1 < top@.len() && top@[x1] == e;
                                    assert(top@[x1].pattern_id@ == cd[ci]);
                                    assert(in_results(top@, cd[ci]));
                                } else {
                                    assert(result_entry_ok(st, q, *filters, e));
                                    assert(e.score == spec_score(st, q, cd[ci]));
                                }
                            } else {
                                assert(in_results(top@, cd[ci]));
                            }
                        } else {
                            assert(top_before.len() == k);
                            if !skipped {
                                assert(forall|x: int|
                                    0 <= x < top@.len() ==> #[trigger] top@[x].score
                                        >= top_before[k - 1].score);
                                assert(top_before[k - 1].score >= spec_score(st, q, cd[ci]));
                            }
                        }
                    }
                }
            }
            c = c + 1;
        }
        proof {
            assert forall|id: Seq<char>|
                #[trigger] spec_survivor(st, q, *filters, id) && !in_results(top@, id) implies
                top@.len() == k && (forall|x: int|
                    0 <= x < top@.len() ==> #[trigger] top@[x].score >= spec_score(st, q, id)) by {
                assert(spec_candidate(st, *filters, id));
                assert(cd.contains(id));
                let ci = choose|ci: int| 0 <= ci < cd.len() && cd[ci] == id;
                assert(spec_survivor(st, q, *filters, cd[ci]));
            }
        }
        Ok(top)
    }
}

/// After a top-k insertion every kept element is the new item or an old one;
/// with the new id fresh among the candidates the kept ids stay pairwise
/// distinct.
proof fn lemma_distinct_after_insert(
    before: Seq<SimilarityResult>,
    after: Seq<SimilarityResult>,
    item: SimilarityResult,
    cd: Seq<Seq<char>>,
    c: int,
)
    requires
        forall|x: int| 0 <= x < after.len() ==> after[x] == item || before.contains(
            #[trigger] after[x]),
        forall|x: int, y: int| 0 <= x < y < after.len() ==> after[x] != after[y],
        forall|x: int, y: int|
            0 <= x < y < before.len() ==> before[x].pattern_id@ != before[y].pattern_id@,
        from_candidates(before, cd, c),
        no_dup_ids(cd),
        0 <= c < cd.len(),
        item.pattern_id@ == cd[c],
    ensures
        forall|x: int, y: int|
            0 <= x < y < after.len() ==> after[x].pattern_id@ != after[y].pattern_id@,
{
    assert forall|x: int| 0 <= x < before.len() implies #[trigger] before[x].pattern_id@
        != item.pattern_id@ by {
        let ci = choose|ci: int| 0 <= ci < c && cd[ci] == before[x].pattern_id@;
        assert(cd[ci] != cd[c]);
    }
    assert forall|x: int, y: int| 0 <= x < y < after.len() implies after[x].pattern_id@
        != after[y].pattern_id@ by {
        assert(after[x] != after[y]);
        if after[x] == item {
            let i0 = choose|i0: int| 0 <= i0 < before.len() && before[i0] == after[y];
            assert(before[i0].pattern_id@ != item.pattern_id@);
        } else if after[y] == item {
            let i0 = choose|i0: int| 0 <= i0 < before.len() && before[i0] == after[x];
            assert(before[i0].pattern_id@ != item.pattern_id@);
        } else {
            let i0 = choose|i0: int| 0 <= i0 < before.len() && before[i0] == after[x];
            let i1 = choose|i1: int| 0 <= i1 < before.len() && before[i1] == after[y];
            assert(i0 != i1);
            if i0 < i1 {
                assert(before[i0].pattern_id@ != before[i1].pattern_id@);
            } else {
                assert(before[i1].pattern_id@ != before[i0].pattern_id@);
            }
        }
    }
}

/// Orthogonal vectors (zero dot product) have cosine similarity `0`.
pub proof fn lemma_cosine_orthogonal(a: Seq<i64>, b: Seq<i64>)
    requires
        dot_spec(a, b) == 0,
    ensures
        cosine_spec(a, b) == 0,
{
    if a.len() == b.len() {
        let na = norm_spec(a);
        let nb = norm_spec(b);
        if na != 0 && nb != 0 {
            assert(na * nb > 0) by (nonlinear_arith)
                requires
                    na > 0,
                    nb > 0,
            ;
            assert(0 * SCALE == 0) by (nonlinear_arith);
            vstd::arithmetic::div_mod::lemma_basic_div_specific_divisor(na * nb);
            assert(0int / (na * nb) == 0);
        }
    }
}

} // verus!
