//! Integer helpers for the fixed-point arithmetic used across the crate:
//! a verified floor square root and small division lemmas.

use vstd::prelude::*;

verus! {

/// Floor of the square root of `x`.
pub open spec fn isqrt_spec(x: nat) -> nat
    decreases x,
{
    if x == 0 {
        0
    } else {
        let r = isqrt_spec((x - 1) as nat);
        if (r + 1) * (r + 1) <= x {
            r + 1
        } else {
            r
        }
    }
}

/// `isqrt_spec(x)` is the unique `r` with `r * r <= x < (r + 1) * (r + 1)`.
pub proof fn lemma_isqrt_bounds(x: nat)
    ensures
        isqrt_spec(x) * isqrt_spec(x) <= x,
        x < (isqrt_spec(x) + 1) * (isqrt_spec(x) + 1),
    decreases x,
{
    if x == 0 {
        assert(isqrt_spec(0) == 0);
        assert(x < (isqrt_spec(x) + 1) * (isqrt_spec(x) + 1)) by (nonlinear_arith)
            requires
                x == 0,
                isqrt_spec(x) == 0,
        ;
    } else {
        lemma_isqrt_bounds((x - 1) as nat);
        let r = isqrt_spec((x - 1) as nat);
        if (r + 1) * (r + 1) <= x {
            assert(isqrt_spec(x) == r + 1);
            assert(x == (r + 1) * (r + 1));
            assert((r + 1) * (r + 1) < (r + 2) * (r + 2)) by (nonlinear_arith);
            assert(x < (isqrt_spec(x) + 1) * (isqrt_spec(x) + 1)) by (nonlinear_arith)
                requires
                    isqrt_spec(x) == r + 1,
                    x < (r + 2) * (r + 2),
            ;
        } else {
            assert(isqrt_spec(x) == r);
        }
    }
}

/// Any `r` in the right bracket equals `isqrt_spec(x)`.
pub proof fn lemma_isqrt_unique(x: nat, r: nat)
    requires
        r * r <= x,
        x < (r + 1) * (r + 1),
    ensures
        r == isqrt_spec(x),
{
    lemma_isqrt_bounds(x);
    let s = isqrt_spec(x);
    if r < s {
        assert((r + 1) * (r + 1) <= s * s) by (nonlinear_arith)
            requires
                r + 1 <= s,
        ;
    }
    if s < r {
        assert((s + 1) * (s + 1) <= r * r) by (nonlinear_arith)
            requires
                s + 1 <= r,
        ;
    }
}

/// Floor square root by bisection, for inputs below `2^100`.
pub fn isqrt(x: u128) -> (r: u128)
    requires
        x < 0x10000000000000000000000000u128,
    ensures
        r == isqrt_spec(x as nat),
        r * r <= x,
        x < (r + 1) * (r + 1),
        r < 0x4000000000000u128,
{
    let mut lo: u128 = 0;
    let mut hi: u128 = 0x4000000000000u128;
    while lo + 1 < hi
        invariant
            lo < hi,
            hi <= 0x4000000000000u128,
            lo * lo <= x,
            x < hi * hi,
        decreases hi - lo,
    {
        let mid: u128 = lo + (hi - lo) / 2;
        proof {
            assert(mid * mid <= 0x4000000000000u128 * 0x4000000000000u128) by (nonlinear_arith)
                requires
                    mid <= 0x4000000000000u128,
            ;
        }
        if mid * mid <= x {
            lo = mid;
        } else {
            hi = mid;
        }
    }
    proof {
        lemma_isqrt_unique(x as nat, lo as nat);
    }
    lo
}

/// `c * m / n` with the quotient truncated toward zero, as Rust's integer
/// division does it.
pub open spec fn mul_div_spec(c: int, m: int, n: int) -> int
    recommends
        n > 0,
        m >= 0,
{
    if c >= 0 {
        c * m / n
    } else {
        -((-c) * m / n)
    }
}

/// `a / n` with the quotient truncated toward zero.
pub open spec fn div_trunc_spec(a: int, n: int) -> int
    recommends
        n > 0,
{
    if a >= 0 {
        a / n
    } else {
        -((-a) / n)
    }
}

/// Fixed-point scaling step: `c * m / n`, truncated toward zero.
pub fn mul_div_i64(c: i64, m: u64, n: u64) -> (r: i64)
    requires
        n > 0,
        -0x7fff_ffff_ffff_ffff <= mul_div_spec(c as int, m as int, n as int)
            <= 0x7fff_ffff_ffff_ffff,
    ensures
        r == mul_div_spec(c as int, m as int, n as int),
{
    if c >= 0 {
        proof {
            assert((c as u128) * (m as u128) <= 0xffffffffffffffffu128 * 0xffffffffffffffffu128)
                by (nonlinear_arith)
                requires
                    c as u128 <= 0xffffffffffffffffu128,
                    m as u128 <= 0xffffffffffffffffu128,
            ;
        }
        let q: u128 = (c as u128) * (m as u128) / (n as u128);
        q as i64
    } else {
        let mag: u128 = (-(c as i128)) as u128;
        proof {
            assert(mag * (m as u128) <= 0xffffffffffffffffu128 * 0xffffffffffffffffu128)
                by (nonlinear_arith)
                requires
                    mag <= 0xffffffffffffffffu128,
                    m as u128 <= 0xffffffffffffffffu128,
            ;
        }
        let q: u128 = mag * (m as u128) / (n as u128);
        -(q as i64)
    }
}

/// Truncated division of a bounded `i128` by a positive `u64`.
pub fn div_trunc_i128(a: i128, n: u64) -> (r: i128)
    requires
        n > 0,
        -0x1000000000000000000000000000000i128 <= a <= 0x1000000000000000000000000000000i128,
    ensures
        r == div_trunc_spec(a as int, n as int),
{
    if a >= 0 {
        ((a as u128) / (n as u128)) as i128
    } else {
        let q: u128 = ((-a) as u128) / (n as u128);
        -(q as i128)
    }
}

/// A truncated quotient of a value bounded by `s * n` is bounded by `s`.
pub proof fn lemma_div_trunc_bound(a: int, n: int, s: int)
    requires
        n > 0,
        s >= 0,
        -(s * n) <= a <= s * n,
    ensures
        -s <= div_trunc_spec(a, n) <= s,
{
    vstd::arithmetic::div_mod::lemma_div_multiples_vanish(s, n);
    if a >= 0 {
        vstd::arithmetic::div_mod::lemma_div_pos_is_pos(a, n);
        vstd::arithmetic::div_mod::lemma_div_is_ordered(a, s * n, n);
        assert(s * n == n * s) by (nonlinear_arith);
    } else {
        vstd::arithmetic::div_mod::lemma_div_pos_is_pos(-a, n);
        vstd::arithmetic::div_mod::lemma_div_is_ordered(-a, s * n, n);
        assert(s * n == n * s) by (nonlinear_arith);
    }
}

} // verus!
