//! Integer helpers for the fixed-point arithmetic of the simulation.
use vstd::prelude::*;

verus! {

/// Exclusive upper bound on the arguments accepted by `isqrt`.
pub const SQRT_ARG_LIMIT: u128 = 0x100_0000_0000_0000_0000_0000_0000_0000;

/// `r` is the integer square root of `n`: the largest `r` with `r * r <= n`.
pub open spec fn is_isqrt(n: int, r: int) -> bool {
    0 <= r && r * r <= n && n < (r + 1) * (r + 1)
}

/// Division of `a` by a positive `b`, rounding toward zero.
pub open spec fn trunc_div(a: int, b: int) -> int {
    if a >= 0 {
        a / b
    } else {
        -((-a) / b)
    }
}

/// `v` limited to the closed range `[lo, hi]`.
pub open spec fn clamp_spec(v: int, lo: int, hi: int) -> int {
    if v < lo {
        lo
    } else if v > hi {
        hi
    } else {
        v
    }
}

/// Floor of the square root, by bisection.
pub fn isqrt(n: u128) -> (r: u128)
    requires
        n < SQRT_ARG_LIMIT,
    ensures
        is_isqrt(n as int, r as int),
{
    let mut lo: u128 = 0;
    let mut hi: u128 = 0x1000_0000_0000_0000;
    assert(hi * hi == SQRT_ARG_LIMIT);
    while lo + 1 < hi
        invariant
            lo < hi <= 0x1000_0000_0000_0000,
            lo * lo <= n,
            n < hi * hi,
        decreases hi - lo,
    {
        let mid: u128 = lo + (hi - lo) / 2;
        assert(mid * mid <= hi * hi) by (nonlinear_arith)
            requires
                mid < hi,
        ;
        assert(hi * hi <= SQRT_ARG_LIMIT) by (nonlinear_arith)
            requires
                hi <= 0x1000_0000_0000_0000,
        ;
        if mid * mid <= n {
            lo = mid;
        } else {
            hi = mid;
        }
    }
    assert(hi == lo + 1);
    lo
}

/// Division of `a` by a positive `b`, rounding toward zero as Rust's `/` does.
pub fn div_trunc(a: i64, b: i64) -> (r: i64)
    requires
        b > 0,
        a > i64::MIN,
    ensures
        r as int == trunc_div(a as int, b as int),
{
    if a >= 0 {
        ((a as u64) / (b as u64)) as i64
    } else {
        let q = ((-a) as u64) / (b as u64);
        -(q as i64)
    }
}

/// `v` limited to the closed range `[lo, hi]`.
pub fn clamp_i64(v: i64, lo: i64, hi: i64) -> (r: i64)
    requires
        lo <= hi,
    ensures
        r as int == clamp_spec(v as int, lo as int, hi as int),
        lo <= r <= hi,
{
    if v < lo {
        lo
    } else if v > hi {
        hi
    } else {
        v
    }
}

/// The integer square root of a non-negative `i64`.
pub fn isqrt_i64(n: i64) -> (r: i64)
    requires
        n >= 0,
    ensures
        is_isqrt(n as int, r as int),
{
    assert((n as u128) < SQRT_ARG_LIMIT);
    let s = isqrt(n as u128);
    assert(s <= n) by (nonlinear_arith)
        requires
            s * s <= n,
    ;
    s as i64
}

/// A component of a vector is at most the vector's length, so the component scaled by
/// `k / len` is at most `k` in absolute value.
pub proof fn lemma_scaled_component(a: int, b: int, len: int, k: int)
    requires
        is_isqrt(a * a + b * b, len),
        len > 0,
        k >= 0,
    ensures
        -k <= trunc_div(a * k, len) <= k,
{
    assert(a * a <= a * a + b * b) by (nonlinear_arith);
    let m = if a >= 0 {
        a
    } else {
        -a
    };
    assert(m * m == a * a) by (nonlinear_arith)
        requires
            m == a || m == -a,
    ;
    assert(m <= len) by (nonlinear_arith)
        requires
            m >= 0,
            len >= 0,
            m * m < (len + 1) * (len + 1),
    ;
    assert(0 <= m * k <= len * k) by (nonlinear_arith)
        requires
            0 <= m <= len,
            k >= 0,
    ;
    vstd::arithmetic::div_mod::lemma_div_is_ordered(m * k, len * k, len);
    vstd::arithmetic::div_mod::lemma_div_by_multiple(k, len);
    vstd::arithmetic::div_mod::lemma_div_pos_is_pos(m * k, len);
    if a < 0 {
        assert(-(a * k) == m * k) by (nonlinear_arith)
            requires
                m == -a,
        ;
    }
}

/// Dividing a value of magnitude at most `m * b` by `b` gives magnitude at most `m`.
pub proof fn lemma_trunc_div_bound(a: int, b: int, m: int)
    requires
        b > 0,
        m >= 0,
        -(m * b) <= a <= m * b,
    ensures
        -m <= trunc_div(a, b) <= m,
{
    vstd::arithmetic::div_mod::lemma_div_by_multiple(m, b);
    if a >= 0 {
        vstd::arithmetic::div_mod::lemma_div_is_ordered(a, m * b, b);
        vstd::arithmetic::div_mod::lemma_div_pos_is_pos(a, b);
    } else {
        vstd::arithmetic::div_mod::lemma_div_is_ordered(-a, m * b, b);
        vstd::arithmetic::div_mod::lemma_div_pos_is_pos(-a, b);
    }
}

/// Division of a wide `a` by a positive `b`, rounding toward zero.
pub fn div_trunc_wide(a: i128, b: i128) -> (r: i128)
    requires
        b > 0,
        a > i128::MIN,
    ensures
        r as int == trunc_div(a as int, b as int),
{
    if a >= 0 {
        ((a as u128) / (b as u128)) as i128
    } else {
        let q = ((-a) as u128) / (b as u128);
        -(q as i128)
    }
}

} // verus!
