//! Fixed-point arithmetic.
//!
//! A fixed-point value is an `i64` holding the real value times [`SCALE`].
//! Products and quotients are computed in `i128` and truncated toward zero,
//! then clamped into the `i64` range, so every operation is total and its
//! result is pinned exactly by the matching spec function.

use vstd::prelude::*;

verus! {

/// One real unit in fixed-point representation (10^9).
pub const SCALE: i64 = 1_000_000_000;

/// Largest magnitude a tree coordinate may have (2^60); keeps every
/// squared distance representable in `i128`.
pub const COORD_LIMIT: i64 = 0x1000_0000_0000_0000;

/// Largest dimension the tree accepts.
pub const MAX_DIM: usize = 8;

/// Clamp a mathematical integer into the `i64` range.
pub open spec fn sat64(x: int) -> int {
    if x > i64::MAX as int {
        i64::MAX as int
    } else if x < i64::MIN as int {
        i64::MIN as int
    } else {
        x
    }
}

/// Division truncated toward zero, as Rust's `/` computes it.
pub open spec fn trunc_div(a: int, b: int) -> int
    recommends
        b > 0,
{
    if a >= 0 {
        a / b
    } else {
        -((-a) / b)
    }
}

/// Fixed-point product: `a * b / SCALE`, truncated toward zero, clamped.
pub open spec fn spec_fp_mul(a: int, b: int) -> int {
    sat64(trunc_div(a * b, SCALE as int))
}

/// Fixed-point quotient: `a * SCALE / b`, truncated toward zero, clamped.
pub open spec fn spec_fp_div(a: int, b: int) -> int
    recommends
        b != 0,
{
    if b > 0 {
        sat64(trunc_div(a * SCALE as int, b))
    } else {
        sat64(trunc_div(-(a * SCALE as int), -b))
    }
}

/// `a + b` clamped into the `i64` range.
pub open spec fn spec_sat_add(a: int, b: int) -> int {
    sat64(a + b)
}

/// Truncated-toward-zero division of an `i128` by a positive `i128`,
/// clamped into the `i64` range.
pub fn div_trunc_sat(p: i128, d: i128) -> (r: i64)
    requires
        d > 0,
    ensures
        r as int == sat64(trunc_div(p as int, d as int)),
{
    if p >= 0 {
        let q: u128 = (p as u128) / (d as u128);
        if q > i64::MAX as u128 {
            i64::MAX
        } else {
            q as i64
        }
    } else {
        let m: u128 = ((-(p + 1)) as u128 + 1) / (d as u128);
        if m >= 9_223_372_036_854_775_808u128 {
            i64::MIN
        } else {
            -(m as i64)
        }
    }
}

/// A truncated quotient is bounded by any bound on `|a| / b`.
pub proof fn lemma_trunc_div_bound(a: int, b: int, m: int)
    requires
        b > 0,
        m >= 0,
        -(b * m) <= a <= b * m,
    ensures
        -m <= trunc_div(a, b) <= m,
{
    if a >= 0 {
        vstd::arithmetic::div_mod::lemma_div_is_ordered(a, b * m, b);
        vstd::arithmetic::div_mod::lemma_div_multiples_vanish(m, b);
        vstd::arithmetic::div_mod::lemma_div_pos_is_pos(a, b);
    } else {
        vstd::arithmetic::div_mod::lemma_div_is_ordered(-a, b * m, b);
        vstd::arithmetic::div_mod::lemma_div_multiples_vanish(m, b);
        vstd::arithmetic::div_mod::lemma_div_pos_is_pos(-a, b);
    }
}

/// Fixed-point multiplication.
pub fn fp_mul(a: i64, b: i64) -> (r: i64)
    ensures
        r as int == spec_fp_mul(a as int, b as int),
{
    proof {
        lemma_i64_product_bounds(a as int, b as int);
    }
    let p: i128 = (a as i128) * (b as i128);
    div_trunc_sat(p, SCALE as i128)
}

/// Fixed-point division.
pub fn fp_div(a: i64, b: i64) -> (r: i64)
    requires
        b != 0,
    ensures
        r as int == spec_fp_div(a as int, b as int),
{
    proof {
        lemma_i64_product_bounds(a as int, SCALE as int);
    }
    let p: i128 = (a as i128) * (SCALE as i128);
    if b > 0 {
        div_trunc_sat(p, b as i128)
    } else {
        div_trunc_sat(-p, -(b as i128))
    }
}

/// Saturating addition of two fixed-point values.
pub fn fp_add(a: i64, b: i64) -> (r: i64)
    ensures
        r as int == spec_sat_add(a as int, b as int),
{
    let s: i128 = (a as i128) + (b as i128);
    if s > i64::MAX as i128 {
        i64::MAX
    } else if s < i64::MIN as i128 {
        i64::MIN
    } else {
        s as i64
    }
}

/// Saturating subtraction of two fixed-point values.
pub fn fp_sub(a: i64, b: i64) -> (r: i64)
    ensures
        r as int == sat64(a - b),
{
    let s: i128 = (a as i128) - (b as i128);
    if s > i64::MAX as i128 {
        i64::MAX
    } else if s < i64::MIN as i128 {
        i64::MIN
    } else {
        s as i64
    }
}

/// Clamp a mathematical integer into the `i128` range.
pub open spec fn sat128(x: int) -> int {
    if x > i128::MAX as int {
        i128::MAX as int
    } else if x < i128::MIN as int {
        i128::MIN as int
    } else {
        x
    }
}

/// Saturating addition of two `i128` values.
pub fn sat_add_i128(a: i128, b: i128) -> (r: i128)
    ensures
        r as int == sat128(a + b),
{
    if a >= 0 && b > i128::MAX - a {
        i128::MAX
    } else if a < 0 && b < i128::MIN - a {
        i128::MIN
    } else {
        a + b
    }
}

/// Clamp a fixed-point value into the coordinate cube.
pub open spec fn spec_clamp_coord(x: int) -> int {
    if x > COORD_LIMIT as int {
        COORD_LIMIT as int
    } else if x < -COORD_LIMIT as int {
        -COORD_LIMIT as int
    } else {
        x
    }
}

/// Clamp a fixed-point value into the coordinate cube.
pub fn clamp_coord(x: i64) -> (r: i64)
    ensures
        r as int == spec_clamp_coord(x as int),
        -COORD_LIMIT <= r <= COORD_LIMIT,
{
    if x > COORD_LIMIT {
        COORD_LIMIT
    } else if x < -COORD_LIMIT {
        -COORD_LIMIT
    } else {
        x
    }
}

/// `a * SCALE^2 / l`, truncated toward zero, clamped into the `i64` range:
/// the fixed-point quotient of a value by a squared length.
pub open spec fn spec_fp_div_l2(a: int, l: int) -> int
    recommends
        l > 0,
{
    sat64(trunc_div(a * SCALE as int * SCALE as int, l))
}

/// Fixed-point quotient of a value by a positive squared length.
pub fn fp_div_l2(a: i64, l: i128) -> (r: i64)
    requires
        l > 0,
    ensures
        r as int == spec_fp_div_l2(a as int, l as int),
{
    proof {
        lemma_i64_product_bounds(a as int, SCALE as int);
        assert((a as int) * (SCALE as int) * (SCALE as int) < i128::MAX) by (nonlinear_arith)
            requires
                -0x8000_0000_0000_0000 <= a as int <= 0x7FFF_FFFF_FFFF_FFFF,
                SCALE as int == 1_000_000_000,
        ;
        assert((a as int) * (SCALE as int) * (SCALE as int) > i128::MIN) by (nonlinear_arith)
            requires
                -0x8000_0000_0000_0000 <= a as int <= 0x7FFF_FFFF_FFFF_FFFF,
                SCALE as int == 1_000_000_000,
        ;
    }
    let p: i128 = (a as i128) * (SCALE as i128) * (SCALE as i128);
    div_trunc_sat(p, l)
}

/// Integer square root of a `u128`.
pub fn isqrt(x: u128) -> (r: u64)
    ensures
        (r as int) * (r as int) <= x as int,
        (x as int) < (r as int + 1) * (r as int + 1),
{
    let mut lo: u128 = 0;
    let mut hi: u128 = 0xFFFF_FFFF_FFFF_FFFF;
    while lo < hi
        invariant
            lo <= hi <= 0xFFFF_FFFF_FFFF_FFFF,
            (lo as int) * (lo as int) <= x as int,
            (x as int) < (hi as int + 1) * (hi as int + 1),
        decreases hi - lo,
    {
        let mid: u128 = lo + (hi - lo + 1) / 2;
        assert(mid * mid <= 0xFFFF_FFFF_FFFF_FFFFu128 * 0xFFFF_FFFF_FFFF_FFFFu128) by (nonlinear_arith)
            requires
                mid <= 0xFFFF_FFFF_FFFF_FFFFu128,
        ;
        if mid * mid <= x {
            lo = mid;
        } else {
            hi = mid - 1;
        }
    }
    lo as u64
}

/// Square root of a nonnegative squared fixed-point value (`SCALE^2` units),
/// yielding a fixed-point value, clamped into the `i64` range.
pub fn fp_sqrt(x: i128) -> (r: i64)
    requires
        x >= 0,
    ensures
        r as int == sat64(spec_isqrt(x as int)),
        r >= 0,
{
    let r: u64 = isqrt(x as u128);
    proof {
        lemma_isqrt_unique(x as int, r as int);
    }
    if r > i64::MAX as u64 {
        i64::MAX
    } else {
        r as i64
    }
}

/// The product of two `i64` values fits in `i128`.
pub proof fn lemma_i64_product_bounds(a: int, b: int)
    requires
        i64::MIN <= a <= i64::MAX,
        i64::MIN <= b <= i64::MAX,
    ensures
        i128::MIN < a * b < i128::MAX,
    decreases 0int,
{
    assert(i128::MIN < a * b < i128::MAX) by (nonlinear_arith)
        requires
            -0x8000_0000_0000_0000 <= a <= 0x7FFF_FFFF_FFFF_FFFF,
            -0x8000_0000_0000_0000 <= b <= 0x7FFF_FFFF_FFFF_FFFF,
    ;
}

/// The integer square root: the unique `r >= 0` with `r^2 <= x < (r+1)^2`.
pub closed spec fn spec_isqrt(x: int) -> int
    recommends
        x >= 0,
{
    choose|r: int| r >= 0 && #[trigger] (r * r) <= x && x < (r + 1) * (r + 1)
}

/// Any `r >= 0` with `r^2 <= x < (r+1)^2` equals `spec_isqrt(x)`.
pub proof fn lemma_isqrt_unique(x: int, r: int)
    requires
        r >= 0,
        r * r <= x,
        x < (r + 1) * (r + 1),
    ensures
        spec_isqrt(x) == r,
{
    assert(exists|q: int| q >= 0 && #[trigger] (q * q) <= x && x < (q + 1) * (q + 1)) by {
        assert(r >= 0 && r * r <= x && x < (r + 1) * (r + 1));
    }
    let q = spec_isqrt(x);
    assert(q >= 0 && q * q <= x && x < (q + 1) * (q + 1));
    if q < r {
        assert((q + 1) * (q + 1) <= r * r) by (nonlinear_arith)
            requires
                0 <= q < r,
        ;
    }
    if r < q {
        assert((r + 1) * (r + 1) <= q * q) by (nonlinear_arith)
            requires
                0 <= r < q,
        ;
    }
}

} // verus!
