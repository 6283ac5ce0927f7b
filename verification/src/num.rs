//! Fixed-point scalar model and integer primitives.
//!
//! Every physical quantity of the simulation is an `i64` in fixed-point form:
//! one world unit of length is `SCALE` ticks, so a radius of `1.5` world units
//! is stored as `1_500`. Masses are plain world-unit integers. Where the
//! mathematics calls for a real-valued operation (division, square root, cube
//! root) the model takes the floor, which keeps every pass deterministic.
//!
//! Quantities saturate at fixed symmetric limits instead of overflowing:
//! the integer analogue of a floating-point value running off to infinity.

use vstd::prelude::*;

verus! {

/// Fixed-point ticks per world unit of length.
pub const SCALE: i64 = 1_000;
/// `SCALE` cubed, for volume conversions.
pub const SCALE_CUBED: i64 = 1_000_000_000;
/// Microseconds per second; timesteps are given in microseconds.
pub const MICROS_PER_SECOND: i64 = 1_000_000;

/// Largest magnitude of a position component or a radius.
pub const POS_LIMIT: i64 = 100_000_000;
/// Largest magnitude of a velocity component.
pub const VEL_LIMIT: i64 = 100_000_000;
/// Largest magnitude of an accumulated force component.
pub const FORCE_LIMIT: i64 = 1_000_000_000_000;
/// Largest mass of a single body.
pub const MASS_LIMIT: i64 = 10_000_000_000;
/// Largest accepted timestep, in microseconds.
pub const DT_LIMIT: u64 = 10_000_000;

/// Saturation into the symmetric interval `[-lim, lim]`.
pub open spec fn clamp_spec(v: int, lim: int) -> int {
    if v > lim {
        lim
    } else if v < -lim {
        -lim
    } else {
        v
    }
}

/// Division with truncation toward zero, for a positive divisor.
pub open spec fn div_tz(a: int, b: int) -> int
    recommends
        b > 0,
{
    if a >= 0 {
        a / b
    } else {
        -((-a) / b)
    }
}

/// `r` is the floor of the square root of `x`.
pub open spec fn is_sqrt_floor(r: int, x: int) -> bool {
    &&& 0 <= r
    &&& r * r <= x
    &&& x < (r + 1) * (r + 1)
}

/// The floor of the square root, as a total spec-level value.
pub open spec fn sqrt_floor(x: int) -> int {
    choose|r: int| #[trigger] is_sqrt_floor(r, x)
}

/// `r` is the floor of the cube root of `x`.
pub open spec fn is_cbrt_floor(r: int, x: int) -> bool {
    &&& 0 <= r
    &&& r * r * r <= x
    &&& x < (r + 1) * (r + 1) * (r + 1)
}

/// Every nonnegative integer has a floor square root.
pub proof fn lemma_sqrt_floor_exists(x: nat)
    ensures
        exists|r: int| #[trigger] is_sqrt_floor(r, x as int),
    decreases x,
{
    if x == 0 {
        assert(is_sqrt_floor(0, 0));
    } else {
        lemma_sqrt_floor_exists((x - 1) as nat);
        let r = choose|r: int| #[trigger] is_sqrt_floor(r, x - 1);
        if (r + 1) * (r + 1) <= x {
            assert(is_sqrt_floor(r + 1, x as int)) by (nonlinear_arith)
                requires
                    is_sqrt_floor(r, x - 1),
                    (r + 1) * (r + 1) <= x,
            ;
        } else {
            assert(is_sqrt_floor(r, x as int));
        }
    }
}

/// The floor square root is unique.
pub proof fn lemma_sqrt_floor_unique(r1: int, r2: int, x: int)
    requires
        is_sqrt_floor(r1, x),
        is_sqrt_floor(r2, x),
    ensures
        r1 == r2,
{
    assert(r1 == r2) by (nonlinear_arith)
        requires
            is_sqrt_floor(r1, x),
            is_sqrt_floor(r2, x),
    ;
}

/// A witness pins down `sqrt_floor`.
pub proof fn lemma_sqrt_floor_is(r: int, x: int)
    requires
        is_sqrt_floor(r, x),
    ensures
        sqrt_floor(x) == r,
{
    let c = choose|c: int| #[trigger] is_sqrt_floor(c, x);
    lemma_sqrt_floor_unique(c, r, x);
}

/// The floor of the cube root, as a total spec-level value.
pub open spec fn cbrt_floor(x: int) -> int {
    choose|r: int| #[trigger] is_cbrt_floor(r, x)
}

/// Every nonnegative integer has a floor cube root.
pub proof fn lemma_cbrt_floor_exists(x: nat)
    ensures
        exists|r: int| #[trigger] is_cbrt_floor(r, x as int),
    decreases x,
{
    if x == 0 {
        assert(is_cbrt_floor(0, 0));
    } else {
        lemma_cbrt_floor_exists((x - 1) as nat);
        let r = choose|r: int| #[trigger] is_cbrt_floor(r, x - 1);
        if (r + 1) * (r + 1) * (r + 1) <= x {
            assert(is_cbrt_floor(r + 1, x as int)) by (nonlinear_arith)
                requires
                    is_cbrt_floor(r, x - 1),
                    (r + 1) * (r + 1) * (r + 1) <= x,
            ;
        } else {
            assert(is_cbrt_floor(r, x as int));
        }
    }
}

/// The floor cube root is unique.
pub proof fn lemma_cbrt_floor_unique(r1: int, r2: int, x: int)
    requires
        is_cbrt_floor(r1, x),
        is_cbrt_floor(r2, x),
    ensures
        r1 == r2,
{
    assert(r1 == r2) by (nonlinear_arith)
        requires
            is_cbrt_floor(r1, x),
            is_cbrt_floor(r2, x),
    ;
}

/// A witness pins down `cbrt_floor`.
pub proof fn lemma_cbrt_floor_is(r: int, x: int)
    requires
        is_cbrt_floor(r, x),
    ensures
        cbrt_floor(x) == r,
{
    let c = choose|c: int| #[trigger] is_cbrt_floor(c, x);
    lemma_cbrt_floor_unique(c, r, x);
}

/// Truncating division never grows the magnitude.
pub proof fn lemma_div_tz_bound(a: int, b: int, am: int)
    requires
        -am <= a <= am,
        1 <= b,
        0 <= am,
    ensures
        -am <= div_tz(a, b) <= am,
{
    if a >= 0 {
        vstd::arithmetic::div_mod::lemma_div_nonincreasing(a, b);
        vstd::arithmetic::div_mod::lemma_div_pos_is_pos(a, b);
    } else {
        vstd::arithmetic::div_mod::lemma_div_nonincreasing(-a, b);
        vstd::arithmetic::div_mod::lemma_div_pos_is_pos(-a, b);
    }
}

/// A dividend within `b * lim` keeps its truncated quotient within `lim`.
pub proof fn lemma_div_tz_quotient_bound(a: int, b: int, lim: int)
    requires
        1 <= b,
        0 <= lim,
        -(b * lim) <= a <= b * lim,
    ensures
        -lim <= div_tz(a, b) <= lim,
{
    if a >= 0 {
        vstd::arithmetic::div_mod::lemma_div_is_ordered(a, b * lim, b);
        vstd::arithmetic::div_mod::lemma_div_multiples_vanish(lim, b);
        vstd::arithmetic::div_mod::lemma_div_pos_is_pos(a, b);
    } else {
        vstd::arithmetic::div_mod::lemma_div_is_ordered(-a, b * lim, b);
        vstd::arithmetic::div_mod::lemma_div_multiples_vanish(lim, b);
        vstd::arithmetic::div_mod::lemma_div_pos_is_pos(-a, b);
    }
}

/// Truncating division commutes with negation of the dividend.
pub proof fn lemma_div_tz_neg(a: int, b: int)
    requires
        1 <= b,
    ensures
        div_tz(-a, b) == -div_tz(a, b),
{
}

/// Saturation commutes with negation.
pub proof fn lemma_clamp_neg(v: int, lim: int)
    requires
        0 <= lim,
    ensures
        clamp_spec(-v, lim) == -clamp_spec(v, lim),
{
}

/// Truncating division leaves a remainder strictly smaller than the
/// divisor, on either side of zero.
pub proof fn lemma_div_tz_remainder(a: int, b: int)
    requires
        1 <= b,
    ensures
        b * div_tz(a, b) - b < a < b * div_tz(a, b) + b,
{
    if a >= 0 {
        vstd::arithmetic::div_mod::lemma_fundamental_div_mod(a, b);
        vstd::arithmetic::div_mod::lemma_mod_bound(a, b);
    } else {
        vstd::arithmetic::div_mod::lemma_fundamental_div_mod(-a, b);
        vstd::arithmetic::div_mod::lemma_mod_bound(-a, b);
        assert(b * -((-a) / b) == -(b * ((-a) / b))) by (nonlinear_arith);
    }
}

/// Bound on a product of nonnegative factors.
pub proof fn lemma_mul_nonneg_bound(a: int, b: int, am: int, bm: int)
    requires
        0 <= a <= am,
        0 <= b <= bm,
    ensures
        0 <= a * b <= am * bm,
{
    assert(0 <= a * b <= am * bm) by (nonlinear_arith)
        requires
            0 <= a <= am,
            0 <= b <= bm,
    ;
}

/// Bound on a product of factors of bounded magnitude.
pub proof fn lemma_mul_abs_bound(a: int, b: int, am: int, bm: int)
    requires
        -am <= a <= am,
        -bm <= b <= bm,
        0 <= am,
        0 <= bm,
    ensures
        -(am * bm) <= a * b <= am * bm,
{
    assert(-(am * bm) <= a * b <= am * bm) by (nonlinear_arith)
        requires
            -am <= a <= am,
            -bm <= b <= bm,
            0 <= am,
            0 <= bm,
    ;
}

/// Scaling a bounded value by a nonnegative factor scales the bound.
pub proof fn lemma_mul_le_scale(m: int, x: int, lim: int)
    requires
        0 <= m,
        -lim <= x <= lim,
    ensures
        -(m * lim) <= m * x <= m * lim,
{
    assert(-(m * lim) <= m * x <= m * lim) by (nonlinear_arith)
        requires
            0 <= m,
            -lim <= x <= lim,
    ;
}

/// Squaring is monotonic on nonnegative integers.
pub proof fn lemma_square_monotonic(a: int, b: int)
    requires
        0 <= a <= b,
    ensures
        a * a <= b * b,
{
    assert(a * a <= b * b) by (nonlinear_arith)
        requires
            0 <= a <= b,
    ;
}

/// Cubing is monotonic on nonnegative integers.
pub proof fn lemma_cube_monotonic(a: int, b: int)
    requires
        0 <= a <= b,
    ensures
        a * a * a <= b * b * b,
{
    assert(a * a * a <= b * b * b) by (nonlinear_arith)
        requires
            0 <= a <= b,
    ;
}

/// Saturate a wide intermediate into `[-lim, lim]`.
pub fn clamp_i128(v: i128, lim: i64) -> (r: i64)
    requires
        0 < lim,
    ensures
        r as int == clamp_spec(v as int, lim as int),
{
    if v > lim as i128 {
        lim
    } else if v < -(lim as i128) {
        -lim
    } else {
        v as i64
    }
}

/// Saturate a value into `[-lim, lim]`.
pub fn clamp_i64(v: i64, lim: i64) -> (r: i64)
    requires
        0 < lim,
    ensures
        r as int == clamp_spec(v as int, lim as int),
{
    if v > lim {
        lim
    } else if v < -lim {
        -lim
    } else {
        v
    }
}

/// Quotient truncated toward zero, for a positive divisor.
pub fn div_i128(a: i128, b: i128) -> (r: i128)
    requires
        1 <= b,
        i128::MIN < a,
    ensures
        r as int == div_tz(a as int, b as int),
{
    if a >= 0 {
        let q: u128 = (a as u128) / (b as u128);
        q as i128
    } else {
        let q: u128 = ((-a) as u128) / (b as u128);
        -(q as i128)
    }
}

/// Floor of the square root of a 64-bit integer, by bisection.
pub fn isqrt_u64(x: u64) -> (r: u64)
    ensures
        is_sqrt_floor(r as int, x as int),
{
    let mut lo: u64 = 0;
    let mut hi: u64 = 0x1_0000_0000;
    while lo + 1 < hi
        invariant
            lo < hi <= 0x1_0000_0000,
            (lo as int) * (lo as int) <= x as int,
            (x as int) < (hi as int) * (hi as int),
        decreases hi - lo,
    {
        let mid: u64 = lo + (hi - lo) / 2;
        assert((mid as int) * (mid as int) <= 0x1_0000_0000 * 0x1_0000_0000) by (nonlinear_arith)
            requires
                0 <= mid as int <= 0x1_0000_0000,
        ;
        let sq: u128 = (mid as u128) * (mid as u128);
        if sq <= x as u128 {
            lo = mid;
        } else {
            hi = mid;
        }
    }
    lo
}

/// Floor of the cube root of a 64-bit integer, by bisection.
pub fn icbrt_u64(x: u64) -> (r: u64)
    ensures
        is_cbrt_floor(r as int, x as int),
{
    let mut lo: u64 = 0;
    let mut hi: u64 = 0x40_0000;
    while lo + 1 < hi
        invariant
            lo < hi <= 0x40_0000,
            (lo as int) * (lo as int) * (lo as int) <= x as int,
            (x as int) < (hi as int) * (hi as int) * (hi as int),
        decreases hi - lo,
    {
        let mid: u64 = lo + (hi - lo) / 2;
        assert((mid as int) * (mid as int) <= 0x40_0000 * 0x40_0000) by (nonlinear_arith)
            requires
                0 <= mid as int <= 0x40_0000,
        ;
        let sq: u128 = (mid as u128) * (mid as u128);
        assert((sq as int) * (mid as int) <= 0x40_0000 * 0x40_0000 * 0x40_0000)
            by (nonlinear_arith)
            requires
                0 <= mid as int <= 0x40_0000,
                0 <= sq as int <= 0x40_0000 * 0x40_0000,
        ;
        let cb: u128 = sq * (mid as u128);
        if cb <= x as u128 {
            lo = mid;
        } else {
            hi = mid;
        }
    }
    lo
}

} // verus!
