//! Sphere volume and orbit formulas over the fixed-point scalar model.
//!
//! Pi is approximated by the rational `PI_NUM / PI_DEN` = 355/113. The
//! formulas below fold their constant coefficients into single literals so
//! that the verifier only ever multiplies a variable by a constant:
//! `4 * PI_NUM` = 1_420 and `3 * PI_DEN * SCALE_CUBED` = 339_000_000_000.

use vstd::prelude::*;
use vstd::arithmetic::div_mod::{lemma_div_is_ordered, lemma_div_nonincreasing};
use crate::num::{
    icbrt_u64, is_cbrt_floor, is_sqrt_floor, isqrt_u64, lemma_cube_monotonic, MASS_LIMIT,
    POS_LIMIT,
};

verus! {

/// Numerator of the rational approximation of pi.
pub const PI_NUM: i64 = 355;
/// Denominator of the rational approximation of pi.
pub const PI_DEN: i64 = 113;

/// Volume of a sphere of fixed-point radius `r`, in cubic world units: the
/// floor of `4/3 * pi * (r / SCALE)^3`, with pi as 355/113.
pub open spec fn volume_of_sphere_spec(r: int) -> int
    recommends
        0 <= r,
{
    (1_420 * r * r * r) / 339_000_000_000
}

/// The value whose floor cube root is the fixed-point radius of the sphere
/// of volume `v`: `(3 v / (4 pi)) * SCALE^3`, with pi as 355/113.
pub open spec fn inverse_volume_arg(v: int) -> int
    recommends
        0 <= v,
{
    (v * 339_000_000_000) / 1_420
}

/// The squared fixed-point speed of a circular orbit of fixed-point radius
/// `r` around a parent of mass `m`: `G * m / (r / SCALE)` scaled by
/// `SCALE^2`, which folds to `SCALE^3 * G_NUM * m / (G_DEN * r)`.
pub open spec fn orbit_speed_arg(m: int, r: int) -> int
    recommends
        0 <= m,
        0 < r,
{
    (1_000_000_000 * m) / (10_000 * r)
}

/// Volume of a sphere of fixed-point radius `r`.
pub fn volume_of_sphere(r: i64) -> (v: i64)
    requires
        0 <= r <= POS_LIMIT,
    ensures
        v as int == volume_of_sphere_spec(r as int),
        0 <= v,
{
    let r1: i128 = r as i128;
    assert(0 <= (r1 as int) * (r1 as int) <= (POS_LIMIT as int) * (POS_LIMIT as int))
        by (nonlinear_arith)
        requires
            0 <= r1 as int <= POS_LIMIT as int,
    ;
    let r2: i128 = r1 * r1;
    assert(0 <= (r2 as int) * (r1 as int) <= (POS_LIMIT as int) * (POS_LIMIT as int) * (POS_LIMIT
        as int)) by (nonlinear_arith)
        requires
            0 <= r1 as int <= POS_LIMIT as int,
            0 <= r2 as int <= (POS_LIMIT as int) * (POS_LIMIT as int),
    ;
    let r3: i128 = r2 * r1;
    let num: i128 = 1_420 * r3;
    let q: u128 = (num as u128) / 339_000_000_000u128;
    proof {
        lemma_div_is_ordered(
            num as int,
            1_420_000_000_000_000_000_000_000_000_000,
            339_000_000_000,
        );
        assert(r3 as int == (r as int) * (r as int) * (r as int));
        assert(num as int == 1_420 * (r as int) * (r as int) * (r as int)) by (nonlinear_arith)
            requires
                num as int == 1_420 * (r3 as int),
                r3 as int == (r as int) * (r as int) * (r as int),
        ;
        assert(num as int >= 0);
        assert(q as int == (num as int) / 339_000_000_000);
        assert(q as int <= 1_420_000_000_000_000_000_000_000_000_000int / 339_000_000_000);
    }
    q as i64
}

/// Fixed-point radius of the sphere of volume `v`: the floor cube root of
/// `inverse_volume_arg(v)`.
pub fn inverse_volume_of_sphere(v: i64) -> (r: i64)
    requires
        0 <= v <= MASS_LIMIT,
    ensures
        is_cbrt_floor(r as int, inverse_volume_arg(v as int)),
        0 <= r <= POS_LIMIT,
{
    let num: i128 = (v as i128) * 339_000_000_000;
    let q: u128 = (num as u128) / 1_420u128;
    proof {
        lemma_div_is_ordered(num as int, 3_390_000_000_000_000_000_000, 1_420);
    }
    let r: u64 = icbrt_u64(q as u64);
    proof {
        if r as int > POS_LIMIT as int {
            lemma_cube_monotonic(POS_LIMIT as int, r as int);
        }
    }
    r as i64
}

/// Fixed-point speed of a circular orbit of radius `r` around a parent of
/// mass `m`: the floor square root of `orbit_speed_arg(m, r)`.
pub fn circular_orbit_speed(parent_mass: i64, radius: i64) -> (s: i64)
    requires
        0 <= parent_mass <= MASS_LIMIT,
        1 <= radius <= POS_LIMIT,
    ensures
        is_sqrt_floor(s as int, orbit_speed_arg(parent_mass as int, radius as int)),
        0 <= s,
{
    let num: i128 = 1_000_000_000 * (parent_mass as i128);
    let den: i128 = 10_000 * (radius as i128);
    let q: u128 = (num as u128) / (den as u128);
    proof {
        lemma_div_nonincreasing(num as int, den as int);
    }
    let s: u64 = isqrt_u64(q as u64);
    proof {
        if s as int > 10_000_000_000 {
            crate::num::lemma_square_monotonic(10_000_000_000, s as int);
        }
    }
    s as i64
}

} // verus!
