//! The components a body is made of: its classification, velocity, mass,
//! force accumulator, collision shape and transform.

use vstd::prelude::*;
use crate::entities::{PLANET_STAR_MASS_BOUNDARY};
use crate::num::{
    clamp_spec, clamp_i128, lemma_mul_abs_bound, lemma_mul_nonneg_bound, MASS_LIMIT, POS_LIMIT,
};
use crate::tools::{volume_of_sphere, volume_of_sphere_spec};

verus! {

/// Distance within which two near-touching circles already count as
/// colliding, in fixed-point length units (0.1 world units).
pub const COLLISION_MARGIN: i64 = 100;

/// A two-dimensional vector of fixed-point scalars.
#[derive(Clone, Copy, Debug, PartialEq, Eq, Structural)]
pub struct Vec2 {
    pub x: i64,
    pub y: i64,
}

impl Vec2 {
    /// The zero vector.
    pub fn zeros() -> (v: Vec2)
        ensures
            v.x == 0,
            v.y == 0,
    {
        Vec2 { x: 0, y: 0 }
    }

    /// A vector from its two components.
    pub fn new(x: i64, y: i64) -> (v: Vec2)
        ensures
            v.x == x,
            v.y == y,
    {
        Vec2 { x, y }
    }
}

/// What a body is classified as; a pure function of its mass.
#[derive(Clone, Copy, Debug, PartialEq, Eq, Structural)]
pub enum BodyType {
    Planet,
    Star,
}

/// The classification a mass dictates: a star above the boundary, strictly.
pub open spec fn from_mass_spec(m: int) -> BodyType {
    if m > PLANET_STAR_MASS_BOUNDARY as int {
        BodyType::Star
    } else {
        BodyType::Planet
    }
}

impl BodyType {
    /// Classify a body by its mass: a star strictly above
    /// `PLANET_STAR_MASS_BOUNDARY`, a planet otherwise.
    pub fn from_mass(m: i64) -> (t: BodyType)
        ensures
            t == from_mass_spec(m as int),
    {
        if m > PLANET_STAR_MASS_BOUNDARY {
            BodyType::Star
        } else {
            BodyType::Planet
        }
    }
}

/// A body's velocity, in fixed-point length units per second.
#[derive(Clone, Copy, Debug, PartialEq, Eq, Structural)]
pub struct Velocity(pub Vec2);

/// A body's mass, in world mass units.
#[derive(Clone, Copy, Debug, PartialEq, Eq, Structural)]
pub struct Mass(pub i64);

/// The mass of a sphere of fixed-point radius `r` at the given density,
/// saturated at `MASS_LIMIT`.
pub open spec fn from_radius_spec(r: int, density: int) -> int
    recommends
        0 <= r,
        0 <= density,
{
    clamp_spec(volume_of_sphere_spec(r) * density, MASS_LIMIT as int)
}

impl Mass {
    /// The mass of a sphere of fixed-point radius `r` at the given density.
    pub fn from_radius(r: i64, density: i64) -> (m: Mass)
        requires
            0 <= r <= POS_LIMIT,
            0 <= density,
        ensures
            m.0 as int == from_radius_spec(r as int, density as int),
            0 <= m.0 <= MASS_LIMIT,
    {
        let v: i64 = volume_of_sphere(r);
        proof {
            lemma_mul_nonneg_bound(v as int, density as int, i64::MAX as int, i64::MAX as int);
        }
        let m: i64 = clamp_i128((v as i128) * (density as i128), MASS_LIMIT);
        Mass(m)
    }
}

/// A body's force accumulator, in fixed-point force units. For a body
/// without a mass record the same value doubles as an acceleration.
#[derive(Clone, Copy, Debug, PartialEq, Eq, Structural)]
pub struct Force(pub Vec2);

impl Default for Force {
    /// A zero force accumulator.
    fn default() -> (f: Force)
        ensures
            f.0.x == 0,
            f.0.y == 0,
    {
        Force(Vec2 { x: 0, y: 0 })
    }
}

/// A body's placement in the world: its translation.
#[derive(Clone, Copy, Debug, PartialEq, Eq, Structural)]
pub struct Transform {
    pub translation: Vec2,
}

impl Transform {
    /// A transform at the given translation.
    pub fn new(x: i64, y: i64) -> (t: Transform)
        ensures
            t.translation.x == x,
            t.translation.y == y,
    {
        Transform { translation: Vec2 { x, y } }
    }
}

/// A body's collision shape: a circle of the given fixed-point radius,
/// centred on the body's transform.
#[derive(Clone, Copy, Debug, PartialEq, Eq, Structural)]
pub struct Collider(pub i64);

/// Two circles touch when their centre distance is at most the sum of
/// their radii plus `COLLISION_MARGIN`: near-touching counts as colliding.
pub open spec fn circles_touching(x1: int, y1: int, r1: int, x2: int, y2: int, r2: int) -> bool {
    let dx = x2 - x1;
    let dy = y2 - y1;
    let reach = r1 + r2 + COLLISION_MARGIN as int;
    dx * dx + dy * dy <= reach * reach
}

impl Collider {
    /// Whether this circle, placed at `this_transform`, touches `other`
    /// placed at `other_transform`, within the proximity margin.
    pub fn is_colliding_with(
        &self,
        this_transform: &Transform,
        other: &Collider,
        other_transform: &Transform,
    ) -> (c: bool)
        requires
            0 <= self.0 <= POS_LIMIT,
            0 <= other.0 <= POS_LIMIT,
            -POS_LIMIT <= this_transform.translation.x <= POS_LIMIT,
            -POS_LIMIT <= this_transform.translation.y <= POS_LIMIT,
            -POS_LIMIT <= other_transform.translation.x <= POS_LIMIT,
            -POS_LIMIT <= other_transform.translation.y <= POS_LIMIT,
        ensures
            c == circles_touching(
                this_transform.translation.x as int,
                this_transform.translation.y as int,
                self.0 as int,
                other_transform.translation.x as int,
                other_transform.translation.y as int,
                other.0 as int,
            ),
    {
        let dx: i128 = other_transform.translation.x as i128 - this_transform.translation.x as i128;
        let dy: i128 = other_transform.translation.y as i128 - this_transform.translation.y as i128;
        let reach: i128 = self.0 as i128 + other.0 as i128 + COLLISION_MARGIN as i128;
        proof {
            lemma_mul_abs_bound(dx as int, dx as int, 200_000_000, 200_000_000);
            lemma_mul_abs_bound(dy as int, dy as int, 200_000_000, 200_000_000);
            lemma_mul_nonneg_bound(reach as int, reach as int, 200_000_100, 200_000_100);
        }
        let d2: i128 = dx * dx + dy * dy;
        let reach2: i128 = reach * reach;
        d2 <= reach2
    }
}

} // verus!
