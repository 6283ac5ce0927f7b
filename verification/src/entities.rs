//! Fixed body constants: density and the planet/star mass boundary.

use vstd::prelude::*;

verus! {

/// Fixed density of every body, in mass units per cubic world unit.
pub const PLANET_DENSITY: i64 = 5_000;

/// Smallest radius of a star, in fixed-point length units (50 world units).
pub const STAR_MIN_RADIUS: i64 = 50_000;

/// Mass at which a planet becomes a star: the mass of a body of radius
/// `STAR_MIN_RADIUS` at `PLANET_DENSITY`, computed exactly as
/// `volume_of_sphere(STAR_MIN_RADIUS) * PLANET_DENSITY` comes out in the
/// fixed-point model (pi taken as 355/113). Classification uses a strict
/// comparison: a body of exactly this mass is still a planet.
pub const PLANET_STAR_MASS_BOUNDARY: i64 = 2_617_990_000;

} // verus!
