//! Formula-level checks: volumes, masses, classification, proximity.

use gravity_sandbox::components::{BodyType, Collider, Mass, Transform};
use gravity_sandbox::entities::{PLANET_DENSITY, PLANET_STAR_MASS_BOUNDARY};
use gravity_sandbox::tools::{circular_orbit_speed, inverse_volume_of_sphere, volume_of_sphere};

#[test]
fn volume_of_sphere_exact_values() {
    assert_eq!(volume_of_sphere(0), 0);
    // 4/3 * pi * 30^3 with pi = 355/113, in whole cubic world units.
    assert_eq!(volume_of_sphere(30_000), 113_097);
}

#[test]
fn mass_from_radius_is_volume_times_density() {
    assert_eq!(Mass::from_radius(30_000, PLANET_DENSITY).0, 565_485_000);
    // A sub-resolution radius floors to a volume of zero.
    assert_eq!(Mass::from_radius(10, PLANET_DENSITY).0, 0);
}

#[test]
fn inverse_volume_inverts_to_within_truncation() {
    assert_eq!(inverse_volume_of_sphere(0), 0);
    // The round trip loses at most the floor truncation.
    assert_eq!(inverse_volume_of_sphere(113_097), 29_999);
}

#[test]
fn classification_boundary_is_strict() {
    assert_eq!(BodyType::from_mass(PLANET_STAR_MASS_BOUNDARY), BodyType::Planet);
    assert_eq!(BodyType::from_mass(PLANET_STAR_MASS_BOUNDARY + 1), BodyType::Star);
    assert_eq!(BodyType::from_mass(0), BodyType::Planet);
}

#[test]
fn boundary_is_mass_of_smallest_star() {
    // The threshold is exactly the mass of a body of radius 50 world units.
    assert_eq!(Mass::from_radius(50_000, PLANET_DENSITY).0, PLANET_STAR_MASS_BOUNDARY);
}

#[test]
fn orbit_speed_floor_square_root() {
    assert_eq!(circular_orbit_speed(565_485_000, 100_000), 23_779);
    assert_eq!(circular_orbit_speed(0, 1_000), 0);
}

#[test]
fn circle_proximity_margin_is_inclusive() {
    let c1 = Collider(1_000);
    let c2 = Collider(1_000);
    let at_origin = Transform::new(0, 0);
    // Near-touching counts: centre distance up to r1 + r2 + margin.
    assert!(c1.is_colliding_with(&at_origin, &c2, &Transform::new(2_100, 0)));
    assert!(!c1.is_colliding_with(&at_origin, &c2, &Transform::new(2_101, 0)));
    assert!(c1.is_colliding_with(&at_origin, &c2, &Transform::new(0, 0)));
}
