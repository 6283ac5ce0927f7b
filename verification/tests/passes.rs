//! Per-pass checks: gravity, integration, motion, detection, grouping.

use gravity_sandbox::components::{BodyType, Collider, Force, Mass, Transform, Vec2, Velocity};
use gravity_sandbox::events::CollisionEvent;
use gravity_sandbox::systems::{
    CollisionDetectionSystem, CollisionProcessingSystem, ForceSystem, GravitySystem,
    VelocitySystem,
};
use gravity_sandbox::world::{Body, World};

fn body(id: u64, x: i64, y: i64, vx: i64, vy: i64, mass: Option<i64>, radius: i64) -> Body {
    Body {
        id,
        body_type: BodyType::from_mass(mass.unwrap_or(1)),
        transform: Transform::new(x, y),
        velocity: Velocity(Vec2::new(vx, vy)),
        mass: mass.map(Mass),
        force: Force::default(),
        collider: Collider(radius),
    }
}

fn world_of(bodies: Vec<Body>) -> World {
    let next_id = bodies.len() as u64;
    World { bodies, collision_events: Vec::new(), creation_events: Vec::new(), next_id }
}

#[test]
fn gravity_is_equal_and_opposite() {
    // Masses 2e6 and 3e6 at distance 10 world units along x.
    let mut w = world_of(vec![
        body(0, 0, 0, 0, 0, Some(2_000_000), 1_000),
        body(1, 10_000, 0, 0, 0, Some(3_000_000), 1_000),
    ]);
    GravitySystem.run(&mut w);
    // G * m1 * m2 / d^2 in fixed-point force units.
    assert_eq!(w.bodies[0].force.0.x, 6_000_000_000);
    assert_eq!(w.bodies[1].force.0.x, -6_000_000_000);
    assert_eq!(w.bodies[0].force.0.y, 0);
    assert_eq!(w.bodies[1].force.0.y, 0);
    // Equal magnitude, opposite direction.
    assert_eq!(w.bodies[0].force.0.x, -w.bodies[1].force.0.x);
}

#[test]
fn massless_bodies_neither_attract_nor_are_attracted() {
    let mut w = world_of(vec![
        body(0, 0, 0, 0, 0, None, 1_000),
        body(1, 10_000, 0, 0, 0, Some(3_000_000), 1_000),
    ]);
    GravitySystem.run(&mut w);
    assert_eq!(w.bodies[0].force.0.x, 0);
    assert_eq!(w.bodies[1].force.0.x, 0);
}

#[test]
fn coincident_bodies_exert_no_force() {
    // Zero distance is floored to no interaction, deterministically.
    let mut w = world_of(vec![
        body(0, 5, 5, 0, 0, Some(1_000), 1_000),
        body(1, 5, 5, 0, 0, Some(1_000), 1_000),
    ]);
    GravitySystem.run(&mut w);
    assert_eq!(w.bodies[0].force.0.x, 0);
    assert_eq!(w.bodies[1].force.0.y, 0);
}

#[test]
fn integration_divides_force_by_mass_and_resets() {
    let mut w = world_of(vec![body(0, 0, 0, 100, 200, Some(100), 1_000)]);
    w.bodies[0].force = Force(Vec2::new(1_000_000, -2_000_000));
    // One second: dv = F / m * dt.
    ForceSystem.run(&mut w, 1_000_000);
    assert_eq!(w.bodies[0].velocity.0.x, 100 + 10_000);
    assert_eq!(w.bodies[0].velocity.0.y, 200 - 20_000);
    assert_eq!(w.bodies[0].force.0.x, 0);
    assert_eq!(w.bodies[0].force.0.y, 0);
}

#[test]
fn integration_treats_missing_mass_as_one() {
    let mut w = world_of(vec![body(0, 0, 0, 0, 0, None, 1_000)]);
    w.bodies[0].force = Force(Vec2::new(7, -3));
    ForceSystem.run(&mut w, 1_000_000);
    assert_eq!(w.bodies[0].velocity.0.x, 7);
    assert_eq!(w.bodies[0].velocity.0.y, -3);
    assert_eq!(w.bodies[0].force.0.x, 0);
}

#[test]
fn motion_applies_velocity_times_timestep() {
    let mut w = world_of(vec![body(0, 10, 20, 500, -300, Some(100), 1_000)]);
    // Two seconds.
    VelocitySystem.run(&mut w, 2_000_000);
    assert_eq!(w.bodies[0].transform.translation.x, 10 + 1_000);
    assert_eq!(w.bodies[0].transform.translation.y, 20 - 600);
}

#[test]
fn detection_groups_triple_into_one_event() {
    // Three mutually touching circles: one group of three, not two or
    // three overlapping groups.
    let mut w = world_of(vec![
        body(0, 0, 0, 0, 0, Some(100), 600),
        body(1, 1_000, 0, 0, 0, Some(100), 600),
        body(2, 500, 800, 0, 0, Some(100), 600),
    ]);
    CollisionDetectionSystem.run(&mut w);
    assert_eq!(w.collision_events.len(), 1);
    let group = &w.collision_events[0].group;
    assert_eq!(group.len(), 3);
    assert!(group.contains(&0));
    assert!(group.contains(&1));
    assert!(group.contains(&2));
}

#[test]
fn detection_keeps_separate_clusters_apart() {
    let mut w = world_of(vec![
        body(0, 0, 0, 0, 0, Some(100), 600),
        body(1, 1_000, 0, 0, 0, Some(100), 600),
        body(2, 50_000, 0, 0, 0, Some(100), 600),
        body(3, 51_000, 0, 0, 0, Some(100), 600),
    ]);
    CollisionDetectionSystem.run(&mut w);
    assert_eq!(w.collision_events.len(), 2);
    for ev in &w.collision_events {
        assert_eq!(ev.group.len(), 2);
    }
}

#[test]
fn detection_finds_nothing_among_disjoint_bodies() {
    let mut w = world_of(vec![
        body(0, 0, 0, 0, 0, Some(100), 600),
        body(1, 10_000, 0, 0, 0, Some(100), 600),
    ]);
    CollisionDetectionSystem.run(&mut w);
    assert_eq!(w.collision_events.len(), 0);
}

#[test]
fn put_in_collision_group_merges_two_existing_groups() {
    let mut groups: Vec<Vec<u64>> = vec![vec![1, 2], vec![3, 4]];
    CollisionDetectionSystem::put_in_collision_group(&mut groups, 2, 4);
    assert_eq!(groups.len(), 1);
    let merged = &groups[0];
    assert_eq!(merged.len(), 4);
    for id in [1u64, 2, 3, 4] {
        assert!(merged.contains(&id));
    }
}

#[test]
fn put_in_collision_group_is_idempotent_for_a_known_pair() {
    let mut groups: Vec<Vec<u64>> = vec![vec![1, 2]];
    CollisionDetectionSystem::put_in_collision_group(&mut groups, 1, 2);
    assert_eq!(groups.len(), 1);
    assert_eq!(groups[0].len(), 2);
}

#[test]
fn put_in_collision_group_starts_and_extends_groups() {
    let mut groups: Vec<Vec<u64>> = Vec::new();
    CollisionDetectionSystem::put_in_collision_group(&mut groups, 7, 8);
    assert_eq!(groups.len(), 1);
    CollisionDetectionSystem::put_in_collision_group(&mut groups, 8, 9);
    assert_eq!(groups.len(), 1);
    assert_eq!(groups[0].len(), 3);
    assert!(groups[0].contains(&9));
}

#[test]
fn resolution_conserves_mass_and_momentum() {
    // Equal masses, opposite velocities: total momentum zero.
    let mut w = world_of(vec![
        body(0, 0, 0, 10, 0, Some(100), 4_000),
        body(1, 10_000, 0, -10, 0, Some(100), 4_000),
    ]);
    w.collision_events.push(CollisionEvent { group: vec![0, 1] });
    CollisionProcessingSystem::new().run(&mut w);
    assert_eq!(w.collision_events.len(), 0);
    assert_eq!(w.bodies.len(), 0);
    assert_eq!(w.creation_events.len(), 1);
    let ev = &w.creation_events[0];
    assert_eq!(ev.mass, 200);
    assert_eq!(ev.velocity.x, 0);
    assert_eq!(ev.velocity.y, 0);
    assert_eq!(ev.position.x, 5_000);
    assert_eq!(ev.position.y, 0);
    assert_eq!(ev.body_type, BodyType::Planet);
}

#[test]
fn resolution_weights_centre_of_mass_and_velocity() {
    let mut w = world_of(vec![
        body(0, 0, 0, 40, 0, Some(100), 4_000),
        body(1, 8_000, 0, 0, 0, Some(300), 4_000),
    ]);
    w.collision_events.push(CollisionEvent { group: vec![0, 1] });
    CollisionProcessingSystem::new().run(&mut w);
    let ev = &w.creation_events[0];
    assert_eq!(ev.mass, 400);
    // Centre of mass: (100*0 + 300*8000) / 400.
    assert_eq!(ev.position.x, 6_000);
    // Momentum: 100*40 = 400 * 10, conserved exactly here.
    assert_eq!(ev.velocity.x, 10);
}

#[test]
fn resolution_counts_massless_members_as_one_unit() {
    let mut w = world_of(vec![
        body(0, 0, 0, 0, 0, None, 600),
        body(1, 1_000, 0, 0, 0, Some(99), 600),
    ]);
    w.collision_events.push(CollisionEvent { group: vec![0, 1] });
    CollisionProcessingSystem::new().run(&mut w);
    let ev = &w.creation_events[0];
    assert_eq!(ev.mass, 100);
    assert_eq!(ev.position.x, 990);
}

#[test]
fn resolution_deletes_only_grouped_bodies() {
    let mut w = world_of(vec![
        body(0, 0, 0, 0, 0, Some(100), 600),
        body(1, 1_000, 0, 0, 0, Some(100), 600),
        body(2, 50_000, 0, 0, 0, Some(100), 600),
    ]);
    w.collision_events.push(CollisionEvent { group: vec![0, 1] });
    CollisionProcessingSystem::new().run(&mut w);
    assert_eq!(w.bodies.len(), 1);
    assert_eq!(w.bodies[0].id, 2);
}
