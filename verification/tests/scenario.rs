//! Whole-tick scenarios: spawning, the input translator, and end-to-end
//! merging under gravity.

use gravity_sandbox::components::{BodyType, Collider, Force, Mass, Transform, Vec2, Velocity};
use gravity_sandbox::entities::PLANET_DENSITY;
use gravity_sandbox::events::BodyCreationEvent;
use gravity_sandbox::resources::{InputState, MouseInfo};
use gravity_sandbox::systems::{
    run_tick, BodyCreationSystem, BodyCreationSystemDesc, CollisionProcessingSystemDesc,
    InputParsingSystem,
};
use gravity_sandbox::world::{Body, World};

fn body_at_rest(id: u64, x: i64, mass: i64, radius: i64) -> Body {
    Body {
        id,
        body_type: BodyType::from_mass(mass),
        transform: Transform::new(x, 0),
        velocity: Velocity(Vec2::zeros()),
        mass: Some(Mass(mass)),
        force: Force::default(),
        collider: Collider(radius),
    }
}

#[test]
fn tick_on_empty_world_is_a_no_op() {
    let mut w = World::new();
    run_tick(&mut w, 1_000_000);
    assert_eq!(w.bodies.len(), 0);
    assert_eq!(w.collision_events.len(), 0);
    assert_eq!(w.creation_events.len(), 0);
}

#[test]
fn tick_on_single_resting_body_changes_nothing() {
    let mut w = World::new();
    w.bodies.push(body_at_rest(0, 12_345, 100, 600));
    w.next_id = 1;
    run_tick(&mut w, 1_000_000);
    assert_eq!(w.bodies.len(), 1);
    assert_eq!(w.bodies[0].transform.translation.x, 12_345);
    assert_eq!(w.bodies[0].transform.translation.y, 0);
    assert_eq!(w.bodies[0].velocity.0.x, 0);
    assert_eq!(w.bodies[0].force.0.x, 0);
}

#[test]
fn two_resting_bodies_attract_and_merge_at_the_midpoint() {
    // Mass 100 each, ten world units apart, at rest: symmetric pull until
    // the circles touch, then one merge into a single body of mass 200 at
    // the midpoint with zero velocity.
    let mut w = World::new();
    w.bodies.push(body_at_rest(0, 0, 100, 4_000));
    w.bodies.push(body_at_rest(1, 10_000, 100, 4_000));
    w.next_id = 2;
    for _ in 0..50 {
        run_tick(&mut w, 10_000_000);
    }
    assert_eq!(w.bodies.len(), 1);
    let merged = &w.bodies[0];
    assert_eq!(merged.mass, Some(Mass(200)));
    assert_eq!(merged.transform.translation.x, 5_000);
    assert_eq!(merged.transform.translation.y, 0);
    assert_eq!(merged.velocity.0.x, 0);
    assert_eq!(merged.velocity.0.y, 0);
    assert_eq!(merged.body_type, BodyType::Planet);
}

#[test]
fn creation_event_round_trips_through_spawn() {
    let mut w = World::new();
    let mass = Mass::from_radius(30_000, PLANET_DENSITY).0;
    w.creation_events.push(BodyCreationEvent {
        body_type: BodyType::from_mass(mass),
        position: Vec2::new(123, 456),
        velocity: Vec2::new(-7, 8),
        mass,
        radius: 30_000,
    });
    BodyCreationSystem::new().run(&mut w);
    assert_eq!(w.creation_events.len(), 0);
    assert_eq!(w.bodies.len(), 1);
    let b = &w.bodies[0];
    assert_eq!(b.id, 0);
    assert_eq!(b.transform.translation.x, 123);
    assert_eq!(b.transform.translation.y, 456);
    assert_eq!(b.velocity.0.x, -7);
    assert_eq!(b.velocity.0.y, 8);
    assert_eq!(b.mass, Some(Mass(mass)));
    assert_eq!(b.collider.0, 30_000);
    assert_eq!(b.force.0.x, 0);
    assert_eq!(b.force.0.y, 0);
    assert_eq!(b.body_type, BodyType::from_mass(mass));
}

#[test]
fn spawn_assigns_fresh_identifiers_in_order() {
    let mut w = World::new();
    for _ in 0..3 {
        w.creation_events.push(BodyCreationEvent {
            body_type: BodyType::Planet,
            position: Vec2::zeros(),
            velocity: Vec2::zeros(),
            mass: 10,
            radius: 600,
        });
    }
    BodyCreationSystem::new().run(&mut w);
    assert_eq!(w.bodies.len(), 3);
    assert_eq!(w.bodies[0].id, 0);
    assert_eq!(w.bodies[1].id, 1);
    assert_eq!(w.bodies[2].id, 2);
    assert_eq!(w.next_id, 3);
}

#[test]
fn add_body_derives_mass_and_classification_from_radius() {
    let mut w = World::new();
    let id = w.add_body(Vec2::new(1_000, 2_000), Vec2::zeros(), 30_000);
    assert_eq!(id, 0);
    assert_eq!(w.bodies.len(), 1);
    assert_eq!(w.bodies[0].mass, Some(Mass(565_485_000)));
    assert_eq!(w.bodies[0].body_type, BodyType::Planet);
    assert_eq!(w.bodies[0].collider.0, 30_000);
    // A star-sized seed classifies as a star.
    w.add_body(Vec2::new(900_000, 0), Vec2::zeros(), 60_000);
    assert_eq!(w.bodies[1].body_type, BodyType::Star);
}

#[test]
fn index_of_finds_live_bodies_only() {
    let mut w = World::new();
    w.add_body(Vec2::zeros(), Vec2::zeros(), 1_000);
    w.add_body(Vec2::new(10_000, 0), Vec2::zeros(), 1_000);
    assert_eq!(w.index_of(1), Some(1));
    assert_eq!(w.index_of(5), None);
}

#[test]
fn system_descs_build_their_passes() {
    let mut w = World::new();
    let _creation = BodyCreationSystemDesc.build(&mut w);
    let _processing = CollisionProcessingSystemDesc.build(&mut w);
    assert_eq!(w.bodies.len(), 0);
}

#[test]
fn press_records_click_position() {
    let mut mouse = MouseInfo::default();
    let mut w = World::new();
    let input = InputState {
        add_planet_down: true,
        mouse_position: Some(Vec2::new(400, 300)),
        planet_size: 5_000,
    };
    InputParsingSystem.run(&input, &mut mouse, &mut w);
    assert!(mouse.is_down);
    assert_eq!(mouse.click_pos, Some(Vec2::new(400, 300)));
    assert_eq!(w.creation_events.len(), 0);
}

#[test]
fn release_emits_one_spawn_event_with_drag_velocity() {
    let mut mouse = MouseInfo { click_pos: Some(Vec2::new(400, 300)), is_down: true };
    let mut w = World::new();
    let input = InputState {
        add_planet_down: false,
        mouse_position: Some(Vec2::new(150, 350)),
        planet_size: 5_000,
    };
    InputParsingSystem.run(&input, &mut mouse, &mut w);
    assert!(!mouse.is_down);
    assert_eq!(w.creation_events.len(), 1);
    let ev = &w.creation_events[0];
    assert_eq!(ev.position.x, 400);
    assert_eq!(ev.position.y, 300);
    assert_eq!(ev.velocity.x, 250);
    assert_eq!(ev.velocity.y, -50);
    assert_eq!(ev.radius, 5_000);
    assert_eq!(ev.mass, Mass::from_radius(5_000, PLANET_DENSITY).0);
    assert_eq!(ev.body_type, BodyType::from_mass(ev.mass));
}

#[test]
fn spawn_size_is_clamped_to_one_world_unit() {
    let mut mouse = MouseInfo { click_pos: Some(Vec2::new(0, 0)), is_down: true };
    let mut w = World::new();
    let input = InputState {
        add_planet_down: false,
        mouse_position: Some(Vec2::new(0, 0)),
        planet_size: 2,
    };
    InputParsingSystem.run(&input, &mut mouse, &mut w);
    assert_eq!(w.creation_events[0].radius, 1_000);
}

#[test]
fn release_without_press_is_ignored() {
    let mut mouse = MouseInfo::default();
    let mut w = World::new();
    let input = InputState {
        add_planet_down: false,
        mouse_position: Some(Vec2::new(10, 10)),
        planet_size: 5_000,
    };
    InputParsingSystem.run(&input, &mut mouse, &mut w);
    assert_eq!(w.creation_events.len(), 0);
    assert!(!mouse.is_down);
}

#[test]
fn release_without_pointer_position_is_ignored() {
    let mut mouse = MouseInfo { click_pos: Some(Vec2::new(0, 0)), is_down: true };
    let mut w = World::new();
    let input = InputState { add_planet_down: false, mouse_position: None, planet_size: 5_000 };
    InputParsingSystem.run(&input, &mut mouse, &mut w);
    assert_eq!(w.creation_events.len(), 0);
    assert!(mouse.is_down);
}

#[test]
fn one_tick_composes_gravity_integration_and_motion() {
    // Masses 2e6 and 3e6 ten world units apart, one-second tick: the
    // pairwise force is G*m1*m2/d^2, integration divides it by each mass,
    // and motion applies the new velocity.
    let mut w = World::new();
    w.bodies.push(body_at_rest(0, 0, 2_000_000, 1_000));
    w.bodies.push(body_at_rest(1, 10_000, 3_000_000, 1_000));
    w.next_id = 2;
    run_tick(&mut w, 1_000_000);
    assert_eq!(w.bodies[0].velocity.0.x, 3_000);
    assert_eq!(w.bodies[1].velocity.0.x, -2_000);
    assert_eq!(w.bodies[0].transform.translation.x, 3_000);
    assert_eq!(w.bodies[1].transform.translation.x, 8_000);
    assert_eq!(w.bodies[0].force.0.x, 0);
    assert_eq!(w.bodies[1].force.0.x, 0);
}

#[test]
fn spawn_saturates_out_of_range_events() {
    // A degenerate event still materializes a well-formed body: the mass
    // becomes strictly positive, and a negative radius collapses to zero.
    let mut w = World::new();
    w.creation_events.push(BodyCreationEvent {
        body_type: BodyType::Planet,
        position: Vec2::new(0, 0),
        velocity: Vec2::new(0, 0),
        mass: 0,
        radius: -5,
    });
    w.creation_events.push(BodyCreationEvent {
        body_type: BodyType::Planet,
        position: Vec2::new(0, 0),
        velocity: Vec2::new(0, 0),
        mass: i64::MAX,
        radius: 600,
    });
    BodyCreationSystem::new().run(&mut w);
    assert_eq!(w.bodies[0].mass, Some(Mass(1)));
    assert_eq!(w.bodies[0].collider.0, 0);
    assert_eq!(w.bodies[1].mass, Some(Mass(10_000_000_000)));
    assert_eq!(w.bodies[1].body_type, BodyType::Star);
}
