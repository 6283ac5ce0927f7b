//! Ephemeral events carrying deferred structural changes between passes.

use vstd::prelude::*;
use crate::components::{BodyType, Vec2};

verus! {

/// A set of at least two mutually, transitively touching bodies, found by
/// collision detection in the current tick and consumed once by collision
/// resolution. Members are body identifiers, distinct within a group.
#[derive(Debug)]
pub struct CollisionEvent {
    pub group: Vec<u64>,
}

/// A deferred request to materialize a new body, produced by collision
/// resolution (the merged body) or by the input translator (a user-spawned
/// body), and consumed by the body spawn pass.
#[derive(Clone, Copy, Debug)]
pub struct BodyCreationEvent {
    pub body_type: BodyType,
    pub position: Vec2,
    pub velocity: Vec2,
    pub mass: i64,
    pub radius: i64,
}

} // verus!
