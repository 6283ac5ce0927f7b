//! The simulation world: a stable arena of bodies plus the event queues
//! that carry deferred structural changes between passes.

use vstd::prelude::*;
use crate::components::{
    from_mass_spec, from_radius_spec, BodyType, Collider, Force, Mass, Transform, Vec2, Velocity,
};
use crate::entities::PLANET_DENSITY;
use crate::events::{BodyCreationEvent, CollisionEvent};
use crate::num::{clamp_i64, clamp_spec, MASS_LIMIT, POS_LIMIT, VEL_LIMIT, FORCE_LIMIT};

verus! {

/// A simulated gravitating, collidable circular body.
#[derive(Clone, Copy, Debug)]
pub struct Body {
    /// Stable identifier, unique among live bodies.
    pub id: u64,
    /// Classification, kept consistent with the mass.
    pub body_type: BodyType,
    /// Placement in the world.
    pub transform: Transform,
    /// Velocity, applied to the transform by the motion pass.
    pub velocity: Velocity,
    /// Mass record; a body without one neither attracts nor is attracted,
    /// and counts as one mass unit in integration and merging.
    pub mass: Option<Mass>,
    /// Force accumulated by the gravity pass, consumed by integration.
    pub force: Force,
    /// Collision shape: a circle centred on the transform.
    pub collider: Collider,
}

/// The mass a body contributes to integration and merging: its mass record,
/// or one unit if it has none.
pub open spec fn mass_or_one(m: Option<Mass>) -> int {
    match m {
        Some(mm) => mm.0 as int,
        None => 1,
    }
}

/// Mass saturated into the positive range `[1, MASS_LIMIT]`.
pub open spec fn clamp_mass_spec(m: int) -> int {
    if m < 1 {
        1
    } else if m > MASS_LIMIT as int {
        MASS_LIMIT as int
    } else {
        m
    }
}

/// Mass saturated into the positive range `[1, MASS_LIMIT]`.
pub fn clamp_mass(m: i64) -> (r: i64)
    ensures
        r as int == clamp_mass_spec(m as int),
{
    if m < 1 {
        1
    } else if m > MASS_LIMIT {
        MASS_LIMIT
    } else {
        m
    }
}

/// A body's scalars are within the model's ranges, its mass is strictly
/// positive, and its classification agrees with its mass.
pub open spec fn body_wf(b: Body) -> bool {
    &&& -POS_LIMIT <= b.transform.translation.x <= POS_LIMIT
    &&& -POS_LIMIT <= b.transform.translation.y <= POS_LIMIT
    &&& -VEL_LIMIT <= b.velocity.0.x <= VEL_LIMIT
    &&& -VEL_LIMIT <= b.velocity.0.y <= VEL_LIMIT
    &&& -FORCE_LIMIT <= b.force.0.x <= FORCE_LIMIT
    &&& -FORCE_LIMIT <= b.force.0.y <= FORCE_LIMIT
    &&& 0 <= b.collider.0 <= POS_LIMIT
    &&& match b.mass {
        Some(m) => 1 <= m.0 <= MASS_LIMIT && b.body_type == from_mass_spec(m.0 as int),
        None => true,
    }
}

/// `id` names a live body.
pub open spec fn live_id(bodies: Seq<Body>, id: u64) -> bool {
    exists|i: int| 0 <= i < bodies.len() && (#[trigger] bodies[i]).id == id
}

/// All bodies are well-formed.
pub open spec fn bodies_wf(bodies: Seq<Body>) -> bool {
    forall|i: int| 0 <= i < bodies.len() ==> body_wf(#[trigger] bodies[i])
}

/// No two live bodies share an identifier.
pub open spec fn ids_unique(bodies: Seq<Body>) -> bool {
    forall|i: int, j: int|
        0 <= i < j < bodies.len() ==> (#[trigger] bodies[i]).id != (#[trigger] bodies[j]).id
}

/// All identifiers are below the allocator's next one.
pub open spec fn ids_below(bodies: Seq<Body>, next: int) -> bool {
    forall|i: int| 0 <= i < bodies.len() ==> (#[trigger] bodies[i]).id < next
}

/// A collision group is well-formed against a body set: at least two
/// members, all distinct, all live.
pub open spec fn group_wf(g: Seq<u64>, bodies: Seq<Body>) -> bool {
    &&& g.len() >= 2
    &&& forall|i: int, j: int| 0 <= i < j < g.len() ==> g[i] != g[j]
    &&& forall|i: int| 0 <= i < g.len() ==> live_id(bodies, #[trigger] g[i])
}

/// The pending collision events are well-formed groups over the live body
/// set, and no two groups share a member.
pub open spec fn collision_queue_wf(evs: Seq<CollisionEvent>, bodies: Seq<Body>) -> bool {
    &&& forall|k: int| 0 <= k < evs.len() ==> group_wf((#[trigger] evs[k]).group@, bodies)
    &&& forall|a: int, b: int, id: u64|
        0 <= a < b < evs.len() && #[trigger] evs[a].group@.contains(id) ==> !(#[trigger] evs[
            b
        ].group@.contains(id))
}

/// Liveness of an identifier survives adding a body.
pub proof fn lemma_live_id_push(bodies: Seq<Body>, b: Body, id: u64)
    requires
        live_id(bodies, id),
    ensures
        live_id(bodies.push(b), id),
{
    let i = choose|i: int| 0 <= i < bodies.len() && (#[trigger] bodies[i]).id == id;
    assert(bodies.push(b)[i].id == id);
}

/// A well-formed collision queue stays well-formed when a body is added.
pub proof fn lemma_collision_queue_wf_push(evs: Seq<CollisionEvent>, bodies: Seq<Body>, b: Body)
    requires
        collision_queue_wf(evs, bodies),
    ensures
        collision_queue_wf(evs, bodies.push(b)),
{
    assert forall|k: int| 0 <= k < evs.len() implies group_wf(
        (#[trigger] evs[k]).group@,
        bodies.push(b),
    ) by {
        let g = evs[k].group@;
        assert(group_wf(g, bodies));
        assert forall|i: int| 0 <= i < g.len() implies live_id(bodies.push(b), #[trigger] g[i]) by {
            assert(live_id(bodies, g[i]));
            lemma_live_id_push(bodies, b, g[i]);
        }
    }
}

/// Liveness of an identifier survives any per-body update that keeps ids.
pub proof fn lemma_live_id_same_ids(b1: Seq<Body>, b2: Seq<Body>, id: u64)
    requires
        live_id(b1, id),
        b2.len() == b1.len(),
        forall|i: int| 0 <= i < b1.len() ==> (#[trigger] b2[i]).id == b1[i].id,
    ensures
        live_id(b2, id),
{
    let i = choose|i: int| 0 <= i < b1.len() && (#[trigger] b1[i]).id == id;
    assert(b2[i].id == id);
}

/// A well-formed collision queue stays well-formed under any per-body
/// update that keeps identifiers in place.
pub proof fn lemma_collision_queue_wf_same_ids(evs: Seq<CollisionEvent>, b1: Seq<Body>, b2: Seq<Body>)
    requires
        collision_queue_wf(evs, b1),
        b2.len() == b1.len(),
        forall|i: int| 0 <= i < b1.len() ==> (#[trigger] b2[i]).id == b1[i].id,
    ensures
        collision_queue_wf(evs, b2),
{
    assert forall|k: int| 0 <= k < evs.len() implies group_wf((#[trigger] evs[k]).group@, b2) by {
        let g = evs[k].group@;
        assert(group_wf(g, b1));
        assert forall|i: int| 0 <= i < g.len() implies live_id(b2, #[trigger] g[i]) by {
            assert(live_id(b1, g[i]));
            lemma_live_id_same_ids(b1, b2, g[i]);
        }
    }
}

/// The arena index at which the body with identifier `id` lives.
pub open spec fn index_of_id(bodies: Seq<Body>, id: u64) -> int {
    choose|i: int| 0 <= i < bodies.len() && (#[trigger] bodies[i]).id == id
}

/// The live body with identifier `id`.
pub open spec fn body_of(bodies: Seq<Body>, id: u64) -> Body {
    bodies[index_of_id(bodies, id)]
}

/// With unique identifiers, a live identifier names exactly one body.
pub proof fn lemma_body_of_props(bodies: Seq<Body>, id: u64)
    requires
        ids_unique(bodies),
        live_id(bodies, id),
    ensures
        0 <= index_of_id(bodies, id) < bodies.len(),
        bodies[index_of_id(bodies, id)].id == id,
        body_of(bodies, id).id == id,
        forall|i: int|
            0 <= i < bodies.len() && (#[trigger] bodies[i]).id == id ==> i == index_of_id(
                bodies,
                id,
            ),
{
    let w = index_of_id(bodies, id);
    assert(0 <= w < bodies.len() && bodies[w].id == id);
    assert forall|i: int|
        0 <= i < bodies.len() && (#[trigger] bodies[i]).id == id implies i == w by {
        if i < w {
            assert(bodies[i].id != bodies[w].id);
        } else if w < i {
            assert(bodies[w].id != bodies[i].id);
        }
    }
}

/// The simulation world. It exclusively owns every live body; events are
/// transient, owned by the producing pass until the consuming pass drains
/// them at its designated point in the tick.
#[derive(Debug)]
pub struct World {
    /// The live bodies, in a stable order.
    pub bodies: Vec<Body>,
    /// Groups found by collision detection, consumed by resolution.
    pub collision_events: Vec<CollisionEvent>,
    /// Spawn requests from resolution and input, consumed by body spawn.
    pub creation_events: Vec<BodyCreationEvent>,
    /// The next identifier to hand out.
    pub next_id: u64,
}

/// The body a creation event materializes, under a fresh identifier: each
/// field taken from the event, saturated into the model's ranges, with the
/// mass made strictly positive, the classification rederived from the mass,
/// and the force accumulator zeroed.
pub open spec fn body_from_event_spec(ev: BodyCreationEvent, id: u64) -> Body {
    Body {
        id,
        body_type: from_mass_spec(clamp_mass_spec(ev.mass as int)),
        transform: Transform {
            translation: Vec2 {
                x: clamp_spec(ev.position.x as int, POS_LIMIT as int) as i64,
                y: clamp_spec(ev.position.y as int, POS_LIMIT as int) as i64,
            },
        },
        velocity: Velocity(
            Vec2 {
                x: clamp_spec(ev.velocity.x as int, VEL_LIMIT as int) as i64,
                y: clamp_spec(ev.velocity.y as int, VEL_LIMIT as int) as i64,
            },
        ),
        mass: Some(Mass(clamp_mass_spec(ev.mass as int) as i64)),
        force: Force(Vec2 { x: 0, y: 0 }),
        collider: Collider(
            if ev.radius < 0 {
                0
            } else {
                clamp_spec(ev.radius as int, POS_LIMIT as int) as i64
            },
        ),
    }
}

impl World {
    /// The world is well-formed: bodies in range with unique identifiers
    /// below the allocator, and pending collision groups valid and disjoint.
    pub open spec fn wf(self) -> bool {
        &&& bodies_wf(self.bodies@)
        &&& ids_unique(self.bodies@)
        &&& ids_below(self.bodies@, self.next_id as int)
        &&& collision_queue_wf(self.collision_events@, self.bodies@)
    }

    /// An empty world.
    pub fn new() -> (w: World)
        ensures
            w.wf(),
            w.bodies@.len() == 0,
            w.collision_events@.len() == 0,
            w.creation_events@.len() == 0,
            w.next_id == 0,
    {
        World {
            bodies: Vec::new(),
            collision_events: Vec::new(),
            creation_events: Vec::new(),
            next_id: 0,
        }
    }

    /// The arena index of the body with the given identifier, if it lives.
    pub fn index_of(&self, id: u64) -> (r: Option<usize>)
        ensures
            match r {
                Some(i) => i < self.bodies@.len() && self.bodies@[i as int].id == id,
                None => !live_id(self.bodies@, id),
            },
    {
        let n = self.bodies.len();
        let mut i: usize = 0;
        while i < n
            invariant
                i <= n,
                n == self.bodies@.len(),
                forall|j: int| 0 <= j < i ==> (#[trigger] self.bodies@[j]).id != id,
            decreases n - i,
        {
            if self.bodies[i].id == id {
                return Some(i);
            }
            i += 1;
        }
        None
    }

    /// Append a freshly built body under the allocator's next identifier.
    /// This is the one primitive every construction path goes through.
    pub fn push_body(&mut self, b: Body)
        requires
            old(self).wf(),
            body_wf(b),
            b.id == old(self).next_id,
            old(self).next_id < u64::MAX,
        ensures
            final(self).wf(),
            final(self).bodies@ == old(self).bodies@.push(b),
            final(self).collision_events@ == old(self).collision_events@,
            final(self).creation_events@ == old(self).creation_events@,
            final(self).next_id == old(self).next_id + 1,
    {
        proof {
            lemma_collision_queue_wf_push(self.collision_events@, self.bodies@, b);
        }
        self.bodies.push(b);
        self.next_id = self.next_id + 1;
    }

    /// Materialize a body directly, as the startup seeding does: mass from
    /// the radius at the fixed density, classification from the mass, zero
    /// initial force, and a circular collision shape of the same radius.
    pub fn add_body(&mut self, pos: Vec2, vel: Vec2, radius: i64) -> (id: u64)
        requires
            old(self).wf(),
            old(self).next_id < u64::MAX,
        ensures
            final(self).wf(),
            id == old(self).next_id,
            final(self).next_id == old(self).next_id + 1,
            final(self).collision_events@ == old(self).collision_events@,
            final(self).creation_events@ == old(self).creation_events@,
            final(self).bodies@ == old(self).bodies@.push(
                body_from_event_spec(
                    BodyCreationEvent {
                        body_type: from_mass_spec(
                            from_radius_spec(
                                clamp_spec(
                                    if radius < 0 {
                                        0
                                    } else {
                                        radius as int
                                    },
                                    POS_LIMIT as int,
                                ),
                                PLANET_DENSITY as int,
                            ),
                        ),
                        position: pos,
                        velocity: vel,
                        mass: from_radius_spec(
                            clamp_spec(
                                if radius < 0 {
                                    0
                                } else {
                                    radius as int
                                },
                                POS_LIMIT as int,
                            ),
                            PLANET_DENSITY as int,
                        ) as i64,
                        radius,
                    },
                    old(self).next_id,
                ),
            ),
    {
        let r: i64 = if radius < 0 {
            0
        } else {
            clamp_i64(radius, POS_LIMIT)
        };
        let m: Mass = Mass::from_radius(r, PLANET_DENSITY);
        let ev = BodyCreationEvent {
            body_type: BodyType::from_mass(m.0),
            position: pos,
            velocity: vel,
            mass: m.0,
            radius,
        };
        self.build_entity_from(&ev)
    }

    /// Drain-side helper: materialize the body a creation event describes
    /// and hand back its fresh identifier.
    fn build_entity_from(&mut self, ev: &BodyCreationEvent) -> (id: u64)
        requires
            old(self).wf(),
            old(self).next_id < u64::MAX,
        ensures
            final(self).wf(),
            id == old(self).next_id,
            final(self).next_id == old(self).next_id + 1,
            final(self).collision_events@ == old(self).collision_events@,
            final(self).creation_events@ == old(self).creation_events@,
            final(self).bodies@ == old(self).bodies@.push(body_from_event_spec(*ev, old(self).next_id)),
    {
        let id = self.next_id;
        let mc: i64 = clamp_mass(ev.mass);
        let b = Body {
            id,
            body_type: BodyType::from_mass(mc),
            transform: Transform {
                translation: Vec2 {
                    x: clamp_i64(ev.position.x, POS_LIMIT),
                    y: clamp_i64(ev.position.y, POS_LIMIT),
                },
            },
            velocity: Velocity(
                Vec2 { x: clamp_i64(ev.velocity.x, VEL_LIMIT), y: clamp_i64(ev.velocity.y, VEL_LIMIT) },
            ),
            mass: Some(Mass(mc)),
            force: Force(Vec2 { x: 0, y: 0 }),
            collider: Collider(
                if ev.radius < 0 {
                    0
                } else {
                    clamp_i64(ev.radius, POS_LIMIT)
                },
            ),
        };
        self.push_body(b);
        id
    }
}

impl BodyCreationEvent {
    /// Materialize the body this event describes, in the given world, and
    /// return its fresh identifier. Every spawned body takes this path.
    pub fn build_entity(&self, world: &mut World) -> (id: u64)
        requires
            old(world).wf(),
            old(world).next_id < u64::MAX,
        ensures
            final(world).wf(),
            id == old(world).next_id,
            final(world).next_id == old(world).next_id + 1,
            final(world).collision_events@ == old(world).collision_events@,
            final(world).creation_events@ == old(world).creation_events@,
            final(world).bodies@ == old(world).bodies@.push(body_from_event_spec(*self, old(world).next_id)),
    {
        world.build_entity_from(self)
    }
}

} // verus!
