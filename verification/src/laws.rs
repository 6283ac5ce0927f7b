//! Global laws of the simulation, stated and proved over the same spec
//! functions the passes' contracts use.

use vstd::prelude::*;
use crate::components::{from_mass_spec, Mass, Vec2};
use crate::events::{BodyCreationEvent, CollisionEvent};
use crate::num::{
    lemma_div_tz_quotient_bound, lemma_div_tz_remainder, MASS_LIMIT, POS_LIMIT, VEL_LIMIT,
};
use crate::systems::{group_totals, in_same_group, merged_event_spec};
use crate::world::{
    bodies_wf, body_from_event_spec, collision_queue_wf, group_wf, ids_unique, Body,
};

verus! {

/// Mass conservation: the merged body's mass is exactly the sum of its
/// members' masses (a member without a mass record counting as one
/// unit), with no loss terms, whenever that sum lies within the model's
/// mass range. Beyond the range the merged mass saturates at the top of
/// the range — the integer model's analogue of a float running off to
/// infinity — and that is the only deviation.
pub proof fn lemma_mass_conservation(g: Seq<u64>, bodies: Seq<Body>)
    requires
        group_wf(g, bodies),
        bodies_wf(bodies),
        ids_unique(bodies),
    ensures
        group_totals(g, bodies, g.len() as int).mass <= MASS_LIMIT as int
            ==> merged_event_spec(g, bodies).mass as int == group_totals(
                g,
                bodies,
                g.len() as int,
            ).mass,
        group_totals(g, bodies, g.len() as int).mass > MASS_LIMIT as int ==> merged_event_spec(
            g,
            bodies,
        ).mass == MASS_LIMIT,
{
    crate::systems::lemma_group_totals_bounds(g, bodies, g.len() as int);
}

/// Momentum conservation: the total momentum of a collision group equals
/// the merged mass times the merged velocity, to within one remainder of
/// the integer division per component (strictly less than the merged
/// mass itself).
pub proof fn lemma_momentum_conservation(g: Seq<u64>, bodies: Seq<Body>)
    requires
        group_wf(g, bodies),
        bodies_wf(bodies),
        ids_unique(bodies),
    ensures
        ({
            let t = group_totals(g, bodies, g.len() as int);
            let ev = merged_event_spec(g, bodies);
            &&& t.mass * (ev.velocity.x as int) - t.mass < t.px < t.mass * (ev.velocity.x as int)
                + t.mass
            &&& t.mass * (ev.velocity.y as int) - t.mass < t.py < t.mass * (ev.velocity.y as int)
                + t.mass
        }),
{
    let t = group_totals(g, bodies, g.len() as int);
    crate::systems::lemma_group_totals_bounds(g, bodies, g.len() as int);
    lemma_div_tz_quotient_bound(t.px, t.mass, 100_000_000);
    lemma_div_tz_quotient_bound(t.py, t.mass, 100_000_000);
    lemma_div_tz_remainder(t.px, t.mass);
    lemma_div_tz_remainder(t.py, t.mass);
}

/// Centre of mass: the merged body appears at the mass-weighted mean of
/// its members' positions, to within one remainder of the integer
/// division per component; the weighted mean always lies inside the
/// position range, so saturation never moves it.
pub proof fn lemma_centre_of_mass(g: Seq<u64>, bodies: Seq<Body>)
    requires
        group_wf(g, bodies),
        bodies_wf(bodies),
        ids_unique(bodies),
    ensures
        ({
            let t = group_totals(g, bodies, g.len() as int);
            let ev = merged_event_spec(g, bodies);
            &&& t.mass * (ev.position.x as int) - t.mass < t.rx < t.mass * (ev.position.x as int)
                + t.mass
            &&& t.mass * (ev.position.y as int) - t.mass < t.ry < t.mass * (ev.position.y as int)
                + t.mass
        }),
{
    let t = group_totals(g, bodies, g.len() as int);
    crate::systems::lemma_group_totals_bounds(g, bodies, g.len() as int);
    lemma_div_tz_quotient_bound(t.rx, t.mass, 100_000_000);
    lemma_div_tz_quotient_bound(t.ry, t.mass, 100_000_000);
    lemma_div_tz_remainder(t.rx, t.mass);
    lemma_div_tz_remainder(t.ry, t.mass);
}

/// Group idempotence: identifiers that are pairwise co-grouped all sit in
/// one single group — never in two or three overlapping ones — because
/// pending groups are disjoint.
pub proof fn lemma_group_idempotence(
    evs: Seq<CollisionEvent>,
    bodies: Seq<Body>,
    a: u64,
    b: u64,
    c: u64,
)
    requires
        collision_queue_wf(evs, bodies),
        in_same_group(evs, a, b),
        in_same_group(evs, b, c),
    ensures
        in_same_group(evs, a, c),
        exists|k: int|
            0 <= k < evs.len() && (#[trigger] evs[k]).group@.contains(a) && evs[k].group@.contains(
                b,
            ) && evs[k].group@.contains(c),
        forall|k1: int, k2: int|
            0 <= k1 < evs.len() && 0 <= k2 < evs.len() && ((#[trigger] evs[k1]).group@.contains(a)
                || evs[k1].group@.contains(b) || evs[k1].group@.contains(c)) && ((
            #[trigger] evs[k2]).group@.contains(a) || evs[k2].group@.contains(b)
                || evs[k2].group@.contains(c)) ==> k1 == k2,
{
    assert forall|k1: int, k2: int, x: u64|
        0 <= k1 < evs.len() && 0 <= k2 < evs.len() && #[trigger] evs[k1].group@.contains(x)
            && #[trigger] evs[k2].group@.contains(x) implies k1 == k2 by {
        if k1 < k2 {
            assert(!evs[k2].group@.contains(x));
        } else if k2 < k1 {
            assert(!evs[k1].group@.contains(x));
        }
    }
    let kab = choose|k: int|
        0 <= k < evs.len() && (#[trigger] evs[k]).group@.contains(a) && evs[k].group@.contains(b);
    let kbc = choose|k: int|
        0 <= k < evs.len() && (#[trigger] evs[k]).group@.contains(b) && evs[k].group@.contains(c);
    assert(kab == kbc);
    assert(evs[kab].group@.contains(a) && evs[kab].group@.contains(b) && evs[kab].group@.contains(
        c,
    ));
    assert forall|k1: int, k2: int|
        0 <= k1 < evs.len() && 0 <= k2 < evs.len() && ((#[trigger] evs[k1]).group@.contains(a)
            || evs[k1].group@.contains(b) || evs[k1].group@.contains(c)) && ((
    #[trigger] evs[k2]).group@.contains(a) || evs[k2].group@.contains(b) || evs[k2].group@.contains(
        c,
    )) implies k1 == k2 by {
        assert(k1 == kab);
        assert(k2 == kab);
    }
}

/// Chains of touching bodies end up co-grouped: if every directly
/// touching pair is co-grouped in some pending event and the events'
/// groups are disjoint, then any two distinct bodies reachable from one
/// another through touching neighbours share a group. Together with the
/// converse (a group's members are transitively touching) this pins the
/// grouping down as exactly the connected components of the touching
/// relation.
pub proof fn lemma_chain_is_grouped(
    evs: Seq<CollisionEvent>,
    bodies: Seq<Body>,
    i: int,
    j: int,
    fuel: nat,
)
    requires
        collision_queue_wf(evs, bodies),
        forall|a: int, b: int|
            0 <= a < bodies.len() && 0 <= b < bodies.len() && a != b && crate::systems::touching(
                #[trigger] bodies[a],
                #[trigger] bodies[b],
            ) ==> in_same_group(evs, bodies[a].id, bodies[b].id),
        crate::systems::reaches(bodies, i, j, fuel),
        0 <= i < bodies.len(),
        i != j,
    ensures
        in_same_group(evs, bodies[i].id, bodies[j].id),
    decreases fuel,
{
    let k = choose|k: int|
        0 <= k < bodies.len() && 0 <= j < bodies.len() && k != j && #[trigger] crate::systems::touching(
            bodies[k],
            bodies[j],
        ) && crate::systems::reaches(bodies, i, k, (fuel - 1) as nat);
    assert(in_same_group(evs, bodies[k].id, bodies[j].id));
    if k != i {
        lemma_chain_is_grouped(evs, bodies, i, k, (fuel - 1) as nat);
        let k1 = choose|m: int|
            0 <= m < evs.len() && (#[trigger] evs[m]).group@.contains(bodies[i].id)
                && evs[m].group@.contains(bodies[k].id);
        let k2 = choose|m: int|
            0 <= m < evs.len() && (#[trigger] evs[m]).group@.contains(bodies[k].id)
                && evs[m].group@.contains(bodies[j].id);
        if k1 < k2 {
            assert(!evs[k2].group@.contains(bodies[k].id));
        } else if k2 < k1 {
            assert(!evs[k1].group@.contains(bodies[k].id));
        }
        assert(evs[k1].group@.contains(bodies[i].id) && evs[k1].group@.contains(bodies[j].id));
    }
}

/// Round trip of a creation event: the spawned body carries the event's
/// position, velocity, mass and radius exactly (for an event within the
/// model's ranges), a zero force accumulator, and a classification
/// rederived from the mass.
pub proof fn lemma_creation_round_trip(ev: BodyCreationEvent, id: u64)
    requires
        -POS_LIMIT <= ev.position.x <= POS_LIMIT,
        -POS_LIMIT <= ev.position.y <= POS_LIMIT,
        -VEL_LIMIT <= ev.velocity.x <= VEL_LIMIT,
        -VEL_LIMIT <= ev.velocity.y <= VEL_LIMIT,
        1 <= ev.mass <= MASS_LIMIT,
        0 <= ev.radius <= POS_LIMIT,
    ensures
        ({
            let b = body_from_event_spec(ev, id);
            &&& b.id == id
            &&& b.transform.translation == ev.position
            &&& b.velocity.0 == ev.velocity
            &&& b.mass == Some(Mass(ev.mass))
            &&& b.collider.0 == ev.radius
            &&& b.body_type == from_mass_spec(ev.mass as int)
            &&& b.force.0 == (Vec2 { x: 0, y: 0 })
        }),
{
}

} // verus!
