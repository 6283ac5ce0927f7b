//! The per-tick simulation passes, in their fixed dependency order:
//! gravity accumulation, force integration, motion, collision detection,
//! collision resolution, and body spawning, plus the input translator.

use vstd::prelude::*;
use crate::num::{
    clamp_i128, clamp_spec, div_i128, div_tz, isqrt_u64, lemma_div_tz_bound,
    lemma_div_tz_quotient_bound, lemma_mul_abs_bound, lemma_mul_nonneg_bound,
    lemma_sqrt_floor_is, lemma_square_monotonic, sqrt_floor, DT_LIMIT, FORCE_LIMIT, MASS_LIMIT,
    POS_LIMIT, VEL_LIMIT,
};
use crate::world::{
    body_of, body_wf, bodies_wf, collision_queue_wf, ids_unique, index_of_id,
    lemma_body_of_props, lemma_collision_queue_wf_same_ids, live_id, mass_or_one, Body, World,
};
use crate::components::{from_mass_spec, BodyType, Force, Transform, Vec2, Velocity};
use crate::entities::PLANET_DENSITY;
use crate::events::{BodyCreationEvent, CollisionEvent};
use crate::num::{cbrt_floor, lemma_cbrt_floor_is, lemma_mul_le_scale};
use crate::resources::{InputState, MouseInfo};
use crate::tools::{inverse_volume_arg, inverse_volume_of_sphere};

verus! {

/// Strength of gravity: `G = G_NUM / G_DEN`. The pass formulas fold this
/// constant into their literal coefficients, together with the cube of
/// the fixed-point scale.
pub const G_NUM: i64 = 1;
/// Denominator of the gravitational constant.
pub const G_DEN: i64 = 10_000;

/// A body after the motion pass: its velocity, scaled by the timestep in
/// microseconds, is added to its translation, which saturates at
/// `POS_LIMIT`. Everything else is untouched.
pub open spec fn motion_body_spec(b: Body, dt: int) -> Body {
    Body {
        transform: Transform {
            translation: Vec2 {
                x: clamp_spec(
                    b.transform.translation.x + div_tz(b.velocity.0.x * dt, 1_000_000),
                    POS_LIMIT as int,
                ) as i64,
                y: clamp_spec(
                    b.transform.translation.y + div_tz(b.velocity.0.y * dt, 1_000_000),
                    POS_LIMIT as int,
                ) as i64,
            },
        },
        ..b
    }
}

/// A body after the integration pass: its accumulated force, divided by
/// its mass (one unit if it has no mass record) and scaled by the
/// timestep, is added to its velocity, which saturates at `VEL_LIMIT`;
/// the force accumulator is reset to zero for every body.
pub open spec fn integrate_body_spec(b: Body, dt: int) -> Body {
    Body {
        velocity: Velocity(
            Vec2 {
                x: clamp_spec(
                    b.velocity.0.x + div_tz(b.force.0.x * dt, mass_or_one(b.mass) * 1_000_000),
                    VEL_LIMIT as int,
                ) as i64,
                y: clamp_spec(
                    b.velocity.0.y + div_tz(b.force.0.y * dt, mass_or_one(b.mass) * 1_000_000),
                    VEL_LIMIT as int,
                ) as i64,
            },
        ),
        force: Force(Vec2 { x: 0, y: 0 }),
        ..b
    }
}

/// The gravitational force the pair `(a, b)` exerts, as the force applied
/// to `a`; `b` receives the exact opposite. With `r` the vector from `a`
/// to `b` and `d` the floor square root of `|r|^2`, the force is
/// `G * m_a * m_b / d^3 * r`, scaled into fixed-point force units by
/// `SCALE^3` (the coefficients fold to `10^9 * m_a * m_b` over
/// `10^4 * d^3`), each component saturated at `FORCE_LIMIT`. A pair at
/// zero distance, or one whose member lacks a mass record, exerts nothing.
pub open spec fn pair_force(a: Body, b: Body) -> (int, int) {
    match (a.mass, b.mass) {
        (Some(ma), Some(mb)) => {
            let dx = b.transform.translation.x - a.transform.translation.x;
            let dy = b.transform.translation.y - a.transform.translation.y;
            let d2 = dx * dx + dy * dy;
            if d2 == 0 {
                (0, 0)
            } else {
                let d = sqrt_floor(d2);
                let d3 = d * d * d;
                let k = 1_000_000_000 * (ma.0 as int) * (mb.0 as int);
                (
                    clamp_spec(div_tz(k * dx, 10_000 * d3), FORCE_LIMIT as int),
                    clamp_spec(div_tz(k * dy, 10_000 * d3), FORCE_LIMIT as int),
                )
            }
        },
        _ => (0, 0),
    }
}

/// The contribution of body `j` to body `i`'s force; a body contributes
/// nothing to itself.
pub open spec fn pf(bodies: Seq<Body>, i: int, j: int) -> (int, int) {
    if i == j {
        (0, 0)
    } else {
        pair_force(bodies[i], bodies[j])
    }
}

/// The summed contributions of bodies `0 .. upto` to body `i`'s force.
pub open spec fn force_sum(bodies: Seq<Body>, i: int, upto: int) -> (int, int)
    decreases upto,
{
    if upto <= 0 {
        (0, 0)
    } else {
        let prev = force_sum(bodies, i, upto - 1);
        let p = pf(bodies, i, upto - 1);
        (prev.0 + p.0, prev.1 + p.1)
    }
}

/// A body after the gravity pass: the summed pairwise attractions are
/// added to its force accumulator, which saturates at `FORCE_LIMIT`.
pub open spec fn gravity_body_spec(bodies: Seq<Body>, i: int) -> Body {
    let b = bodies[i];
    let s = force_sum(bodies, i, bodies.len() as int);
    Body {
        force: Force(
            Vec2 {
                x: clamp_spec(b.force.0.x + s.0, FORCE_LIMIT as int) as i64,
                y: clamp_spec(b.force.0.y + s.1, FORCE_LIMIT as int) as i64,
            },
        ),
        ..b
    }
}

/// Each component of a pair force is saturated, so bounded.
pub proof fn lemma_pair_force_bounded(a: Body, b: Body)
    ensures
        -1_000_000_000_000 <= pair_force(a, b).0 <= 1_000_000_000_000,
        -1_000_000_000_000 <= pair_force(a, b).1 <= 1_000_000_000_000,
{
}

/// Each pairwise contribution is bounded.
pub proof fn lemma_pf_bounded(bodies: Seq<Body>, i: int, j: int)
    ensures
        -1_000_000_000_000 <= pf(bodies, i, j).0 <= 1_000_000_000_000,
        -1_000_000_000_000 <= pf(bodies, i, j).1 <= 1_000_000_000_000,
{
    if i != j {
        lemma_pair_force_bounded(bodies[i], bodies[j]);
    }
}

/// A sum of `upto` bounded contributions is bounded by `upto` times the
/// per-pair bound.
pub proof fn lemma_force_sum_bound(bodies: Seq<Body>, i: int, upto: int)
    requires
        0 <= upto,
    ensures
        -(upto * 1_000_000_000_000) <= force_sum(bodies, i, upto).0 <= upto * 1_000_000_000_000,
        -(upto * 1_000_000_000_000) <= force_sum(bodies, i, upto).1 <= upto * 1_000_000_000_000,
    decreases upto,
{
    if upto > 0 {
        lemma_force_sum_bound(bodies, i, upto - 1);
        lemma_pf_bounded(bodies, i, upto - 1);
    }
}

/// Gravity is equal and opposite: the force on `b` from the pair `(b, a)`
/// is the exact negation of the force on `a` from `(a, b)`, component by
/// component, truncation and saturation included.
pub proof fn lemma_pair_force_antisym(a: Body, b: Body)
    ensures
        pair_force(b, a).0 == -pair_force(a, b).0,
        pair_force(b, a).1 == -pair_force(a, b).1,
{
    match (a.mass, b.mass) {
        (Some(ma), Some(mb)) => {
            let dx = b.transform.translation.x - a.transform.translation.x;
            let dy = b.transform.translation.y - a.transform.translation.y;
            let dxr = a.transform.translation.x - b.transform.translation.x;
            let dyr = a.transform.translation.y - b.transform.translation.y;
            assert(dxr * dxr == dx * dx && dyr * dyr == dy * dy) by (nonlinear_arith)
                requires
                    dxr == -dx,
                    dyr == -dy,
            ;
            let d2 = dx * dx + dy * dy;
            if d2 != 0 {
                assert(0 <= dx * dx && 0 <= dy * dy) by (nonlinear_arith);
                crate::num::lemma_sqrt_floor_exists(d2 as nat);
                let d = sqrt_floor(d2);
                assert(crate::num::is_sqrt_floor(d, d2));
                let d3 = d * d * d;
                assert(1 <= d) by (nonlinear_arith)
                    requires
                        0 <= d,
                        d * d <= d2,
                        d2 < (d + 1) * (d + 1),
                        1 <= d2,
                ;
                assert(1 <= d3) by (nonlinear_arith)
                    requires
                        1 <= d,
                        d3 == d * d * d,
                ;
                let den = 10_000 * d3;
                let k = 1_000_000_000 * (ma.0 as int) * (mb.0 as int);
                let kr = 1_000_000_000 * (mb.0 as int) * (ma.0 as int);
                assert(kr == k) by (nonlinear_arith)
                    requires
                        k == 1_000_000_000 * (ma.0 as int) * (mb.0 as int),
                        kr == 1_000_000_000 * (mb.0 as int) * (ma.0 as int),
                ;
                assert(kr * dxr == -(k * dx) && kr * dyr == -(k * dy)) by (nonlinear_arith)
                    requires
                        kr == k,
                        dxr == -dx,
                        dyr == -dy,
                ;
                crate::num::lemma_div_tz_neg(k * dx, den);
                crate::num::lemma_div_tz_neg(k * dy, den);
                crate::num::lemma_clamp_neg(div_tz(k * dx, den), FORCE_LIMIT as int);
                crate::num::lemma_clamp_neg(div_tz(k * dy, den), FORCE_LIMIT as int);
            }
        },
        _ => {},
    }
}

/// One velocity component's displacement over the timestep.
fn vel_step(v: i64, dt_us: u64) -> (s: i64)
    requires
        -VEL_LIMIT <= v <= VEL_LIMIT,
        dt_us <= DT_LIMIT,
    ensures
        s as int == div_tz(v as int * dt_us as int, 1_000_000),
        -1_000_000_000_000_000 <= s <= 1_000_000_000_000_000,
{
    proof {
        lemma_mul_abs_bound(v as int, dt_us as int, 100_000_000, 10_000_000);
    }
    let p: i128 = (v as i128) * (dt_us as i128);
    proof {
        lemma_div_tz_bound(p as int, 1_000_000, 1_000_000_000_000_000);
    }
    let q: i128 = div_i128(p, 1_000_000);
    q as i64
}

/// One velocity component's change from a force over the timestep.
fn accel_step(f: i64, m: i64, dt_us: u64) -> (s: i64)
    requires
        -FORCE_LIMIT <= f <= FORCE_LIMIT,
        1 <= m <= MASS_LIMIT,
        dt_us <= DT_LIMIT,
    ensures
        s as int == div_tz(f as int * dt_us as int, m as int * 1_000_000),
        -10_000_000_000_000 <= s <= 10_000_000_000_000,
{
    proof {
        lemma_mul_abs_bound(f as int, dt_us as int, 1_000_000_000_000, 10_000_000);
    }
    let p: i128 = (f as i128) * (dt_us as i128);
    let d: i128 = (m as i128) * 1_000_000;
    proof {
        lemma_div_tz_quotient_bound(p as int, d as int, 10_000_000_000_000);
    }
    let q: i128 = div_i128(p, d);
    q as i64
}

/// The force the pair `(a, b)` applies to `a`, computed once per pair.
fn pair_force_exec(a: &Body, b: &Body) -> (f: (i64, i64))
    requires
        body_wf(*a),
        body_wf(*b),
    ensures
        (f.0 as int, f.1 as int) == pair_force(*a, *b),
        -FORCE_LIMIT <= f.0 <= FORCE_LIMIT,
        -FORCE_LIMIT <= f.1 <= FORCE_LIMIT,
{
    let (ma, mb): (i64, i64) = match (a.mass, b.mass) {
        (Some(x), Some(y)) => (x.0, y.0),
        _ => {
            return (0, 0);
        },
    };
    let dx: i128 = b.transform.translation.x as i128 - a.transform.translation.x as i128;
    let dy: i128 = b.transform.translation.y as i128 - a.transform.translation.y as i128;
    proof {
        lemma_mul_abs_bound(dx as int, dx as int, 200_000_000, 200_000_000);
        lemma_mul_abs_bound(dy as int, dy as int, 200_000_000, 200_000_000);
        assert(0 <= (dx as int) * (dx as int) && 0 <= (dy as int) * (dy as int))
            by (nonlinear_arith);
    }
    let d2: i128 = dx * dx + dy * dy;
    if d2 == 0 {
        return (0, 0);
    }
    let d: u64 = isqrt_u64(d2 as u64);
    proof {
        assert((d2 as u64) as int == d2 as int);
        lemma_sqrt_floor_is(d as int, d2 as int);
        if d as int > 300_000_000 {
            lemma_square_monotonic(300_000_001, d as int);
        }
        assert(1 <= d as int) by (nonlinear_arith)
            requires
                (d as int) * (d as int) <= d2 as int,
                (d2 as int) < ((d as int) + 1) * ((d as int) + 1),
                0 <= d as int,
                1 <= d2 as int,
        ;
    }
    let d128: i128 = d as i128;
    proof {
        lemma_mul_nonneg_bound(d128 as int, d128 as int, 300_000_000, 300_000_000);
    }
    let dsq: i128 = d128 * d128;
    proof {
        lemma_mul_nonneg_bound(dsq as int, d128 as int, 90_000_000_000_000_000, 300_000_000);
        assert(1 <= (dsq as int) * (d128 as int)) by (nonlinear_arith)
            requires
                dsq as int == (d128 as int) * (d128 as int),
                1 <= d128 as int,
        ;
    }
    let d3: i128 = dsq * d128;
    let t1: i128 = 1_000_000_000 * (ma as i128);
    proof {
        lemma_mul_nonneg_bound(t1 as int, mb as int, 10_000_000_000_000_000_000, 10_000_000_000);
    }
    let t2: i128 = t1 * (mb as i128);
    proof {
        lemma_mul_abs_bound(
            t2 as int,
            dx as int,
            100_000_000_000_000_000_000_000_000_000,
            200_000_000,
        );
        lemma_mul_abs_bound(
            t2 as int,
            dy as int,
            100_000_000_000_000_000_000_000_000_000,
            200_000_000,
        );
    }
    let nx: i128 = t2 * dx;
    let ny: i128 = t2 * dy;
    let den: i128 = 10_000 * d3;
    proof {
        lemma_div_tz_bound(nx as int, den as int, 20_000_000_000_000_000_000_000_000_000_000_000_000);
        lemma_div_tz_bound(ny as int, den as int, 20_000_000_000_000_000_000_000_000_000_000_000_000);
    }
    let fx: i64 = clamp_i128(div_i128(nx, den), FORCE_LIMIT);
    let fy: i64 = clamp_i128(div_i128(ny, den), FORCE_LIMIT);
    (fx, fy)
}

/// Gravity pass: for every unordered pair of distinct bodies that both
/// carry a mass record, the attraction is computed once and accumulated
/// equal-and-opposite into both force accumulators. Bodies without a mass
/// record neither attract nor are attracted.
pub struct GravitySystem;

impl GravitySystem {
    /// Accumulate the pairwise gravitational forces.
    pub fn run(&self, world: &mut World)
        requires
            old(world).wf(),
        ensures
            final(world).wf(),
            final(world).bodies@.len() == old(world).bodies@.len(),
            forall|i: int|
                0 <= i < old(world).bodies@.len() ==> final(world).bodies@[i] == gravity_body_spec(
                    old(world).bodies@,
                    i,
                ),
            final(world).collision_events@ == old(world).collision_events@,
            final(world).creation_events@ == old(world).creation_events@,
            final(world).next_id == old(world).next_id,
    {
        let ghost bodies0: Seq<Body> = world.bodies@;
        let n = world.bodies.len();
        let mut acc: Vec<(i128, i128)> = Vec::new();
        let mut z: usize = 0;
        while z < n
            invariant
                z <= n,
                acc@.len() == z,
                forall|i: int| 0 <= i < z ==> #[trigger] acc@[i] == (0i128, 0i128),
            decreases n - z,
        {
            acc.push((0, 0));
            z += 1;
        }
        let mut k: usize = 0;
        while k < n
            invariant
                old(world).wf(),
                bodies0 == old(world).bodies@,
                world == old(world),
                k <= n,
                n == world.bodies@.len(),
                acc@.len() == n,
                forall|i: int|
                    0 <= i < k ==> ((#[trigger] acc@[i]).0 as int, acc@[i].1 as int) == force_sum(
                        bodies0,
                        i,
                        n as int,
                    ),
                forall|i: int|
                    k <= i < n ==> ((#[trigger] acc@[i]).0 as int, acc@[i].1 as int) == force_sum(
                        bodies0,
                        i,
                        k as int,
                    ),
            decreases n - k,
        {
            let mut j: usize = k + 1;
            proof {
                assert(force_sum(bodies0, k as int, k as int + 1) == force_sum(
                    bodies0,
                    k as int,
                    k as int,
                ));
            }
            while j < n
                invariant
                    old(world).wf(),
                    bodies0 == old(world).bodies@,
                    world == old(world),
                    k < j <= n || (k + 1 == j && j >= n),
                    k < n,
                    n == world.bodies@.len(),
                    acc@.len() == n,
                    forall|i: int|
                        0 <= i < k ==> ((#[trigger] acc@[i]).0 as int, acc@[i].1 as int)
                            == force_sum(bodies0, i, n as int),
                    (acc@[k as int].0 as int, acc@[k as int].1 as int) == force_sum(
                        bodies0,
                        k as int,
                        j as int,
                    ),
                    forall|i: int|
                        k < i < j ==> ((#[trigger] acc@[i]).0 as int, acc@[i].1 as int)
                            == force_sum(bodies0, i, k as int + 1),
                    forall|i: int|
                        j <= i < n && k < i ==> ((#[trigger] acc@[i]).0 as int, acc@[i].1 as int)
                            == force_sum(bodies0, i, k as int),
                decreases n - j,
            {
                let bk: Body = world.bodies[k];
                let bj: Body = world.bodies[j];
                proof {
                    assert(body_wf(bk) && body_wf(bj));
                }
                let f: (i64, i64) = pair_force_exec(&bk, &bj);
                proof {
                    lemma_force_sum_bound(bodies0, k as int, j as int);
                    lemma_force_sum_bound(bodies0, j as int, k as int);
                    lemma_pair_force_antisym(bk, bj);
                }
                let ak: (i128, i128) = acc[k];
                acc.set(k, (ak.0 + f.0 as i128, ak.1 + f.1 as i128));
                let aj: (i128, i128) = acc[j];
                acc.set(j, (aj.0 - f.0 as i128, aj.1 - f.1 as i128));
                proof {
                    assert(pf(bodies0, k as int, j as int) == pair_force(bk, bj));
                    assert(pf(bodies0, j as int, k as int) == pair_force(bj, bk));
                    assert((acc@[k as int].0 as int, acc@[k as int].1 as int) == force_sum(
                        bodies0,
                        k as int,
                        j as int + 1,
                    ));
                    assert((acc@[j as int].0 as int, acc@[j as int].1 as int) == force_sum(
                        bodies0,
                        j as int,
                        k as int + 1,
                    ));
                }
                j += 1;
            }
            proof {
                assert((acc@[k as int].0 as int, acc@[k as int].1 as int) == force_sum(
                    bodies0,
                    k as int,
                    n as int,
                ));
            }
            k += 1;
        }
        let mut i: usize = 0;
        while i < n
            invariant
                old(world).wf(),
                bodies0 == old(world).bodies@,
                i <= n,
                n == world.bodies@.len(),
                world.bodies@.len() == old(world).bodies@.len(),
                world.collision_events@ == old(world).collision_events@,
                world.creation_events@ == old(world).creation_events@,
                world.next_id == old(world).next_id,
                acc@.len() == n,
                forall|x: int|
                    0 <= x < n ==> ((#[trigger] acc@[x]).0 as int, acc@[x].1 as int) == force_sum(
                        bodies0,
                        x,
                        n as int,
                    ),
                forall|j: int|
                    0 <= j < i ==> world.bodies@[j] == gravity_body_spec(old(world).bodies@, j),
                forall|j: int| i <= j < n ==> world.bodies@[j] == old(world).bodies@[j],
            decreases n - i,
        {
            let b: Body = world.bodies[i];
            proof {
                assert(b == old(world).bodies@[i as int]);
                assert(body_wf(b));
                lemma_force_sum_bound(bodies0, i as int, n as int);
            }
            let a: (i128, i128) = acc[i];
            let nfx: i64 = clamp_i128(b.force.0.x as i128 + a.0, FORCE_LIMIT);
            let nfy: i64 = clamp_i128(b.force.0.y as i128 + a.1, FORCE_LIMIT);
            let nb = Body { force: Force(Vec2 { x: nfx, y: nfy }), ..b };
            proof {
                assert(nb == gravity_body_spec(old(world).bodies@, i as int));
            }
            world.bodies.set(i, nb);
            i += 1;
        }
        proof {
            assert forall|j: int| 0 <= j < world.bodies@.len() implies body_wf(
                #[trigger] world.bodies@[j],
            ) by {
                assert(body_wf(old(world).bodies@[j]));
            }
            assert forall|j: int| 0 <= j < world.bodies@.len() implies (#[trigger] world.bodies@[
                j
            ]).id == old(world).bodies@[j].id by {
                assert(world.bodies@[j] == gravity_body_spec(old(world).bodies@, j));
            }
            lemma_collision_queue_wf_same_ids(
                world.collision_events@,
                old(world).bodies@,
                world.bodies@,
            );
        }
    }
}

/// Touching is symmetric.
pub proof fn lemma_touching_sym(a: Body, b: Body)
    ensures
        touching(a, b) == touching(b, a),
{
    let dx = b.transform.translation.x - a.transform.translation.x;
    let dy = b.transform.translation.y - a.transform.translation.y;
    assert((-dx) * (-dx) == dx * dx && (-dy) * (-dy) == dy * dy) by (nonlinear_arith);
}

/// A fresh two-member group was appended for an ungrouped pair.
proof fn lemma_put_fresh(g0: Seq<Vec<u64>>, g1: Seq<Vec<u64>>, e1: u64, e2: u64)
    requires
        grouping_wf(g0),
        e1 != e2,
        !grouped_v(g0, e1),
        !grouped_v(g0, e2),
        g1.len() == g0.len() + 1,
        forall|m: int| 0 <= m < g0.len() ==> g1[m] == g0[m],
        g1[g0.len() as int]@.len() == 2,
        g1[g0.len() as int]@[0] == e1,
        g1[g0.len() as int]@[1] == e2,
    ensures
        grouping_wf(g1),
        same_group(g1, e1, e2),
        forall|x: u64, y: u64| same_group(g0, x, y) ==> same_group(g1, x, y),
        forall|x: u64| grouped_v(g1, x) <==> grouped_v(g0, x) || x == e1 || x == e2,
        forall|x: u64, y: u64|
            same_group(g1, x, y) ==> same_group(g0, x, y) || (linked_to_pair(g0, x, e1, e2)
                && linked_to_pair(g0, y, e1, e2)),
{
    let nl = g0.len() as int;
    assert forall|x: u64| #[trigger] g1[nl]@.contains(x) implies x == e1 || x == e2 by {
        let i = choose|i: int| 0 <= i < g1[nl]@.len() && g1[nl]@[i] == x;
        assert(i == 0 || i == 1);
    }
    assert(g1[nl]@.contains(e1) && g1[nl]@.contains(e2));
    assert forall|k: int, i: int, j: int|
        0 <= k < g1.len() && 0 <= i < j < g1[k]@.len() implies #[trigger] g1[k]@[i]
        != #[trigger] g1[k]@[j] by {
        if k < nl {
            assert(g1[k] == g0[k]);
        } else {
            assert(i == 0 && j == 1);
        }
    }
    assert forall|k1: int, k2: int, id: u64|
        0 <= k1 < k2 < g1.len() && #[trigger] g1[k1]@.contains(id) implies !(#[trigger] g1[
        k2
    ]@.contains(id)) by {
        if k2 < nl {
            assert(g1[k1] == g0[k1] && g1[k2] == g0[k2]);
        } else {
            assert(g1[k1] == g0[k1]);
            if g1[k2]@.contains(id) {
                assert(id == e1 || id == e2);
                assert(grouped_v(g0, id));
            }
        }
    }
    assert forall|x: u64, y: u64| same_group(g0, x, y) implies same_group(g1, x, y) by {
        let k = choose|k: int|
            0 <= k < g0.len() && (#[trigger] g0[k])@.contains(x) && g0[k]@.contains(y);
        assert(g1[k]@.contains(x) && g1[k]@.contains(y));
    }
    assert forall|x: u64| grouped_v(g1, x) implies grouped_v(g0, x) || x == e1 || x == e2 by {
        let k = choose|k: int| 0 <= k < g1.len() && (#[trigger] g1[k])@.contains(x);
        if k < nl {
            assert(g0[k]@.contains(x));
        }
    }
    assert forall|x: u64| grouped_v(g0, x) implies grouped_v(g1, x) by {
        let k = choose|k: int| 0 <= k < g0.len() && (#[trigger] g0[k])@.contains(x);
        assert(g1[k]@.contains(x));
    }
    assert forall|x: u64, y: u64|
        same_group(g1, x, y) implies same_group(g0, x, y) || (linked_to_pair(g0, x, e1, e2)
        && linked_to_pair(g0, y, e1, e2)) by {
        let k = choose|k: int|
            0 <= k < g1.len() && (#[trigger] g1[k])@.contains(x) && g1[k]@.contains(y);
        if k < nl {
            assert(g0[k]@.contains(x) && g0[k]@.contains(y));
        }
    }
}

/// An ungrouped member joined the existing group of its partner.
proof fn lemma_put_join(g0: Seq<Vec<u64>>, g1: Seq<Vec<u64>>, i: int, e_in: u64, e_new: u64)
    requires
        grouping_wf(g0),
        0 <= i < g0.len(),
        g0[i]@.contains(e_in),
        !grouped_v(g0, e_new),
        e_in != e_new,
        g1.len() == g0.len(),
        forall|m: int| 0 <= m < i ==> g1[m] == g0[m],
        forall|m: int| i <= m < g0.len() - 1 ==> g1[m] == g0[m + 1],
        g1[g0.len() - 1]@ == g0[i]@.push(e_new),
    ensures
        grouping_wf(g1),
        same_group(g1, e_in, e_new),
        forall|x: u64, y: u64| same_group(g0, x, y) ==> same_group(g1, x, y),
        forall|x: u64| grouped_v(g1, x) <==> grouped_v(g0, x) || x == e_in || x == e_new,
        forall|x: u64, y: u64|
            same_group(g1, x, y) ==> same_group(g0, x, y) || (linked_to_pair(g0, x, e_in, e_new)
                && linked_to_pair(g0, y, e_in, e_new)),
{
    let nl = g0.len() as int;
    // What the merged last group holds.
    assert forall|x: u64| #[trigger] g1[nl - 1]@.contains(x) implies x == e_new || g0[
        i
    ]@.contains(x) by {
        let m = choose|m: int| 0 <= m < g1[nl - 1]@.len() && #[trigger] g1[nl - 1]@[m] == x;
        if m < g0[i]@.len() {
            assert(g0[i]@[m] == x);
        }
    }
    assert forall|x: u64| g0[i]@.contains(x) implies #[trigger] g1[nl - 1]@.contains(x) by {
        let m = choose|m: int| 0 <= m < g0[i]@.len() && #[trigger] g0[i]@[m] == x;
        assert(g1[nl - 1]@[m] == x);
    }
    assert(g1[nl - 1]@[g0[i]@.len() as int] == e_new);
    assert(g1[nl - 1]@.contains(e_new));
    // Map an untouched new index back to its old group.
    assert forall|m: int| 0 <= m < nl - 1 implies g1[m] == g0[if m < i {
        m
    } else {
        m + 1
    }] by {}
    assert forall|k: int, a: int, b: int|
        0 <= k < g1.len() && 0 <= a < b < g1[k]@.len() implies #[trigger] g1[k]@[a]
        != #[trigger] g1[k]@[b] by {
        if k < nl - 1 {
        } else {
            let gl = g0[i]@.len() as int;
            if b < gl {
                assert(g1[k]@[a] == g0[i]@[a] && g1[k]@[b] == g0[i]@[b]);
            } else {
                assert(g1[k]@[b] == e_new);
                assert(g1[k]@[a] == g0[i]@[a]);
                assert(g0[i]@.contains(g0[i]@[a]));
                assert(grouped_v(g0, g0[i]@[a]));
            }
        }
    }
    assert forall|k1: int, k2: int, id: u64|
        0 <= k1 < k2 < g1.len() && #[trigger] g1[k1]@.contains(id) implies !(#[trigger] g1[
        k2
    ]@.contains(id)) by {
        let o1: int = if k1 < i {
            k1
        } else {
            k1 + 1
        };
        if k2 < nl - 1 {
            let o2: int = if k2 < i {
                k2
            } else {
                k2 + 1
            };
            assert(g1[k1] == g0[o1] && g1[k2] == g0[o2]);
            if o1 < o2 {
            } else {
                assert(o2 < o1);
            }
        } else {
            assert(g1[k1] == g0[o1]);
            if g1[k2]@.contains(id) {
                assert(id == e_new || g0[i]@.contains(id));
                if id == e_new {
                    assert(grouped_v(g0, id));
                } else {
                    assert(o1 != i);
                }
            }
        }
    }
    assert(g1[nl - 1]@.contains(e_in));
    assert forall|x: u64, y: u64| same_group(g0, x, y) implies same_group(g1, x, y) by {
        let k = choose|k: int|
            0 <= k < g0.len() && (#[trigger] g0[k])@.contains(x) && g0[k]@.contains(y);
        if k == i {
            assert(g1[nl - 1]@.contains(x) && g1[nl - 1]@.contains(y));
        } else {
            let m: int = if k < i {
                k
            } else {
                k - 1
            };
            assert(g1[m] == g0[k]);
        }
    }
    assert forall|x: u64| grouped_v(g1, x) implies grouped_v(g0, x) || x == e_in || x == e_new by {
        let k = choose|k: int| 0 <= k < g1.len() && (#[trigger] g1[k])@.contains(x);
        if k < nl - 1 {
            let o: int = if k < i {
                k
            } else {
                k + 1
            };
            assert(g0[o]@.contains(x));
        } else {
            if x != e_new {
                assert(g0[i]@.contains(x));
            }
        }
    }
    assert forall|x: u64| grouped_v(g0, x) implies grouped_v(g1, x) by {
        let k = choose|k: int| 0 <= k < g0.len() && (#[trigger] g0[k])@.contains(x);
        if k == i {
            assert(g1[nl - 1]@.contains(x));
        } else {
            let m: int = if k < i {
                k
            } else {
                k - 1
            };
            assert(g1[m]@.contains(x));
        }
    }
    assert forall|x: u64, y: u64|
        same_group(g1, x, y) implies same_group(g0, x, y) || (linked_to_pair(g0, x, e_in, e_new)
        && linked_to_pair(g0, y, e_in, e_new)) by {
        let k = choose|k: int|
            0 <= k < g1.len() && (#[trigger] g1[k])@.contains(x) && g1[k]@.contains(y);
        if k < nl - 1 {
            let o: int = if k < i {
                k
            } else {
                k + 1
            };
            assert(g0[o]@.contains(x) && g0[o]@.contains(y));
        } else {
            if x != e_new && y != e_new {
                assert(g0[i]@.contains(x) && g0[i]@.contains(y));
            } else {
                if x != e_new {
                    assert(g0[i]@.contains(x));
                    assert(same_group(g0, x, e_in));
                }
                if y != e_new {
                    assert(g0[i]@.contains(y));
                    assert(same_group(g0, y, e_in));
                }
            }
        }
    }
}

/// Two distinct existing groups were merged by a pair that links them.
proof fn lemma_put_merge(g0: Seq<Vec<u64>>, g1: Seq<Vec<u64>>, a: int, b: int, e1: u64, e2: u64)
    requires
        grouping_wf(g0),
        0 <= a < b < g0.len(),
        e1 != e2,
        (g0[a]@.contains(e1) && g0[b]@.contains(e2)) || (g0[a]@.contains(e2) && g0[b]@.contains(
            e1,
        )),
        g1.len() == g0.len() - 1,
        forall|m: int| 0 <= m < a ==> g1[m] == g0[m],
        forall|m: int| a <= m < b - 1 ==> g1[m] == g0[m + 1],
        forall|m: int| b - 1 <= m < g0.len() - 2 ==> g1[m] == g0[m + 2],
        g1[g0.len() - 2]@ == g0[a]@ + g0[b]@,
    ensures
        grouping_wf(g1),
        same_group(g1, e1, e2),
        forall|x: u64, y: u64| same_group(g0, x, y) ==> same_group(g1, x, y),
        forall|x: u64| grouped_v(g1, x) <==> grouped_v(g0, x) || x == e1 || x == e2,
        forall|x: u64, y: u64|
            same_group(g1, x, y) ==> same_group(g0, x, y) || (linked_to_pair(g0, x, e1, e2)
                && linked_to_pair(g0, y, e1, e2)),
{
    let nl = g0.len() as int;
    let la = g0[a]@.len() as int;
    // What the merged group holds.
    assert forall|x: u64| #[trigger] g1[nl - 2]@.contains(x) implies g0[a]@.contains(x) || g0[
        b
    ]@.contains(x) by {
        let m = choose|m: int| 0 <= m < g1[nl - 2]@.len() && #[trigger] g1[nl - 2]@[m] == x;
        if m < la {
            assert(g0[a]@[m] == x);
        } else {
            assert(g0[b]@[m - la] == x);
        }
    }
    assert forall|x: u64| g0[a]@.contains(x) implies #[trigger] g1[nl - 2]@.contains(x) by {
        let m = choose|m: int| 0 <= m < g0[a]@.len() && #[trigger] g0[a]@[m] == x;
        assert(g1[nl - 2]@[m] == x);
    }
    assert forall|x: u64| g0[b]@.contains(x) implies #[trigger] g1[nl - 2]@.contains(x) by {
        let m = choose|m: int| 0 <= m < g0[b]@.len() && #[trigger] g0[b]@[m] == x;
        assert(g1[nl - 2]@[la + m] == x);
    }
    // Map an untouched new index back to its old group.
    let ghost back = |m: int|
        if m < a {
            m
        } else if m < b - 1 {
            m + 1
        } else {
            m + 2
        };
    assert forall|m: int| 0 <= m < nl - 2 implies g1[m] == g0[back(m)] && back(m) != a && back(m)
        != b && 0 <= back(m) < nl by {}
    assert forall|k: int, p: int, q: int|
        0 <= k < g1.len() && 0 <= p < q < g1[k]@.len() implies #[trigger] g1[k]@[p]
        != #[trigger] g1[k]@[q] by {
        if k < nl - 2 {
            assert(g1[k] == g0[back(k)]);
        } else {
            let x = g1[k]@[p];
            let y = g1[k]@[q];
            if p < la && q < la {
                assert(x == g0[a]@[p] && y == g0[a]@[q]);
            } else if p < la {
                assert(x == g0[a]@[p] && y == g0[b]@[q - la]);
                assert(g0[a]@.contains(x) && g0[b]@.contains(y));
                if x == y {
                    assert(!g0[b]@.contains(x));
                }
            } else {
                assert(x == g0[b]@[p - la] && y == g0[b]@[q - la]);
            }
        }
    }
    assert forall|k1: int, k2: int, id: u64|
        0 <= k1 < k2 < g1.len() && #[trigger] g1[k1]@.contains(id) implies !(#[trigger] g1[
        k2
    ]@.contains(id)) by {
        assert(g1[k1] == g0[back(k1)]);
        if k2 < nl - 2 {
            assert(g1[k2] == g0[back(k2)]);
            if back(k1) < back(k2) {
            } else {
                assert(back(k2) < back(k1));
            }
        } else {
            if g1[k2]@.contains(id) {
                assert(g0[a]@.contains(id) || g0[b]@.contains(id));
                assert(back(k1) != a && back(k1) != b);
                if g0[a]@.contains(id) {
                    if back(k1) < a {
                    } else {
                        assert(a < back(k1));
                    }
                } else {
                    if back(k1) < b {
                    } else {
                        assert(b < back(k1));
                    }
                }
            }
        }
    }
    assert(g1[nl - 2]@.contains(e1) && g1[nl - 2]@.contains(e2));
    assert forall|x: u64, y: u64| same_group(g0, x, y) implies same_group(g1, x, y) by {
        let k = choose|k: int|
            0 <= k < g0.len() && (#[trigger] g0[k])@.contains(x) && g0[k]@.contains(y);
        if k == a || k == b {
            assert(g1[nl - 2]@.contains(x) && g1[nl - 2]@.contains(y));
        } else {
            let m: int = if k < a {
                k
            } else if k < b {
                k - 1
            } else {
                k - 2
            };
            assert(g1[m] == g0[k]);
        }
    }
    assert forall|x: u64| grouped_v(g1, x) implies grouped_v(g0, x) || x == e1 || x == e2 by {
        let k = choose|k: int| 0 <= k < g1.len() && (#[trigger] g1[k])@.contains(x);
        if k < nl - 2 {
            assert(g0[back(k)]@.contains(x));
        } else {
            assert(g0[a]@.contains(x) || g0[b]@.contains(x));
        }
    }
    assert forall|x: u64| grouped_v(g0, x) implies grouped_v(g1, x) by {
        let k = choose|k: int| 0 <= k < g0.len() && (#[trigger] g0[k])@.contains(x);
        if k == a || k == b {
            assert(g1[nl - 2]@.contains(x));
        } else {
            let m: int = if k < a {
                k
            } else if k < b {
                k - 1
            } else {
                k - 2
            };
            assert(g1[m]@.contains(x));
        }
    }
    assert forall|x: u64, y: u64|
        same_group(g1, x, y) implies same_group(g0, x, y) || (linked_to_pair(g0, x, e1, e2)
        && linked_to_pair(g0, y, e1, e2)) by {
        let k = choose|k: int|
            0 <= k < g1.len() && (#[trigger] g1[k])@.contains(x) && g1[k]@.contains(y);
        if k < nl - 2 {
            assert(g0[back(k)]@.contains(x) && g0[back(k)]@.contains(y));
        } else {
            let ea: u64 = if g0[a]@.contains(e1) {
                e1
            } else {
                e2
            };
            let eb: u64 = if g0[a]@.contains(e1) {
                e2
            } else {
                e1
            };
            assert(g0[a]@.contains(ea) && g0[b]@.contains(eb));
            if g0[a]@.contains(x) && g0[a]@.contains(y) {
                assert(same_group(g0, x, y));
            } else if g0[b]@.contains(x) && g0[b]@.contains(y) {
                assert(same_group(g0, x, y));
            } else {
                if g0[a]@.contains(x) {
                    assert(same_group(g0, x, ea));
                } else {
                    assert(g0[b]@.contains(x));
                    assert(same_group(g0, x, eb));
                }
                if g0[a]@.contains(y) {
                    assert(same_group(g0, y, ea));
                } else {
                    assert(g0[b]@.contains(y));
                    assert(same_group(g0, y, eb));
                }
            }
        }
    }
}

/// The pair already sat in one group; nothing changed.
proof fn lemma_put_already(g0: Seq<Vec<u64>>, i: int, e1: u64, e2: u64)
    requires
        grouping_wf(g0),
        0 <= i < g0.len(),
        g0[i]@.contains(e1),
        g0[i]@.contains(e2),
    ensures
        same_group(g0, e1, e2),
        grouped_v(g0, e1),
        grouped_v(g0, e2),
{
}

/// Collision detection pass: finds all touching pairs and unions them into
/// disjoint collision groups, one event per group.
pub struct CollisionDetectionSystem;

impl CollisionDetectionSystem {
    /// Record one discovered colliding pair in the grouping under
    /// construction. If neither member is grouped yet, a fresh group is
    /// made of the two; if exactly one is, the other joins its group; if
    /// both sit in one group already, nothing changes; and if they sit in
    /// two different groups, those groups are merged into one.
    ///
    /// The contract characterizes the result exactly: co-grouping is
    /// extended by precisely the consequences of linking `e1` with `e2`.
    pub fn put_in_collision_group(collision_groups: &mut Vec<Vec<u64>>, e1: u64, e2: u64)
        requires
            grouping_wf(old(collision_groups)@),
            e1 != e2,
        ensures
            grouping_wf(final(collision_groups)@),
            same_group(final(collision_groups)@, e1, e2),
            forall|x: u64, y: u64|
                same_group(old(collision_groups)@, x, y) ==> same_group(
                    final(collision_groups)@,
                    x,
                    y,
                ),
            forall|x: u64|
                grouped_v(final(collision_groups)@, x) <==> grouped_v(old(collision_groups)@, x)
                    || x == e1 || x == e2,
            forall|x: u64, y: u64|
                same_group(final(collision_groups)@, x, y) ==> same_group(
                    old(collision_groups)@,
                    x,
                    y,
                ) || (linked_to_pair(old(collision_groups)@, x, e1, e2) && linked_to_pair(
                    old(collision_groups)@,
                    y,
                    e1,
                    e2,
                )),
    {
        let ghost g0: Seq<Vec<u64>> = collision_groups@;
        let n = collision_groups.len();
        let mut idx1: Option<usize> = None;
        let mut idx2: Option<usize> = None;
        let mut k: usize = 0;
        while k < n
            invariant
                n == collision_groups@.len(),
                collision_groups@ == g0,
                k <= n,
                match idx1 {
                    Some(i) => i < n && g0[i as int]@.contains(e1),
                    None => forall|j: int| 0 <= j < k ==> !(#[trigger] g0[j])@.contains(e1),
                },
                match idx2 {
                    Some(i) => i < n && g0[i as int]@.contains(e2),
                    None => forall|j: int| 0 <= j < k ==> !(#[trigger] g0[j])@.contains(e2),
                },
            decreases n - k,
        {
            if vec_contains(&collision_groups[k], e1) {
                idx1 = Some(k);
            }
            if vec_contains(&collision_groups[k], e2) {
                idx2 = Some(k);
            }
            k += 1;
        }
        match (idx1, idx2) {
            (None, None) => {
                let mut g: Vec<u64> = Vec::new();
                g.push(e1);
                g.push(e2);
                collision_groups.push(g);
                proof {
                    if grouped_v(g0, e1) {
                        let w = choose|w: int| 0 <= w < g0.len() && (#[trigger] g0[w])@.contains(e1);
                        assert(false);
                    }
                    if grouped_v(g0, e2) {
                        let w = choose|w: int| 0 <= w < g0.len() && (#[trigger] g0[w])@.contains(e2);
                        assert(false);
                    }
                    lemma_put_fresh(g0, collision_groups@, e1, e2);
                }
            },
            (Some(i), None) => {
                let mut target: Vec<u64> = collision_groups.remove(i);
                target.push(e2);
                collision_groups.push(target);
                proof {
                    if grouped_v(g0, e2) {
                        let w = choose|w: int| 0 <= w < g0.len() && (#[trigger] g0[w])@.contains(e2);
                        assert(false);
                    }
                    g0.remove_ensures(i as int);
                    lemma_put_join(g0, collision_groups@, i as int, e1, e2);
                }
            },
            (None, Some(j)) => {
                let mut target: Vec<u64> = collision_groups.remove(j);
                target.push(e1);
                collision_groups.push(target);
                proof {
                    if grouped_v(g0, e1) {
                        let w = choose|w: int| 0 <= w < g0.len() && (#[trigger] g0[w])@.contains(e1);
                        assert(false);
                    }
                    g0.remove_ensures(j as int);
                    lemma_put_join(g0, collision_groups@, j as int, e2, e1);
                    assert forall|x: u64, y: u64|
                        same_group(final(collision_groups)@, x, y) implies same_group(g0, x, y) || (
                    linked_to_pair(g0, x, e1, e2) && linked_to_pair(g0, y, e1, e2)) by {
                        if !same_group(g0, x, y) {
                            assert(linked_to_pair(g0, x, e2, e1) && linked_to_pair(g0, y, e2, e1));
                        }
                    }
                }
            },
            (Some(i), Some(j)) => {
                if i != j {
                    let a: usize = if i < j {
                        i
                    } else {
                        j
                    };
                    let b: usize = if i < j {
                        j
                    } else {
                        i
                    };
                    let mut moved: Vec<u64> = collision_groups.remove(b);
                    let mut target: Vec<u64> = collision_groups.remove(a);
                    target.append(&mut moved);
                    collision_groups.push(target);
                    proof {
                        g0.remove_ensures(b as int);
                        let r1 = g0.remove(b as int);
                        r1.remove_ensures(a as int);
                        lemma_put_merge(g0, collision_groups@, a as int, b as int, e1, e2);
                    }
                } else {
                    proof {
                        lemma_put_already(g0, i as int, e1, e2);
                    }
                }
            },
        }
    }

    /// Examine every ordered pair of distinct bodies, group the touching
    /// ones transitively, and append one collision event per disjoint
    /// group. Bodies are only read; the pass writes the event queue, which
    /// must have been drained (it is consumed once per tick).
    ///
    /// Afterwards every touching pair is co-grouped in some pending event,
    /// and every grouped identifier belongs to a body that touches another.
    pub fn run(&self, world: &mut World)
        requires
            old(world).wf(),
            old(world).collision_events@.len() == 0,
        ensures
            final(world).wf(),
            final(world).bodies@ == old(world).bodies@,
            final(world).creation_events@ == old(world).creation_events@,
            final(world).next_id == old(world).next_id,
            forall|i: int, j: int|
                0 <= i < old(world).bodies@.len() && 0 <= j < old(world).bodies@.len() && i != j
                    && touching(old(world).bodies@[i], old(world).bodies@[j]) ==> in_same_group(
                    final(world).collision_events@,
                    old(world).bodies@[i].id,
                    old(world).bodies@[j].id,
                ),
            forall|x: u64|
                id_in_some_group(final(world).collision_events@, x) ==> exists|i: int, j: int|
                    0 <= i < old(world).bodies@.len() && 0 <= j < old(world).bodies@.len() && i != j
                        && (#[trigger] old(world).bodies@[i]).id == x && touching(
                        old(world).bodies@[i],
                        #[trigger] old(world).bodies@[j],
                    ),
            forall|x: u64, y: u64|
                in_same_group(final(world).collision_events@, x, y) ==> connected_ids(
                    old(world).bodies@,
                    x,
                    y,
                ),
    {
        let ghost bodies0: Seq<Body> = world.bodies@;
        let n = world.bodies.len();
        let mut collision_groups: Vec<Vec<u64>> = Vec::new();
        let mut i: usize = 0;
        while i < n
            invariant
                old(world).wf(),
                world == old(world),
                bodies0 == old(world).bodies@,
                i <= n,
                n == bodies0.len(),
                grouping_wf(collision_groups@),
                forall|a: int, b: int|
                    0 <= a < i && 0 <= b < n && a != b && touching(bodies0[a], bodies0[b])
                        ==> same_group(collision_groups@, bodies0[a].id, bodies0[b].id),
                forall|x: u64|
                    grouped_v(collision_groups@, x) ==> exists|a: int, b: int|
                        0 <= a < n && 0 <= b < n && a != b && (#[trigger] bodies0[a]).id == x
                            && touching(bodies0[a], #[trigger] bodies0[b]),
                forall|x: u64, y: u64|
                    same_group(collision_groups@, x, y) ==> connected_ids(bodies0, x, y),
            decreases n - i,
        {
            let mut j: usize = 0;
            while j < n
                invariant
                    old(world).wf(),
                    world == old(world),
                    bodies0 == old(world).bodies@,
                    i < n,
                    j <= n,
                    n == bodies0.len(),
                    grouping_wf(collision_groups@),
                    forall|a: int, b: int|
                        0 <= a < i && 0 <= b < n && a != b && touching(bodies0[a], bodies0[b])
                            ==> same_group(collision_groups@, bodies0[a].id, bodies0[b].id),
                    forall|b: int|
                        0 <= b < j && b != i && touching(bodies0[i as int], bodies0[b])
                            ==> same_group(collision_groups@, bodies0[i as int].id, bodies0[b].id),
                    forall|x: u64|
                        grouped_v(collision_groups@, x) ==> exists|a: int, b: int|
                            0 <= a < n && 0 <= b < n && a != b && (#[trigger] bodies0[a]).id == x
                                && touching(bodies0[a], #[trigger] bodies0[b]),
                    forall|x: u64, y: u64|
                        same_group(collision_groups@, x, y) ==> connected_ids(bodies0, x, y),
                decreases n - j,
            {
                if i != j {
                    let bi: Body = world.bodies[i];
                    let bj: Body = world.bodies[j];
                    proof {
                        assert(body_wf(bi) && body_wf(bj));
                        if i < j {
                            assert(bi.id != bj.id);
                        } else {
                            assert(bj.id != bi.id);
                        }
                    }
                    if bi.collider.is_colliding_with(&bi.transform, &bj.collider, &bj.transform) {
                        let ghost pre: Seq<Vec<u64>> = collision_groups@;
                        Self::put_in_collision_group(&mut collision_groups, bi.id, bj.id);
                        proof {
                            lemma_touching_sym(bi, bj);
                            assert forall|x: u64, y: u64|
                                same_group(collision_groups@, x, y) implies connected_ids(
                                bodies0,
                                x,
                                y,
                            ) by {
                                if !same_group(pre, x, y) {
                                    assert(linked_to_pair(pre, x, bi.id, bj.id) && linked_to_pair(
                                        pre,
                                        y,
                                        bi.id,
                                        bj.id,
                                    ));
                                    lemma_connected_ids_step(bodies0, i as int, j as int);
                                    assert(live_id(bodies0, bj.id));
                                    if x == bi.id {
                                        assert(connected_ids(bodies0, x, bj.id));
                                    } else if x == bj.id {
                                        lemma_connected_ids_refl(bodies0, bj.id);
                                    } else if same_group(pre, x, bi.id) {
                                        lemma_connected_ids_trans(bodies0, x, bi.id, bj.id);
                                    } else {
                                        assert(same_group(pre, x, bj.id));
                                        assert(connected_ids(bodies0, x, bj.id));
                                    }
                                    if y == bi.id {
                                        assert(connected_ids(bodies0, y, bj.id));
                                    } else if y == bj.id {
                                        lemma_connected_ids_refl(bodies0, bj.id);
                                    } else if same_group(pre, y, bi.id) {
                                        lemma_connected_ids_trans(bodies0, y, bi.id, bj.id);
                                    } else {
                                        assert(same_group(pre, y, bj.id));
                                        assert(connected_ids(bodies0, y, bj.id));
                                    }
                                    lemma_connected_ids_sym(bodies0, y, bj.id);
                                    lemma_connected_ids_trans(bodies0, x, bj.id, y);
                                }
                            }
                            assert forall|x: u64| grouped_v(collision_groups@, x) implies exists|
                                a: int,
                                b: int,
                            |
                                0 <= a < n && 0 <= b < n && a != b && (#[trigger] bodies0[a]).id
                                    == x && touching(bodies0[a], #[trigger] bodies0[b]) by {
                                if grouped_v(pre, x) {
                                } else if x == bi.id {
                                    assert(bodies0[i as int].id == x && touching(
                                        bodies0[i as int],
                                        bodies0[j as int],
                                    ));
                                } else {
                                    assert(x == bj.id);
                                    assert(bodies0[j as int].id == x && touching(
                                        bodies0[j as int],
                                        bodies0[i as int],
                                    ));
                                }
                            }
                        }
                    }
                }
                j += 1;
            }
            i += 1;
        }
        // Emit one event per final group.
        let ghost groups_final: Seq<Vec<u64>> = collision_groups@;
        proof {
            assert(collision_groups@ == groups_final.take(collision_groups@.len() as int));
        }
        while collision_groups.len() > 0
            invariant
                old(world).wf(),
                bodies0 == old(world).bodies@,
                world.bodies@ == old(world).bodies@,
                world.creation_events@ == old(world).creation_events@,
                world.next_id == old(world).next_id,
                collision_groups@ == groups_final.take(collision_groups@.len() as int),
                world.collision_events@.len() + collision_groups@.len() == groups_final.len(),
                forall|m: int|
                    0 <= m < world.collision_events@.len() ==> (#[trigger] world.collision_events@[
                        m
                    ]).group == groups_final[groups_final.len() - 1 - m],
            decreases collision_groups@.len(),
        {
            let g: Vec<u64> = match collision_groups.pop() {
                Some(g) => g,
                None => {
                    proof {
                        assert(false);
                    }
                    Vec::new()
                },
            };
            proof {
                let l = collision_groups@.len() as int;
                assert(groups_final.take(l + 1).drop_last() =~= groups_final.take(l));
                assert(groups_final.take(l + 1).last() == groups_final[l]);
            }
            world.collision_events.push(CollisionEvent { group: g });
        }
        proof {
            let evs = world.collision_events@;
            let nl = groups_final.len() as int;
            assert(evs.len() == nl);
            // Every final group appears as an event, and the other way round.
            assert forall|x: u64, y: u64| same_group(groups_final, x, y) implies in_same_group(
                evs,
                x,
                y,
            ) by {
                let k = choose|k: int|
                    0 <= k < groups_final.len() && (#[trigger] groups_final[k])@.contains(x)
                        && groups_final[k]@.contains(y);
                assert(evs[nl - 1 - k].group == groups_final[k]);
            }
            assert forall|x: u64, y: u64| in_same_group(evs, x, y) implies connected_ids(
                bodies0,
                x,
                y,
            ) by {
                let m = choose|m: int|
                    0 <= m < evs.len() && (#[trigger] evs[m]).group@.contains(x)
                        && evs[m].group@.contains(y);
                assert(groups_final[nl - 1 - m]@.contains(x) && groups_final[nl - 1
                    - m]@.contains(y));
                assert(same_group(groups_final, x, y));
            }
            assert forall|x: u64| id_in_some_group(evs, x) implies grouped_v(groups_final, x) by {
                let m = choose|m: int| 0 <= m < evs.len() && (#[trigger] evs[m]).group@.contains(x);
                assert(groups_final[nl - 1 - m]@.contains(x));
            }
            // The queue is well-formed over the unchanged bodies.
            assert forall|m: int| 0 <= m < evs.len() implies crate::world::group_wf(
                (#[trigger] evs[m]).group@,
                world.bodies@,
            ) by {
                let k = nl - 1 - m;
                assert(evs[m].group == groups_final[k]);
                assert(groups_final[k]@.len() >= 2);
                assert forall|p: int| 0 <= p < evs[m].group@.len() implies crate::world::live_id(
                    world.bodies@,
                    #[trigger] evs[m].group@[p],
                ) by {
                    let x = evs[m].group@[p];
                    assert(groups_final[k]@.contains(x));
                    assert(grouped_v(groups_final, x));
                    let (a, b) = choose|a: int, b: int|
                        0 <= a < n && 0 <= b < n && a != b && (#[trigger] bodies0[a]).id == x
                            && touching(bodies0[a], #[trigger] bodies0[b]);
                    assert(crate::world::live_id(world.bodies@, x));
                }
            }
            assert forall|a: int, b: int, id: u64|
                0 <= a < b < evs.len() && #[trigger] evs[a].group@.contains(id) implies !(
            #[trigger] evs[b].group@.contains(id)) by {
                let ka = nl - 1 - a;
                let kb = nl - 1 - b;
                assert(evs[a].group == groups_final[ka] && evs[b].group == groups_final[kb]);
                assert(kb < ka);
                if evs[b].group@.contains(id) {
                    assert(!groups_final[ka]@.contains(id));
                }
            }
        }
    }
}

/// Whether any pending collision group holds the identifier.
fn id_in_groups(evs: &Vec<CollisionEvent>, id: u64) -> (b: bool)
    ensures
        b == id_in_some_group(evs@, id),
{
    let n = evs.len();
    let mut k: usize = 0;
    while k < n
        invariant
            k <= n,
            n == evs@.len(),
            forall|m: int| 0 <= m < k ==> !(#[trigger] evs@[m]).group@.contains(id),
        decreases n - k,
    {
        if vec_contains(&evs[k].group, id) {
            proof {
                assert((evs@[k as int]).group@.contains(id));
            }
            return true;
        }
        k += 1;
    }
    proof {
        if id_in_some_group(evs@, id) {
            let m = choose|m: int| 0 <= m < evs@.len() && (#[trigger] evs@[m]).group@.contains(id);
            assert(false);
        }
    }
    false
}

/// Collision resolution pass: consumes every pending collision group,
/// deletes its members, and emits one creation event carrying the merged
/// body's attributes — summed mass, centre of mass, momentum-conserving
/// velocity, and sphere-equivalent radius.
pub struct CollisionProcessingSystem;

impl CollisionProcessingSystem {
    /// A resolution pass; the event queues live in the world itself.
    pub fn new() -> (s: CollisionProcessingSystem) {
        CollisionProcessingSystem
    }

    /// Resolve every pending collision group.
    pub fn run(&mut self, world: &mut World)
        requires
            old(world).wf(),
        ensures
            final(world).wf(),
            final(world).collision_events@.len() == 0,
            final(world).next_id == old(world).next_id,
            final(world).creation_events@.len() == old(world).creation_events@.len() + old(
                world,
            ).collision_events@.len(),
            forall|m: int|
                0 <= m < old(world).creation_events@.len() ==> final(world).creation_events@[m]
                    == old(world).creation_events@[m],
            forall|k: int|
                0 <= k < old(world).collision_events@.len() ==> final(world).creation_events@[old(
                    world,
                ).creation_events@.len() + k] == merged_event_spec(
                    old(world).collision_events@[k].group@,
                    old(world).bodies@,
                ),
            final(world).bodies@ == remaining_bodies(
                old(world).bodies@,
                old(world).collision_events@,
            ),
    {
        let ghost bodies0: Seq<Body> = world.bodies@;
        let ghost evs0: Seq<CollisionEvent> = world.collision_events@;
        let ghost ce0: Seq<BodyCreationEvent> = world.creation_events@;
        let ne = world.collision_events.len();
        let mut k: usize = 0;
        while k < ne
            invariant
                old(world).wf(),
                bodies0 == old(world).bodies@,
                evs0 == old(world).collision_events@,
                ce0 == old(world).creation_events@,
                world.bodies@ == bodies0,
                world.collision_events@ == evs0,
                world.next_id == old(world).next_id,
                k <= ne,
                ne == evs0.len(),
                world.creation_events@.len() == ce0.len() + k,
                forall|m: int| 0 <= m < ce0.len() ==> world.creation_events@[m] == ce0[m],
                forall|m: int|
                    0 <= m < k ==> world.creation_events@[ce0.len() + m] == merged_event_spec(
                        evs0[m].group@,
                        bodies0,
                    ),
            decreases ne - k,
        {
            let ghost g: Seq<u64> = evs0[k as int].group@;
            proof {
                assert(crate::world::group_wf(g, bodies0));
            }
            let glen = world.collision_events[k].group.len();
            let mut p: usize = 0;
            let mut msum: i128 = 0;
            let mut rx: i128 = 0;
            let mut ry: i128 = 0;
            let mut px: i128 = 0;
            let mut py: i128 = 0;
            while p < glen
                invariant
                    old(world).wf(),
                    bodies0 == old(world).bodies@,
                    evs0 == old(world).collision_events@,
                    world.bodies@ == bodies0,
                    world.collision_events@ == evs0,
                    k < evs0.len(),
                    g == evs0[k as int].group@,
                    crate::world::group_wf(g, bodies0),
                    p <= glen,
                    glen == g.len(),
                    msum as int == group_totals(g, bodies0, p as int).mass,
                    rx as int == group_totals(g, bodies0, p as int).rx,
                    ry as int == group_totals(g, bodies0, p as int).ry,
                    px as int == group_totals(g, bodies0, p as int).px,
                    py as int == group_totals(g, bodies0, p as int).py,
                decreases glen - p,
            {
                let id: u64 = world.collision_events[k].group[p];
                proof {
                    assert(g[p as int] == id);
                    assert(live_id(bodies0, id));
                    lemma_body_of_props(bodies0, id);
                }
                let bi: usize = match world.index_of(id) {
                    Some(i) => i,
                    None => {
                        proof {
                            assert(false);
                        }
                        0
                    },
                };
                let b: Body = world.bodies[bi];
                proof {
                    assert(bi as int == index_of_id(bodies0, id));
                    assert(b == body_of(bodies0, id));
                    assert(body_wf(b));
                    lemma_group_totals_bounds(g, bodies0, p as int);
                    lemma_mul_abs_bound(
                        mass_or_one(b.mass),
                        b.transform.translation.x as int,
                        10_000_000_000,
                        100_000_000,
                    );
                    lemma_mul_abs_bound(
                        mass_or_one(b.mass),
                        b.transform.translation.y as int,
                        10_000_000_000,
                        100_000_000,
                    );
                    lemma_mul_abs_bound(
                        mass_or_one(b.mass),
                        b.velocity.0.x as int,
                        10_000_000_000,
                        100_000_000,
                    );
                    lemma_mul_abs_bound(
                        mass_or_one(b.mass),
                        b.velocity.0.y as int,
                        10_000_000_000,
                        100_000_000,
                    );
                }
                let m: i64 = match b.mass {
                    Some(mm) => mm.0,
                    None => 1,
                };
                msum = msum + m as i128;
                rx = rx + (m as i128) * (b.transform.translation.x as i128);
                ry = ry + (m as i128) * (b.transform.translation.y as i128);
                px = px + (m as i128) * (b.velocity.0.x as i128);
                py = py + (m as i128) * (b.velocity.0.y as i128);
                p += 1;
            }
            proof {
                lemma_group_totals_bounds(g, bodies0, glen as int);
            }
            let m_ev: i64 = clamp_i128(msum, MASS_LIMIT);
            let com_x: i64 = clamp_i128(div_i128(rx, msum), POS_LIMIT);
            let com_y: i64 = clamp_i128(div_i128(ry, msum), POS_LIMIT);
            let vel_x: i64 = clamp_i128(div_i128(px, msum), VEL_LIMIT);
            let vel_y: i64 = clamp_i128(div_i128(py, msum), VEL_LIMIT);
            proof {
                vstd::arithmetic::div_mod::lemma_div_nonincreasing(m_ev as int, PLANET_DENSITY as int);
                vstd::arithmetic::div_mod::lemma_div_pos_is_pos(m_ev as int, PLANET_DENSITY as int);
            }
            let volume: i64 = ((m_ev as u64) / (PLANET_DENSITY as u64)) as i64;
            let radius: i64 = inverse_volume_of_sphere(volume);
            proof {
                lemma_cbrt_floor_is(radius as int, inverse_volume_arg(volume as int));
            }
            let ev = BodyCreationEvent {
                body_type: BodyType::from_mass(m_ev),
                position: Vec2 { x: com_x, y: com_y },
                velocity: Vec2 { x: vel_x, y: vel_y },
                mass: m_ev,
                radius,
            };
            proof {
                assert(ev == merged_event_spec(g, bodies0));
            }
            world.creation_events.push(ev);
            k += 1;
        }
        // Delete every grouped body, preserving the order of the rest.
        let mut kept: Vec<Body> = Vec::new();
        let n = world.bodies.len();
        let mut i: usize = 0;
        while i < n
            invariant
                old(world).wf(),
                bodies0 == old(world).bodies@,
                evs0 == old(world).collision_events@,
                world.bodies@ == bodies0,
                world.collision_events@ == evs0,
                i <= n,
                n == bodies0.len(),
                kept@ == remaining_bodies(bodies0.take(i as int), evs0),
                forall|q: int|
                    0 <= q < kept@.len() ==> exists|oi: int|
                        0 <= oi < i && #[trigger] kept@[q] == bodies0[oi],
                ids_unique(kept@),
            decreases n - i,
        {
            let b: Body = world.bodies[i];
            proof {
                assert(b == bodies0[i as int]);
                assert(bodies0.take(i as int + 1).drop_last() =~= bodies0.take(i as int));
                assert(bodies0.take(i as int + 1).last() == bodies0[i as int]);
            }
            if !id_in_groups(&world.collision_events, b.id) {
                proof {
                    assert forall|q: int| 0 <= q < kept@.len() implies (#[trigger] kept@[q]).id
                        != b.id by {
                        let oi = choose|oi: int| 0 <= oi < i && #[trigger] kept@[q] == bodies0[oi];
                        assert(bodies0[oi].id != bodies0[i as int].id);
                    }
                }
                kept.push(b);
            }
            i += 1;
        }
        proof {
            assert(bodies0.take(n as int) =~= bodies0);
        }
        world.bodies = kept;
        world.collision_events = Vec::new();
        proof {
            assert forall|q: int| 0 <= q < world.bodies@.len() implies body_wf(
                #[trigger] world.bodies@[q],
            ) by {
                let oi = choose|oi: int|
                    0 <= oi < n && #[trigger] world.bodies@[q] == bodies0[oi];
                assert(body_wf(bodies0[oi]));
            }
            assert forall|q: int| 0 <= q < world.bodies@.len() implies (#[trigger] world.bodies@[
                q
            ]).id < world.next_id by {
                let oi = choose|oi: int|
                    0 <= oi < n && #[trigger] world.bodies@[q] == bodies0[oi];
                assert(bodies0[oi].id < old(world).next_id);
            }
        }
    }
}

/// Motion pass: applies each body's velocity to its transform. Runs after
/// integration; order-independent across bodies.
pub struct VelocitySystem;

impl VelocitySystem {
    /// Move every body by its velocity times the timestep.
    pub fn run(&self, world: &mut World, dt_us: u64)
        requires
            old(world).wf(),
            dt_us <= DT_LIMIT,
        ensures
            final(world).wf(),
            final(world).bodies@.len() == old(world).bodies@.len(),
            forall|i: int|
                0 <= i < old(world).bodies@.len() ==> final(world).bodies@[i] == motion_body_spec(
                    old(world).bodies@[i],
                    dt_us as int,
                ),
            final(world).collision_events@ == old(world).collision_events@,
            final(world).creation_events@ == old(world).creation_events@,
            final(world).next_id == old(world).next_id,
    {
        let n = world.bodies.len();
        let mut i: usize = 0;
        while i < n
            invariant
                old(world).wf(),
                dt_us <= DT_LIMIT,
                i <= n,
                n == world.bodies@.len(),
                world.bodies@.len() == old(world).bodies@.len(),
                world.collision_events@ == old(world).collision_events@,
                world.creation_events@ == old(world).creation_events@,
                world.next_id == old(world).next_id,
                forall|j: int|
                    0 <= j < i ==> world.bodies@[j] == motion_body_spec(
                        old(world).bodies@[j],
                        dt_us as int,
                    ),
                forall|j: int| i <= j < n ==> world.bodies@[j] == old(world).bodies@[j],
            decreases n - i,
        {
            let b: Body = world.bodies[i];
            proof {
                assert(b == old(world).bodies@[i as int]);
                assert(body_wf(b));
            }
            let sx: i64 = vel_step(b.velocity.0.x, dt_us);
            let sy: i64 = vel_step(b.velocity.0.y, dt_us);
            let nx: i64 = clamp_i128(b.transform.translation.x as i128 + sx as i128, POS_LIMIT);
            let ny: i64 = clamp_i128(b.transform.translation.y as i128 + sy as i128, POS_LIMIT);
            let nb = Body { transform: Transform { translation: Vec2 { x: nx, y: ny } }, ..b };
            proof {
                assert(nb == motion_body_spec(old(world).bodies@[i as int], dt_us as int));
            }
            world.bodies.set(i, nb);
            i += 1;
        }
        proof {
            assert forall|j: int| 0 <= j < world.bodies@.len() implies body_wf(
                #[trigger] world.bodies@[j],
            ) by {
                assert(body_wf(old(world).bodies@[j]));
            }
            assert forall|j: int| 0 <= j < world.bodies@.len() implies (#[trigger] world.bodies@[
                j
            ]).id == old(world).bodies@[j].id by {
                assert(world.bodies@[j] == motion_body_spec(old(world).bodies@[j], dt_us as int));
            }
            lemma_collision_queue_wf_same_ids(
                world.collision_events@,
                old(world).bodies@,
                world.bodies@,
            );
        }
    }
}

/// Two bodies' circular shapes touch, within the proximity margin.
pub open spec fn touching(a: Body, b: Body) -> bool {
    crate::components::circles_touching(
        a.transform.translation.x as int,
        a.transform.translation.y as int,
        a.collider.0 as int,
        b.transform.translation.x as int,
        b.transform.translation.y as int,
        b.collider.0 as int,
    )
}

/// Body `j` can be reached from body `i` by a chain of at most `fuel`
/// touching steps through live bodies.
pub open spec fn reaches(bodies: Seq<Body>, i: int, j: int, fuel: nat) -> bool
    decreases fuel,
{
    ||| i == j
    ||| (fuel > 0 && exists|k: int|
        0 <= k < bodies.len() && 0 <= j < bodies.len() && k != j && #[trigger] touching(
            bodies[k],
            bodies[j],
        ) && reaches(bodies, i, k, (fuel - 1) as nat))
}

/// Two bodies are transitively touching: linked by some chain.
pub open spec fn connected(bodies: Seq<Body>, i: int, j: int) -> bool {
    exists|fuel: nat| #[trigger] reaches(bodies, i, j, fuel)
}

/// Reachability is monotonic in the fuel.
proof fn lemma_reaches_monotonic(bodies: Seq<Body>, i: int, j: int, f1: nat, f2: nat)
    requires
        reaches(bodies, i, j, f1),
        f1 <= f2,
    ensures
        reaches(bodies, i, j, f2),
    decreases f1,
{
    if i != j {
        assert(f1 > 0);
        let k = choose|k: int|
            0 <= k < bodies.len() && 0 <= j < bodies.len() && k != j && #[trigger] touching(
                bodies[k],
                bodies[j],
            ) && reaches(bodies, i, k, (f1 - 1) as nat);
        lemma_reaches_monotonic(bodies, i, k, (f1 - 1) as nat, (f2 - 1) as nat);
        assert(touching(bodies[k], bodies[j]) && reaches(bodies, i, k, (f2 - 1) as nat));
    }
}

/// Reachability composes: chains concatenate.
proof fn lemma_reaches_trans(bodies: Seq<Body>, i: int, j: int, k: int, f1: nat, f2: nat)
    requires
        reaches(bodies, i, j, f1),
        reaches(bodies, j, k, f2),
    ensures
        reaches(bodies, i, k, (f1 + f2) as nat),
    decreases f2,
{
    if j == k {
        lemma_reaches_monotonic(bodies, i, j, f1, (f1 + f2) as nat);
    } else {
        let m = choose|m: int|
            0 <= m < bodies.len() && 0 <= k < bodies.len() && m != k && #[trigger] touching(
                bodies[m],
                bodies[k],
            ) && reaches(bodies, j, m, (f2 - 1) as nat);
        lemma_reaches_trans(bodies, i, j, m, f1, (f2 - 1) as nat);
        assert(touching(bodies[m], bodies[k]) && reaches(bodies, i, m, ((f1 + f2) - 1) as nat));
    }
}

/// Reachability is symmetric, because touching is.
proof fn lemma_reaches_sym(bodies: Seq<Body>, i: int, j: int, fuel: nat)
    requires
        reaches(bodies, i, j, fuel),
        0 <= i < bodies.len(),
    ensures
        reaches(bodies, j, i, fuel),
    decreases fuel,
{
    if i != j {
        let k = choose|k: int|
            0 <= k < bodies.len() && 0 <= j < bodies.len() && k != j && #[trigger] touching(
                bodies[k],
                bodies[j],
            ) && reaches(bodies, i, k, (fuel - 1) as nat);
        lemma_reaches_sym(bodies, i, k, (fuel - 1) as nat);
        lemma_touching_sym(bodies[k], bodies[j]);
        if j == k {
            lemma_reaches_monotonic(bodies, j, i, (fuel - 1) as nat, fuel);
        } else {
            assert(reaches(bodies, j, j, 0));
            assert(reaches(bodies, j, k, 1));
            lemma_reaches_trans(bodies, j, k, i, 1, (fuel - 1) as nat);
            lemma_reaches_monotonic(bodies, j, i, (1 + (fuel - 1)) as nat, fuel);
        }
    }
}

/// The live bodies named `x` and `y` are linked by a chain of touching
/// live bodies.
pub open spec fn connected_ids(bodies: Seq<Body>, x: u64, y: u64) -> bool {
    exists|i: int, j: int|
        0 <= i < bodies.len() && 0 <= j < bodies.len() && (#[trigger] bodies[i]).id == x && (
        #[trigger] bodies[j]).id == y && connected(bodies, i, j)
}

/// Transitive touching between identifiers is reflexive on live bodies.
proof fn lemma_connected_ids_refl(bodies: Seq<Body>, x: u64)
    requires
        live_id(bodies, x),
    ensures
        connected_ids(bodies, x, x),
{
    let i = choose|i: int| 0 <= i < bodies.len() && (#[trigger] bodies[i]).id == x;
    assert(reaches(bodies, i, i, 0));
    assert(connected(bodies, i, i));
}

/// Transitive touching between identifiers is symmetric.
proof fn lemma_connected_ids_sym(bodies: Seq<Body>, x: u64, y: u64)
    requires
        connected_ids(bodies, x, y),
    ensures
        connected_ids(bodies, y, x),
{
    let (i, j) = choose|i: int, j: int|
        0 <= i < bodies.len() && 0 <= j < bodies.len() && (#[trigger] bodies[i]).id == x && (
        #[trigger] bodies[j]).id == y && connected(bodies, i, j);
    let fuel = choose|fuel: nat| #[trigger] reaches(bodies, i, j, fuel);
    lemma_reaches_sym(bodies, i, j, fuel);
    assert(connected(bodies, j, i));
}

/// Transitive touching between identifiers composes, given unique
/// identifiers.
proof fn lemma_connected_ids_trans(bodies: Seq<Body>, x: u64, y: u64, z: u64)
    requires
        ids_unique(bodies),
        connected_ids(bodies, x, y),
        connected_ids(bodies, y, z),
    ensures
        connected_ids(bodies, x, z),
{
    let (i1, j1) = choose|i: int, j: int|
        0 <= i < bodies.len() && 0 <= j < bodies.len() && (#[trigger] bodies[i]).id == x && (
        #[trigger] bodies[j]).id == y && connected(bodies, i, j);
    let (i2, j2) = choose|i: int, j: int|
        0 <= i < bodies.len() && 0 <= j < bodies.len() && (#[trigger] bodies[i]).id == y && (
        #[trigger] bodies[j]).id == z && connected(bodies, i, j);
    if j1 < i2 {
        assert(bodies[j1].id != bodies[i2].id);
    } else if i2 < j1 {
        assert(bodies[i2].id != bodies[j1].id);
    }
    let f1 = choose|fuel: nat| #[trigger] reaches(bodies, i1, j1, fuel);
    let f2 = choose|fuel: nat| #[trigger] reaches(bodies, i2, j2, fuel);
    lemma_reaches_trans(bodies, i1, j1, j2, f1, f2);
    assert(connected(bodies, i1, j2));
}

/// A touching pair of distinct live bodies is connected.
proof fn lemma_connected_ids_step(bodies: Seq<Body>, i: int, j: int)
    requires
        0 <= i < bodies.len(),
        0 <= j < bodies.len(),
        i != j,
        touching(bodies[i], bodies[j]),
    ensures
        connected_ids(bodies, bodies[i].id, bodies[j].id),
{
    assert(reaches(bodies, i, i, 0));
    assert(reaches(bodies, i, j, 1));
    assert(connected(bodies, i, j));
}

/// `id` is a member of some group in the grouping under construction.
pub open spec fn grouped_v(groups: Seq<Vec<u64>>, id: u64) -> bool {
    exists|k: int| 0 <= k < groups.len() && (#[trigger] groups[k])@.contains(id)
}

/// `x` and `y` are members of one group in the grouping.
pub open spec fn same_group(groups: Seq<Vec<u64>>, x: u64, y: u64) -> bool {
    exists|k: int|
        0 <= k < groups.len() && (#[trigger] groups[k])@.contains(x) && groups[k]@.contains(y)
}

/// A grouping under construction is well-formed: every group has at least
/// two members, no member repeats within a group, and no two groups share
/// a member.
pub open spec fn grouping_wf(groups: Seq<Vec<u64>>) -> bool {
    &&& forall|k: int| 0 <= k < groups.len() ==> (#[trigger] groups[k])@.len() >= 2
    &&& forall|k: int, i: int, j: int|
        0 <= k < groups.len() && 0 <= i < j < groups[k]@.len() ==> #[trigger] groups[k]@[i]
            != #[trigger] groups[k]@[j]
    &&& forall|k1: int, k2: int, id: u64|
        0 <= k1 < k2 < groups.len() && #[trigger] groups[k1]@.contains(id) ==> !(#[trigger] groups[
            k2
        ]@.contains(id))
}

/// `x` is one of the pair `(e1, e2)` or shares a group with one of them.
pub open spec fn linked_to_pair(groups: Seq<Vec<u64>>, x: u64, e1: u64, e2: u64) -> bool {
    x == e1 || x == e2 || same_group(groups, x, e1) || same_group(groups, x, e2)
}

/// `x` and `y` lie in one pending collision event's group.
pub open spec fn in_same_group(evs: Seq<CollisionEvent>, x: u64, y: u64) -> bool {
    exists|k: int|
        0 <= k < evs.len() && (#[trigger] evs[k]).group@.contains(x) && evs[k].group@.contains(y)
}

/// `id` is a member of some pending collision event's group.
pub open spec fn id_in_some_group(evs: Seq<CollisionEvent>, id: u64) -> bool {
    exists|k: int| 0 <= k < evs.len() && (#[trigger] evs[k]).group@.contains(id)
}

/// Running totals over a collision group: summed mass, mass-weighted
/// position, and momentum (mass-weighted velocity).
pub struct GroupTotals {
    pub mass: int,
    pub rx: int,
    pub ry: int,
    pub px: int,
    pub py: int,
}

/// The totals over the first `upto` members of a group. A member without
/// a mass record contributes one mass unit.
pub open spec fn group_totals(g: Seq<u64>, bodies: Seq<Body>, upto: int) -> GroupTotals
    decreases upto,
{
    if upto <= 0 {
        GroupTotals { mass: 0, rx: 0, ry: 0, px: 0, py: 0 }
    } else {
        let t = group_totals(g, bodies, upto - 1);
        let b = body_of(bodies, g[upto - 1]);
        let m = mass_or_one(b.mass);
        GroupTotals {
            mass: t.mass + m,
            rx: t.rx + m * b.transform.translation.x,
            ry: t.ry + m * b.transform.translation.y,
            px: t.px + m * b.velocity.0.x,
            py: t.py + m * b.velocity.0.y,
        }
    }
}

/// The creation event a resolved collision group emits: summed mass
/// (saturated at `MASS_LIMIT`), the centre of mass as position, the
/// momentum-conserving velocity, a classification rederived from the
/// mass, and the sphere-equivalent radius of the merged mass at the
/// fixed density.
pub open spec fn merged_event_spec(g: Seq<u64>, bodies: Seq<Body>) -> BodyCreationEvent {
    let t = group_totals(g, bodies, g.len() as int);
    let m_ev = clamp_spec(t.mass, MASS_LIMIT as int);
    BodyCreationEvent {
        body_type: from_mass_spec(m_ev),
        position: Vec2 {
            x: clamp_spec(div_tz(t.rx, t.mass), POS_LIMIT as int) as i64,
            y: clamp_spec(div_tz(t.ry, t.mass), POS_LIMIT as int) as i64,
        },
        velocity: Vec2 {
            x: clamp_spec(div_tz(t.px, t.mass), VEL_LIMIT as int) as i64,
            y: clamp_spec(div_tz(t.py, t.mass), VEL_LIMIT as int) as i64,
        },
        mass: m_ev as i64,
        radius: cbrt_floor(inverse_volume_arg(div_tz(m_ev, PLANET_DENSITY as int))) as i64,
    }
}

/// Group totals over well-formed live members grow boundedly: the mass
/// counts at least one unit per member, and the weighted sums stay within
/// the mass times the per-body limits.
pub proof fn lemma_group_totals_bounds(g: Seq<u64>, bodies: Seq<Body>, upto: int)
    requires
        0 <= upto <= g.len(),
        bodies_wf(bodies),
        ids_unique(bodies),
        forall|p: int| 0 <= p < g.len() ==> live_id(bodies, #[trigger] g[p]),
    ensures
        upto <= group_totals(g, bodies, upto).mass <= upto * 10_000_000_000,
        -(group_totals(g, bodies, upto).mass * 100_000_000) <= group_totals(g, bodies, upto).rx
            <= group_totals(g, bodies, upto).mass * 100_000_000,
        -(group_totals(g, bodies, upto).mass * 100_000_000) <= group_totals(g, bodies, upto).ry
            <= group_totals(g, bodies, upto).mass * 100_000_000,
        -(group_totals(g, bodies, upto).mass * 100_000_000) <= group_totals(g, bodies, upto).px
            <= group_totals(g, bodies, upto).mass * 100_000_000,
        -(group_totals(g, bodies, upto).mass * 100_000_000) <= group_totals(g, bodies, upto).py
            <= group_totals(g, bodies, upto).mass * 100_000_000,
    decreases upto,
{
    if upto > 0 {
        lemma_group_totals_bounds(g, bodies, upto - 1);
        lemma_body_of_props(bodies, g[upto - 1]);
        let b = body_of(bodies, g[upto - 1]);
        assert(body_wf(b));
        let m = mass_or_one(b.mass);
        lemma_mul_le_scale(m, b.transform.translation.x as int, 100_000_000);
        lemma_mul_le_scale(m, b.transform.translation.y as int, 100_000_000);
        lemma_mul_le_scale(m, b.velocity.0.x as int, 100_000_000);
        lemma_mul_le_scale(m, b.velocity.0.y as int, 100_000_000);
    }
}

/// The bodies that survive draining the pending collision groups: those
/// whose identifier lies in no group, in their original order.
pub open spec fn remaining_bodies(bodies: Seq<Body>, evs: Seq<CollisionEvent>) -> Seq<Body>
    decreases bodies.len(),
{
    if bodies.len() == 0 {
        Seq::empty()
    } else {
        let rest = remaining_bodies(bodies.drop_last(), evs);
        if id_in_some_group(evs, bodies.last().id) {
            rest
        } else {
            rest.push(bodies.last())
        }
    }
}

/// Whether the vector holds the identifier.
fn vec_contains(g: &Vec<u64>, id: u64) -> (b: bool)
    ensures
        b == g@.contains(id),
{
    let n = g.len();
    let mut i: usize = 0;
    while i < n
        invariant
            i <= n,
            n == g@.len(),
            forall|j: int| 0 <= j < i ==> g@[j] != id,
        decreases n - i,
    {
        if g[i] == id {
            proof {
                assert(g@[i as int] == id);
            }
            return true;
        }
        i += 1;
    }
    proof {
        if g@.contains(id) {
            let j = choose|j: int| 0 <= j < g@.len() && g@[j] == id;
            assert(false);
        }
    }
    false
}

/// Integration pass: converts accumulated force into velocity, then resets
/// every force accumulator to zero. Runs after gravity, before motion.
pub struct ForceSystem;

impl ForceSystem {
    /// Integrate every body's force into its velocity and zero the forces.
    pub fn run(&self, world: &mut World, dt_us: u64)
        requires
            old(world).wf(),
            dt_us <= DT_LIMIT,
        ensures
            final(world).wf(),
            final(world).bodies@.len() == old(world).bodies@.len(),
            forall|i: int|
                0 <= i < old(world).bodies@.len() ==> final(world).bodies@[i]
                    == integrate_body_spec(old(world).bodies@[i], dt_us as int),
            final(world).collision_events@ == old(world).collision_events@,
            final(world).creation_events@ == old(world).creation_events@,
            final(world).next_id == old(world).next_id,
    {
        let n = world.bodies.len();
        let mut i: usize = 0;
        while i < n
            invariant
                old(world).wf(),
                dt_us <= DT_LIMIT,
                i <= n,
                n == world.bodies@.len(),
                world.bodies@.len() == old(world).bodies@.len(),
                world.collision_events@ == old(world).collision_events@,
                world.creation_events@ == old(world).creation_events@,
                world.next_id == old(world).next_id,
                forall|j: int|
                    0 <= j < i ==> world.bodies@[j] == integrate_body_spec(
                        old(world).bodies@[j],
                        dt_us as int,
                    ),
                forall|j: int| i <= j < n ==> world.bodies@[j] == old(world).bodies@[j],
            decreases n - i,
        {
            let b: Body = world.bodies[i];
            proof {
                assert(b == old(world).bodies@[i as int]);
                assert(body_wf(b));
            }
            let m: i64 = match b.mass {
                Some(mm) => mm.0,
                None => 1,
            };
            let sx: i64 = accel_step(b.force.0.x, m, dt_us);
            let sy: i64 = accel_step(b.force.0.y, m, dt_us);
            let vx: i64 = clamp_i128(b.velocity.0.x as i128 + sx as i128, VEL_LIMIT);
            let vy: i64 = clamp_i128(b.velocity.0.y as i128 + sy as i128, VEL_LIMIT);
            let nb = Body {
                velocity: Velocity(Vec2 { x: vx, y: vy }),
                force: Force(Vec2 { x: 0, y: 0 }),
                ..b
            };
            proof {
                assert(nb == integrate_body_spec(old(world).bodies@[i as int], dt_us as int));
            }
            world.bodies.set(i, nb);
            i += 1;
        }
        proof {
            assert forall|j: int| 0 <= j < world.bodies@.len() implies body_wf(
                #[trigger] world.bodies@[j],
            ) by {
                assert(body_wf(old(world).bodies@[j]));
            }
            assert forall|j: int| 0 <= j < world.bodies@.len() implies (#[trigger] world.bodies@[
                j
            ]).id == old(world).bodies@[j].id by {
                assert(world.bodies@[j] == integrate_body_spec(old(world).bodies@[j], dt_us as int));
            }
            lemma_collision_queue_wf_same_ids(
                world.collision_events@,
                old(world).bodies@,
                world.bodies@,
            );
        }
    }
}

/// Body spawn pass: drains all pending creation events and materializes
/// one body per event. This is the single authorized construction path
/// during simulation, shared by merges and user-triggered spawns.
pub struct BodyCreationSystem;

impl BodyCreationSystem {
    /// A spawn pass; the event queue lives in the world itself.
    pub fn new() -> (s: BodyCreationSystem) {
        BodyCreationSystem
    }

    /// Materialize every pending creation event, in order.
    pub fn run(&mut self, world: &mut World)
        requires
            old(world).wf(),
            old(world).next_id as int + old(world).creation_events@.len() <= u64::MAX as int,
        ensures
            final(world).wf(),
            final(world).creation_events@.len() == 0,
            final(world).collision_events@ == old(world).collision_events@,
            final(world).next_id == old(world).next_id + old(world).creation_events@.len(),
            final(world).bodies@.len() == old(world).bodies@.len() + old(
                world,
            ).creation_events@.len(),
            forall|i: int|
                0 <= i < old(world).bodies@.len() ==> final(world).bodies@[i] == old(
                    world,
                ).bodies@[i],
            forall|m: int|
                0 <= m < old(world).creation_events@.len() ==> final(world).bodies@[old(
                    world,
                ).bodies@.len() + m] == crate::world::body_from_event_spec(
                    old(world).creation_events@[m],
                    (old(world).next_id + m) as u64,
                ),
    {
        let ghost ce0: Seq<BodyCreationEvent> = world.creation_events@;
        let ne = world.creation_events.len();
        let mut m: usize = 0;
        while m < ne
            invariant
                ce0 == old(world).creation_events@,
                world.wf(),
                world.creation_events@ == ce0,
                world.collision_events@ == old(world).collision_events@,
                m <= ne,
                ne == ce0.len(),
                old(world).next_id as int + ce0.len() <= u64::MAX as int,
                world.next_id == old(world).next_id + m,
                world.bodies@.len() == old(world).bodies@.len() + m,
                forall|i: int|
                    0 <= i < old(world).bodies@.len() ==> world.bodies@[i] == old(
                        world,
                    ).bodies@[i],
                forall|q: int|
                    0 <= q < m ==> world.bodies@[old(world).bodies@.len() + q]
                        == crate::world::body_from_event_spec(
                        ce0[q],
                        (old(world).next_id + q) as u64,
                    ),
            decreases ne - m,
        {
            let ev: BodyCreationEvent = world.creation_events[m];
            ev.build_entity(world);
            m += 1;
        }
        world.creation_events = Vec::new();
    }
}

/// Builder for the spawn pass, wired to the world's creation event queue.
pub struct BodyCreationSystemDesc;

impl BodyCreationSystemDesc {
    /// Build the spawn pass over the given world.
    pub fn build(self, world: &mut World) -> (s: BodyCreationSystem)
        ensures
            *final(world) == *old(world),
    {
        BodyCreationSystem::new()
    }
}

/// Builder for the resolution pass, wired to the world's collision event
/// queue.
pub struct CollisionProcessingSystemDesc;

impl CollisionProcessingSystemDesc {
    /// Build the resolution pass over the given world.
    pub fn build(self, world: &mut World) -> (s: CollisionProcessingSystem)
        ensures
            *final(world) == *old(world),
    {
        CollisionProcessingSystem::new()
    }
}

/// The size axis value saturated into `[SCALE, POS_LIMIT]`: a spawn
/// gesture never makes a body smaller than one world unit.
pub open spec fn spawn_size_spec(planet_size: int) -> int {
    if planet_size < 1_000 {
        1_000
    } else if planet_size > POS_LIMIT as int {
        POS_LIMIT as int
    } else {
        planet_size
    }
}

/// The creation event a completed spawn gesture emits: the body appears
/// at the press position, with the drag delta (press minus release,
/// saturated at `VEL_LIMIT`) as velocity, the size axis as radius, and
/// the mass of that radius at the fixed density.
pub open spec fn spawn_event_spec(origin: Vec2, curr: Vec2, planet_size: int) -> BodyCreationEvent {
    let size = spawn_size_spec(planet_size);
    let mass = crate::components::from_radius_spec(size, PLANET_DENSITY as int);
    BodyCreationEvent {
        body_type: from_mass_spec(mass),
        position: origin,
        velocity: Vec2 {
            x: clamp_spec(origin.x - curr.x, VEL_LIMIT as int) as i64,
            y: clamp_spec(origin.y - curr.y, VEL_LIMIT as int) as i64,
        },
        mass: mass as i64,
        radius: size as i64,
    }
}

/// Input-to-spawn translator: turns a click-drag gesture into a body
/// creation event. A press records the pointer's position; a release
/// emits one event. A release without a press, or with no pointer
/// position, is silently ignored.
pub struct InputParsingSystem;

impl InputParsingSystem {
    /// Advance the gesture state machine by one snapshot of the input.
    pub fn run(&self, input: &InputState, mouse_info: &mut MouseInfo, world: &mut World)
        requires
            input.add_planet_down && !old(mouse_info).is_down ==> input.mouse_position is Some,
        ensures
            final(world).bodies@ == old(world).bodies@,
            final(world).collision_events@ == old(world).collision_events@,
            final(world).next_id == old(world).next_id,
            if input.add_planet_down && !old(mouse_info).is_down {
                final(mouse_info).is_down && final(mouse_info).click_pos == input.mouse_position
                    && final(world).creation_events@ == old(world).creation_events@
            } else if !input.add_planet_down && old(mouse_info).is_down && old(
                mouse_info,
            ).click_pos is Some {
                match input.mouse_position {
                    Some(curr) => !final(mouse_info).is_down && final(mouse_info).click_pos == old(
                        mouse_info,
                    ).click_pos && final(world).creation_events@ == old(
                        world,
                    ).creation_events@.push(
                        spawn_event_spec(
                            old(mouse_info).click_pos->0,
                            curr,
                            input.planet_size as int,
                        ),
                    ),
                    None => *final(mouse_info) == *old(mouse_info) && final(world).creation_events@
                        == old(world).creation_events@,
                }
            } else {
                *final(mouse_info) == *old(mouse_info) && final(world).creation_events@ == old(
                    world,
                ).creation_events@
            },
    {
        if input.add_planet_down && !mouse_info.is_down {
            mouse_info.is_down = true;
            mouse_info.click_pos = input.mouse_position;
            return ;
        }
        if !input.add_planet_down && mouse_info.is_down {
            let origin: Vec2 = match mouse_info.click_pos {
                Some(p) => p,
                None => {
                    return ;
                },
            };
            let curr: Vec2 = match input.mouse_position {
                Some(p) => p,
                None => {
                    return ;
                },
            };
            let size: i64 = if input.planet_size < 1_000 {
                1_000
            } else if input.planet_size > POS_LIMIT {
                POS_LIMIT
            } else {
                input.planet_size
            };
            mouse_info.is_down = false;
            let mass: crate::components::Mass = crate::components::Mass::from_radius(
                size,
                PLANET_DENSITY,
            );
            let vx: i64 = clamp_i128(origin.x as i128 - curr.x as i128, VEL_LIMIT);
            let vy: i64 = clamp_i128(origin.y as i128 - curr.y as i128, VEL_LIMIT);
            let ev = BodyCreationEvent {
                body_type: BodyType::from_mass(mass.0),
                position: origin,
                velocity: Vec2 { x: vx, y: vy },
                mass: mass.0,
                radius: size,
            };
            world.creation_events.push(ev);
        }
    }
}

/// The body set after the three numeric passes of one tick: gravity
/// accumulation, then force integration, then motion, each body updated
/// in place.
pub open spec fn tick_motion_spec(bodies: Seq<Body>, dt: int) -> Seq<Body> {
    Seq::new(
        bodies.len(),
        |i: int| motion_body_spec(integrate_body_spec(gravity_body_spec(bodies, i), dt), dt),
    )
}

/// No two distinct bodies touch.
pub open spec fn no_touching(bodies: Seq<Body>) -> bool {
    forall|i: int, j: int|
        0 <= i < bodies.len() && 0 <= j < bodies.len() && i != j ==> !touching(
            #[trigger] bodies[i],
            #[trigger] bodies[j],
        )
}

/// One tick's observable outcome, witnessed by the collision groups the
/// tick found over the moved bodies (the body set after gravity,
/// integration and motion). The groups satisfy exactly what collision
/// detection guarantees: a well-formed queue of disjoint groups of at
/// least two distinct live members, complete for touching pairs, and
/// sound both for membership (every grouped identifier touches another
/// body) and for transitive contact (co-grouped identifiers are chained
/// by touching bodies). The final body set is then the moved bodies
/// minus every grouped one, in order, followed by the bodies spawned
/// under consecutive fresh identifiers from the pending creation events
/// and from each group's merged event, in order.
pub open spec fn tick_spec(w0: World, w1: World, dt: int, gevs: Seq<CollisionEvent>) -> bool {
    let moved = tick_motion_spec(w0.bodies@, dt);
    let spawn_evs = w0.creation_events@ + Seq::new(
        gevs.len(),
        |k: int| merged_event_spec(gevs[k].group@, moved),
    );
    let kept = remaining_bodies(moved, gevs);
    &&& collision_queue_wf(gevs, moved)
    &&& (forall|i: int, j: int|
        0 <= i < moved.len() && 0 <= j < moved.len() && i != j && touching(
            #[trigger] moved[i],
            #[trigger] moved[j],
        ) ==> in_same_group(gevs, moved[i].id, moved[j].id))
    &&& (forall|x: u64|
        id_in_some_group(gevs, x) ==> exists|i: int, j: int|
            0 <= i < moved.len() && 0 <= j < moved.len() && i != j && (#[trigger] moved[i]).id
                == x && touching(moved[i], #[trigger] moved[j]))
    &&& (forall|x: u64, y: u64| in_same_group(gevs, x, y) ==> connected_ids(moved, x, y))
    &&& w1.bodies@.len() == kept.len() + spawn_evs.len()
    &&& (forall|q: int| 0 <= q < kept.len() ==> w1.bodies@[q] == #[trigger] kept[q])
    &&& (forall|m: int|
        0 <= m < spawn_evs.len() ==> w1.bodies@[kept.len() + m]
            == crate::world::body_from_event_spec(#[trigger] spawn_evs[m], (w0.next_id + m) as u64))
    &&& w1.next_id == w0.next_id + spawn_evs.len()
}

/// There are at most as many disjoint collision groups as live bodies:
/// each group's first member names a distinct live body.
pub proof fn lemma_group_count_bound(bodies: Seq<Body>, evs: Seq<CollisionEvent>)
    requires
        collision_queue_wf(evs, bodies),
    ensures
        evs.len() <= bodies.len(),
{
    broadcast use vstd::seq_lib::seq_to_set_is_finite;

    let firsts = Seq::new(evs.len(), |k: int| evs[k].group@[0]);
    assert forall|a: int, b: int|
        0 <= a < firsts.len() && 0 <= b < firsts.len() && a != b implies firsts[a]
        != firsts[b] by {
        let (lo, hi) = if a < b {
            (a, b)
        } else {
            (b, a)
        };
        assert(crate::world::group_wf(evs[lo].group@, bodies));
        assert(crate::world::group_wf(evs[hi].group@, bodies));
        assert(evs[lo].group@.contains(evs[lo].group@[0]));
        assert(evs[hi].group@.contains(evs[hi].group@[0]));
    }
    assert(firsts.no_duplicates());
    firsts.unique_seq_to_set();
    let ids = Seq::new(bodies.len(), |i: int| bodies[i].id);
    ids.lemma_cardinality_of_set();
    assert forall|x: u64| firsts.to_set().contains(x) implies ids.to_set().contains(x) by {
        let k = choose|k: int| 0 <= k < firsts.len() && firsts[k] == x;
        assert(crate::world::group_wf(evs[k].group@, bodies));
        assert(live_id(bodies, evs[k].group@[0]));
        let i = choose|i: int| 0 <= i < bodies.len() && (#[trigger] bodies[i]).id == x;
        assert(ids[i] == x);
        assert(ids.contains(x));
    }
    assert(firsts.to_set() <= ids.to_set());
    vstd::set_lib::lemma_len_subset(firsts.to_set(), ids.to_set());
}

/// Draining no groups deletes no body.
pub proof fn lemma_remaining_bodies_no_events(bodies: Seq<Body>, evs: Seq<CollisionEvent>)
    requires
        evs.len() == 0,
    ensures
        remaining_bodies(bodies, evs) == bodies,
    decreases bodies.len(),
{
    if bodies.len() > 0 {
        lemma_remaining_bodies_no_events(bodies.drop_last(), evs);
        assert(!id_in_some_group(evs, bodies.last().id));
        assert(remaining_bodies(bodies, evs) =~= bodies);
    }
}

/// One full simulation tick, in the fixed dependency order: gravity,
/// integration, motion, collision detection, collision resolution, body
/// spawning. Creation and deletion only happen at their designated pass,
/// so no pass observes a partially updated body set. The collision queue
/// must come in drained: it is produced and consumed within one tick.
#[verifier::rlimit(80)]
pub fn run_tick(world: &mut World, dt_us: u64)
    requires
        old(world).wf(),
        old(world).collision_events@.len() == 0,
        dt_us <= DT_LIMIT,
        old(world).next_id as int + old(world).creation_events@.len() + old(world).bodies@.len()
            <= u64::MAX as int,
    ensures
        final(world).wf(),
        final(world).collision_events@.len() == 0,
        final(world).creation_events@.len() == 0,
        old(world).bodies@.len() == 0 && old(world).creation_events@.len() == 0
            ==> final(world).bodies@.len() == 0,
        old(world).bodies@.len() == 1 && old(world).creation_events@.len() == 0 && old(
            world,
        ).bodies@[0].velocity.0 == (Vec2 { x: 0, y: 0 }) && old(world).bodies@[0].force.0 == (Vec2 {
            x: 0,
            y: 0,
        }) ==> final(world).bodies@ =~= old(world).bodies@,
        old(world).creation_events@.len() == 0 && no_touching(
            tick_motion_spec(old(world).bodies@, dt_us as int),
        ) ==> final(world).bodies@ == tick_motion_spec(old(world).bodies@, dt_us as int),
        exists|gevs: Seq<CollisionEvent>|
            #[trigger] tick_spec(*old(world), *final(world), dt_us as int, gevs),
{
    let ghost w0 = *old(world);
    let gravity = GravitySystem;
    gravity.run(world);
    let ghost w1 = *world;
    let force = ForceSystem;
    force.run(world, dt_us);
    let ghost w2 = *world;
    let velocity = VelocitySystem;
    velocity.run(world, dt_us);
    let ghost w3 = *world;
    let detection = CollisionDetectionSystem;
    detection.run(world);
    let ghost w4 = *world;
    let mut processing = CollisionProcessingSystem::new();
    processing.run(world);
    let ghost w5 = *world;
    proof {
        // No more groups were found than there are bodies, so the spawn
        // pass cannot exhaust the identifier space.
        lemma_group_count_bound(w4.bodies@, w4.collision_events@);
    }
    let mut creation = BodyCreationSystem::new();
    creation.run(world);
    proof {
        assert(w3.bodies@ =~= tick_motion_spec(w0.bodies@, dt_us as int));
        // The groups detection found witness the tick's outcome.
        let gevs = w4.collision_events@;
        let moved = tick_motion_spec(w0.bodies@, dt_us as int);
        let ce0 = w0.creation_events@;
        let spawn_evs = ce0 + Seq::new(
            gevs.len(),
            |k: int| merged_event_spec(gevs[k].group@, moved),
        );
        let kept = remaining_bodies(moved, gevs);
        assert(moved == w3.bodies@);
        assert(collision_queue_wf(gevs, moved));
        assert(kept == w5.bodies@);
        assert(w5.creation_events@.len() == spawn_evs.len());
        assert forall|m: int| 0 <= m < spawn_evs.len() implies #[trigger] spawn_evs[m]
            == w5.creation_events@[m] by {
            if m < ce0.len() {
                assert(w5.creation_events@[m] == ce0[m]);
            } else {
                assert(w5.creation_events@[m] == merged_event_spec(
                    gevs[m - ce0.len()].group@,
                    w4.bodies@,
                ));
            }
        }
        assert(w5.next_id == w0.next_id);
        assert forall|m: int| 0 <= m < spawn_evs.len() implies world.bodies@[kept.len() + m]
            == crate::world::body_from_event_spec(
            #[trigger] spawn_evs[m],
            (w0.next_id + m) as u64,
        ) by {
            assert(world.bodies@[w5.bodies@.len() + m] == crate::world::body_from_event_spec(
                w5.creation_events@[m],
                (w5.next_id + m) as u64,
            ));
        }
        assert(tick_spec(w0, *world, dt_us as int, gevs));
        if w0.creation_events@.len() == 0 && no_touching(w3.bodies@) {
            // Nothing touches after motion, so detection finds no group,
            // resolution deletes and emits nothing, and spawn is idle.
            if w4.collision_events@.len() > 0 {
                let g = w4.collision_events@[0].group@;
                assert(crate::world::group_wf(g, w4.bodies@));
                assert(g.len() >= 2 && g.contains(g[0]));
                assert(id_in_some_group(w4.collision_events@, g[0]));
                assert(false);
            }
            lemma_remaining_bodies_no_events(w4.bodies@, w4.collision_events@);
        }
        if w0.bodies@.len() <= 1 && w0.creation_events@.len() == 0 {
            // A lone body at rest with no accumulated force is untouched
            // by every pass, and an empty world stays empty.
            if w0.bodies@.len() == 1 && w0.bodies@[0].velocity.0 == (Vec2 { x: 0, y: 0 })
                && w0.bodies@[0].force.0 == (Vec2 { x: 0, y: 0 }) {
                let b0 = w0.bodies@[0];
                assert(crate::world::body_wf(b0));
                assert(force_sum(w0.bodies@, 0, 0) == (0int, 0int));
                assert(pf(w0.bodies@, 0, 0) == (0int, 0int));
                assert(force_sum(w0.bodies@, 0, 1) == (0int, 0int));
                assert(w1.bodies@[0] == gravity_body_spec(w0.bodies@, 0));
                assert(w1.bodies@[0] == b0);
                assert(div_tz(0 * (dt_us as int), mass_or_one(b0.mass) * 1_000_000) == 0) by {
                    vstd::arithmetic::div_mod::lemma_div_of0(mass_or_one(b0.mass) * 1_000_000);
                }
                assert(w2.bodies@[0] == integrate_body_spec(b0, dt_us as int));
                assert(w2.bodies@[0] == b0);
                assert(div_tz(0 * (dt_us as int), 1_000_000) == 0) by {
                    vstd::arithmetic::div_mod::lemma_div_of0(1_000_000);
                }
                assert(w3.bodies@[0] == motion_body_spec(b0, dt_us as int));
                assert(w3.bodies@[0] == b0);
            }
            // With at most one live body no group can form: a group needs
            // two distinct live identifiers.
            if w4.collision_events@.len() > 0 {
                let g = w4.collision_events@[0].group@;
                assert(crate::world::group_wf(g, w4.bodies@));
                assert(live_id(w4.bodies@, g[0]) && live_id(w4.bodies@, g[1]));
                let i0 = choose|i: int|
                    0 <= i < w4.bodies@.len() && (#[trigger] w4.bodies@[i]).id == g[0];
                let i1 = choose|i: int|
                    0 <= i < w4.bodies@.len() && (#[trigger] w4.bodies@[i]).id == g[1];
                assert(i0 == 0 && i1 == 0);
                assert(false);
            }
            lemma_remaining_bodies_no_events(w4.bodies@, w4.collision_events@);
            assert(w5.bodies@ == w4.bodies@);
            assert(w5.creation_events@.len() == 0);
        }
    }
}

} // verus!
