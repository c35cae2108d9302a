//! Local-avoidance steering: each tick, the plan's intended direction is
//! combined with a collision-avoidance deflection (from a forward swept
//! cast against moving bodies) and a personal-space repulsion (from a
//! ring of six short rays) into one desired direction.  A final
//! snap-to-heading step amplifies, rather than damps, large deltas from
//! the current velocity direction — an intentional policy, kept as is.

use vstd::prelude::*;
use crate::geom::{norm_spec, normalize, sub_exec, sub_spec, tdiv, tdiv64, lemma_abs_mul_le, Vec2};
use crate::world::{World, DIR_LIMIT};
use crate::person::PersonState;

verus! {

/// Lookahead of the forward collision-avoidance cast: 20 world units.
pub const AVOID_RANGE: i64 = 20_000;

/// Half-extent of the slightly enlarged footprint swept ahead.
pub const AVOID_HALF: i64 = 600;

/// Squared threshold under which a deflection is considered negligible
/// (0.1 world units).
pub const SIDE_EPS_SQ: i64 = 10_000;

/// Range of each personal-space ray: 5 world units.
pub const RAY_RANGE: i64 = 5_000;

/// Comfort radius subtracted from each ray hit distance: 0.4 units.
pub const COMFORT: i64 = 400;

/// Smallest squared distance the repulsion divides by, so that a
/// touching body produces a large but finite push.
pub const DENOM_FLOOR: i64 = 100;

/// Dot product.
pub open spec fn dot(a: Vec2, b: Vec2) -> int {
    a.x * b.x + a.y * b.y
}

/// Squared length.
pub open spec fn len_sq(v: Vec2) -> int {
    dot(v, v)
}

/// The component of `v` perpendicular to `t`: `v` minus its projection
/// onto `t` (the whole of `v` when `t` is zero).
pub open spec fn reject_spec(v: Vec2, t: Vec2) -> Vec2 {
    let t2 = len_sq(t);
    if t2 == 0 {
        v
    } else {
        Vec2 {
            x: (v.x - tdiv(t.x * dot(v, t), t2)) as i64,
            y: (v.y - tdiv(t.y * dot(v, t), t2)) as i64,
        }
    }
}

/// The left-hand perpendicular of `t`.
pub open spec fn perp(t: Vec2) -> Vec2 {
    Vec2 { x: (-t.y) as i64, y: t.x }
}

/// `v` rotated by the angle with cosine `c / SCALE` and sine `s / SCALE`.
pub open spec fn rot_spec(v: Vec2, c: int, s: int) -> Vec2 {
    Vec2 { x: tdiv(v.x * c - v.y * s, 1000) as i64, y: tdiv(v.x * s + v.y * c, 1000) as i64 }
}

/// Fixed-point cosine of the `k`-th of six evenly spaced ray angles.
pub open spec fn ray_cos(k: int) -> int {
    if k == 0 {
        1000
    } else if k == 1 {
        500
    } else if k == 2 {
        -500
    } else if k == 3 {
        -1000
    } else if k == 4 {
        -500
    } else {
        500
    }
}

/// Fixed-point sine of the `k`-th ray angle.
pub open spec fn ray_sin(k: int) -> int {
    if k == 0 {
        0
    } else if k == 1 {
        866
    } else if k == 2 {
        866
    } else if k == 3 {
        0
    } else if k == 4 {
        -866
    } else {
        -866
    }
}

/// `|tdiv(a, b)| <= m` whenever `|a| <= m * b`.
pub proof fn lemma_tdiv_bound(a: int, b: int, m: int)
    requires
        b > 0,
        m >= 0,
        -(m * b) <= a <= m * b,
    ensures
        -m <= tdiv(a, b) <= m,
{
    if a >= 0 {
        assert(0 <= a / b <= m) by (nonlinear_arith)
            requires
                b > 0,
                m >= 0,
                0 <= a <= m * b,
        ;
    } else {
        assert(0 <= (-a) / b <= m) by (nonlinear_arith)
            requires
                b > 0,
                m >= 0,
                0 <= -a <= m * b,
        ;
    }
}

/// The rejection of a vector bounded by `m` stays within `3 * m`.
pub proof fn lemma_reject_bounded(v: Vec2, t: Vec2, m: int)
    requires
        v.bounded(m),
        0 <= m,
    ensures
        reject_spec(v, t).bounded(3 * m),
{
    let t2 = len_sq(t);
    if t2 != 0 {
        let d = dot(v, t);
        assert(t2 > 0) by (nonlinear_arith)
            requires
                t2 == t.x * t.x + t.y * t.y,
                t2 != 0,
        ;
        assert(-(2 * m * t2) <= t.x * d <= 2 * m * t2) by (nonlinear_arith)
            requires
                -m <= v.x <= m,
                -m <= v.y <= m,
                d == v.x * t.x + v.y * t.y,
                t2 == t.x * t.x + t.y * t.y,
                m >= 0,
        ;
        assert(-(2 * m * t2) <= t.y * d <= 2 * m * t2) by (nonlinear_arith)
            requires
                -m <= v.x <= m,
                -m <= v.y <= m,
                d == v.x * t.x + v.y * t.y,
                t2 == t.x * t.x + t.y * t.y,
                m >= 0,
        ;
        lemma_tdiv_bound(t.x * d, t2, 2 * m);
        lemma_tdiv_bound(t.y * d, t2, 2 * m);
    }
}

/// Executable rejection, for small direction-sized vectors.
pub fn reject(v: Vec2, t: Vec2) -> (r: Vec2)
    requires
        v.bounded(2_000),
        t.bounded(2_000),
    ensures
        r == reject_spec(v, t),
        r.bounded(6_000),
{
    proof {
        lemma_abs_mul_le(t.x as int, t.x as int, 2_000, 2_000);
        lemma_abs_mul_le(t.y as int, t.y as int, 2_000, 2_000);
        assert(t.x as int * t.x as int >= 0) by (nonlinear_arith);
        assert(t.y as int * t.y as int >= 0) by (nonlinear_arith);
    }
    let t2: i64 = t.x * t.x + t.y * t.y;
    if t2 == 0 {
        proof {
            lemma_reject_bounded(v, t, 2_000);
        }
        v
    } else {
        proof {
            lemma_abs_mul_le(v.x as int, t.x as int, 2_000, 2_000);
            lemma_abs_mul_le(v.y as int, t.y as int, 2_000, 2_000);
        }
        let d: i64 = v.x * t.x + v.y * t.y;
        proof {
            lemma_abs_mul_le(t.x as int, d as int, 2_000, 8_000_000);
            lemma_abs_mul_le(t.y as int, d as int, 2_000, 8_000_000);
            lemma_reject_bounded(v, t, 2_000);
            assert(-(2 * 2_000 * t2 as int) <= t.x as int * d as int <= 2 * 2_000 * t2 as int)
                by (nonlinear_arith)
                requires
                    -2_000 <= v.x as int <= 2_000,
                    -2_000 <= v.y as int <= 2_000,
                    d as int == v.x as int * t.x as int + v.y as int * t.y as int,
                    t2 as int == t.x as int * t.x as int + t.y as int * t.y as int,
            ;
            assert(-(2 * 2_000 * t2 as int) <= t.y as int * d as int <= 2 * 2_000 * t2 as int)
                by (nonlinear_arith)
                requires
                    -2_000 <= v.x as int <= 2_000,
                    -2_000 <= v.y as int <= 2_000,
                    d as int == v.x as int * t.x as int + v.y as int * t.y as int,
                    t2 as int == t.x as int * t.x as int + t.y as int * t.y as int,
            ;
            lemma_tdiv_bound(t.x as int * d as int, t2 as int, 4_000);
            lemma_tdiv_bound(t.y as int * d as int, t2 as int, 4_000);
        }
        let px = tdiv64(t.x * d, t2);
        let py = tdiv64(t.y * d, t2);
        Vec2 { x: v.x - px, y: v.y - py }
    }
}

/// The avoidance deflection computed from the body `i` hit at entry
/// distance `toi`: a sideways push, preferring the side implied by the
/// relative velocity, falling back to the relative position, then to the
/// fixed right-hand perpendicular; its magnitude grows as the impact
/// nears.
pub open spec fn avoid_term(w: World, pos: Vec2, vel: Vec2, td: Vec2, i: int, toi: int) -> Vec2 {
    let b = w.bodies@[i];
    let rel_dir = norm_spec(sub_spec(b.vel, vel));
    let side0 = reject_spec(rel_dir, td);
    let side1 = if len_sq(side0) < SIDE_EPS_SQ as int {
        let rj = reject_spec(norm_spec(sub_spec(pos, b.pos)), td);
        Vec2 { x: (-rj.x) as i64, y: (-rj.y) as i64 }
    } else {
        side0
    };
    let side = if len_sq(side1) < SIDE_EPS_SQ as int {
        perp(td)
    } else {
        side1
    };
    let u = norm_spec(side);
    let k = tdiv(AVOID_RANGE as int - toi, 10) + 100;
    Vec2 { x: (-tdiv(u.x * k, 1000)) as i64, y: (-tdiv(u.y * k, 1000)) as i64 }
}

/// The collision-avoidance contribution: zero when the forward sweep
/// hits no other body, else the deflection away from the nearest one.
pub open spec fn avoidance_spec(w: World, id: u64, pos: Vec2, vel: Vec2, td: Vec2) -> Vec2 {
    match w.bodies_best(
        pos,
        td,
        AVOID_RANGE as int,
        AVOID_HALF as int,
        id,
        w.bodies@.len() as int,
    ) {
        None => Vec2 { x: 0, y: 0 },
        Some((i, t)) => avoid_term(w, pos, vel, td, i, t),
    }
}

/// Executable collision avoidance: forward swept cast against the other
/// moving bodies, and a perpendicular deflection away from the nearest.
pub fn calculate_collision_avoidance_dir(
    w: &World,
    id: u64,
    pos: Vec2,
    vel: Vec2,
    td: Vec2,
) -> (r: Vec2)
    requires
        w.wf(),
        pos.in_range(),
        vel.bounded(DIR_LIMIT as int),
        td.bounded(2_000),
    ensures
        r == avoidance_spec(*w, id, pos, vel, td),
        r.bounded(2_100),
{
    match w.cast_bodies(pos, td, AVOID_RANGE, AVOID_HALF, id) {
        None => Vec2 { x: 0, y: 0 },
        Some((i, toi)) => {
            let b = &w.bodies[i];
            let rel_dir = normalize(sub_exec(b.vel, vel));
            let side0 = reject(rel_dir, td);
            proof {
                lemma_abs_mul_le(side0.x as int, side0.x as int, 6_000, 6_000);
                lemma_abs_mul_le(side0.y as int, side0.y as int, 6_000, 6_000);
                assert(side0.x as int * side0.x as int >= 0) by (nonlinear_arith);
                assert(side0.y as int * side0.y as int >= 0) by (nonlinear_arith);
            }
            let side1: Vec2 = if side0.x * side0.x + side0.y * side0.y < SIDE_EPS_SQ {
                let rj = reject(normalize(sub_exec(pos, b.pos)), td);
                Vec2 { x: -rj.x, y: -rj.y }
            } else {
                side0
            };
            proof {
                lemma_abs_mul_le(side1.x as int, side1.x as int, 6_000, 6_000);
                lemma_abs_mul_le(side1.y as int, side1.y as int, 6_000, 6_000);
                assert(side1.x as int * side1.x as int >= 0) by (nonlinear_arith);
                assert(side1.y as int * side1.y as int >= 0) by (nonlinear_arith);
            }
            let side: Vec2 = if side1.x * side1.x + side1.y * side1.y < SIDE_EPS_SQ {
                Vec2 { x: -td.y, y: td.x }
            } else {
                side1
            };
            let u = normalize(side);
            let k: i64 = tdiv64(AVOID_RANGE - toi, 10) + 100;
            proof {
                lemma_tdiv_bound(AVOID_RANGE as int - toi as int, 10, 2_000);
                lemma_abs_mul_le(u.x as int, k as int, 1_000, 2_100);
                lemma_abs_mul_le(u.y as int, k as int, 1_000, 2_100);
                lemma_tdiv_bound(u.x as int * k as int, 1_000, 2_100);
                lemma_tdiv_bound(u.y as int * k as int, 1_000, 2_100);
            }
            let rx = tdiv64(u.x * k, 1000);
            let ry = tdiv64(u.y * k, 1000);
            Vec2 { x: -rx, y: -ry }
        },
    }
}

/// The repulsion contributed by the `k`-th personal-space ray: nothing
/// when the ray hits nothing in range, else a push back along the ray
/// that grows with the inverse square of the spare distance beyond the
/// comfort radius.
pub open spec fn ray_contribution(w: World, id: u64, pos: Vec2, tu: Vec2, k: int) -> Vec2 {
    let rd = rot_spec(tu, ray_cos(k), ray_sin(k));
    match w.ray_best(pos, rd, RAY_RANGE as int, id) {
        None => Vec2 { x: 0, y: 0 },
        Some(d) => {
            let dist = d - COMFORT as int;
            let den = if dist * dist < DENOM_FLOOR as int {
                DENOM_FLOOR as int
            } else {
                dist * dist
            };
            Vec2 {
                x: (-tdiv(rd.x * 1_000_000, den)) as i64,
                y: (-tdiv(rd.y * 1_000_000, den)) as i64,
            }
        },
    }
}

/// The sum of the first `k` ray contributions.
pub open spec fn personal_rec(w: World, id: u64, pos: Vec2, tu: Vec2, k: int) -> Vec2
    decreases k,
{
    if k <= 0 {
        Vec2 { x: 0, y: 0 }
    } else {
        let p = personal_rec(w, id, pos, tu, k - 1);
        let c = ray_contribution(w, id, pos, tu, k - 1);
        Vec2 { x: (p.x + c.x) as i64, y: (p.y + c.y) as i64 }
    }
}

/// The personal-space contribution: six short rays evenly spaced around
/// the normalized intended direction.
pub open spec fn personal_spec(w: World, id: u64, pos: Vec2, td: Vec2) -> Vec2 {
    personal_rec(w, id, pos, norm_spec(td), 6)
}

/// Executable personal-space repulsion.
#[verifier::rlimit(100)]
pub fn calculate_personal_space_dir(w: &World, id: u64, pos: Vec2, td: Vec2) -> (r: Vec2)
    requires
        w.wf(),
        pos.in_range(),
        td.bounded(2_000),
    ensures
        r == personal_spec(*w, id, pos, td),
        r.bounded(120_000_000),
{
    let tu = normalize(td);
    let mut acc = Vec2 { x: 0, y: 0 };
    let mut k: usize = 0;
    while k < 6
        invariant
            w.wf(),
            pos.in_range(),
            0 <= k <= 6,
            tu == norm_spec(td),
            tu.bounded(1_000),
            acc == personal_rec(*w, id, pos, tu, k as int),
            acc.bounded(20_000_000 * k as int),
        decreases 6 - k,
    {
        let (c, s): (i64, i64) = if k == 0 {
            (1000, 0)
        } else if k == 1 {
            (500, 866)
        } else if k == 2 {
            (-500, 866)
        } else if k == 3 {
            (-1000, 0)
        } else if k == 4 {
            (-500, -866)
        } else {
            (500, -866)
        };
        proof {
            assert(c as int == ray_cos(k as int) && s as int == ray_sin(k as int));
            lemma_abs_mul_le(tu.x as int, c as int, 1_000, 1_000);
            lemma_abs_mul_le(tu.y as int, s as int, 1_000, 1_000);
            lemma_abs_mul_le(tu.x as int, s as int, 1_000, 1_000);
            lemma_abs_mul_le(tu.y as int, c as int, 1_000, 1_000);
            lemma_tdiv_bound(tu.x as int * c as int - tu.y as int * s as int, 1_000, 2_000);
            lemma_tdiv_bound(tu.x as int * s as int + tu.y as int * c as int, 1_000, 2_000);
        }
        let rdx = tdiv64(tu.x * c - tu.y * s, 1000);
        let rdy = tdiv64(tu.x * s + tu.y * c, 1000);
        let rd = Vec2 { x: rdx, y: rdy };
        proof {
            assert(rd == rot_spec(tu, ray_cos(k as int), ray_sin(k as int)));
        }
        match w.cast_ray(pos, rd, RAY_RANGE, id) {
            None => {},
            Some(d) => {
                let dist: i64 = d - COMFORT;
                proof {
                    lemma_abs_mul_le(dist as int, dist as int, 5_000, 5_000);
                    assert(dist as int * dist as int >= 0) by (nonlinear_arith);
                }
                let sq: i64 = dist * dist;
                let den: i64 = if sq < DENOM_FLOOR {
                    DENOM_FLOOR
                } else {
                    sq
                };
                proof {
                    lemma_abs_mul_le(rd.x as int, 1_000_000, 2_000, 1_000_000);
                    lemma_abs_mul_le(rd.y as int, 1_000_000, 2_000, 1_000_000);
                    assert(-(20_000_000 * den as int) <= rd.x as int * 1_000_000 <= 20_000_000
                        * den as int) by (nonlinear_arith)
                        requires
                            -2_000 <= rd.x as int <= 2_000,
                            den as int >= 100,
                    ;
                    assert(-(20_000_000 * den as int) <= rd.y as int * 1_000_000 <= 20_000_000
                        * den as int) by (nonlinear_arith)
                        requires
                            -2_000 <= rd.y as int <= 2_000,
                            den as int >= 100,
                    ;
                    lemma_tdiv_bound(rd.x as int * 1_000_000, den as int, 20_000_000);
                    lemma_tdiv_bound(rd.y as int * 1_000_000, den as int, 20_000_000);
                }
                let cx = tdiv64(rd.x * 1_000_000, den);
                let cy = tdiv64(rd.y * 1_000_000, den);
                acc = Vec2 { x: acc.x - cx, y: acc.y - cy };
            },
        }
        k += 1;
    }
    acc
}

/// The composed steering direction before normalization: intended
/// direction plus avoidance plus personal space.
pub open spec fn total_dir_spec(w: World, id: u64, pos: Vec2, vel: Vec2, td: Vec2) -> Vec2 {
    let a = avoidance_spec(w, id, pos, vel, td);
    let p = personal_spec(w, id, pos, td);
    Vec2 { x: (td.x + a.x + p.x) as i64, y: (td.y + a.y + p.y) as i64 }
}

/// The final steering direction for one tick: the normalized sum of the
/// target term, the collision-avoidance term and the personal-space
/// term.  With no static obstacles and no other bodies, it is exactly
/// the normalized intended direction.
pub fn local_avoidance_direction(w: &World, id: u64, pos: Vec2, vel: Vec2, td: Vec2) -> (r: Vec2)
    requires
        w.wf(),
        pos.in_range(),
        vel.bounded(DIR_LIMIT as int),
        td.bounded(2_000),
    ensures
        r == norm_spec(total_dir_spec(*w, id, pos, vel, td)),
        r.bounded(1_000),
        w.statics@.len() == 0 && (forall|j: int|
            0 <= j < w.bodies@.len() ==> (#[trigger] w.bodies@[j]).id == id) ==> r == norm_spec(
            td,
        ),
{
    let a = calculate_collision_avoidance_dir(w, id, pos, vel, td);
    let p = calculate_personal_space_dir(w, id, pos, td);
    let total = Vec2 { x: td.x + a.x + p.x, y: td.y + a.y + p.y };
    proof {
        if w.statics@.len() == 0 && (forall|j: int|
            0 <= j < w.bodies@.len() ==> (#[trigger] w.bodies@[j]).id == id) {
            lemma_bodies_best_all_excluded(
                *w,
                pos,
                td,
                AVOID_RANGE as int,
                AVOID_HALF as int,
                id,
                w.bodies@.len() as int,
            );
            lemma_personal_empty(*w, id, pos, norm_spec(td), 6);
            assert(total == td);
        }
    }
    normalize(total)
}

/// With every body excluded, the forward sweep finds nothing.
proof fn lemma_bodies_best_all_excluded(
    w: World,
    o: Vec2,
    dir: Vec2,
    max_d: int,
    h: int,
    exclude: u64,
    i: int,
)
    requires
        forall|j: int| 0 <= j < w.bodies@.len() ==> (#[trigger] w.bodies@[j]).id == exclude,
        i <= w.bodies@.len(),
    ensures
        w.bodies_best(o, dir, max_d, h, exclude, i) is None,
    decreases i,
{
    if i > 0 {
        lemma_bodies_best_all_excluded(w, o, dir, max_d, h, exclude, i - 1);
    }
}

/// With no statics and every body excluded, a ray finds nothing.
proof fn lemma_ray_best_empty(w: World, o: Vec2, dir: Vec2, max_d: int, exclude: u64, k: int)
    requires
        w.statics@.len() == 0,
        forall|j: int| 0 <= j < w.bodies@.len() ==> (#[trigger] w.bodies@[j]).id == exclude,
        k <= w.bodies@.len(),
    ensures
        w.ray_best_upto(o, dir, max_d, exclude, k) is None,
    decreases k,
{
    if k > 0 {
        lemma_ray_best_empty(w, o, dir, max_d, exclude, k - 1);
    }
}

/// With no statics and every body excluded, the personal-space term is
/// zero.
proof fn lemma_personal_empty(w: World, id: u64, pos: Vec2, tu: Vec2, k: int)
    requires
        w.statics@.len() == 0,
        forall|j: int| 0 <= j < w.bodies@.len() ==> (#[trigger] w.bodies@[j]).id == id,
        k <= 6,
    ensures
        personal_rec(w, id, pos, tu, k) == (Vec2 { x: 0, y: 0 }),
    decreases k,
{
    if k > 0 {
        lemma_personal_empty(w, id, pos, tu, k - 1);
        let rd = rot_spec(tu, ray_cos(k - 1), ray_sin(k - 1));
        lemma_ray_best_empty(w, pos, rd, RAY_RANGE as int, id, w.bodies@.len() as int);
    }
}

/// The impulse the physics collaborator should apply this tick: while
/// walking, the snapped steering heading scaled to impulse strength;
/// while standing, a braking impulse against the current velocity.
pub open spec fn movement_spec(w: World, id: u64, pos: Vec2, vel: Vec2, state: PersonState) -> Vec2 {
    match state {
        PersonState::Walking(td) => {
            let total = total_dir_spec(w, id, pos, vel, td);
            let cur = norm_spec(vel);
            let u = norm_spec(
                Vec2 {
                    x: (3 * total.x - 2 * cur.x) as i64,
                    y: (3 * total.y - 2 * cur.y) as i64,
                },
            );
            Vec2 { x: (10 * u.x) as i64, y: (10 * u.y) as i64 }
        },
        PersonState::Standing => Vec2 { x: (-(20 * vel.x)) as i64, y: (-(20 * vel.y)) as i64 },
    }
}

/// One steering tick for one agent, as the physics host consumes it.
/// While walking, the desired total direction is amplified by twice the
/// correction away from the current velocity heading (the snap policy),
/// normalized, and scaled; while standing, the agent brakes.
pub fn movement(w: &World, id: u64, pos: Vec2, vel: Vec2, state: &PersonState) -> (impulse: Vec2)
    requires
        w.wf(),
        pos.in_range(),
        vel.bounded(DIR_LIMIT as int),
        state matches PersonState::Walking(td) ==> td.bounded(2_000),
    ensures
        impulse == movement_spec(*w, id, pos, vel, *state),
{
    match state {
        PersonState::Walking(td) => {
            let a = calculate_collision_avoidance_dir(w, id, pos, vel, *td);
            let p = calculate_personal_space_dir(w, id, pos, *td);
            let total = Vec2 { x: td.x + a.x + p.x, y: td.y + a.y + p.y };
            let cur = normalize(vel);
            let snapped = Vec2 { x: 3 * total.x - 2 * cur.x, y: 3 * total.y - 2 * cur.y };
            let u = normalize(snapped);
            Vec2 { x: 10 * u.x, y: 10 * u.y }
        },
        PersonState::Standing => {
            let bx = 20 * vel.x;
            let by = 20 * vel.y;
            Vec2 { x: -bx, y: -by }
        },
    }
}

} // verus!
