//! Visibility-based path simplification.
//!
//! A coarse grid path is reduced to a minimal ordered set of waypoints by
//! a greedy forward scan: the first point is kept as an anchor, a
//! candidate is dropped when the point after it is still in line of sight
//! from the anchor, and the last point is always kept so the plan ends
//! exactly at the goal.  Line of sight here is the permissive zero-width
//! ray against static geometry only; the executor's stricter swept
//! footprint test is deliberately a different query.

use vstd::prelude::*;
use crate::geom::Vec2;
use crate::world::World;

verus! {

/// Line of sight from `a` to `b`: the straight segment meets no static
/// obstacle.
pub open spec fn can_see_spec(w: World, a: Vec2, b: Vec2) -> bool {
    !w.seg_blocked(a, b, 0)
}

/// Executable line-of-sight test.
pub fn can_see(w: &World, a: Vec2, b: Vec2) -> (r: bool)
    requires
        w.wf(),
        a.in_range(),
        b.in_range(),
    ensures
        r == can_see_spec(*w, a, b),
{
    !w.cast_static(a, b, 0)
}

/// The tail of the greedy scan: waypoints kept from position `i` on, with
/// `anchor` the most recently kept point.  The last input point is always
/// kept.
pub open spec fn simp_rec(w: World, p: Seq<Vec2>, i: int, anchor: Vec2) -> Seq<Vec2>
    decreases p.len() - i,
{
    if i >= p.len() - 1 {
        seq![p[p.len() - 1]]
    } else if !can_see_spec(w, anchor, p[i + 1]) {
        seq![p[i]] + simp_rec(w, p, i + 1, p[i])
    } else {
        simp_rec(w, p, i + 1, anchor)
    }
}

/// The simplified form of a path: its first point, then the greedy scan
/// of the rest.
pub open spec fn simplify_spec(w: World, p: Seq<Vec2>) -> Seq<Vec2> {
    seq![p[0]] + simp_rec(w, p, 1, p[0])
}

/// No interior waypoint can be merged away: each is occluded from the
/// point two steps back.
pub open spec fn minimal_path(w: World, q: Seq<Vec2>) -> bool {
    forall|i: int| #![trigger q[i]] 0 <= i < q.len() - 2 ==> !can_see_spec(w, q[i], q[i + 2])
}

/// Greedy path simplification.  Keeps the first and last points, drops
/// every candidate whose successor is visible from the current anchor.
pub fn path_simplification(w: &World, path: &Vec<Vec2>) -> (r: Vec<Vec2>)
    requires
        w.wf(),
        path@.len() >= 2,
        forall|i: int| 0 <= i < path@.len() ==> (#[trigger] path@[i]).in_range(),
    ensures
        r@ == simplify_spec(*w, path@),
        r@.len() >= 2,
        r@.len() <= path@.len(),
        r@[0] == path@[0],
        r@[r@.len() - 1] == path@[path@.len() - 1],
        forall|i: int|
            0 <= i < r@.len() ==> exists|j: int| 0 <= j < path@.len() && #[trigger] r@[i] == path@[j],
{
    let ghost p = path@;
    let mut simplified: Vec<Vec2> = Vec::new();
    simplified.push(path[0]);
    let mut i: usize = 1;
    while i < path.len() - 1
        invariant
            w.wf(),
            p == path@,
            p.len() >= 2,
            forall|k: int| 0 <= k < p.len() ==> (#[trigger] p[k]).in_range(),
            1 <= i <= p.len() - 1,
            1 <= simplified@.len() <= i,
            simplified@[0] == p[0],
            forall|k: int|
                0 <= k < simplified@.len() ==> exists|j: int|
                    0 <= j < p.len() && #[trigger] simplified@[k] == p[j],
            simplify_spec(*w, p) == simplified@ + simp_rec(
                *w,
                p,
                i as int,
                simplified@[simplified@.len() - 1],
            ),
        decreases path@.len() - i,
    {
        let anchor = simplified[simplified.len() - 1];
        let ghost old_s = simplified@;
        if !can_see(w, anchor, path[i + 1]) {
            simplified.push(path[i]);
            proof {
                assert(simp_rec(*w, p, i as int, anchor) == seq![p[i as int]] + simp_rec(
                    *w,
                    p,
                    i as int + 1,
                    p[i as int],
                ));
                assert(old_s + (seq![p[i as int]] + simp_rec(*w, p, i as int + 1, p[i as int]))
                    =~= (old_s + seq![p[i as int]]) + simp_rec(*w, p, i as int + 1, p[i as int]));
                assert(simplified@ =~= old_s + seq![p[i as int]]);
            }
        } else {
            proof {
                assert(simp_rec(*w, p, i as int, anchor) == simp_rec(*w, p, i as int + 1, anchor));
            }
        }
        i += 1;
    }
    let ghost old_s = simplified@;
    let last = path[path.len() - 1];
    simplified.push(last);
    proof {
        assert(simp_rec(*w, p, i as int, old_s[old_s.len() - 1]) == seq![p[p.len() - 1]]);
        assert(simplified@ =~= old_s + seq![p[p.len() - 1]]);
    }
    simplified
}

/// A path that is already minimal is a fixed point of the greedy scan:
/// from position `i` on, with the previous point as anchor, everything is
/// kept.
proof fn lemma_simp_rec_of_minimal(w: World, q: Seq<Vec2>, i: int)
    requires
        q.len() >= 2,
        1 <= i <= q.len() - 1,
        forall|j: int| #![trigger q[j]] i - 1 <= j < q.len() - 2 ==> !can_see_spec(w, q[j], q[j + 2]),
    ensures
        simp_rec(w, q, i, q[i - 1]) =~= q.subrange(i, q.len() as int),
    decreases q.len() - i,
{
    if i >= q.len() - 1 {
        assert(simp_rec(w, q, i, q[i - 1]) == seq![q[q.len() - 1]]);
    } else {
        let prev = q[i - 1];
        assert(!can_see_spec(w, q[i - 1], q[i + 1]));
        lemma_simp_rec_of_minimal(w, q, i + 1);
        assert(simp_rec(w, q, i, q[i - 1]) == seq![q[i]] + simp_rec(w, q, i + 1, q[i]));
    }
}

/// *Fixed point*: a minimal path (no interior waypoint mergeable, see
/// `minimal_path`) is returned unchanged by simplification.
pub proof fn lemma_simplify_fixed_point(w: World, q: Seq<Vec2>)
    requires
        q.len() >= 2,
        minimal_path(w, q),
    ensures
        simplify_spec(w, q) =~= q,
{
    lemma_simp_rec_of_minimal(w, q, 1);
    assert(seq![q[0]] + q.subrange(1, q.len() as int) =~= q);
}

/// *Idempotence*: whenever one pass of simplification yields a minimal
/// path, a second pass returns it unchanged.  (One pass does not yield a
/// minimal path for every world: a dropped point can open a line of sight
/// past a kept one, so idempotence is stated under that premise.)
pub proof fn lemma_simplify_idempotent(w: World, p: Seq<Vec2>)
    requires
        p.len() >= 2,
        simplify_spec(w, p).len() >= 2,
        minimal_path(w, simplify_spec(w, p)),
    ensures
        simplify_spec(w, simplify_spec(w, p)) =~= simplify_spec(w, p),
{
    lemma_simplify_fixed_point(w, simplify_spec(w, p));
}

} // verus!
