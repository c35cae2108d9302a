//! The decision half of player control: turn the pressed direction keys
//! into a normalized heading and a walking state.  Reading the keyboard
//! itself belongs to the host.

use vstd::prelude::*;
use crate::geom::{norm_spec, normalize, Vec2, SCALE};
use crate::person::PersonState;

verus! {

/// The raw key vector: one unit per pressed direction, before
/// normalization.
pub open spec fn key_vec(up: bool, down: bool, left: bool, right: bool) -> Vec2 {
    Vec2 {
        x: ((if right {
            SCALE as int
        } else {
            0
        }) - (if left {
            SCALE as int
        } else {
            0
        })) as i64,
        y: ((if up {
            SCALE as int
        } else {
            0
        }) - (if down {
            SCALE as int
        } else {
            0
        })) as i64,
    }
}

/// The normalized heading for the pressed direction keys; opposite keys
/// cancel, no keys give the zero heading.
pub fn get_direction(up: bool, down: bool, left: bool, right: bool) -> (r: Vec2)
    ensures
        r == norm_spec(key_vec(up, down, left, right)),
        r.bounded(SCALE as int),
{
    let mut v = Vec2 { x: 0, y: 0 };
    if up {
        v.y = v.y + SCALE;
    }
    if down {
        v.y = v.y - SCALE;
    }
    if right {
        v.x = v.x + SCALE;
    }
    if left {
        v.x = v.x - SCALE;
    }
    proof {
        assert(v == key_vec(up, down, left, right));
    }
    normalize(v)
}

/// The state the player agent takes for a heading: walking along it when
/// it is appreciably non-zero (longer than a tenth of a unit), else
/// standing.
pub fn walk_state(dir: Vec2) -> (r: PersonState)
    requires
        dir.bounded(SCALE as int),
    ensures
        crate::steer::len_sq(dir) > 10_000 ==> r == PersonState::Walking(dir),
        crate::steer::len_sq(dir) <= 10_000 ==> r == PersonState::Standing,
{
    proof {
        crate::geom::lemma_abs_mul_le(dir.x as int, dir.x as int, 1000, 1000);
        crate::geom::lemma_abs_mul_le(dir.y as int, dir.y as int, 1000, 1000);
    }
    if dir.x * dir.x + dir.y * dir.y > 10_000 {
        PersonState::Walking(dir)
    } else {
        PersonState::Standing
    }
}

} // verus!
