//! Steering behaviour: symmetry without obstacles, deflection and
//! repulsion with them, braking, and the small geometry helpers.

use stroll::building::{Building, Door, Side};
use stroll::controls::{get_direction, walk_state};
use stroll::geom::{isqrt64, normalize, Rect, Vec2};
use stroll::person::PersonState;
use stroll::steer::{
    calculate_collision_avoidance_dir, calculate_personal_space_dir, local_avoidance_direction,
    movement,
};
use stroll::world::{Body, World};

fn open_world() -> World {
    World {
        bounds: Rect {
            min: Vec2 { x: -20_000, y: -20_000 },
            max: Vec2 { x: 20_000, y: 20_000 },
        },
        statics: vec![],
        bodies: vec![],
    }
}

fn v(x: i64, y: i64) -> Vec2 {
    Vec2 { x, y }
}

#[test]
fn steering_without_obstacles_is_the_normalized_target() {
    let w = open_world();
    let td = v(300, 400);
    let out = local_avoidance_direction(&w, 7, v(0, 0), v(0, 0), td);
    assert_eq!(out, normalize(td));
    assert_eq!(out, v(600, 800));
}

#[test]
fn own_body_does_not_deflect_steering() {
    let mut w = open_world();
    w.bodies.push(Body { id: 7, pos: v(0, 0), vel: v(0, 0), half: 500 });
    let td = v(1000, 0);
    let out = local_avoidance_direction(&w, 7, v(0, 0), v(0, 0), td);
    assert_eq!(out, v(1000, 0));
}

#[test]
fn body_ahead_produces_a_sideways_push() {
    let mut w = open_world();
    w.bodies.push(Body { id: 1, pos: v(5000, 0), vel: v(0, 0), half: 500 });
    let td = v(1000, 0);
    let avoid = calculate_collision_avoidance_dir(&w, 7, v(0, 0), v(0, 0), td);
    assert!(avoid != v(0, 0), "a body dead ahead must deflect");
    // near-head-on and standing still: the fixed perpendicular side is taken
    assert!(avoid.y != 0);
}

#[test]
fn personal_space_pushes_away_from_a_close_neighbor() {
    let mut w = open_world();
    // the neighbor stands straight ahead, in the first ray's path
    w.bodies.push(Body { id: 1, pos: v(0, 1500), vel: v(0, 0), half: 500 });
    let td = v(0, 1000);
    let push = calculate_personal_space_dir(&w, 7, v(0, 0), td);
    assert!(push.y < 0, "the push must point away from the neighbor: {:?}", push);
}

#[test]
fn standing_brakes_against_velocity() {
    let w = open_world();
    let imp = movement(&w, 7, v(0, 0), v(300, -200), &PersonState::Standing);
    assert_eq!(imp, v(-6000, 4000));
}

#[test]
fn walking_impulse_is_a_scaled_unit_heading() {
    let w = open_world();
    let imp = movement(&w, 7, v(0, 0), v(0, 0), &PersonState::Walking(v(1000, 0)));
    assert_eq!(imp, v(10_000, 0));
}

#[test]
fn key_directions_compose_and_normalize() {
    assert_eq!(get_direction(false, false, false, false), v(0, 0));
    assert_eq!(get_direction(true, false, false, false), v(0, 1000));
    assert_eq!(get_direction(true, true, false, false), v(0, 0));
    let diag = get_direction(true, false, false, true);
    assert_eq!(diag, v(707, 707));
    assert_eq!(walk_state(diag), PersonState::Walking(diag));
    assert_eq!(walk_state(v(0, 0)), PersonState::Standing);
}

#[test]
fn door_positions_and_open_directions() {
    let d = Door::new(Side::Left, 0);
    assert_eq!(d.get_open_dir(), v(-1000, 0));
    let size = v(50_000, 30_000);
    assert_eq!(d.get_pos(size), v(-25_000, 0));
    let top = Door::new(Side::Top, 500);
    assert_eq!(top.get_open_dir(), v(0, 1000));
    assert_eq!(top.get_pos(size), v(12_500, 15_000));
}

#[test]
fn building_footprint_is_centred_on_its_position() {
    let b = Building { size: v(50_000, 30_000), pos: v(-50_000, -50_000), doors: vec![] };
    let r = b.footprint();
    assert_eq!(r.min, v(-75_000, -65_000));
    assert_eq!(r.max, v(-25_000, -35_000));
}

#[test]
fn integer_square_root_is_exact_floor() {
    assert_eq!(isqrt64(0), 0);
    assert_eq!(isqrt64(1), 1);
    assert_eq!(isqrt64(3), 1);
    assert_eq!(isqrt64(4), 2);
    assert_eq!(isqrt64(999_999), 999);
    assert_eq!(isqrt64(1_000_000), 1000);
    assert_eq!(isqrt64(u64::MAX), 4_294_967_295);
}

#[test]
fn normalize_handles_zero_and_axis_vectors() {
    assert_eq!(normalize(v(0, 0)), v(0, 0));
    assert_eq!(normalize(v(12_345, 0)), v(1000, 0));
    assert_eq!(normalize(v(0, -4)), v(0, -1000));
    assert_eq!(normalize(v(3000, 4000)), v(600, 800));
}
