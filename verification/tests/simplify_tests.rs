//! Simplifier behaviour: endpoints kept, redundant waypoints dropped,
//! minimality in synthetic worlds, and idempotence.

use stroll::geom::{Rect, Vec2};
use stroll::simplify::{can_see, path_simplification};
use stroll::world::World;

fn open_world() -> World {
    World {
        bounds: Rect {
            min: Vec2 { x: -20_000, y: -20_000 },
            max: Vec2 { x: 20_000, y: 20_000 },
        },
        statics: vec![],
        bodies: vec![],
    }
}

fn v(x: i64, y: i64) -> Vec2 {
    Vec2 { x, y }
}

#[test]
fn collinear_points_collapse_to_endpoints() {
    let w = open_world();
    let path = vec![v(0, 0), v(1000, 0), v(2000, 0), v(3000, 0), v(4000, 0)];
    let s = path_simplification(&w, &path);
    assert_eq!(s, vec![v(0, 0), v(4000, 0)]);
}

#[test]
fn endpoints_are_always_kept() {
    let mut w = open_world();
    w.statics.push(Rect { min: v(1500, -500), max: v(2500, 1500) });
    let path = vec![v(0, 0), v(1000, 0), v(1000, 2000), v(3000, 2000), v(3000, 0)];
    let s = path_simplification(&w, &path);
    assert_eq!(s[0], path[0]);
    assert_eq!(*s.last().unwrap(), *path.last().unwrap());
    assert!(s.len() >= 2);
    assert!(s.len() <= path.len());
}

#[test]
fn two_point_path_is_returned_as_is() {
    let w = open_world();
    let path = vec![v(0, 0), v(5000, 5000)];
    let s = path_simplification(&w, &path);
    assert_eq!(s, path);
}

#[test]
fn occluded_corner_is_kept_and_output_is_minimal() {
    let mut w = open_world();
    // a block forcing the path around its corner
    w.statics.push(Rect { min: v(1500, -3000), max: v(2500, 500) });
    let path = vec![v(0, 0), v(0, 1000), v(1000, 1000), v(2000, 1000), v(3000, 1000), v(
        3000,
        0,
    ), v(4000, 0)];
    let s = path_simplification(&w, &path);
    assert_eq!(s[0], v(0, 0));
    assert_eq!(*s.last().unwrap(), v(4000, 0));
    // minimality: no interior waypoint is visible from two steps back
    for i in 1..s.len() - 1 {
        assert!(
            !can_see(&w, s[i - 1], s[i + 1]),
            "waypoint {:?} could be merged away",
            s[i]
        );
    }
}

#[test]
fn simplification_is_idempotent_on_scenarios() {
    let mut worlds = vec![open_world()];
    let mut with_block = open_world();
    with_block.statics.push(Rect { min: v(1500, -3000), max: v(2500, 500) });
    worlds.push(with_block);
    let paths = vec![
        vec![v(0, 0), v(1000, 0), v(2000, 0), v(3000, 0)],
        vec![v(0, 0), v(0, 1000), v(1000, 1000), v(2000, 1000), v(3000, 1000), v(3000, 0), v(
            4000,
            0,
        )],
        vec![v(0, 0), v(5000, 5000)],
    ];
    for w in &worlds {
        for p in &paths {
            let once = path_simplification(w, p);
            let twice = path_simplification(w, &once);
            assert_eq!(twice, once, "simplify must be idempotent on {:?}", p);
        }
    }
}
