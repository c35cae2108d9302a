//! World query behaviour: occupancy, visibility, swept casts with entry
//! distances, and ray distances.

use stroll::geom::{seg_hits_rect_exec, sweep_rect_exec, Rect, Vec2};
use stroll::simplify::can_see;
use stroll::world::{Body, World};

fn v(x: i64, y: i64) -> Vec2 {
    Vec2 { x, y }
}

fn world_with(statics: Vec<Rect>, bodies: Vec<Body>) -> World {
    World {
        bounds: Rect {
            min: Vec2 { x: -20_000, y: -20_000 },
            max: Vec2 { x: 20_000, y: 20_000 },
        },
        statics,
        bodies,
    }
}

#[test]
fn occupancy_respects_the_footprint() {
    let w = world_with(vec![Rect { min: v(2000, 0), max: v(3000, 1000) }], vec![]);
    // footprint [1500, 2500] x [-500, 500] overlaps the block
    assert!(w.occupied(v(2000, 0), 500));
    // touching edges do not count as overlap
    assert!(!w.occupied(v(1500, 0), 500));
    assert!(!w.occupied(v(1000, 0), 500));
    // a zero footprint strictly inside
    assert!(w.occupied(v(2500, 500), 0));
}

#[test]
fn segment_test_detects_crossings_only() {
    let r = Rect { min: v(2000, 0), max: v(3000, 1000) };
    // straight through the middle
    assert!(seg_hits_rect_exec(v(0, 500), v(5000, 500), &r));
    // entirely to one side
    assert!(!seg_hits_rect_exec(v(0, 2000), v(5000, 2000), &r));
    // grazing the bottom edge is not a crossing
    assert!(!seg_hits_rect_exec(v(0, 0), v(5000, 0), &r));
    // ending inside
    assert!(seg_hits_rect_exec(v(0, 500), v(2500, 500), &r));
    // degenerate segment inside
    assert!(seg_hits_rect_exec(v(2500, 500), v(2500, 500), &r));
}

#[test]
fn line_of_sight_matches_the_segment_test() {
    let w = world_with(vec![Rect { min: v(2000, 0), max: v(3000, 1000) }], vec![]);
    assert!(!can_see(&w, v(0, 500), v(5000, 500)));
    assert!(can_see(&w, v(0, -500), v(5000, -500)));
}

#[test]
fn sweep_reports_the_entry_distance() {
    let r = Rect { min: v(2000, -500), max: v(3000, 500) };
    // a unit-speed sweep along +x from the origin enters the box at 2000
    let hit = sweep_rect_exec(v(0, 0), v(1000, 0), 10_000, &r);
    assert_eq!(hit, Some(2000));
    // moving away: no hit
    assert_eq!(sweep_rect_exec(v(0, 0), v(-1000, 0), 10_000, &r), None);
    // out of range
    assert_eq!(sweep_rect_exec(v(0, 0), v(1000, 0), 1500, &r), None);
    // starting inside: clamped to zero
    assert_eq!(sweep_rect_exec(v(2500, 0), v(1000, 0), 10_000, &r), Some(0));
}

#[test]
fn body_cast_finds_the_nearest_other_body() {
    let w = world_with(
        vec![],
        vec![
            Body { id: 1, pos: v(8000, 0), vel: v(0, 0), half: 500 },
            Body { id: 2, pos: v(4000, 0), vel: v(0, 0), half: 500 },
            Body { id: 7, pos: v(-5000, 0), vel: v(0, 0), half: 500 },
        ],
    );
    let hit = w.cast_bodies(v(0, 0), v(1000, 0), 20_000, 600, 7);
    let (idx, toi) = hit.expect("two bodies lie ahead");
    assert_eq!(w.bodies[idx].id, 2, "the nearer body wins");
    // body footprint 500 grown by 600: the near face sits at 4000 - 1100
    assert_eq!(toi, 2900);
    // excluding everything leaves no hit
    let none = w.cast_bodies(v(0, 0), v(1000, 0), 20_000, 600, 2);
    let (idx2, _) = none.expect("the far body still lies ahead");
    assert_eq!(w.bodies[idx2].id, 1);
}

#[test]
fn ray_sees_both_statics_and_bodies() {
    let w = world_with(
        vec![Rect { min: v(3000, -500), max: v(4000, 500) }],
        vec![Body { id: 1, pos: v(1500, 0), vel: v(0, 0), half: 500 }],
    );
    // the body is closer than the wall
    assert_eq!(w.cast_ray(v(0, 0), v(1000, 0), 5000, 7), Some(1000));
    // excluding the body leaves the wall
    assert_eq!(w.cast_ray(v(0, 0), v(1000, 0), 5000, 1), Some(3000));
    // nothing in the other direction
    assert_eq!(w.cast_ray(v(0, 0), v(-1000, 0), 5000, 7), None);
}
