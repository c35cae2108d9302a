//! Pathfinder behaviour: open-grid optimality, soundness against
//! obstacles, the no-route answer, and the full detour scenario.

use stroll::geom::{Rect, Vec2};
use stroll::search::search_path;
use stroll::world::World;

fn open_world() -> World {
    World {
        bounds: Rect {
            min: Vec2 { x: -20_000, y: -20_000 },
            max: Vec2 { x: 20_000, y: 20_000 },
        },
        statics: vec![],
        bodies: vec![],
    }
}

fn assert_unit_steps(path: &[Vec2]) {
    for w in path.windows(2) {
        let dx = (w[1].x - w[0].x).abs();
        let dy = (w[1].y - w[0].y).abs();
        assert!(
            (dx == 1000 && dy == 0) || (dx == 0 && dy == 1000),
            "not a unit step: {:?} -> {:?}",
            w[0],
            w[1]
        );
    }
}

fn d2(a: Vec2, b: Vec2) -> i64 {
    (a.x - b.x) * (a.x - b.x) + (a.y - b.y) * (a.y - b.y)
}

#[test]
fn open_grid_straight_line() {
    let w = open_world();
    let from = Vec2 { x: 0, y: 0 };
    let to = Vec2 { x: 5000, y: 0 };
    let path = search_path(&w, from, to).expect("route must exist on an open grid");
    assert_eq!(path[0], from);
    assert_unit_steps(&path);
    // Manhattan lower bound: 5 unit steps, so 6 points, no more
    assert_eq!(path.len(), 6);
    assert!(d2(path[path.len() - 1], to) <= 640_000);
}

#[test]
fn open_grid_bend_is_manhattan_optimal() {
    let w = open_world();
    let from = Vec2 { x: 0, y: 0 };
    let to = Vec2 { x: 5000, y: 3001 };
    let path = search_path(&w, from, to).expect("route must exist on an open grid");
    assert_eq!(path[0], from);
    assert_unit_steps(&path);
    // Manhattan distance is 8 unit steps to the nearest grid point
    assert_eq!(path.len(), 9);
    assert!(d2(path[path.len() - 1], to) <= 640_000);
}

#[test]
fn path_avoids_static_obstacles() {
    let mut w = open_world();
    // a wall with a gap well away from the straight line
    w.statics.push(Rect {
        min: Vec2 { x: 2000, y: -4000 },
        max: Vec2 { x: 3000, y: 4000 },
    });
    let from = Vec2 { x: 0, y: 0 };
    let to = Vec2 { x: 6000, y: 0 };
    let path = search_path(&w, from, to).expect("route around the wall exists");
    assert_unit_steps(&path);
    // soundness: no path point's footprint overlaps the wall
    for p in path.iter().skip(1) {
        assert!(!w.occupied(*p, 500), "path point {:?} stands in the wall", p);
    }
}

#[test]
fn enclosed_goal_reports_no_route() {
    let mut w = World {
        bounds: Rect {
            min: Vec2 { x: -2000, y: -2000 },
            max: Vec2 { x: 13_000, y: 13_000 },
        },
        statics: vec![],
        bodies: vec![],
    };
    // four walls sealing the goal chamber at (10, 10)
    w.statics.push(Rect {
        min: Vec2 { x: 8000, y: 8000 },
        max: Vec2 { x: 12_000, y: 8600 },
    });
    w.statics.push(Rect {
        min: Vec2 { x: 8000, y: 11_400 },
        max: Vec2 { x: 12_000, y: 12_000 },
    });
    w.statics.push(Rect {
        min: Vec2 { x: 8000, y: 8000 },
        max: Vec2 { x: 8600, y: 12_000 },
    });
    w.statics.push(Rect {
        min: Vec2 { x: 11_400, y: 8000 },
        max: Vec2 { x: 12_000, y: 12_000 },
    });
    let from = Vec2 { x: 0, y: 0 };
    let to = Vec2 { x: 10_000, y: 10_000 };
    let res = search_path(&w, from, to);
    assert!(res.is_none(), "a sealed goal must yield the no-route answer");
}

#[test]
fn reachable_goal_inside_partial_ring_is_found() {
    let mut w = World {
        bounds: Rect {
            min: Vec2 { x: -2000, y: -2000 },
            max: Vec2 { x: 13_000, y: 13_000 },
        },
        statics: vec![],
        bodies: vec![],
    };
    // same chamber, but the right wall is missing
    w.statics.push(Rect {
        min: Vec2 { x: 8000, y: 8000 },
        max: Vec2 { x: 12_000, y: 8600 },
    });
    w.statics.push(Rect {
        min: Vec2 { x: 8000, y: 11_400 },
        max: Vec2 { x: 12_000, y: 12_000 },
    });
    w.statics.push(Rect {
        min: Vec2 { x: 8000, y: 8000 },
        max: Vec2 { x: 8600, y: 12_000 },
    });
    let from = Vec2 { x: 0, y: 0 };
    let to = Vec2 { x: 10_000, y: 10_000 };
    let path = search_path(&w, from, to).expect("open chamber must be reachable");
    assert_unit_steps(&path);
    assert!(d2(path[path.len() - 1], to) <= 640_000);
}
