//! Plan executor behaviour: cursor progress, stuck detection, the
//! despawn effect, plan building, and the detour scenario.

use stroll::geom::{Rect, Vec2};
use stroll::person::PersonState;
use stroll::plan::{build_path, path_segments, path_update, person_actions, Action, Actions};
use stroll::world::World;

fn open_world() -> World {
    World {
        bounds: Rect {
            min: Vec2 { x: -20_000, y: -20_000 },
            max: Vec2 { x: 20_000, y: 20_000 },
        },
        statics: vec![],
        bodies: vec![],
    }
}

fn v(x: i64, y: i64) -> Vec2 {
    Vec2 { x, y }
}

#[test]
fn driving_onto_each_target_consumes_the_plan() {
    let w = open_world();
    let targets = [v(1000, 0), v(2000, 0), v(3000, 1000)];
    let mut steps: Vec<Action> = targets.iter().map(|t| Action::GoTo(*t)).collect();
    steps.push(Action::Despawn);
    let mut plan = Actions::from(steps);
    let mut ticks = 0;
    let mut despawned = false;
    let mut pos = v(0, 0);
    for _ in 0..16 {
        match plan.current() {
            Some(Action::GoTo(t)) => {
                // drive the agent straight onto its current target
                pos = *t;
            }
            Some(Action::Despawn) => {}
            None => {}
        }
        let rebuild = path_update(&w, pos, &mut plan);
        assert!(!rebuild, "nothing obstructs an empty world");
        ticks += 1;
        let (_state, despawn) = person_actions(&plan, pos);
        if despawn {
            despawned = true;
            break;
        }
    }
    assert!(despawned, "the plan must end in the despawn effect");
    // one cursor advance per tick: one per target, the last one reaching
    // the despawn action
    assert_eq!(ticks, targets.len());
}

#[test]
fn obstruction_ahead_requests_rebuild_immediately() {
    let mut w = open_world();
    let mut plan = Actions::from(vec![Action::GoTo(v(5000, 0)), Action::Despawn]);
    let pos = v(0, 0);
    // no obstruction: no rebuild
    assert!(!path_update(&w, pos, &mut plan));
    // a wall appears directly ahead of the current leg
    w.statics.push(Rect { min: v(2000, -500), max: v(3000, 500) });
    let mut plan2 = Actions::from(vec![Action::GoTo(v(5000, 0)), Action::Despawn]);
    let rebuild = path_update(&w, pos, &mut plan2);
    assert!(rebuild, "a blocked leg must request a rebuild on the next tick");
}

#[test]
fn rebuild_and_advance_fire_independently() {
    let mut w = open_world();
    // blocks the way to the first target only; the second target is clear
    w.statics.push(Rect { min: v(1500, 1500), max: v(2500, 3000) });
    let mut plan = Actions::from(vec![
        Action::GoTo(v(2000, 2000)),
        Action::GoTo(v(4000, 0)),
        Action::Despawn,
    ]);
    let pos = v(0, 0);
    let rebuild = path_update(&w, pos, &mut plan);
    assert!(rebuild, "the current leg is blocked");
    // the advance check ran on the same snapshot and also fired:
    // the segment to the next target is clear
    let (state, _) = person_actions(&plan, pos);
    match state {
        PersonState::Walking(_) => {}
        PersonState::Standing => panic!("the plan is not exhausted"),
    }
}

#[test]
fn walking_state_points_at_the_current_target() {
    let plan = Actions::from(vec![Action::GoTo(v(3000, 0)), Action::Despawn]);
    let (state, despawn) = person_actions(&plan, v(0, 0));
    assert!(!despawn);
    assert_eq!(state, PersonState::Walking(v(1000, 0)));
}

#[test]
fn exhausted_plan_stands_still() {
    let mut plan = Actions::from(vec![Action::GoTo(v(1000, 0)), Action::Despawn]);
    let w = open_world();
    // reach the target: the cursor moves to the despawn action
    let _ = path_update(&w, v(1000, 0), &mut plan);
    let (_state, despawn) = person_actions(&plan, v(1000, 0));
    assert!(despawn, "the final action is the despawn effect");
    let empty = Actions::from(vec![]);
    let (state, despawn2) = person_actions(&empty, v(0, 0));
    assert_eq!(state, PersonState::Standing);
    assert!(!despawn2);
}

#[test]
fn plan_accessors_walk_the_sequence() {
    let steps = vec![Action::GoTo(v(1000, 0)), Action::GoTo(v(2000, 0)), Action::Despawn];
    let mut plan = Actions::from(steps.clone());
    assert_eq!(plan.current(), Some(&steps[0]));
    assert_eq!(plan.peek(), Some(&steps[1]));
    assert_eq!(plan.remaining(), steps);
    plan.next();
    assert_eq!(plan.current(), Some(&steps[1]));
    assert_eq!(plan.peek(), Some(&steps[2]));
    assert_eq!(plan.remaining(), steps[1..].to_vec());
    plan.next();
    assert_eq!(plan.current(), Some(&Action::Despawn));
    assert_eq!(plan.peek(), None);
}

#[test]
fn path_segments_pair_the_remaining_targets() {
    let mut plan = Actions::from(vec![
        Action::GoTo(v(0, 0)),
        Action::GoTo(v(1000, 0)),
        Action::GoTo(v(1000, 2000)),
        Action::Despawn,
    ]);
    assert_eq!(
        path_segments(&plan),
        vec![(v(0, 0), v(1000, 0)), (v(1000, 0), v(1000, 2000))]
    );
    plan.next();
    assert_eq!(path_segments(&plan), vec![(v(1000, 0), v(1000, 2000))]);
    plan.next();
    assert_eq!(path_segments(&plan), vec![]);
}

#[test]
fn build_path_returns_goto_steps_and_despawn() {
    let w = open_world();
    let plan = build_path(&w, v(0, 0), v(5000, 0)).expect("open world: a route exists");
    let steps = plan.remaining();
    assert!(steps.len() >= 3);
    assert_eq!(*steps.last().unwrap(), Action::Despawn);
    match steps[0] {
        Action::GoTo(p) => assert_eq!(p, v(0, 0)),
        Action::Despawn => panic!("the first step must be a GoTo"),
    }
}

#[test]
fn build_path_propagates_no_route() {
    let mut w = World {
        bounds: Rect { min: v(-2000, -2000), max: v(13_000, 13_000) },
        statics: vec![],
        bodies: vec![],
    };
    w.statics.push(Rect { min: v(8000, 8000), max: v(12_000, 8600) });
    w.statics.push(Rect { min: v(8000, 11_400), max: v(12_000, 12_000) });
    w.statics.push(Rect { min: v(8000, 8000), max: v(8600, 12_000) });
    w.statics.push(Rect { min: v(11_400, 8000), max: v(12_000, 12_000) });
    assert!(build_path(&w, v(0, 0), v(10_000, 10_000)).is_none());
}

#[test]
fn detour_scenario_yields_few_clear_waypoints() {
    let mut w = open_world();
    // the obstacle spans (2, 0) to (3, 1) in world units
    w.statics.push(Rect { min: v(2000, 0), max: v(3000, 1000) });
    let plan = build_path(&w, v(0, 0), v(5000, 0)).expect("a detour exists");
    let steps = plan.remaining();
    assert_eq!(*steps.last().unwrap(), Action::Despawn);
    // at most three waypoints after simplification
    assert!(steps.len() - 1 <= 3, "too many waypoints: {:?}", steps);
    for s in &steps[..steps.len() - 1] {
        match s {
            Action::GoTo(p) => {
                assert!(!w.occupied(*p, 500), "waypoint {:?} is inside the obstacle", p)
            }
            Action::Despawn => panic!("despawn before the end"),
        }
    }
}
