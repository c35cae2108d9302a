//! Action plans and their per-tick execution.
//!
//! An agent owns one `Actions` plan: an ordered sequence of `GoTo` steps
//! ending in `Despawn`, with a cursor that only moves forward.  Every
//! tick, two independent checks run against the same position snapshot: a
//! stuck check (a swept full-footprint cast along the remaining leg; a
//! hit requests a rebuild) and an advance check (the current leg is
//! finished when the next target is reachable by an unobstructed swept
//! cast, or, on the last leg, when the agent stands within the arrival
//! tolerance of its target).  Plans are replaced wholesale on rebuild,
//! never edited.

use vstd::prelude::*;
use crate::geom::{
    dist_sq, dist_sq_exec, inflate, norm_spec, normalize, seg_hits_rect, sub_exec, sub_spec, Vec2,
};
use crate::world::World;
use crate::person::PersonState;
use crate::search::{free_cell, search_path, valid_route, within_goal};
use crate::simplify::path_simplification;

verus! {

/// Half-extent of the full agent footprint used by the executor's swept
/// casts; deliberately stricter than the simplifier's zero-width ray.
pub const EXEC_HALF: i64 = 500;

/// Squared arrival tolerance for the final leg: 0.5 world units.
pub const ARRIVE_TOL_SQ: i64 = 250_000;

/// One navigation step of a plan.
#[derive(Clone, Copy, PartialEq, Eq, Structural, Debug)]
pub enum Action {
    GoTo(Vec2),
    Despawn,
}

/// A goal point assigned from outside; consumed once a plan is built.
#[derive(Clone, Copy, PartialEq, Eq, Structural, Debug)]
pub struct Target(pub Vec2);

/// Marker: this agent's plan must be (re)built in the next planning
/// phase.
#[derive(Clone, Copy, PartialEq, Eq, Structural, Debug)]
pub struct BuildPath;

/// An agent's ordered plan of actions and the index of the current one.
#[derive(Debug)]
pub struct Actions {
    steps: Vec<Action>,
    current_step: usize,
}

impl Actions {
    /// The full ordered sequence of actions.
    pub closed spec fn plan(self) -> Seq<Action> {
        self.steps@
    }

    /// The index of the current action.
    pub closed spec fn cursor(self) -> int {
        self.current_step as int
    }

    /// The cursor never runs past the end of the sequence.
    pub open spec fn wf(self) -> bool {
        self.cursor() <= self.plan().len()
    }

    /// Every `GoTo` target lies within coordinate range.
    pub open spec fn targets_in_range(self) -> bool {
        forall|i: int|
            0 <= i < self.plan().len() ==> ((#[trigger] self.plan()[i]) is GoTo
                ==> self.plan()[i]->0.in_range())
    }

    /// The current action, if the plan is not exhausted.
    pub fn current(&self) -> (r: Option<&Action>)
        ensures
            r is Some <==> self.cursor() < self.plan().len(),
            r matches Some(a) ==> *a == self.plan()[self.cursor()],
    {
        if self.current_step < self.steps.len() {
            Some(&self.steps[self.current_step])
        } else {
            None
        }
    }

    /// The actions from the current one to the end, in order.
    pub fn remaining(&self) -> (r: Vec<Action>)
        requires
            self.wf(),
        ensures
            r@ == self.plan().skip(self.cursor()),
    {
        let mut r: Vec<Action> = Vec::new();
        let mut i: usize = self.current_step;
        while i < self.steps.len()
            invariant
                self.current_step <= i <= self.steps@.len(),
                r@ == self.steps@.subrange(self.current_step as int, i as int),
            decreases self.steps@.len() - i,
        {
            r.push(self.steps[i]);
            proof {
                assert(r@ =~= self.steps@.subrange(self.current_step as int, i + 1));
            }
            i += 1;
        }
        proof {
            assert(r@ =~= self.plan().skip(self.cursor()));
        }
        r
    }

    /// Advance the cursor past the current action.
    pub fn next(&mut self)
        requires
            old(self).cursor() < old(self).plan().len(),
        ensures
            final(self).plan() == old(self).plan(),
            final(self).cursor() == old(self).cursor() + 1,
    {
        let n = self.steps.len();
        if self.current_step < n {
            self.current_step += 1;
        }
    }

    /// The action after the current one, if any.
    pub fn peek(&self) -> (r: Option<&Action>)
        requires
            self.wf(),
        ensures
            r is Some <==> self.cursor() + 1 < self.plan().len(),
            r matches Some(a) ==> *a == self.plan()[self.cursor() + 1],
    {
        if self.current_step < self.steps.len() && self.current_step + 1 < self.steps.len() {
            Some(&self.steps[self.current_step + 1])
        } else {
            None
        }
    }
}

impl From<Vec<Action>> for Actions {
    /// A fresh plan starts at its first action.
    fn from(steps: Vec<Action>) -> (r: Self) {
        Self { steps, current_step: 0 }
    }
}

impl vstd::std_specs::convert::FromSpecImpl<Vec<Action>> for Actions {
    open spec fn obeys_from_spec() -> bool {
        true
    }

    closed spec fn from_spec(v: Vec<Action>) -> Self {
        Actions { steps: v, current_step: 0 }
    }
}

/// What `Actions::from` builds: the given steps, with the cursor at the
/// start.
pub proof fn lemma_actions_from(v: Vec<Action>)
    ensures
        (<Actions as vstd::std_specs::convert::FromSpec<Vec<Action>>>::from_spec(v)).plan()
            == v@,
        (<Actions as vstd::std_specs::convert::FromSpec<Vec<Action>>>::from_spec(
            v,
        )).cursor() == 0,
{
}

/// The advance condition for the current tick: the current action is a
/// `GoTo`, and either the straight segment to the next `GoTo` target is
/// unobstructed for the full footprint, or there is no next `GoTo` and
/// the agent stands within the arrival tolerance of the current target.
pub open spec fn advance_now(w: World, pos: Vec2, a: Actions) -> bool {
    let i = a.cursor();
    &&& i < a.plan().len()
    &&& a.plan()[i] is GoTo
    &&& if i + 1 < a.plan().len() && a.plan()[i + 1] is GoTo {
        !w.seg_blocked(pos, a.plan()[i + 1]->0, EXEC_HALF as int)
    } else {
        dist_sq(pos, a.plan()[i]->0) < ARRIVE_TOL_SQ as int
    }
}

/// The stuck condition for the current tick: a swept full-footprint cast
/// along the remaining distance to the current target reports an
/// obstruction.
pub open spec fn stuck_now(w: World, pos: Vec2, a: Actions) -> bool {
    let i = a.cursor();
    &&& i < a.plan().len()
    &&& a.plan()[i] is GoTo
    &&& w.seg_blocked(pos, a.plan()[i]->0, EXEC_HALF as int)
}

/// *Executor progress*: in a world with no static obstacles, an agent
/// standing exactly on its current `GoTo` target always finishes the
/// step on the next tick, and is never stuck.  Iterating this over a
/// plan of `GoTo` steps followed by `Despawn` advances the cursor once
/// per step until the `Despawn` is reached.
pub proof fn lemma_executor_progress(w: World, a: Actions, t: Vec2)
    requires
        w.statics@.len() == 0,
        a.cursor() < a.plan().len(),
        a.plan()[a.cursor()] is GoTo,
        t == a.plan()[a.cursor()]->0,
    ensures
        advance_now(w, t, a),
        !stuck_now(w, t, a),
{
    assert(dist_sq(t, t) == 0);
    let i = a.cursor();
    if i + 1 < a.plan().len() && a.plan()[i + 1] is GoTo {
        assert(!w.seg_blocked(t, a.plan()[i + 1]->0, EXEC_HALF as int));
    }
    assert(!w.seg_blocked(t, a.plan()[i]->0, EXEC_HALF as int));
}

/// *Replan trigger*: a static obstruction across the swept segment from
/// the agent to its current target makes the stuck condition hold on the
/// very next tick.  `path_update` reports `stuck_now` unconditionally,
/// so the rebuild request is independent of whether the advance
/// condition also fires.
pub proof fn lemma_replan_trigger(w: World, pos: Vec2, a: Actions, j: int)
    requires
        a.cursor() < a.plan().len(),
        a.plan()[a.cursor()] is GoTo,
        0 <= j < w.statics@.len(),
        seg_hits_rect(
            pos,
            a.plan()[a.cursor()]->0,
            inflate(w.statics@[j], EXEC_HALF as int, EXEC_HALF as int),
        ),
    ensures
        stuck_now(w, pos, a),
{
    assert(w.seg_blocked(pos, a.plan()[a.cursor()]->0, EXEC_HALF as int));
}

/// Advance the cursor when the current step is finished.
pub fn check_step_finished(w: &World, pos: Vec2, actions: &mut Actions)
    requires
        w.wf(),
        pos.in_range(),
        old(actions).wf(),
        old(actions).targets_in_range(),
    ensures
        final(actions).plan() == old(actions).plan(),
        final(actions).wf(),
        final(actions).targets_in_range(),
        advance_now(*w, pos, *old(actions)) ==> final(actions).cursor() == old(actions).cursor()
            + 1,
        !advance_now(*w, pos, *old(actions)) ==> final(actions).cursor() == old(
            actions,
        ).cursor(),
{
    let i = actions.current_step;
    let finished: bool = if i < actions.steps.len() {
        match actions.steps[i] {
            Action::GoTo(target) => {
                let has_next_goto = i + 1 < actions.steps.len() && match actions.steps[i + 1] {
                    Action::GoTo(_) => true,
                    Action::Despawn => false,
                };
                if has_next_goto {
                    let next_target = match actions.steps[i + 1] {
                        Action::GoTo(t) => t,
                        Action::Despawn => target,
                    };
                    !w.cast_static(pos, next_target, EXEC_HALF)
                } else {
                    dist_sq_exec(pos, target) < ARRIVE_TOL_SQ
                }
            },
            Action::Despawn => false,
        }
    } else {
        false
    };
    if finished {
        actions.next();
    }
}

/// The per-tick stuck check: does the current leg need a rebuild?
pub fn rebuild_actions_if_stuck(w: &World, pos: Vec2, actions: &Actions) -> (rebuild: bool)
    requires
        w.wf(),
        pos.in_range(),
        actions.wf(),
        actions.targets_in_range(),
    ensures
        rebuild == stuck_now(*w, pos, *actions),
{
    let i = actions.current_step;
    if i < actions.steps.len() {
        match actions.steps[i] {
            Action::GoTo(target) => w.cast_static(pos, target, EXEC_HALF),
            Action::Despawn => false,
        }
    } else {
        false
    }
}

/// One executor tick for one agent: run the stuck check and the advance
/// check against the same position snapshot.  The two are independent; a
/// tick may both request a rebuild and advance.
pub fn path_update(w: &World, pos: Vec2, actions: &mut Actions) -> (rebuild: bool)
    requires
        w.wf(),
        pos.in_range(),
        old(actions).wf(),
        old(actions).targets_in_range(),
    ensures
        final(actions).plan() == old(actions).plan(),
        final(actions).wf(),
        final(actions).targets_in_range(),
        rebuild == stuck_now(*w, pos, *old(actions)),
        advance_now(*w, pos, *old(actions)) ==> final(actions).cursor() == old(actions).cursor()
            + 1,
        !advance_now(*w, pos, *old(actions)) ==> final(actions).cursor() == old(
            actions,
        ).cursor(),
{
    let rebuild = rebuild_actions_if_stuck(w, pos, actions);
    check_step_finished(w, pos, actions);
    rebuild
}

/// The navigation state an agent should take this tick, and whether the
/// agent is to be despawned: `Walking` toward the current target, or
/// `Standing` when the plan is exhausted.
pub fn person_actions(actions: &Actions, pos: Vec2) -> (r: (PersonState, bool))
    requires
        actions.wf(),
        actions.targets_in_range(),
        pos.in_range(),
    ensures
        actions.cursor() < actions.plan().len() && actions.plan()[actions.cursor()] is GoTo ==> r
            == (PersonState::Walking(
            norm_spec(sub_spec(actions.plan()[actions.cursor()]->0, pos)),
        ), false),
        actions.cursor() < actions.plan().len() && actions.plan()[actions.cursor()] is Despawn
            ==> r.1 == true,
        actions.cursor() >= actions.plan().len() ==> r == (PersonState::Standing, false),
{
    let i = actions.current_step;
    if i < actions.steps.len() {
        match actions.steps[i] {
            Action::GoTo(target) => {
                let dir = normalize(sub_exec(target, pos));
                (PersonState::Walking(dir), false)
            },
            Action::Despawn => (PersonState::Standing, true),
        }
    } else {
        (PersonState::Standing, false)
    }
}

/// The target of every `GoTo` in `s`, in order.
pub open spec fn goto_targets(s: Seq<Action>) -> Seq<Vec2>
    decreases s.len(),
{
    if s.len() == 0 {
        Seq::empty()
    } else if s[0] is GoTo {
        seq![s[0]->0] + goto_targets(s.skip(1))
    } else {
        goto_targets(s.skip(1))
    }
}

/// The straight legs still ahead of an agent: one segment between each
/// pair of consecutive `GoTo` targets from the cursor on.  This is the
/// data a host draws when it visualizes a plan.
pub fn path_segments(actions: &Actions) -> (r: Vec<(Vec2, Vec2)>)
    requires
        actions.wf(),
    ensures
        ({
            let ts = goto_targets(actions.plan().skip(actions.cursor()));
            &&& r@.len() == (if ts.len() >= 1 {
                ts.len() - 1
            } else {
                0
            })
            &&& forall|i: int|
                0 <= i < r@.len() ==> #[trigger] r@[i] == (ts[i], ts[i + 1])
        }),
{
    let rem = actions.remaining();
    let mut targets: Vec<Vec2> = Vec::new();
    let mut i: usize = 0;
    proof {
        assert(rem@.skip(0) == rem@);
    }
    while i < rem.len()
        invariant
            0 <= i <= rem@.len(),
            targets@ == goto_targets(rem@.take(i as int)),
        decreases rem@.len() - i,
    {
        let ghost pre = targets@;
        match rem[i] {
            Action::GoTo(t) => {
                targets.push(t);
            },
            Action::Despawn => {},
        }
        proof {
            lemma_goto_targets_take_step(rem@, i as int);
        }
        i += 1;
    }
    proof {
        assert(rem@.take(rem@.len() as int) == rem@);
    }
    let mut r: Vec<(Vec2, Vec2)> = Vec::new();
    if targets.len() >= 1 {
        let mut k: usize = 0;
        while k < targets.len() - 1
            invariant
                0 <= k <= targets@.len() - 1 || targets@.len() == 0,
                targets@.len() >= 1,
                r@.len() == k,
                forall|j: int|
                    0 <= j < k ==> #[trigger] r@[j] == (targets@[j], targets@[j + 1]),
            decreases targets@.len() - k,
        {
            r.push((targets[k], targets[k + 1]));
            k += 1;
        }
    }
    r
}

/// Taking one more action extends the collected targets by that
/// action's target, when it has one.
proof fn lemma_goto_targets_take_step(s: Seq<Action>, i: int)
    requires
        0 <= i < s.len(),
    ensures
        s[i] is GoTo ==> goto_targets(s.take(i + 1)) == goto_targets(s.take(i)) + seq![s[i]->0],
        !(s[i] is GoTo) ==> goto_targets(s.take(i + 1)) == goto_targets(s.take(i)),
    decreases i,
{
    let a = s.take(i + 1);
    let b = s.take(i);
    if i == 0 {
        assert(a == seq![s[0]]);
        assert(b == Seq::<Action>::empty());
        assert(a.skip(1) =~= Seq::<Action>::empty());
        if s[0] is GoTo {
            assert(goto_targets(a) =~= seq![s[0]->0]);
            assert(goto_targets(b) + seq![s[0]->0] =~= seq![s[0]->0]);
        }
    } else {
        lemma_goto_targets_take_step(s.skip(1), i - 1);
        assert(a[0] == s[0]);
        assert(b[0] == s[0]);
        assert(a.skip(1) =~= s.skip(1).take(i));
        assert(b.skip(1) =~= s.skip(1).take(i - 1));
        assert(s.skip(1)[i - 1] == s[i]);
        if s[i] is GoTo {
            if s[0] is GoTo {
                assert(goto_targets(a) == seq![s[0]->0] + goto_targets(s.skip(1).take(i)));
                assert(goto_targets(b) == seq![s[0]->0] + goto_targets(s.skip(1).take(i - 1)));
                assert(goto_targets(a) =~= goto_targets(b) + seq![s[i]->0]);
            } else {
                assert(goto_targets(a) =~= goto_targets(b) + seq![s[i]->0]);
            }
        }
    }
}

/// Build a fresh plan from `pos` to `target`: search the grid, simplify
/// the route, turn each waypoint into a `GoTo`, and append `Despawn`.
/// Returns `None` exactly when no route exists — the no-route case is a
/// result the caller must treat as "keep standing", never an error.
pub fn build_path(w: &World, pos: Vec2, target: Vec2) -> (r: Option<Actions>)
    requires
        w.wf(),
        w.in_bounds(pos),
        target.in_range(),
    ensures
        r is Some <==> exists|s: Seq<Vec2>| valid_route(*w, pos, target, s),
        r matches Some(a) ==> {
            &&& a.wf()
            &&& a.cursor() == 0
            &&& a.targets_in_range()
            &&& a.plan().len() >= 3
            &&& a.plan()[a.plan().len() - 1] is Despawn
            &&& forall|i: int| 0 <= i < a.plan().len() - 1 ==> (#[trigger] a.plan()[i]) is GoTo
            &&& a.plan()[0]->0 == pos
            &&& within_goal(a.plan()[a.plan().len() - 2]->0, target)
            &&& forall|i: int|
                1 <= i < a.plan().len() - 1 ==> (free_cell(*w, (#[trigger] a.plan()[i])->0)
                    || a.plan()[i]->0 == pos)
        },
{
    match search_path(w, pos, target) {
        None => None,
        Some(raw) => {
            proof {
                assert(valid_route(*w, pos, target, raw@));
                assert forall|k: int| 0 <= k < raw@.len() implies (#[trigger] raw@[k]).in_range() by {
                    if k == 0 {
                        assert(raw@[0] == pos);
                    } else {
                        assert(free_cell(*w, raw@[k]));
                    }
                }
            }
            let simplified: Vec<Vec2> = if raw.len() >= 2 {
                path_simplification(w, &raw)
            } else {
                let mut s: Vec<Vec2> = Vec::new();
                s.push(raw[0]);
                s.push(raw[0]);
                s
            };
            let mut steps: Vec<Action> = Vec::new();
            let mut i: usize = 0;
            while i < simplified.len()
                invariant
                    0 <= i <= simplified@.len(),
                    steps@.len() == i,
                    forall|k: int|
                        0 <= k < i ==> (#[trigger] steps@[k]) == Action::GoTo(simplified@[k]),
                decreases simplified@.len() - i,
            {
                steps.push(Action::GoTo(simplified[i]));
                i += 1;
            }
            steps.push(Action::Despawn);
            let ghost simp = simplified@;
            let ghost plan = steps@;
            let actions = Actions::from(steps);
            proof {
                assert(actions.plan() == plan);
                assert forall|k: int|
                    1 <= k < actions.plan().len() - 1 implies (free_cell(
                    *w,
                    (#[trigger] actions.plan()[k])->0,
                ) || actions.plan()[k]->0 == pos) by {
                    assert(actions.plan()[k] == Action::GoTo(simp[k]));
                    if raw@.len() >= 2 {
                        let j = choose|j: int| 0 <= j < raw@.len() && simp[k] == raw@[j];
                        if j == 0 {
                            assert(raw@[0] == pos);
                        } else {
                            assert(free_cell(*w, raw@[j]));
                        }
                    } else {
                        assert(simp[k] == raw@[0]);
                    }
                }
            }
            Some(actions)
        },
    }
}

} // verus!
