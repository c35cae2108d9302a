//! Grid pathfinding: greedy best-first search over the implicit unit grid.
//!
//! The open set is a priority queue keyed by straight-line distance from
//! the candidate cell to the goal (an admissible heuristic only; no
//! accumulated path cost is tracked).  A cell is expanded at most once,
//! guarded by a closed-list membership check; each expansion fans out to
//! the four axis-aligned unit neighbours, each validated by an occupancy
//! test for the agent footprint.  The search succeeds when a popped cell
//! is within the goal tolerance, and returns the back-tracked chain of
//! parents, reversed into start-to-goal order.  It returns `None` exactly
//! when no unit-grid route to the goal tolerance exists inside the world
//! bounds: the no-route answer is a result, not an error.

use vstd::prelude::*;
use vstd::set_lib::{lemma_int_range, lemma_len_subset, set_int_range};
use vstd::arithmetic::div_mod::lemma_fundamental_div_mod_converse;
use crate::geom::{dist_sq, dist_sq_exec, unit_step, Vec2, SCALE};
use crate::world::World;
use crate::openset::{open_new, open_pop, open_push, open_view, OpenItem, OpenQueue};

verus! {

/// Half-extent of the footprint used to validate grid cells.
pub const FOOT_HALF: i64 = 500;

/// Squared goal tolerance: a cell within 0.8 world units of the goal
/// counts as reaching it.
pub const GOAL_TOL_SQ: i64 = 640_000;

/// `p` is within the goal tolerance of `to`.
pub open spec fn within_goal(p: Vec2, to: Vec2) -> bool {
    dist_sq(p, to) <= GOAL_TOL_SQ as int
}

/// A grid point an agent may stand on: inside the world bounds and with
/// the agent footprint clear of every static obstacle.
pub open spec fn free_cell(w: World, p: Vec2) -> bool {
    w.in_bounds(p) && !w.occupied_at(p, FOOT_HALF as int)
}

/// A walkable unit-grid route from `from` into the goal tolerance of
/// `to`: it starts at `from`, moves by axis-aligned unit steps, stands
/// only on free cells (the start itself is exempt), and ends within the
/// goal tolerance.
pub open spec fn valid_route(w: World, from: Vec2, to: Vec2, s: Seq<Vec2>) -> bool {
    &&& s.len() >= 1
    &&& s[0] == from
    &&& forall|i: int| #![trigger s[i]] 0 <= i < s.len() - 1 ==> unit_step(s[i], s[i + 1])
    &&& forall|i: int| #![trigger s[i]] 1 <= i < s.len() ==> free_cell(w, s[i])
    &&& within_goal(s[s.len() - 1], to)
}

/// The Manhattan distance between two points.
pub open spec fn manhattan(a: Vec2, b: Vec2) -> int {
    (vstd::math::abs(a.x - b.x) + vstd::math::abs(a.y - b.y)) as int
}

/// *Grid lower bound*: a unit-step route cannot beat the Manhattan
/// distance; it needs at least one step per world unit of separation
/// between its endpoints.  A route whose length equals this bound, as
/// the searcher returns on an open grid, is optimal.
pub proof fn lemma_route_length_lower_bound(s: Seq<Vec2>)
    requires
        s.len() >= 1,
        forall|i: int| #![trigger s[i]] 0 <= i < s.len() - 1 ==> unit_step(s[i], s[i + 1]),
    ensures
        manhattan(s[0], s[s.len() - 1]) <= SCALE * (s.len() - 1),
    decreases s.len(),
{
    if s.len() > 1 {
        let t = s.take(s.len() - 1);
        assert forall|i: int| #![trigger t[i]] 0 <= i < t.len() - 1 implies unit_step(
            t[i],
            t[i + 1],
        ) by {
            assert(t[i] == s[i]);
            assert(t[i + 1] == s[i + 1]);
        }
        lemma_route_length_lower_bound(t);
        assert(t[0] == s[0]);
        assert(t[t.len() - 1] == s[s.len() - 2]);
        assert(unit_step(s[s.len() - 2], s[s.len() - 1]));
        assert(SCALE * (s.len() - 1) == SCALE * (s.len() - 2) + SCALE) by (nonlinear_arith);
    }
}

/// A closed-list node: cell offsets from the start, the world point of
/// the cell, and the closed-list index of its parent.
struct Node {
    gx: i64,
    gy: i64,
    pt: Vec2,
    parent: usize,
}

/// The fixed-point point of cell `(gx, gy)` relative to `from` is `pt`.
spec fn cell_pt_eq(from: Vec2, gx: int, gy: int, pt: Vec2) -> bool {
    from.x + SCALE * gx == pt.x && from.y + SCALE * gy == pt.y
}

/// Cell `(gx, gy)` relative to `from` lands on a free world point.
spec fn cell_free(w: World, from: Vec2, gx: int, gy: int) -> bool {
    exists|pt: Vec2| #[trigger] cell_pt_eq(from, gx, gy, pt) && free_cell(w, pt)
}

/// Cells at unit distance.
spec fn adjacent(gx1: int, gy1: int, gx2: int, gy2: int) -> bool {
    ||| (gx2 == gx1 + 1 || gx2 == gx1 - 1) && gy2 == gy1
    ||| (gy2 == gy1 + 1 || gy2 == gy1 - 1) && gx2 == gx1
}

/// Well-formedness of closed-list entry `i`.
spec fn node_ok(w: World, from: Vec2, ns: Seq<Node>, i: int) -> bool {
    let n = ns[i];
    &&& cell_pt_eq(from, n.gx as int, n.gy as int, n.pt)
    &&& -2_000_000 <= n.gx <= 2_000_000
    &&& -2_000_000 <= n.gy <= 2_000_000
    &&& n.pt.in_range()
    &&& w.in_bounds(n.pt)
    &&& (i >= 1 ==> (n.parent as int) < i && unit_step(ns[n.parent as int].pt, n.pt) && free_cell(
        w,
        n.pt,
    ))
}

/// Well-formedness of the whole closed list.
spec fn nodes_ok(w: World, from: Vec2, ns: Seq<Node>) -> bool {
    &&& ns.len() >= 1
    &&& ns[0].gx == 0 && ns[0].gy == 0 && ns[0].pt == from && ns[0].parent == 0
    &&& forall|i: int| 0 <= i < ns.len() ==> #[trigger] node_ok(w, from, ns, i)
}

/// Some closed-list entry occupies cell `(gx, gy)`.
spec fn closed_has(ns: Seq<Node>, gx: int, gy: int) -> bool {
    exists|i: int| 0 <= i < ns.len() && (#[trigger] ns[i]).gx == gx && ns[i].gy == gy
}

/// No two closed-list entries share a cell.
spec fn nodes_distinct(ns: Seq<Node>) -> bool {
    forall|i: int, j: int|
        #![trigger ns[i], ns[j]]
        0 <= i < j < ns.len() ==> !(ns[i].gx == ns[j].gx && ns[i].gy == ns[j].gy)
}

/// No closed-list entry has reached the goal tolerance.
spec fn none_at_goal(to: Vec2, ns: Seq<Node>) -> bool {
    forall|i: int| 0 <= i < ns.len() ==> !within_goal((#[trigger] ns[i]).pt, to)
}

/// Well-formedness of an open-set item against the closed list.
spec fn item_ok(w: World, from: Vec2, ns: Seq<Node>, it: OpenItem) -> bool {
    let pt = Vec2 { x: it.2, y: it.3 };
    &&& cell_pt_eq(from, it.0 as int, it.1 as int, pt)
    &&& -2_000_000 <= it.0 <= 2_000_000
    &&& -2_000_000 <= it.1 <= 2_000_000
    &&& pt.in_range()
    &&& w.in_bounds(pt)
    &&& ((it.0 == 0 && it.1 == 0 && it.4 == 0) || ((it.4 as int) < ns.len() && unit_step(
        ns[it.4 as int].pt,
        pt,
    ) && free_cell(w, pt)))
}

/// Every open-set item is well-formed.
spec fn open_ok(w: World, from: Vec2, ns: Seq<Node>, ov: Map<OpenItem, u64>) -> bool {
    forall|it: OpenItem| #[trigger] ov.dom().contains(it) ==> item_ok(w, from, ns, it)
}

/// Some open-set item occupies cell `(gx, gy)`.
spec fn open_has(ov: Map<OpenItem, u64>, gx: int, gy: int) -> bool {
    exists|it: OpenItem| #[trigger] ov.dom().contains(it) && it.0 == gx && it.1 == gy
}

/// The frontier property: every free cell adjacent to a closed cell is
/// itself closed or waiting in the open set.
spec fn closure_ok(w: World, from: Vec2, ns: Seq<Node>, ov: Map<OpenItem, u64>) -> bool {
    forall|i: int, gx2: int, gy2: int|
        #![trigger ns[i], cell_free(w, from, gx2, gy2)]
        0 <= i < ns.len() && adjacent(ns[i].gx as int, ns[i].gy as int, gx2, gy2) && cell_free(
            w,
            from,
            gx2,
            gy2,
        ) ==> closed_has(ns, gx2, gy2) || open_has(ov, gx2, gy2)
}

/// Injective code for a cell, used only to bound the closed list.
spec fn code_of(gx: int, gy: int) -> int {
    (gx + 2_000_000) * 4_000_001 + (gy + 2_000_000)
}

/// Number of distinct cell codes.
spec fn max_code() -> int {
    4_000_001int * 4_000_001int
}

/// The ghost code set mirrors the closed list.
spec fn codes_ok(ns: Seq<Node>, codes: Set<int>) -> bool {
    &&& codes.finite()
    &&& forall|i: int|
        0 <= i < ns.len() ==> codes.contains(code_of((#[trigger] ns[i]).gx as int, ns[i].gy as int))
    &&& forall|c: int| #[trigger]
        codes.contains(c) ==> exists|i: int|
            0 <= i < ns.len() && code_of((#[trigger] ns[i]).gx as int, ns[i].gy as int) == c
}

/// Codes of in-box cells are in range and injective.
proof fn lemma_code_range(gx: int, gy: int)
    requires
        -2_000_000 <= gx <= 2_000_000,
        -2_000_000 <= gy <= 2_000_000,
    ensures
        0 <= code_of(gx, gy) < max_code(),
{
    assert(0 <= (gx + 2_000_000) * 4_000_001 + (gy + 2_000_000) < 4_000_001 * 4_000_001)
        by (nonlinear_arith)
        requires
            0 <= gx + 2_000_000 <= 4_000_000,
            0 <= gy + 2_000_000 <= 4_000_000,
    ;
}

/// Distinct in-box cells get distinct codes.
proof fn lemma_code_injective(gx1: int, gy1: int, gx2: int, gy2: int)
    requires
        -2_000_000 <= gx1 <= 2_000_000,
        -2_000_000 <= gy1 <= 2_000_000,
        -2_000_000 <= gx2 <= 2_000_000,
        -2_000_000 <= gy2 <= 2_000_000,
        code_of(gx1, gy1) == code_of(gx2, gy2),
    ensures
        gx1 == gx2 && gy1 == gy2,
{
    lemma_fundamental_div_mod_converse(
        code_of(gx1, gy1),
        4_000_001,
        gx1 + 2_000_000,
        gy1 + 2_000_000,
    );
    lemma_fundamental_div_mod_converse(
        code_of(gx2, gy2),
        4_000_001,
        gx2 + 2_000_000,
        gy2 + 2_000_000,
    );
}

/// A cell whose point is within twice the coordinate limit of the start
/// sits within two million cells of it.
proof fn lemma_cell_bound(g: int, d: int)
    requires
        SCALE * g == d,
        -2_000_000_000 <= d <= 2_000_000_000,
    ensures
        -2_000_000 <= g <= 2_000_000,
{
    assert(-2_000_000 <= g <= 2_000_000) by (nonlinear_arith)
        requires
            1000 * g == d,
            -2_000_000_000 <= d <= 2_000_000_000,
    ;
}

/// Linear scan of the closed list for a cell.
fn contains_cell(ns: &Vec<Node>, gx: i64, gy: i64) -> (r: bool)
    ensures
        r == closed_has(ns@, gx as int, gy as int),
{
    let n = ns.len();
    let mut i: usize = 0;
    while i < n
        invariant
            n == ns@.len(),
            0 <= i <= n,
            forall|j: int| 0 <= j < i ==> !((#[trigger] ns@[j]).gx == gx && ns@[j].gy == gy),
        decreases n - i,
    {
        if ns[i].gx == gx && ns[i].gy == gy {
            return true;
        }
        i += 1;
    }
    false
}

/// Back-track the parent chain from the last closed node to the start,
/// then reverse it into start-to-goal order.
fn reconstruct(w: &World, ns: &Vec<Node>, Ghost(from): Ghost<Vec2>, to: Vec2) -> (path: Vec<Vec2>)
    requires
        nodes_ok(*w, from, ns@),
        within_goal(ns@[ns@.len() - 1].pt, to),
    ensures
        valid_route(*w, from, to, path@),
{
    let mut rev: Vec<Vec2> = Vec::new();
    let mut cur: usize = ns.len() - 1;
    rev.push(ns[cur].pt);
    proof {
        assert(node_ok(*w, from, ns@, cur as int));
    }
    while cur != 0
        invariant
            nodes_ok(*w, from, ns@),
            0 <= cur < ns@.len(),
            rev@.len() >= 1,
            rev@[rev@.len() - 1] == ns@[cur as int].pt,
            within_goal(rev@[0], to),
            forall|k: int| #![trigger rev@[k]] 0 <= k < rev@.len() - 1 ==> unit_step(rev@[k + 1], rev@[k]),
            forall|k: int| #![trigger rev@[k]] 0 <= k < rev@.len() - 1 ==> free_cell(*w, rev@[k]),
            cur >= 1 ==> free_cell(*w, rev@[rev@.len() - 1]),
        decreases cur,
    {
        assert(node_ok(*w, from, ns@, cur as int));
        let p = ns[cur].parent;
        proof {
            assert(node_ok(*w, from, ns@, p as int));
        }
        rev.push(ns[p].pt);
        cur = p;
    }
    assert(rev@[rev@.len() - 1] == from);
    let n = rev.len();
    let mut path: Vec<Vec2> = Vec::new();
    let mut i: usize = n;
    while i > 0
        invariant
            n == rev@.len(),
            0 <= i <= n,
            path@.len() == n - i,
            forall|k: int| #![trigger path@[k]] 0 <= k < path@.len() ==> path@[k] == rev@[n - 1 - k],
        decreases i,
    {
        i -= 1;
        path.push(rev[i]);
    }
    assert(path@[0] == from);
    assert forall|k: int| #![trigger path@[k]] 0 <= k < path@.len() - 1 implies unit_step(
        path@[k],
        path@[k + 1],
    ) by {
        assert(path@[k] == rev@[n - 1 - k]);
        assert(path@[k + 1] == rev@[n - 1 - (k + 1)]);
        assert(unit_step(rev@[(n - 1 - (k + 1)) + 1], rev@[n - 1 - (k + 1)]));
    }
    assert forall|k: int| #![trigger path@[k]] 1 <= k < path@.len() implies free_cell(
        *w,
        path@[k],
    ) by {
        assert(path@[k] == rev@[n - 1 - k]);
    }
    assert(path@[path@.len() - 1] == rev@[0]);
    path
}

/// Any walkable route ends on a closed cell, once the frontier is
/// exhausted: the closed set contains the start and is closed under free
/// adjacency, so a route can never leave it.
proof fn lemma_route_stays_closed(
    w: World,
    from: Vec2,
    to: Vec2,
    ns: Seq<Node>,
    s: Seq<Vec2>,
    k: int,
)
    requires
        nodes_ok(w, from, ns),
        forall|i: int, gx2: int, gy2: int|
            #![trigger ns[i], cell_free(w, from, gx2, gy2)]
            0 <= i < ns.len() && adjacent(ns[i].gx as int, ns[i].gy as int, gx2, gy2) && cell_free(
                w,
                from,
                gx2,
                gy2,
            ) ==> closed_has(ns, gx2, gy2),
        s.len() >= 1,
        s[0] == from,
        forall|i: int| #![trigger s[i]] 0 <= i < s.len() - 1 ==> unit_step(s[i], s[i + 1]),
        forall|i: int| #![trigger s[i]] 1 <= i < s.len() ==> free_cell(w, s[i]),
        0 <= k < s.len(),
    ensures
        exists|i: int| 0 <= i < ns.len() && (#[trigger] ns[i]).pt == s[k],
    decreases k,
{
    if k == 0 {
        assert(ns[0].pt == s[0]);
    } else {
        lemma_route_stays_closed(w, from, to, ns, s, k - 1);
        let i = choose|i: int| 0 <= i < ns.len() && (#[trigger] ns[i]).pt == s[k - 1];
        assert(node_ok(w, from, ns, i));
        let prev = s[k - 1];
        let here = s[k];
        assert(unit_step(prev, here));
        assert(free_cell(w, here));
        let gxi = ns[i].gx as int;
        let gyi = ns[i].gy as int;
        // the cell of s[k], derived from the unit step
        let gx2: int = if here.x == prev.x + SCALE {
            gxi + 1
        } else if here.x == prev.x - SCALE {
            gxi - 1
        } else {
            gxi
        };
        let gy2: int = if here.y == prev.y + SCALE {
            gyi + 1
        } else if here.y == prev.y - SCALE {
            gyi - 1
        } else {
            gyi
        };
        assert(cell_pt_eq(from, gx2, gy2, here));
        assert(adjacent(gxi, gyi, gx2, gy2));
        assert(cell_free(w, from, gx2, gy2));
        assert(closed_has(ns, gx2, gy2));
        let j = choose|j: int| 0 <= j < ns.len() && (#[trigger] ns[j]).gx == gx2 && ns[j].gy == gy2;
        assert(node_ok(w, from, ns, j));
        assert(ns[j].pt == here);
    }
}

/// Greedy best-first search over the implicit unit grid.  Returns a
/// walkable route from `from` into the goal tolerance of `to`, or `None`
/// exactly when no such route exists within the world bounds.
pub fn search_path(w: &World, from: Vec2, to: Vec2) -> (res: Option<Vec<Vec2>>)
    requires
        w.wf(),
        w.in_bounds(from),
        to.in_range(),
    ensures
        res matches Some(path) ==> valid_route(*w, from, to, path@),
        res is None ==> forall|s: Seq<Vec2>| !valid_route(*w, from, to, s),
{
    let mut closed: Vec<Node> = Vec::new();
    let mut open: OpenQueue = open_new();
    let ghost mut codes: Set<int> = Set::empty();
    proof {
        assert(open_view(open).dom() =~= Set::<OpenItem>::empty());
    }
    let d0 = dist_sq_exec(from, to);
    open_push(&mut open, (0, 0, from.x, from.y, 0), u64::MAX - (d0 as u64));
    loop
        invariant_except_break
            w.wf(),
            w.in_bounds(from),
            from.in_range(),
            to.in_range(),
            open_view(open).dom().finite(),
            codes_ok(closed@, codes),
            closed@.len() >= 1 ==> nodes_ok(*w, from, closed@),
            closed@.len() == 0 ==> codes =~= Set::<int>::empty(),
            nodes_distinct(closed@),
            none_at_goal(to, closed@),
            open_ok(*w, from, closed@, open_view(open)),
            closure_ok(*w, from, closed@, open_view(open)),
            closed@.len() == 0 ==> open_view(open).dom().contains((0, 0, from.x, from.y, 0)),
        ensures
            open_view(open).dom() =~= Set::<OpenItem>::empty(),
            closed@.len() >= 1,
            nodes_ok(*w, from, closed@),
            none_at_goal(to, closed@),
            closure_ok(*w, from, closed@, open_view(open)),
        decreases max_code() - codes.len(), open_view(open).dom().len(),
    {
        let ghost pre_ov = open_view(open);
        let popped = open_pop(&mut open);
        match popped {
            None => {
                proof {
                    if closed@.len() == 0 {
                        assert(pre_ov.dom().contains((0, 0, from.x, from.y, 0)));
                        assert(false);
                    }
                    assert(open_view(open).dom() =~= Set::<OpenItem>::empty());
                }
                break;
            },
            Some((item, _prio)) => {
                let (gx, gy, ptx, pty, pidx) = item;
                let pt = Vec2 { x: ptx, y: pty };
                proof {
                    assert(pre_ov.dom().contains(item));
                    assert(item_ok(*w, from, closed@, item));
                    assert(open_view(open).dom() =~= pre_ov.dom().remove(item));
                }
                if contains_cell(&closed, gx, gy) {
                    // a duplicate of an already expanded cell: drop it
                    proof {
                        let ov = open_view(open);
                        assert forall|i: int, gx2: int, gy2: int|
                            #![trigger closed@[i], cell_free(*w, from, gx2, gy2)]
                            0 <= i < closed@.len() && adjacent(
                                closed@[i].gx as int,
                                closed@[i].gy as int,
                                gx2,
                                gy2,
                            ) && cell_free(*w, from, gx2, gy2) implies closed_has(
                            closed@,
                            gx2,
                            gy2,
                        ) || open_has(ov, gx2, gy2) by {
                            if !closed_has(closed@, gx2, gy2) {
                                assert(open_has(pre_ov, gx2, gy2));
                                let it2 = choose|it2: OpenItem|
                                    #[trigger] pre_ov.dom().contains(it2) && it2.0 == gx2
                                        && it2.1 == gy2;
                                if it2 == item {
                                    assert(closed_has(closed@, gx as int, gy as int));
                                    assert(false);
                                } else {
                                    assert(ov.dom().contains(it2));
                                }
                            }
                        }
                    }
                } else {
                    let idx = closed.len();
                    proof {
                        if (pidx as int) >= closed@.len() {
                            // only the start entry may carry an out-of-range
                            // parent, and its cell is closed with the list
                            // non-empty
                            if closed@.len() > 0 {
                                assert(closed@[0].gx == 0 && closed@[0].gy == 0);
                                assert(closed_has(closed@, gx as int, gy as int));
                                assert(false);
                            }
                        }
                    }
                    let parent: usize = if pidx > 0 {
                        pidx as usize
                    } else {
                        0
                    };
                    let node = Node { gx, gy, pt, parent };
                    let ghost old_closed = closed@;
                    let ghost old_codes = codes;
                    closed.push(node);
                    proof {
                        assert(closed@ =~= old_closed.push(node));
                        assert(forall|i: int|
                            0 <= i < old_closed.len() ==> closed@[i] == #[trigger] old_closed[i]);
                        // the new list is well formed
                        if old_closed.len() == 0 {
                            assert(gx == 0 && gy == 0 && pidx == 0);
                            assert(SCALE * 0 == 0);
                            assert(pt == from);
                        } else {
                            if gx == 0 && gy == 0 && pidx == 0 {
                                assert(old_closed[0].gx == 0 && old_closed[0].gy == 0);
                                assert(closed_has(old_closed, gx as int, gy as int));
                                assert(false);
                            }
                            assert((pidx as int) < old_closed.len() && unit_step(
                                old_closed[pidx as int].pt,
                                pt,
                            ) && free_cell(*w, pt));
                        }
                        assert forall|i: int| 0 <= i < closed@.len() implies #[trigger] node_ok(
                            *w,
                            from,
                            closed@,
                            i,
                        ) by {
                            if i < old_closed.len() {
                                assert(node_ok(*w, from, old_closed, i));
                            }
                        }
                        assert(nodes_ok(*w, from, closed@));
                        // distinctness: the new cell was not closed before
                        assert forall|i: int, j: int|
                            #![trigger closed@[i], closed@[j]]
                            0 <= i < j < closed@.len() implies !(closed@[i].gx == closed@[j].gx
                            && closed@[i].gy == closed@[j].gy) by {
                            if j == old_closed.len() as int {
                                assert(closed@[i] == old_closed[i]);
                            }
                        }
                        // the ghost code set tracks the closed list
                        let c = code_of(gx as int, gy as int);
                        lemma_code_range(gx as int, gy as int);
                        if old_codes.contains(c) {
                            let i = choose|i: int|
                                0 <= i < old_closed.len() && code_of(
                                    (#[trigger] old_closed[i]).gx as int,
                                    old_closed[i].gy as int,
                                ) == c;
                            assert(node_ok(*w, from, old_closed, i));
                            lemma_code_injective(
                                old_closed[i].gx as int,
                                old_closed[i].gy as int,
                                gx as int,
                                gy as int,
                            );
                            assert(closed_has(old_closed, gx as int, gy as int));
                            assert(false);
                        }
                        codes = codes.insert(c);
                        assert(codes.len() == old_codes.len() + 1);
                        assert forall|cc: int| #[trigger] codes.contains(cc) implies set_int_range(
                            0,
                            max_code(),
                        ).contains(cc) by {
                            if cc != c {
                                assert(old_codes.contains(cc));
                                let i = choose|i: int|
                                    0 <= i < old_closed.len() && code_of(
                                        (#[trigger] old_closed[i]).gx as int,
                                        old_closed[i].gy as int,
                                    ) == cc;
                                assert(node_ok(*w, from, old_closed, i));
                                lemma_code_range(old_closed[i].gx as int, old_closed[i].gy as int);
                            }
                        }
                        lemma_int_range(0, max_code());
                        lemma_len_subset(codes, set_int_range(0, max_code()));
                        assert(codes.len() <= max_code());
                        assert forall|cc: int| #[trigger] codes.contains(cc) implies exists|i: int|
                            0 <= i < closed@.len() && code_of(
                                (#[trigger] closed@[i]).gx as int,
                                closed@[i].gy as int,
                            ) == cc by {
                            if cc == c {
                                assert(closed@[old_closed.len() as int].gx == gx);
                            } else {
                                let i = choose|i: int|
                                    0 <= i < old_closed.len() && code_of(
                                        (#[trigger] old_closed[i]).gx as int,
                                        old_closed[i].gy as int,
                                    ) == cc;
                                assert(closed@[i] == old_closed[i]);
                            }
                        }
                        // open items still refer to valid parents
                        assert forall|it2: OpenItem| #[trigger]
                            open_view(open).dom().contains(it2) implies item_ok(
                            *w,
                            from,
                            closed@,
                            it2,
                        ) by {
                            assert(pre_ov.dom().contains(it2));
                            assert(item_ok(*w, from, old_closed, it2));
                            if !(it2.0 == 0 && it2.1 == 0 && it2.4 == 0) {
                                assert(closed@[it2.4 as int] == old_closed[it2.4 as int]);
                            }
                        }
                    }
                    if dist_sq_exec(pt, to) <= GOAL_TOL_SQ {
                        let path = reconstruct(w, &closed, Ghost(from), to);
                        return Some(path);
                    }
                    proof {
                        // coverage of the older cells survives the pop: the
                        // popped duplicate's cell is now closed
                        let ov = open_view(open);
                        assert forall|i: int, gx2: int, gy2: int|
                            #![trigger closed@[i], cell_free(*w, from, gx2, gy2)]
                            0 <= i < closed@.len() - 1 && adjacent(
                                closed@[i].gx as int,
                                closed@[i].gy as int,
                                gx2,
                                gy2,
                            ) && cell_free(*w, from, gx2, gy2) implies closed_has(
                            closed@,
                            gx2,
                            gy2,
                        ) || open_has(ov, gx2, gy2) by {
                            assert(closed@[i] == old_closed[i]);
                            assert(closed_has(old_closed, gx2, gy2) || open_has(pre_ov, gx2, gy2));
                            if closed_has(old_closed, gx2, gy2) {
                                let k = choose|k: int|
                                    0 <= k < old_closed.len() && (#[trigger] old_closed[k]).gx
                                        == gx2 && old_closed[k].gy == gy2;
                                assert(closed@[k] == old_closed[k]);
                                assert(closed_has(closed@, gx2, gy2));
                            } else if open_has(pre_ov, gx2, gy2) {
                                let it2 = choose|it2: OpenItem|
                                    #[trigger] pre_ov.dom().contains(it2) && it2.0 == gx2
                                        && it2.1 == gy2;
                                if it2 == item {
                                    assert(closed@[old_closed.len() as int].gx == gx2);
                                    assert(closed_has(closed@, gx2, gy2));
                                } else {
                                    assert(ov.dom().contains(it2));
                                }
                            }
                        }
                    }
                    // expand the four axis-aligned unit neighbours
                    let mut dir: usize = 0;
                    while dir < 4
                        invariant
                            w.wf(),
                            w.in_bounds(from),
                            from.in_range(),
                            to.in_range(),
                            0 <= dir <= 4,
                            open_view(open).dom().finite(),
                            closed@.len() >= 1,
                            idx == closed@.len() - 1,
                            closed@[idx as int].gx == gx && closed@[idx as int].gy == gy
                                && closed@[idx as int].pt == pt,
                            nodes_ok(*w, from, closed@),
                            nodes_distinct(closed@),
                            none_at_goal(to, closed@),
                            open_ok(*w, from, closed@, open_view(open)),
                            forall|i: int, gx2: int, gy2: int|
                                #![trigger closed@[i], cell_free(*w, from, gx2, gy2)]
                                0 <= i < closed@.len() - 1 && adjacent(
                                    closed@[i].gx as int,
                                    closed@[i].gy as int,
                                    gx2,
                                    gy2,
                                ) && cell_free(*w, from, gx2, gy2) ==> closed_has(
                                    closed@,
                                    gx2,
                                    gy2,
                                ) || open_has(open_view(open), gx2, gy2),
                            forall|gx2: int, gy2: int|
                                #![trigger cell_free(*w, from, gx2, gy2)]
                                neighbor_done(gx as int, gy as int, dir as int, gx2, gy2)
                                    && cell_free(*w, from, gx2, gy2) ==> closed_has(
                                    closed@,
                                    gx2,
                                    gy2,
                                ) || open_has(open_view(open), gx2, gy2),
                        decreases 4 - dir,
                    {
                        proof {
                            assert(node_ok(*w, from, closed@, idx as int));
                        }
                        let (ngx, ngy, npt) = match dir {
                            0 => (gx + 1, gy, Vec2 { x: pt.x + SCALE, y: pt.y }),
                            1 => (gx - 1, gy, Vec2 { x: pt.x - SCALE, y: pt.y }),
                            2 => (gx, gy + 1, Vec2 { x: pt.x, y: pt.y + SCALE }),
                            _ => (gx, gy - 1, Vec2 { x: pt.x, y: pt.y - SCALE }),
                        };
                        let ghost mid_ov = open_view(open);
                        let inside = npt.x >= w.bounds.min.x && npt.x <= w.bounds.max.x && npt.y
                            >= w.bounds.min.y && npt.y <= w.bounds.max.y;
                        if inside && !w.occupied(npt, FOOT_HALF) {
                            let nd = dist_sq_exec(npt, to);
                            proof {
                                lemma_cell_bound(ngx as int, npt.x - from.x);
                                lemma_cell_bound(ngy as int, npt.y - from.y);
                            }
                            open_push(
                                &mut open,
                                (ngx, ngy, npt.x, npt.y, idx as u64),
                                u64::MAX - (nd as u64),
                            );
                            proof {
                                let ov = open_view(open);
                                let nit: OpenItem = (ngx, ngy, npt.x, npt.y, idx as u64);
                                assert(ov.dom() =~= mid_ov.dom().insert(nit));
                                assert(item_ok(*w, from, closed@, nit));
                                assert forall|it2: OpenItem| #[trigger]
                                    ov.dom().contains(it2) implies item_ok(
                                    *w,
                                    from,
                                    closed@,
                                    it2,
                                ) by {
                                    if it2 != nit {
                                        assert(mid_ov.dom().contains(it2));
                                    }
                                }
                                assert(ov.dom().contains(nit));
                                assert(open_has(ov, ngx as int, ngy as int));
                                assert forall|gx2: int, gy2: int|
                                    #![trigger cell_free(*w, from, gx2, gy2)]
                                    neighbor_done(gx as int, gy as int, dir as int + 1, gx2, gy2)
                                        && cell_free(*w, from, gx2, gy2) implies closed_has(
                                    closed@,
                                    gx2,
                                    gy2,
                                ) || open_has(ov, gx2, gy2) by {
                                    if gx2 == ngx as int && gy2 == ngy as int {
                                    } else {
                                        assert(closed_has(closed@, gx2, gy2) || open_has(
                                            mid_ov,
                                            gx2,
                                            gy2,
                                        ));
                                        if open_has(mid_ov, gx2, gy2) {
                                            let it2 = choose|it2: OpenItem|
                                                #[trigger] mid_ov.dom().contains(it2) && it2.0
                                                    == gx2 && it2.1 == gy2;
                                            assert(ov.dom().contains(it2));
                                        }
                                    }
                                }
                                assert forall|i: int, gx2: int, gy2: int|
                                    #![trigger closed@[i], cell_free(*w, from, gx2, gy2)]
                                    0 <= i < closed@.len() - 1 && adjacent(
                                        closed@[i].gx as int,
                                        closed@[i].gy as int,
                                        gx2,
                                        gy2,
                                    ) && cell_free(*w, from, gx2, gy2) implies closed_has(
                                    closed@,
                                    gx2,
                                    gy2,
                                ) || open_has(ov, gx2, gy2) by {
                                    if !closed_has(closed@, gx2, gy2) {
                                        assert(open_has(mid_ov, gx2, gy2));
                                        let it2 = choose|it2: OpenItem|
                                            #[trigger] mid_ov.dom().contains(it2) && it2.0 == gx2
                                                && it2.1 == gy2;
                                        assert(ov.dom().contains(it2));
                                    }
                                }
                            }
                        } else {
                            proof {
                                assert forall|pt2: Vec2| #[trigger]
                                    cell_pt_eq(from, ngx as int, ngy as int, pt2) implies !free_cell(
                                    *w,
                                    pt2,
                                ) by {
                                    assert(pt2 == npt);
                                }
                                assert(!cell_free(*w, from, ngx as int, ngy as int));
                            }
                        }
                        dir += 1;
                    }
                    proof {
                        // the four neighbours cover every cell adjacent to
                        // the newly closed one
                        let ov = open_view(open);
                        assert forall|i: int, gx2: int, gy2: int|
                            #![trigger closed@[i], cell_free(*w, from, gx2, gy2)]
                            0 <= i < closed@.len() && adjacent(
                                closed@[i].gx as int,
                                closed@[i].gy as int,
                                gx2,
                                gy2,
                            ) && cell_free(*w, from, gx2, gy2) implies closed_has(
                            closed@,
                            gx2,
                            gy2,
                        ) || open_has(ov, gx2, gy2) by {
                            if i == closed@.len() - 1 {
                                assert(neighbor_done(gx as int, gy as int, 4, gx2, gy2));
                            }
                        }
                    }
                }
            },
        }
    }
    proof {
        assert forall|s: Seq<Vec2>| !valid_route(*w, from, to, s) by {
            if valid_route(*w, from, to, s) {
                assert forall|i: int, gx2: int, gy2: int|
                    #![trigger closed@[i], cell_free(*w, from, gx2, gy2)]
                    0 <= i < closed@.len() && adjacent(
                        closed@[i].gx as int,
                        closed@[i].gy as int,
                        gx2,
                        gy2,
                    ) && cell_free(*w, from, gx2, gy2) implies closed_has(
                    closed@,
                    gx2,
                    gy2,
                ) by {
                    assert(!open_has(open_view(open), gx2, gy2));
                }
                lemma_route_stays_closed(*w, from, to, closed@, s, s.len() - 1);
                let i = choose|i: int|
                    0 <= i < closed@.len() && (#[trigger] closed@[i]).pt == s[s.len() - 1];
                assert(!within_goal(closed@[i].pt, to));
                assert(false);
            }
        }
    }
    None
}

/// The first `dir` neighbour cells of `(gx, gy)`, in expansion order.
spec fn neighbor_done(gx: int, gy: int, dir: int, gx2: int, gy2: int) -> bool {
    ||| (dir >= 1 && gx2 == gx + 1 && gy2 == gy)
    ||| (dir >= 2 && gx2 == gx - 1 && gy2 == gy)
    ||| (dir >= 3 && gx2 == gx && gy2 == gy + 1)
    ||| (dir >= 4 && gx2 == gx && gy2 == gy - 1)
}

} // verus!
