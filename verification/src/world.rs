//! The world snapshot the navigation core queries: static rectangular
//! obstacles, moving bodies, and the walkable bounds.
//!
//! The core never mutates a world; it only asks occupancy, swept-shape and
//! ray questions against a per-tick snapshot.  Every query is answered
//! exactly, in fixed-point arithmetic, and each executable query is proved
//! equal to its specification twin.  Because answers are taken from a
//! snapshot, a body reported by a query always exists in that snapshot: a
//! returned index is proved in range, so one tick of staleness in the
//! outside world can never turn into an out-of-bounds access here.

use vstd::prelude::*;
use crate::geom::{
    Vec2, Rect, rect_at, inflate, rects_overlap, rects_overlap_exec, seg_hits_rect,
    seg_hits_rect_exec, sweep_hits, sweep_toi, sweep_rect_exec,
};

verus! {

/// Largest half-extent a footprint or a body may have.
pub const HALF_LIMIT: i64 = 2_000;

/// Largest direction component accepted by the sweep queries.
pub const DIR_LIMIT: i64 = 10_000;

/// Longest sweep or ray the queries accept, in fixed-point ticks.
pub const RANGE_LIMIT: i64 = 100_000;

/// A moving body (another agent) in the world snapshot.
#[derive(Clone, Copy, PartialEq, Eq, Structural, Debug)]
pub struct Body {
    /// Stable identity of the body, used to exclude an agent's own body.
    pub id: u64,
    pub pos: Vec2,
    pub vel: Vec2,
    /// Half-extent of the body's square footprint.
    pub half: i64,
}

impl Body {
    pub open spec fn wf(self) -> bool {
        &&& self.pos.in_range()
        &&& self.vel.bounded(DIR_LIMIT as int)
        &&& 0 < self.half <= HALF_LIMIT
    }

    /// The square footprint of the body.
    pub open spec fn rect(self) -> Rect {
        rect_at(self.pos, self.half as int, self.half as int)
    }
}

/// A read-only snapshot of the physical world.
pub struct World {
    /// The walkable extent; the pathfinder never leaves it.
    pub bounds: Rect,
    /// Static obstacle footprints (buildings).
    pub statics: Vec<Rect>,
    /// Moving bodies, one per agent currently alive.
    pub bodies: Vec<Body>,
}

impl World {
    pub open spec fn wf(self) -> bool {
        &&& self.bounds.wf()
        &&& forall|i: int| 0 <= i < self.statics@.len() ==> (#[trigger] self.statics@[i]).wf()
        &&& forall|i: int| 0 <= i < self.bodies@.len() ==> (#[trigger] self.bodies@[i]).wf()
    }

    /// `p` lies within the walkable bounds (inclusive).
    pub open spec fn in_bounds(self, p: Vec2) -> bool {
        &&& self.bounds.min.x <= p.x <= self.bounds.max.x
        &&& self.bounds.min.y <= p.y <= self.bounds.max.y
    }

    /// A square footprint of half-extent `h` centred at `c` overlaps some
    /// static obstacle.
    pub open spec fn occupied_at(self, c: Vec2, h: int) -> bool {
        exists|i: int|
            0 <= i < self.statics@.len() && rects_overlap(
                rect_at(c, h, h),
                #[trigger] self.statics@[i],
            )
    }

    /// A footprint of half-extent `h` swept along the segment from `a` to
    /// `b` meets some static obstacle.
    pub open spec fn seg_blocked(self, a: Vec2, b: Vec2, h: int) -> bool {
        exists|i: int|
            0 <= i < self.statics@.len() && seg_hits_rect(
                a,
                b,
                inflate(#[trigger] self.statics@[i], h, h),
            )
    }

    /// Occupancy query: does a square footprint of half-extent `h` at `c`
    /// intersect any static obstacle?
    pub fn occupied(&self, c: Vec2, h: i64) -> (r: bool)
        requires
            self.wf(),
            c.in_range(),
            0 <= h <= HALF_LIMIT,
        ensures
            r == self.occupied_at(c, h as int),
    {
        let probe = Rect {
            min: Vec2 { x: c.x - h, y: c.y - h },
            max: Vec2 { x: c.x + h, y: c.y + h },
        };
        let n = self.statics.len();
        let mut i: usize = 0;
        while i < n
            invariant
                n == self.statics@.len(),
                0 <= i <= n,
                probe == rect_at(c, h as int, h as int),
                forall|j: int|
                    0 <= j < i ==> !rects_overlap(probe, #[trigger] self.statics@[j]),
            decreases n - i,
        {
            if rects_overlap_exec(&probe, &self.statics[i]) {
                return true;
            }
            i += 1;
        }
        false
    }

    /// A sweep from `o` along `dir` hits some body other than `exclude`
    /// within `max_d`, once each body is grown by half-extent `h`.
    pub open spec fn body_hit_exists(
        self,
        o: Vec2,
        dir: Vec2,
        max_d: int,
        h: int,
        exclude: u64,
    ) -> bool {
        exists|i: int|
            0 <= i < self.bodies@.len() && (#[trigger] self.bodies@[i]).id != exclude
                && sweep_hits(o, dir, max_d, inflate(self.bodies@[i].rect(), h, h))
    }

    /// A ray from `o` along `dir` hits a static obstacle or a body other
    /// than `exclude` within `max_d`.
    pub open spec fn ray_hit_exists(self, o: Vec2, dir: Vec2, max_d: int, exclude: u64) -> bool {
        ||| exists|i: int|
            0 <= i < self.statics@.len() && sweep_hits(o, dir, max_d, #[trigger] self.statics@[i])
        ||| self.body_hit_exists(o, dir, max_d, 0, exclude)
    }

    /// Swept-footprint visibility query against static geometry: is the
    /// straight segment from `a` to `b`, widened by half-extent `h`,
    /// obstructed?  `h == 0` is the simplifier's permissive line-of-sight
    /// ray; a positive `h` is the executor's stricter full-footprint test.
    pub fn cast_static(&self, a: Vec2, b: Vec2, h: i64) -> (r: bool)
        requires
            self.wf(),
            a.in_range(),
            b.in_range(),
            0 <= h <= HALF_LIMIT,
        ensures
            r == self.seg_blocked(a, b, h as int),
    {
        let n = self.statics.len();
        let mut i: usize = 0;
        while i < n
            invariant
                n == self.statics@.len(),
                0 <= i <= n,
                self.wf(),
                a.in_range(),
                b.in_range(),
                0 <= h <= HALF_LIMIT,
                forall|j: int|
                    0 <= j < i ==> !seg_hits_rect(
                        a,
                        b,
                        inflate(#[trigger] self.statics@[j], h as int, h as int),
                    ),
            decreases n - i,
        {
            let s = &self.statics[i];
            let grown = Rect {
                min: Vec2 { x: s.min.x - h, y: s.min.y - h },
                max: Vec2 { x: s.max.x + h, y: s.max.y + h },
            };
            if seg_hits_rect_exec(a, b, &grown) {
                return true;
            }
            i += 1;
        }
        false
    }
    /// The nearest body hit among the first `i` bodies, by the fold the
    /// executable query performs: strictly smaller entry distances win,
    /// earlier indices win ties.
    pub open spec fn bodies_best(
        self,
        o: Vec2,
        dir: Vec2,
        max_d: int,
        h: int,
        exclude: u64,
        i: int,
    ) -> Option<(int, int)>
        decreases i,
    {
        if i <= 0 {
            None
        } else {
            let prev = self.bodies_best(o, dir, max_d, h, exclude, i - 1);
            let b = self.bodies@[i - 1];
            if b.id != exclude && sweep_hits(o, dir, max_d, inflate(b.rect(), h, h)) {
                let t = sweep_toi(o, dir, max_d, inflate(b.rect(), h, h));
                match prev {
                    None => Some((i - 1, t)),
                    Some((bi, bt)) => if t < bt {
                        Some((i - 1, t))
                    } else {
                        Some((bi, bt))
                    },
                }
            } else {
                prev
            }
        }
    }

    /// The nearest static hit among the first `i` statics, by the same
    /// fold.
    pub open spec fn statics_best(self, o: Vec2, dir: Vec2, max_d: int, i: int) -> Option<int>
        decreases i,
    {
        if i <= 0 {
            None
        } else {
            let prev = self.statics_best(o, dir, max_d, i - 1);
            if sweep_hits(o, dir, max_d, self.statics@[i - 1]) {
                let t = sweep_toi(o, dir, max_d, self.statics@[i - 1]);
                match prev {
                    None => Some(t),
                    Some(bt) => if t < bt {
                        Some(t)
                    } else {
                        Some(bt)
                    },
                }
            } else {
                prev
            }
        }
    }

    /// The ray fold continued over the first `k` bodies, starting from
    /// the best static hit.
    pub open spec fn ray_best_upto(
        self,
        o: Vec2,
        dir: Vec2,
        max_d: int,
        exclude: u64,
        k: int,
    ) -> Option<int>
        decreases k,
    {
        if k <= 0 {
            self.statics_best(o, dir, max_d, self.statics@.len() as int)
        } else {
            let prev = self.ray_best_upto(o, dir, max_d, exclude, k - 1);
            let b = self.bodies@[k - 1];
            if b.id != exclude && sweep_hits(o, dir, max_d, b.rect()) {
                let t = sweep_toi(o, dir, max_d, b.rect());
                match prev {
                    None => Some(t),
                    Some(bt) => if t < bt {
                        Some(t)
                    } else {
                        Some(bt)
                    },
                }
            } else {
                prev
            }
        }
    }

    /// What the ray query returns: the distance to the first hit along
    /// the ray, over statics and bodies together.
    pub open spec fn ray_best(self, o: Vec2, dir: Vec2, max_d: int, exclude: u64) -> Option<int> {
        self.ray_best_upto(o, dir, max_d, exclude, self.bodies@.len() as int)
    }

    /// Forward swept-shape query against moving bodies: sweep a footprint
    /// of half-extent `h` from `o` along `dir`, ignoring the body with id
    /// `exclude`, and report the index and entry distance of the nearest
    /// body hit within `max_d`.
    pub fn cast_bodies(&self, o: Vec2, dir: Vec2, max_d: i64, h: i64, exclude: u64) -> (res:
        Option<(usize, i64)>)
        requires
            self.wf(),
            o.in_range(),
            dir.bounded(DIR_LIMIT as int),
            0 <= max_d <= RANGE_LIMIT,
            0 <= h <= HALF_LIMIT,
        ensures
            res is Some <==> self.body_hit_exists(o, dir, max_d as int, h as int, exclude),
            res is None ==> self.bodies_best(
                o,
                dir,
                max_d as int,
                h as int,
                exclude,
                self.bodies@.len() as int,
            ) is None,
            res matches Some((i, t)) ==> self.bodies_best(
                o,
                dir,
                max_d as int,
                h as int,
                exclude,
                self.bodies@.len() as int,
            ) == Some((i as int, t as int)),
            res matches Some((i, t)) ==> {
                &&& 0 <= i < self.bodies@.len()
                &&& self.bodies@[i as int].id != exclude
                &&& sweep_hits(o, dir, max_d as int, inflate(self.bodies@[i as int].rect(), h as int, h as int))
                &&& t == sweep_toi(o, dir, max_d as int, inflate(self.bodies@[i as int].rect(), h as int, h as int))
                &&& 0 <= t <= max_d
                &&& forall|j: int|
                    0 <= j < self.bodies@.len() && (#[trigger] self.bodies@[j]).id != exclude
                        && sweep_hits(o, dir, max_d as int, inflate(self.bodies@[j].rect(), h as int, h as int))
                        ==> sweep_toi(o, dir, max_d as int, inflate(self.bodies@[j].rect(), h as int, h as int)) >= t
            },
    {
        let n = self.bodies.len();
        let mut best: Option<(usize, i64)> = None;
        let mut i: usize = 0;
        while i < n
            invariant
                n == self.bodies@.len(),
                0 <= i <= n,
                self.wf(),
                o.in_range(),
                dir.bounded(DIR_LIMIT as int),
                0 <= max_d <= RANGE_LIMIT,
                0 <= h <= HALF_LIMIT,
                best is None ==> self.bodies_best(o, dir, max_d as int, h as int, exclude, i as int) is None,
                best matches Some((bi, bt)) ==> self.bodies_best(
                    o,
                    dir,
                    max_d as int,
                    h as int,
                    exclude,
                    i as int,
                ) == Some((bi as int, bt as int)),
                best is None ==> forall|j: int|
                    0 <= j < i ==> !((#[trigger] self.bodies@[j]).id != exclude && sweep_hits(
                        o,
                        dir,
                        max_d as int,
                        inflate(self.bodies@[j].rect(), h as int, h as int),
                    )),
                best matches Some((bi, bt)) ==> {
                    &&& 0 <= bi < i
                    &&& self.bodies@[bi as int].id != exclude
                    &&& sweep_hits(o, dir, max_d as int, inflate(self.bodies@[bi as int].rect(), h as int, h as int))
                    &&& bt == sweep_toi(o, dir, max_d as int, inflate(self.bodies@[bi as int].rect(), h as int, h as int))
                    &&& 0 <= bt <= max_d
                    &&& forall|j: int|
                        0 <= j < i && (#[trigger] self.bodies@[j]).id != exclude && sweep_hits(
                            o,
                            dir,
                            max_d as int,
                            inflate(self.bodies@[j].rect(), h as int, h as int),
                        ) ==> sweep_toi(o, dir, max_d as int, inflate(self.bodies@[j].rect(), h as int, h as int)) >= bt
                },
            decreases n - i,
        {
            let b = &self.bodies[i];
            if b.id != exclude {
                let grown = Rect {
                    min: Vec2 { x: b.pos.x - b.half - h, y: b.pos.y - b.half - h },
                    max: Vec2 { x: b.pos.x + b.half + h, y: b.pos.y + b.half + h },
                };
                assert(grown == inflate(self.bodies@[i as int].rect(), h as int, h as int));
                match sweep_rect_exec(o, dir, max_d, &grown) {
                    Some(t) => {
                        match best {
                            Some((_, bt)) => {
                                if t < bt {
                                    best = Some((i, t));
                                }
                            },
                            None => {
                                best = Some((i, t));
                            },
                        }
                    },
                    None => {},
                }
            }
            i += 1;
        }
        best
    }

    /// Short-range ray query for the personal-space model: the distance to
    /// the first static obstacle or body (other than `exclude`) along
    /// `dir`, within `max_d`.
    pub fn cast_ray(&self, o: Vec2, dir: Vec2, max_d: i64, exclude: u64) -> (res: Option<i64>)
        requires
            self.wf(),
            o.in_range(),
            dir.bounded(DIR_LIMIT as int),
            0 <= max_d <= RANGE_LIMIT,
        ensures
            res is None ==> self.ray_best(o, dir, max_d as int, exclude) is None,
            res matches Some(t) ==> self.ray_best(o, dir, max_d as int, exclude) == Some(
                t as int,
            ),
            res is Some <==> self.ray_hit_exists(o, dir, max_d as int, exclude),
            res matches Some(t) ==> {
                &&& 0 <= t <= max_d
                &&& (forall|j: int|
                    0 <= j < self.statics@.len() && sweep_hits(o, dir, max_d as int, #[trigger] self.statics@[j])
                        ==> sweep_toi(o, dir, max_d as int, self.statics@[j]) >= t)
                &&& (forall|j: int|
                    0 <= j < self.bodies@.len() && (#[trigger] self.bodies@[j]).id != exclude
                        && sweep_hits(o, dir, max_d as int, self.bodies@[j].rect())
                        ==> sweep_toi(o, dir, max_d as int, self.bodies@[j].rect()) >= t)
            },
    {
        let mut best: Option<i64> = None;
        let n = self.statics.len();
        let mut i: usize = 0;
        while i < n
            invariant
                n == self.statics@.len(),
                0 <= i <= n,
                self.wf(),
                o.in_range(),
                dir.bounded(DIR_LIMIT as int),
                0 <= max_d <= RANGE_LIMIT,
                best is None ==> self.statics_best(o, dir, max_d as int, i as int) is None,
                best matches Some(bt) ==> self.statics_best(o, dir, max_d as int, i as int)
                    == Some(bt as int),
                best is None ==> forall|j: int|
                    0 <= j < i ==> !sweep_hits(o, dir, max_d as int, #[trigger] self.statics@[j]),
                best matches Some(bt) ==> {
                    &&& 0 <= bt <= max_d
                    &&& exists|j: int|
                        0 <= j < i && sweep_hits(o, dir, max_d as int, #[trigger] self.statics@[j])
                    &&& forall|j: int|
                        0 <= j < i && sweep_hits(o, dir, max_d as int, #[trigger] self.statics@[j])
                            ==> sweep_toi(o, dir, max_d as int, self.statics@[j]) >= bt
                },
            decreases n - i,
        {
            match sweep_rect_exec(o, dir, max_d, &self.statics[i]) {
                Some(t) => {
                    match best {
                        Some(bt) => {
                            if t < bt {
                                best = Some(t);
                            }
                        },
                        None => {
                            best = Some(t);
                        },
                    }
                },
                None => {},
            }
            i += 1;
        }
        let m = self.bodies.len();
        let mut k: usize = 0;
        while k < m
            invariant
                m == self.bodies@.len(),
                0 <= k <= m,
                self.wf(),
                o.in_range(),
                dir.bounded(DIR_LIMIT as int),
                0 <= max_d <= RANGE_LIMIT,
                best is None ==> self.ray_best_upto(o, dir, max_d as int, exclude, k as int)
                    is None,
                best matches Some(bt) ==> self.ray_best_upto(
                    o,
                    dir,
                    max_d as int,
                    exclude,
                    k as int,
                ) == Some(bt as int),
                best is None ==> forall|j: int|
                    0 <= j < self.statics@.len() ==> !sweep_hits(
                        o,
                        dir,
                        max_d as int,
                        #[trigger] self.statics@[j],
                    ),
                best is None ==> forall|j: int|
                    0 <= j < k ==> !((#[trigger] self.bodies@[j]).id != exclude && sweep_hits(
                        o,
                        dir,
                        max_d as int,
                        self.bodies@[j].rect(),
                    )),
                best matches Some(bt) ==> {
                    &&& 0 <= bt <= max_d
                    &&& self.ray_hit_exists(o, dir, max_d as int, exclude)
                    &&& forall|j: int|
                        0 <= j < self.statics@.len() && sweep_hits(o, dir, max_d as int, #[trigger] self.statics@[j])
                            ==> sweep_toi(o, dir, max_d as int, self.statics@[j]) >= bt
                    &&& forall|j: int|
                        0 <= j < k && (#[trigger] self.bodies@[j]).id != exclude && sweep_hits(
                            o,
                            dir,
                            max_d as int,
                            self.bodies@[j].rect(),
                        ) ==> sweep_toi(o, dir, max_d as int, self.bodies@[j].rect()) >= bt
                },
            decreases m - k,
        {
            let b = &self.bodies[k];
            if b.id != exclude {
                let br = Rect {
                    min: Vec2 { x: b.pos.x - b.half, y: b.pos.y - b.half },
                    max: Vec2 { x: b.pos.x + b.half, y: b.pos.y + b.half },
                };
                assert(br == self.bodies@[k as int].rect());
                match sweep_rect_exec(o, dir, max_d, &br) {
                    Some(t) => {
                        match best {
                            Some(bt) => {
                                if t < bt {
                                    best = Some(t);
                                }
                            },
                            None => {
                                best = Some(t);
                            },
                        }
                    },
                    None => {},
                }
            }
            k += 1;
        }
        best
    }
}

} // verus!
