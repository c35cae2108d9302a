//! Fixed-point planar geometry: vectors, axis-aligned rectangles, and the
//! overlap and visibility tests the navigation core is built on.
//!
//! Coordinates are `i64` values where 1000 ticks are one world unit (one
//! grid cell).  All geometry is kept within `COORD_LIMIT` of the origin so
//! that squared distances and projections fit comfortably in `i64`/`i128`.

use vstd::prelude::*;

verus! {

/// One world unit (one grid cell) in fixed-point ticks.
pub const SCALE: i64 = 1000;

/// Every coordinate handled by the core stays within this bound.
pub const COORD_LIMIT: i64 = 1_000_000_000;

/// A planar vector (or point) in fixed-point ticks.
#[derive(Clone, Copy, PartialEq, Eq, Structural, Debug)]
pub struct Vec2 {
    pub x: i64,
    pub y: i64,
}

impl Vec2 {
    /// Both coordinates within `m` of the origin.
    pub open spec fn bounded(self, m: int) -> bool {
        -m <= self.x <= m && -m <= self.y <= m
    }

    /// True when both coordinates are within `COORD_LIMIT`.
    pub open spec fn in_range(self) -> bool {
        self.bounded(COORD_LIMIT as int)
    }

    pub fn new(x: i64, y: i64) -> (r: Vec2)
        ensures
            r == (Vec2 { x, y }),
    {
        Vec2 { x, y }
    }
}

/// Squared distance between two points, as a mathematical integer.
pub open spec fn dist_sq(a: Vec2, b: Vec2) -> int {
    (a.x - b.x) * (a.x - b.x) + (a.y - b.y) * (a.y - b.y)
}

/// `|a * b| <= ma * mb` whenever `|a| <= ma` and `|b| <= mb`.
pub proof fn lemma_abs_mul_le(a: int, b: int, ma: int, mb: int)
    requires
        -ma <= a <= ma,
        -mb <= b <= mb,
        0 <= ma,
        0 <= mb,
    ensures
        -(ma * mb) <= a * b <= ma * mb,
{
    assert(-(ma * mb) <= a * b <= ma * mb) by (nonlinear_arith)
        requires
            -ma <= a <= ma,
            -mb <= b <= mb,
            0 <= ma,
            0 <= mb,
    ;
}

/// Product of two `i64` values, widened so it cannot overflow.
pub fn wide_mul(a: i64, b: i64) -> (r: i128)
    ensures
        r == a as int * b as int,
{
    proof {
        lemma_abs_mul_le(a as int, b as int, i64::MAX as int + 1, i64::MAX as int + 1);
    }
    (a as i128) * (b as i128)
}

/// Squared distance, computed in execution code.
pub fn dist_sq_exec(a: Vec2, b: Vec2) -> (r: i64)
    requires
        a.in_range(),
        b.in_range(),
    ensures
        r == dist_sq(a, b),
        0 <= r <= 8_000_000_000_000_000_000,
{
    let dx: i64 = a.x - b.x;
    let dy: i64 = a.y - b.y;
    proof {
        lemma_abs_mul_le(dx as int, dx as int, 2 * COORD_LIMIT as int, 2 * COORD_LIMIT as int);
        lemma_abs_mul_le(dy as int, dy as int, 2 * COORD_LIMIT as int, 2 * COORD_LIMIT as int);
        assert(dx as int * dx as int >= 0) by (nonlinear_arith);
        assert(dy as int * dy as int >= 0) by (nonlinear_arith);
    }
    dx * dx + dy * dy
}

/// Componentwise difference `a - b`.
pub open spec fn sub_spec(a: Vec2, b: Vec2) -> Vec2 {
    Vec2 { x: (a.x - b.x) as i64, y: (a.y - b.y) as i64 }
}

/// Executable componentwise difference.
pub fn sub_exec(a: Vec2, b: Vec2) -> (r: Vec2)
    requires
        a.in_range(),
        b.in_range(),
    ensures
        r == sub_spec(a, b),
        r.bounded(2 * COORD_LIMIT as int),
{
    Vec2 { x: a.x - b.x, y: a.y - b.y }
}

/// One axis-aligned unit grid step: exactly one coordinate changes, by
/// exactly one world unit.
pub open spec fn unit_step(a: Vec2, b: Vec2) -> bool {
    ||| (b.x - a.x == SCALE || a.x - b.x == SCALE) && a.y == b.y
    ||| (b.y - a.y == SCALE || a.y - b.y == SCALE) && a.x == b.x
}

/// An axis-aligned rectangle given by its two extreme corners.
#[derive(Clone, Copy, PartialEq, Eq, Structural, Debug)]
pub struct Rect {
    pub min: Vec2,
    pub max: Vec2,
}

impl Rect {
    /// Corners ordered and within range.
    pub open spec fn wf(self) -> bool {
        &&& self.min.x <= self.max.x
        &&& self.min.y <= self.max.y
        &&& self.min.in_range()
        &&& self.max.in_range()
    }

    pub fn new(min: Vec2, max: Vec2) -> (r: Rect)
        ensures
            r == (Rect { min, max }),
    {
        Rect { min, max }
    }
}

/// The axis-aligned box of half-extents `(hx, hy)` centred on `c`.
pub open spec fn rect_at(c: Vec2, hx: int, hy: int) -> Rect {
    Rect {
        min: Vec2 { x: (c.x - hx) as i64, y: (c.y - hy) as i64 },
        max: Vec2 { x: (c.x + hx) as i64, y: (c.y + hy) as i64 },
    }
}

/// `r` grown by `(hx, hy)` on every side.
pub open spec fn inflate(r: Rect, hx: int, hy: int) -> Rect {
    Rect {
        min: Vec2 { x: (r.min.x - hx) as i64, y: (r.min.y - hy) as i64 },
        max: Vec2 { x: (r.max.x + hx) as i64, y: (r.max.y + hy) as i64 },
    }
}

/// Two rectangles overlap with positive area (touching edges do not count).
pub open spec fn rects_overlap(a: Rect, b: Rect) -> bool {
    &&& a.min.x < b.max.x
    &&& b.min.x < a.max.x
    &&& a.min.y < b.max.y
    &&& b.min.y < a.max.y
}

/// Executable strict-overlap test.
pub fn rects_overlap_exec(a: &Rect, b: &Rect) -> (r: bool)
    ensures
        r == rects_overlap(*a, *b),
{
    a.min.x < b.max.x && b.min.x < a.max.x && a.min.y < b.max.y && b.min.y < a.max.y
}

/// The segment from `a` to `b` meets the interior of `r`.
///
/// Separating-axis test for a segment against an axis-aligned box, with
/// strict comparisons throughout: the candidate axes are the two
/// coordinate axes and the segment's normal, and the segment misses the
/// box exactly when some axis separates them.  Grazing along an edge or
/// through a corner does not count as a hit.
pub open spec fn seg_hits_rect(a: Vec2, b: Vec2, r: Rect) -> bool {
    let dx = b.x - a.x;
    let dy = b.y - a.y;
    let s = dx * a.y - dy * a.x;
    let p1 = dx * r.min.y - dy * r.min.x;
    let p2 = dx * r.max.y - dy * r.min.x;
    let p3 = dx * r.min.y - dy * r.max.x;
    let p4 = dx * r.max.y - dy * r.max.x;
    &&& vstd::math::max(a.x as int, b.x as int) > r.min.x
    &&& vstd::math::min(a.x as int, b.x as int) < r.max.x
    &&& vstd::math::max(a.y as int, b.y as int) > r.min.y
    &&& vstd::math::min(a.y as int, b.y as int) < r.max.y
    &&& ((dx == 0 && dy == 0) || ((p1 < s || p2 < s || p3 < s || p4 < s) && (p1 > s || p2 > s
        || p3 > s || p4 > s)))
}

/// Executable segment-versus-rectangle test; projections are taken in
/// `i128` so they cannot overflow.
pub fn seg_hits_rect_exec(a: Vec2, b: Vec2, r: &Rect) -> (hit: bool)
    requires
        a.bounded(2 * COORD_LIMIT as int),
        b.bounded(2 * COORD_LIMIT as int),
        r.min.bounded(2 * COORD_LIMIT as int),
        r.max.bounded(2 * COORD_LIMIT as int),
    ensures
        hit == seg_hits_rect(a, b, *r),
{
    let dx: i64 = b.x - a.x;
    let dy: i64 = b.y - a.y;
    let maxx: i64 = if a.x > b.x { a.x } else { b.x };
    let minx: i64 = if a.x < b.x { a.x } else { b.x };
    let maxy: i64 = if a.y > b.y { a.y } else { b.y };
    let miny: i64 = if a.y < b.y { a.y } else { b.y };
    if !(maxx > r.min.x && minx < r.max.x && maxy > r.min.y && miny < r.max.y) {
        return false;
    }
    if dx == 0 && dy == 0 {
        return true;
    }
    proof {
        lemma_abs_mul_le(dy as int, a.x as int, 4_000_000_000, 2_000_000_000);
        lemma_abs_mul_le(dx as int, a.y as int, 4_000_000_000, 2_000_000_000);
        lemma_abs_mul_le(dy as int, r.min.x as int, 4_000_000_000, 2_000_000_000);
        lemma_abs_mul_le(dx as int, r.min.y as int, 4_000_000_000, 2_000_000_000);
        lemma_abs_mul_le(dy as int, r.max.x as int, 4_000_000_000, 2_000_000_000);
        lemma_abs_mul_le(dx as int, r.max.y as int, 4_000_000_000, 2_000_000_000);
        assert(4_000_000_000int * 2_000_000_000int == 8_000_000_000_000_000_000int);
    }
    let s: i128 = wide_mul(dx, a.y) - wide_mul(dy, a.x);
    let p1: i128 = wide_mul(dx, r.min.y) - wide_mul(dy, r.min.x);
    let p2: i128 = wide_mul(dx, r.max.y) - wide_mul(dy, r.min.x);
    let p3: i128 = wide_mul(dx, r.min.y) - wide_mul(dy, r.max.x);
    let p4: i128 = wide_mul(dx, r.max.y) - wide_mul(dy, r.max.x);
    (p1 < s || p2 < s || p3 < s || p4 < s) && (p1 > s || p2 > s || p3 > s || p4 > s)
}

/// Entry time of a moving coordinate into the slab `[lo, hi]`, as the
/// numerator of a rational number of ticks of travel over `slab_den(d)`.
///
/// The coordinate starts at `o` and advances by `d / SCALE` per tick of
/// travel.  A coordinate that does not move is encoded as "entered before
/// the start" when it already lies strictly inside the slab, and as
/// "enters after `max_d`" when it does not, so that the same four
/// comparisons decide every case of the sweep.
pub open spec fn slab_enter_num(o: int, d: int, lo: int, hi: int, max_d: int) -> int {
    if d > 0 {
        (lo - o) * SCALE
    } else if d < 0 {
        (o - hi) * SCALE
    } else if lo < o && o < hi {
        -1
    } else {
        max_d + 1
    }
}

/// Exit time of a moving coordinate out of the slab `[lo, hi]`; see
/// `slab_enter_num`.
pub open spec fn slab_exit_num(o: int, d: int, lo: int, hi: int, max_d: int) -> int {
    if d > 0 {
        (hi - o) * SCALE
    } else if d < 0 {
        (o - lo) * SCALE
    } else if lo < o && o < hi {
        max_d + 1
    } else {
        -1
    }
}

/// Positive denominator shared by `slab_enter_num` and `slab_exit_num`.
pub open spec fn slab_den(d: int) -> int {
    if d > 0 {
        d
    } else if d < 0 {
        -d
    } else {
        1
    }
}

/// A square of half-extent 0 swept from `o` along `dir / SCALE` per tick
/// of travel, for at most `max_d` ticks of travel, meets the interior of
/// `r`.  To sweep a larger footprint, inflate `r` first.
pub open spec fn sweep_hits(o: Vec2, dir: Vec2, max_d: int, r: Rect) -> bool {
    let exn = slab_enter_num(o.x as int, dir.x as int, r.min.x as int, r.max.x as int, max_d);
    let xxn = slab_exit_num(o.x as int, dir.x as int, r.min.x as int, r.max.x as int, max_d);
    let eyn = slab_enter_num(o.y as int, dir.y as int, r.min.y as int, r.max.y as int, max_d);
    let xyn = slab_exit_num(o.y as int, dir.y as int, r.min.y as int, r.max.y as int, max_d);
    let dx = slab_den(dir.x as int);
    let dy = slab_den(dir.y as int);
    &&& exn < xxn
    &&& eyn < xyn
    &&& exn * dy < xyn * dx
    &&& eyn * dx < xxn * dy
    &&& exn < max_d * dx
    &&& eyn < max_d * dy
    &&& xxn > 0
    &&& xyn > 0
}

/// Distance travelled (in ticks of travel, rounded down, clamped to zero)
/// before a sweep that satisfies `sweep_hits` first meets `r`.
pub open spec fn sweep_toi(o: Vec2, dir: Vec2, max_d: int, r: Rect) -> int {
    let exn = slab_enter_num(o.x as int, dir.x as int, r.min.x as int, r.max.x as int, max_d);
    let eyn = slab_enter_num(o.y as int, dir.y as int, r.min.y as int, r.max.y as int, max_d);
    let dx = slab_den(dir.x as int);
    let dy = slab_den(dir.y as int);
    if exn * dy >= eyn * dx {
        if exn <= 0 {
            0
        } else {
            exn / dx
        }
    } else {
        if eyn <= 0 {
            0
        } else {
            eyn / dy
        }
    }
}

/// Executable sweep query: `Some(t)` when the sweep meets `r`, with `t`
/// the clamped entry distance; `None` otherwise.
pub fn sweep_rect_exec(o: Vec2, dir: Vec2, max_d: i64, r: &Rect) -> (res: Option<i64>)
    requires
        o.in_range(),
        dir.bounded(10_000),
        0 <= max_d <= 100_000,
        r.min.bounded(2 * COORD_LIMIT as int),
        r.max.bounded(2 * COORD_LIMIT as int),
    ensures
        res is Some <==> sweep_hits(o, dir, max_d as int, *r),
        res is Some ==> res->0 == sweep_toi(o, dir, max_d as int, *r) && 0 <= res->0 <= max_d,
{
    let exn: i64 = slab_enter_exec(o.x, dir.x, r.min.x, r.max.x, max_d);
    let xxn: i64 = slab_exit_exec(o.x, dir.x, r.min.x, r.max.x, max_d);
    let eyn: i64 = slab_enter_exec(o.y, dir.y, r.min.y, r.max.y, max_d);
    let xyn: i64 = slab_exit_exec(o.y, dir.y, r.min.y, r.max.y, max_d);
    let dx: i64 = if dir.x > 0 {
        dir.x
    } else if dir.x < 0 {
        -dir.x
    } else {
        1
    };
    let dy: i64 = if dir.y > 0 {
        dir.y
    } else if dir.y < 0 {
        -dir.y
    } else {
        1
    };
    let hit = exn < xxn && eyn < xyn && wide_mul(exn, dy) < wide_mul(xyn, dx) && wide_mul(
        eyn,
        dx,
    ) < wide_mul(xxn, dy) && (exn as i128) < wide_mul(max_d, dx) && (eyn as i128) < wide_mul(
        max_d,
        dy,
    ) && xxn > 0 && xyn > 0;
    if !hit {
        return None;
    }
    let t: i64 = if wide_mul(exn, dy) >= wide_mul(eyn, dx) {
        if exn <= 0 {
            0
        } else {
            exn / dx
        }
    } else {
        if eyn <= 0 {
            0
        } else {
            eyn / dy
        }
    };
    proof {
        lemma_toi_range(o, dir, max_d as int, *r);
    }
    Some(t)
}

/// Entry numerator, executable; mirrors `slab_enter_num`.
fn slab_enter_exec(o: i64, d: i64, lo: i64, hi: i64, max_d: i64) -> (r: i64)
    requires
        -COORD_LIMIT <= o <= COORD_LIMIT,
        -10_000 <= d <= 10_000,
        -2 * COORD_LIMIT <= lo <= 2 * COORD_LIMIT,
        -2 * COORD_LIMIT <= hi <= 2 * COORD_LIMIT,
        0 <= max_d <= 100_000,
    ensures
        r == slab_enter_num(o as int, d as int, lo as int, hi as int, max_d as int),
{
    if d > 0 {
        (lo - o) * SCALE
    } else if d < 0 {
        (o - hi) * SCALE
    } else if lo < o && o < hi {
        -1
    } else {
        max_d + 1
    }
}

/// Exit numerator, executable; mirrors `slab_exit_num`.
fn slab_exit_exec(o: i64, d: i64, lo: i64, hi: i64, max_d: i64) -> (r: i64)
    requires
        -COORD_LIMIT <= o <= COORD_LIMIT,
        -10_000 <= d <= 10_000,
        -2 * COORD_LIMIT <= lo <= 2 * COORD_LIMIT,
        -2 * COORD_LIMIT <= hi <= 2 * COORD_LIMIT,
        0 <= max_d <= 100_000,
    ensures
        r == slab_exit_num(o as int, d as int, lo as int, hi as int, max_d as int),
{
    if d > 0 {
        (hi - o) * SCALE
    } else if d < 0 {
        (o - lo) * SCALE
    } else if lo < o && o < hi {
        max_d + 1
    } else {
        -1
    }
}

/// Truncating division (rounding toward zero), as executable `/` does on
/// signed integers; `b` must be positive.
pub open spec fn tdiv(a: int, b: int) -> int {
    if a >= 0 {
        a / b
    } else {
        -((-a) / b)
    }
}

/// Executable truncating division, proved equal to `tdiv`.
pub fn tdiv64(a: i64, b: i64) -> (r: i64)
    requires
        b > 0,
        a > i64::MIN,
    ensures
        r == tdiv(a as int, b as int),
{
    if a >= 0 {
        a / b
    } else {
        -((-a) / b)
    }
}

/// Integer square root, defined by recursion; negative inputs map to 0.
pub open spec fn isqrt_spec(n: int) -> int
    decreases n,
{
    if n <= 0 {
        0
    } else {
        let r = isqrt_spec(n - 1);
        if (r + 1) * (r + 1) <= n {
            r + 1
        } else {
            r
        }
    }
}

/// `isqrt_spec(n)` is the floor of the square root of `n`.
pub proof fn lemma_isqrt_bounds(n: int)
    requires
        n >= 0,
    ensures
        0 <= isqrt_spec(n),
        isqrt_spec(n) * isqrt_spec(n) <= n,
        n < (isqrt_spec(n) + 1) * (isqrt_spec(n) + 1),
    decreases n,
{
    if n == 0 {
    } else {
        lemma_isqrt_bounds(n - 1);
        let r = isqrt_spec(n - 1);
        if (r + 1) * (r + 1) <= n {
            assert(isqrt_spec(n) == r + 1);
            assert(n == (r + 1) * (r + 1));
            assert((r + 1) * (r + 1) < (r + 1 + 1) * (r + 1 + 1)) by (nonlinear_arith)
                requires
                    r >= 0,
            ;
        } else {
            assert(isqrt_spec(n) == r);
        }
    }
}

/// The floor square root is unique: any `r` with `r^2 <= n < (r+1)^2` is
/// `isqrt_spec(n)`.
pub proof fn lemma_isqrt_unique(n: int, r: int)
    requires
        0 <= r,
        r * r <= n,
        n < (r + 1) * (r + 1),
    ensures
        r == isqrt_spec(n),
{
    let s = isqrt_spec(n);
    lemma_isqrt_bounds(n);
    if r < s {
        assert((r + 1) * (r + 1) <= s * s) by (nonlinear_arith)
            requires
                r + 1 <= s,
                r >= 0,
        ;
    }
    if s < r {
        assert((s + 1) * (s + 1) <= r * r) by (nonlinear_arith)
            requires
                s + 1 <= r,
                s >= 0,
        ;
    }
}

/// Executable integer square root by binary search.
pub fn isqrt64(n: u64) -> (r: u64)
    ensures
        r as int == isqrt_spec(n as int),
        r * r <= n,
        r <= 4_294_967_295,
{
    let mut lo: u64 = 0;
    let mut hi: u64 = 4_294_967_295;
    proof {
        assert((4_294_967_295int + 1) * (4_294_967_295int + 1) > u64::MAX as int)
            by (nonlinear_arith);
    }
    while lo < hi
        invariant
            lo <= hi,
            hi <= 4_294_967_295,
            lo as int * lo as int <= n as int,
            (n as int) < (hi as int + 1) * (hi as int + 1),
        decreases hi - lo,
    {
        let mid: u64 = lo + (hi - lo + 1) / 2;
        proof {
            lemma_abs_mul_le(mid as int, mid as int, 4_294_967_296, 4_294_967_296);
            assert(4_294_967_296int * 4_294_967_296int <= u128::MAX as int)
                by (nonlinear_arith);
            assert(mid as int * mid as int >= 0) by (nonlinear_arith);
        }
        if (mid as u128) * (mid as u128) <= n as u128 {
            lo = mid;
        } else {
            hi = mid - 1;
        }
    }
    proof {
        lemma_isqrt_unique(n as int, lo as int);
    }
    lo
}

/// The normalized form of `v`, at fixed-point unit length `SCALE`; the
/// zero vector normalizes to itself.
pub open spec fn norm_spec(v: Vec2) -> Vec2 {
    let l = isqrt_spec(v.x * v.x + v.y * v.y);
    if l == 0 {
        Vec2 { x: 0, y: 0 }
    } else {
        Vec2 { x: tdiv(v.x * SCALE, l) as i64, y: tdiv(v.y * SCALE, l) as i64 }
    }
}

/// Any value whose square is at most `n` is bounded by the square root.
proof fn lemma_abs_le_isqrt(a: int, n: int)
    requires
        0 <= n,
        a * a <= n,
    ensures
        -isqrt_spec(n) <= a <= isqrt_spec(n),
{
    lemma_isqrt_bounds(n);
    let s = isqrt_spec(n);
    if a > s {
        assert(false) by (nonlinear_arith)
            requires
                a >= s + 1,
                s >= 0,
                a * a <= n,
                n < (s + 1) * (s + 1),
        ;
    }
    if a < -s {
        assert(false) by (nonlinear_arith)
            requires
                -a >= s + 1,
                s >= 0,
                a * a <= n,
                n < (s + 1) * (s + 1),
        ;
    }
}

/// Normalize a vector to fixed-point unit length; `normalize_or_zero`
/// semantics: the zero vector stays zero.
pub fn normalize(v: Vec2) -> (r: Vec2)
    requires
        v.bounded(2_000_000_000),
    ensures
        r == norm_spec(v),
        r.bounded(SCALE as int),
{
    let xx: i64 = {
        proof {
            lemma_abs_mul_le(v.x as int, v.x as int, 2_000_000_000, 2_000_000_000);
            assert(v.x as int * v.x as int >= 0) by (nonlinear_arith);
            lemma_abs_mul_le(v.y as int, v.y as int, 2_000_000_000, 2_000_000_000);
            assert(v.y as int * v.y as int >= 0) by (nonlinear_arith);
        }
        v.x * v.x
    };
    let yy: i64 = v.y * v.y;
    let l: u64 = isqrt64((xx + yy) as u64);
    if l == 0 {
        proof {
            lemma_isqrt_bounds(v.x * v.x + v.y * v.y);
        }
        Vec2 { x: 0, y: 0 }
    } else {
        proof {
            assert(((xx + yy) as u64) as int == xx + yy);
            lemma_abs_le_isqrt(v.x as int, (xx + yy) as int);
            lemma_abs_le_isqrt(v.y as int, (xx + yy) as int);
            lemma_div_unit_bound(v.x as int, l as int);
            lemma_div_unit_bound(v.y as int, l as int);
            lemma_abs_mul_le(v.x as int, SCALE as int, 2_000_000_000, 1000);
            lemma_abs_mul_le(v.y as int, SCALE as int, 2_000_000_000, 1000);
        }
        let nx = tdiv64(v.x * SCALE, l as i64);
        let ny = tdiv64(v.y * SCALE, l as i64);
        Vec2 { x: nx, y: ny }
    }
}

/// Dividing `a * SCALE` by any `l >= |a|` keeps the result within `SCALE`.
proof fn lemma_div_unit_bound(a: int, l: int)
    requires
        l > 0,
        -l <= a <= l,
    ensures
        -SCALE <= tdiv(a * SCALE, l) <= SCALE,
{
    if a >= 0 {
        assert(a * SCALE <= l * SCALE) by (nonlinear_arith)
            requires
                0 <= a <= l,
        ;
        assert(0 <= (a * SCALE) / l <= SCALE) by (nonlinear_arith)
            requires
                l > 0,
                0 <= a * SCALE <= l * SCALE,
        ;
    } else {
        assert((-a) * SCALE <= l * SCALE) by (nonlinear_arith)
            requires
                0 <= -a <= l,
        ;
        assert(0 <= ((-a) * SCALE) / l <= SCALE) by (nonlinear_arith)
            requires
                l > 0,
                0 <= (-a) * SCALE <= l * SCALE,
        ;
        assert(-(a * SCALE) == (-a) * SCALE) by (nonlinear_arith);
    }
}

/// The clamped entry distance of a hitting sweep lies in `[0, max_d]`.
pub proof fn lemma_toi_range(o: Vec2, dir: Vec2, max_d: int, r: Rect)
    requires
        sweep_hits(o, dir, max_d, r),
        0 <= max_d,
    ensures
        0 <= sweep_toi(o, dir, max_d, r) <= max_d,
{
    let exn = slab_enter_num(o.x as int, dir.x as int, r.min.x as int, r.max.x as int, max_d);
    let eyn = slab_enter_num(o.y as int, dir.y as int, r.min.y as int, r.max.y as int, max_d);
    let dx = slab_den(dir.x as int);
    let dy = slab_den(dir.y as int);
    assert(dx > 0 && dy > 0);
    if exn * dy >= eyn * dx {
        if exn > 0 {
            assert(exn < max_d * dx);
            assert(0 <= exn / dx && exn / dx <= max_d) by (nonlinear_arith)
                requires
                    0 < exn,
                    exn < max_d * dx,
                    dx > 0,
                    max_d >= 0,
            ;
        }
    } else {
        if eyn > 0 {
            assert(eyn < max_d * dy);
            assert(0 <= eyn / dy && eyn / dy <= max_d) by (nonlinear_arith)
                requires
                    0 < eyn,
                    eyn < max_d * dy,
                    dy > 0,
                    max_d >= 0,
            ;
        }
    }
}

} // verus!
