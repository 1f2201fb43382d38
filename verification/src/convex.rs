//! Convex silhouette extraction from a sprite's alpha mask.
//!
//! `calculate_convex` scans a rectangular sub-image for its first opaque
//! pixel, then walks the rectangle's own boundary clockwise, casting a
//! rasterized line from every boundary point toward the current hull
//! vertex and taking the first opaque pixel on that line as the next
//! silhouette candidate. Candidates collinear with the running edge are
//! merged, so exactly the convex corners survive.
//!
//! The whole algorithm is mirrored by specification functions over an
//! abstract boolean mask (`Seq<Seq<bool>>`, row-major, `true` = opaque),
//! and the executable code is proved to compute exactly that model.

use vstd::prelude::*;

use crate::pixels::PixelBuffer;
use crate::util::{IPoint, Point, UPoint, iabs};

verus! {

/// Largest sub-image edge the extractor accepts, in pixels. Keeps every
/// intermediate product of the line rasterizer comfortably inside `i32`.
pub const PIXEL_LIMIT: i32 = 4096;

/// The sign of a mathematical integer.
pub open spec fn sgn(a: int) -> int {
    if a > 0 {
        1
    } else if a < 0 {
        -1
    } else {
        0
    }
}

/// The view of a pixel-space point as a pair of mathematical integers.
pub open spec fn pview(p: IPoint) -> (int, int) {
    (p.a as int, p.b as int)
}

/// Whether the mask is opaque at column `x` of row `y`.
pub open spec fn opq(mask: Seq<Seq<bool>>, x: int, y: int) -> bool {
    mask[y][x]
}

// ---------------------------------------------------------------------------
// Collinearity
// ---------------------------------------------------------------------------

/// Three points lie on one vertical, horizontal, or exactly diagonal line,
/// with `b` between `a` and `c` in direction.
pub open spec fn on_line(a: (int, int), b: (int, int), c: (int, int)) -> bool {
    if a.0 == b.0 {
        b.0 == c.0
    } else if a.1 == b.1 {
        b.1 == c.1
    } else {
        let abx = b.0 - a.0;
        let aby = b.1 - a.1;
        let bcx = c.0 - b.0;
        let bcy = c.1 - b.1;
        &&& iabs(abx) == iabs(aby)
        &&& iabs(bcx) == iabs(bcy)
        &&& sgn(abx) == sgn(bcx)
        &&& sgn(aby) == sgn(bcy)
    }
}

/// The sign of an `i32`.
fn sgn_i32(a: i32) -> (r: i32)
    ensures
        r as int == sgn(a as int),
{
    if a > 0 {
        1
    } else if a < 0 {
        -1
    } else {
        0
    }
}

/// The absolute value of a bounded `i32`.
fn abs_i32(a: i32) -> (r: i32)
    requires
        a != i32::MIN,
    ensures
        r as int == iabs(a as int),
{
    if a < 0 {
        -a
    } else {
        a
    }
}

/// Whether three pixel points are collinear in the merged-edge sense:
/// on one vertical or horizontal line, or on one exact diagonal walked in
/// a consistent direction.
pub fn is_points_on_line(a: IPoint, b: IPoint, c: IPoint) -> (r: bool)
    requires
        -PIXEL_LIMIT <= a.spec_x() <= PIXEL_LIMIT,
        -PIXEL_LIMIT <= a.spec_y() <= PIXEL_LIMIT,
        -PIXEL_LIMIT <= b.spec_x() <= PIXEL_LIMIT,
        -PIXEL_LIMIT <= b.spec_y() <= PIXEL_LIMIT,
        -PIXEL_LIMIT <= c.spec_x() <= PIXEL_LIMIT,
        -PIXEL_LIMIT <= c.spec_y() <= PIXEL_LIMIT,
    ensures
        r == on_line(pview(a), pview(b), pview(c)),
{
    if a.x() == b.x() {
        b.x() == c.x()
    } else if a.y() == b.y() {
        b.y() == c.y()
    } else {
        let ab = b.sub(a);
        let bc = c.sub(b);
        abs_i32(ab.x()) == abs_i32(ab.y()) && abs_i32(bc.x()) == abs_i32(bc.y())
            && sgn_i32(ab.x()) == sgn_i32(bc.x()) && sgn_i32(ab.y()) == sgn_i32(bc.y())
    }
}

// ---------------------------------------------------------------------------
// Boundary walk
// ---------------------------------------------------------------------------

/// One clockwise step along the boundary of the rectangle
/// `[0, mx] x [0, my]`; interior points do not move.
pub open spec fn bstep(mx: int, my: int, p: (int, int)) -> (int, int) {
    let x = p.0;
    let y = p.1;
    let d: (int, int) = if x == 0 && y == 0 {
        (1, 0)
    } else if x == 0 && y == my {
        (0, -1)
    } else if x == mx && y == 0 {
        (0, 1)
    } else if x == mx && y == my {
        (-1, 0)
    } else if x == 0 {
        (0, -1)
    } else if y == 0 {
        (1, 0)
    } else if x == mx {
        (0, 1)
    } else if y == my {
        (-1, 0)
    } else {
        (0, 0)
    };
    (x + d.0, y + d.1)
}

/// `k` boundary steps from `start`.
pub open spec fn bwalk(mx: int, my: int, start: (int, int), k: nat) -> (int, int)
    decreases k,
{
    if k == 0 {
        start
    } else {
        bstep(mx, my, bwalk(mx, my, start, (k - 1) as nat))
    }
}

/// Walks the boundary of a `width` x `height` pixel rectangle clockwise,
/// one pixel per step, starting next to `from_point` and ending when the
/// walk returns to it.
#[derive(Debug)]
pub struct BoundaryIterator {
    from_point: IPoint,
    cur_point: IPoint,
    max_x: i32,
    max_y: i32,
}

impl BoundaryIterator {
    /// Field bounds: both points inside the rectangle, edges at least one
    /// pixel long, sizes within `PIXEL_LIMIT`.
    pub closed spec fn wf(&self) -> bool {
        &&& 1 <= self.max_x < PIXEL_LIMIT
        &&& 1 <= self.max_y < PIXEL_LIMIT
        &&& 0 <= self.from_point.spec_x() <= self.max_x
        &&& 0 <= self.from_point.spec_y() <= self.max_y
        &&& 0 <= self.cur_point.spec_x() <= self.max_x
        &&& 0 <= self.cur_point.spec_y() <= self.max_y
    }

    pub closed spec fn spec_cur(&self) -> (int, int) {
        pview(self.cur_point)
    }

    pub closed spec fn spec_from(&self) -> (int, int) {
        pview(self.from_point)
    }

    pub closed spec fn spec_max_x(&self) -> int {
        self.max_x as int
    }

    pub closed spec fn spec_max_y(&self) -> int {
        self.max_y as int
    }

    pub fn new(width: i32, height: i32, from_point: IPoint) -> (r: BoundaryIterator)
        requires
            2 <= width <= PIXEL_LIMIT,
            2 <= height <= PIXEL_LIMIT,
            0 <= from_point.spec_x() < width,
            0 <= from_point.spec_y() < height,
        ensures
            r.wf(),
            r.spec_from() == pview(from_point),
            r.spec_cur() == pview(from_point),
            r.spec_max_x() == width - 1,
            r.spec_max_y() == height - 1,
    {
        BoundaryIterator {
            from_point,
            cur_point: from_point,
            max_x: width - 1,
            max_y: height - 1,
        }
    }

    /// Takes one boundary step; yields the new point unless the walk is
    /// back at its starting point.
    pub fn next(&mut self) -> (r: Option<IPoint>)
        requires
            old(self).wf(),
        ensures
            final(self).wf(),
            final(self).spec_from() == old(self).spec_from(),
            final(self).spec_max_x() == old(self).spec_max_x(),
            final(self).spec_max_y() == old(self).spec_max_y(),
            final(self).spec_cur() == bstep(
                old(self).spec_max_x(),
                old(self).spec_max_y(),
                old(self).spec_cur(),
            ),
            (match r {
                Option::None => final(self).spec_cur() == old(self).spec_from(),
                Option::Some(p) => pview(p) == final(self).spec_cur()
                    && final(self).spec_cur() != old(self).spec_from(),
            }),
    {
        let x = self.cur_point.x();
        let y = self.cur_point.y();
        let dx: i32;
        let dy: i32;
        if x == 0 && y == 0 {
            dx = 1;
            dy = 0;
        } else if x == 0 && y == self.max_y {
            dx = 0;
            dy = -1;
        } else if x == self.max_x && y == 0 {
            dx = 0;
            dy = 1;
        } else if x == self.max_x && y == self.max_y {
            dx = -1;
            dy = 0;
        } else if x == 0 {
            dx = 0;
            dy = -1;
        } else if y == 0 {
            dx = 1;
            dy = 0;
        } else if x == self.max_x {
            dx = 0;
            dy = 1;
        } else if y == self.max_y {
            dx = -1;
            dy = 0;
        } else {
            dx = 0;
            dy = 0;
        }
        self.cur_point = self.cur_point.add(Point::new(dx, dy));

        if self.cur_point.x() == self.from_point.x() && self.cur_point.y() == self.from_point.y() {
            None
        } else {
            Some(self.cur_point)
        }
    }
}

// ---------------------------------------------------------------------------
// Line rasterization
// ---------------------------------------------------------------------------

/// The displacement from `from` to `to`.
pub open spec fn ldelta(from: (int, int), to: (int, int)) -> (int, int) {
    (to.0 - from.0, to.1 - from.1)
}

/// The length of the longer axis of a displacement.
pub open spec fn lmaxd(d: (int, int)) -> int {
    if iabs(d.0) >= iabs(d.1) {
        iabs(d.0)
    } else {
        iabs(d.1)
    }
}

/// The length of the shorter axis of a displacement.
pub open spec fn lmind(d: (int, int)) -> int {
    if iabs(d.0) >= iabs(d.1) {
        iabs(d.1)
    } else {
        iabs(d.0)
    }
}

/// The unit step along the main (longer) axis of a displacement.
pub open spec fn lmain(d: (int, int)) -> (int, int) {
    if d.0 == 0 && d.1 == 0 {
        (0, 0)
    } else if d.0 == 0 {
        (0, sgn(d.1))
    } else if d.1 == 0 {
        (sgn(d.0), 0)
    } else if iabs(d.0) >= iabs(d.1) {
        (sgn(d.0), 0)
    } else {
        (0, sgn(d.1))
    }
}

/// The unit step along the secondary (shorter) axis of a displacement,
/// zero when the displacement is axis-aligned.
pub open spec fn lsec(d: (int, int)) -> (int, int) {
    if d.0 == 0 || d.1 == 0 {
        (0, 0)
    } else if iabs(d.0) >= iabs(d.1) {
        (0, sgn(d.1))
    } else {
        (sgn(d.0), 0)
    }
}

/// How many secondary steps the rasterizer has interleaved after `n`
/// advances: one more whenever the proportion of steps taken to secondary
/// steps runs ahead of the axis-length proportion.
pub open spec fn lscount(mind: int, maxd: int, n: nat) -> int
    decreases n,
{
    if mind == 0 {
        0
    } else if n == 0 {
        0
    } else {
        let s = lscount(mind, maxd, (n - 1) as nat);
        if ((n + 1) * (mind + 1)) / (s + 1) > maxd + 1 {
            s + 1
        } else {
            s
        }
    }
}

/// For a positive divisor and nonnegative operands, the quotient exceeds
/// `c` exactly when the dividend reaches `b * (c + 1)`.
proof fn lemma_div_gt(a: int, b: int, c: int)
    requires
        a >= 0,
        b > 0,
        c >= 0,
    ensures
        (a / b > c) <==> (a >= b * (c + 1)),
{
    vstd::arithmetic::div_mod::lemma_fundamental_div_mod(a, b);
    vstd::arithmetic::div_mod::lemma_div_pos_is_pos(a, b);
    if a / b > c {
        assert(a == b * (a / b) + a % b);
        assert(b * (a / b) >= b * (c + 1)) by (nonlinear_arith)
            requires
                b > 0,
                a / b >= c + 1,
        ;
    }
    if a >= b * (c + 1) {
        vstd::arithmetic::div_mod::lemma_div_is_ordered(b * (c + 1), a, b);
        vstd::arithmetic::div_mod::lemma_div_by_multiple(c + 1, b);
    }
}

/// The proportion invariant of the secondary-step count: after `n`
/// advances the count `s` satisfies
/// `s * (maxd + 2) <= (n + 1) * (mind + 1) < (s + 1) * (maxd + 2)`,
/// which pins `s` to the rounded proportion and bounds it by `mind`
/// while the walk is still short of the endpoint.
proof fn lemma_lscount(mind: int, maxd: int, n: nat)
    requires
        1 <= mind <= maxd,
    ensures
        lscount(mind, maxd, n) * (maxd + 2) <= (n + 1) * (mind + 1),
        (n + 1) * (mind + 1) < (lscount(mind, maxd, n) + 1) * (maxd + 2),
        0 <= lscount(mind, maxd, n),
        n <= maxd ==> lscount(mind, maxd, n) <= mind,
        n == maxd ==> lscount(mind, maxd, n) == mind,
    decreases n,
{
    let s_n = lscount(mind, maxd, n);
    if n == 0 {
        assert(s_n == 0);
        assert((n + 1) * (mind + 1) == mind + 1) by (nonlinear_arith)
            requires
                n == 0,
        ;
        assert((s_n + 1) * (maxd + 2) == maxd + 2) by (nonlinear_arith)
            requires
                s_n == 0,
        ;
        assert(s_n * (maxd + 2) == 0) by (nonlinear_arith)
            requires
                s_n == 0,
        ;
    } else {
        lemma_lscount(mind, maxd, (n - 1) as nat);
        let s = lscount(mind, maxd, (n - 1) as nat);
        assert((n + 1) * (mind + 1) >= 0) by (nonlinear_arith)
            requires
                n >= 0,
                mind >= 0,
        ;
        lemma_div_gt((n + 1) * (mind + 1), s + 1, maxd + 1);
        if ((n + 1) * (mind + 1)) / (s + 1) > maxd + 1 {
            assert(s_n == s + 1);
            assert((n + 1) * (mind + 1) >= (s + 1) * (maxd + 2));
            assert((n + 1) * (mind + 1) == n * (mind + 1) + (mind + 1)) by (nonlinear_arith);
            assert((s + 2) * (maxd + 2) == (s + 1) * (maxd + 2) + (maxd + 2)) by (nonlinear_arith);
            assert((n + 1) * (mind + 1) < (s_n + 1) * (maxd + 2));
        } else {
            assert(s_n == s);
            assert((n + 1) * (mind + 1) < (s + 1) * (maxd + 2));
            assert((n + 1) * (mind + 1) >= n * (mind + 1)) by (nonlinear_arith)
                requires
                    mind >= 0,
            ;
        }
    }
    // The count stays within the shorter axis until the endpoint, and
    // reaches it exactly there.
    if n <= maxd {
        assert((n + 1) * (mind + 1) <= (maxd + 1) * (mind + 1)) by (nonlinear_arith)
            requires
                n + 1 <= maxd + 1,
                mind >= 0,
        ;
        assert((maxd + 1) * (mind + 1) < (mind + 1) * (maxd + 2)) by (nonlinear_arith)
            requires
                mind >= 0,
                maxd >= 0,
        ;
        assert(s_n * (maxd + 2) < (mind + 1) * (maxd + 2));
        assert(s_n <= mind) by (nonlinear_arith)
            requires
                s_n * (maxd + 2) < (mind + 1) * (maxd + 2),
                maxd + 2 > 0,
        ;
    }
    if n == maxd {
        assert(mind * (maxd + 2) <= (maxd + 1) * (mind + 1)) by (nonlinear_arith)
            requires
                1 <= mind <= maxd,
        ;
        assert(mind * (maxd + 2) < (s_n + 1) * (maxd + 2));
        assert(mind < s_n + 1) by (nonlinear_arith)
            requires
                mind * (maxd + 2) < (s_n + 1) * (maxd + 2),
                maxd + 2 > 0,
        ;
    }
}

/// The pixel the rasterized line from `from` toward `to` visits after `n`
/// advances.
pub open spec fn lpoint(from: (int, int), to: (int, int), n: nat) -> (int, int) {
    let d = ldelta(from, to);
    let m = lmain(d);
    let s = lsec(d);
    let sc = lscount(lmind(d), lmaxd(d), n);
    (from.0 + n * m.0 + sc * s.0, from.1 + n * m.1 + sc * s.1)
}

/// Whether `v` lies between `lo` and `hi` regardless of their order.
pub open spec fn between(lo: int, v: int, hi: int) -> bool {
    if lo <= hi {
        lo <= v <= hi
    } else {
        hi <= v <= lo
    }
}

/// Before `lmaxd` advances the line has not yet arrived at `to`; at
/// exactly `lmaxd` advances it has. Until then every visited pixel stays
/// inside the bounding rectangle of the two endpoints.
proof fn lemma_lpoint_props(from: (int, int), to: (int, int), n: nat)
    requires
        n <= lmaxd(ldelta(from, to)),
    ensures
        (lpoint(from, to, n) == to) <==> (n == lmaxd(ldelta(from, to))),
        between(from.0, lpoint(from, to, n).0, to.0),
        between(from.1, lpoint(from, to, n).1, to.1),
{
    let d = ldelta(from, to);
    let p = lpoint(from, to, n);
    if d.0 == 0 && d.1 == 0 {
        assert(lmaxd(d) == 0);
        assert(n == 0);
        assert(p.0 == from.0 + n * 0 + 0 * 0);
        assert(p == from);
        assert(p == to);
    } else if d.0 == 0 {
        assert(lmind(d) == 0);
        assert(lscount(lmind(d), lmaxd(d), n) == 0);
        assert(p.0 == from.0 + n * 0 + 0 * 0);
        assert(p.1 == from.1 + n * sgn(d.1) + 0 * 0);
        lemma_mul_sgn_line(d.1, n as int);
        assert(p == to <==> p.1 == to.1);
    } else if d.1 == 0 {
        assert(lmind(d) == 0);
        assert(lscount(lmind(d), lmaxd(d), n) == 0);
        assert(p.1 == from.1 + n * 0 + 0 * 0);
        assert(p.0 == from.0 + n * sgn(d.0) + 0 * 0);
        lemma_mul_sgn_line(d.0, n as int);
        assert(p == to <==> p.0 == to.0);
    } else if iabs(d.0) >= iabs(d.1) {
        let sc = lscount(lmind(d), lmaxd(d), n);
        lemma_lscount(lmind(d), lmaxd(d), n);
        assert(p.0 == from.0 + n * sgn(d.0) + sc * 0);
        assert(p.1 == from.1 + n * 0 + sc * sgn(d.1));
        lemma_mul_sgn_line(d.0, n as int);
        lemma_mul_sgn_line(d.1, sc);
        if n == lmaxd(d) {
            assert(sc == lmind(d));
        } else {
            assert(n < iabs(d.0));
            assert(p.0 != to.0);
        }
    } else {
        let sc = lscount(lmind(d), lmaxd(d), n);
        lemma_lscount(lmind(d), lmaxd(d), n);
        assert(p.1 == from.1 + n * sgn(d.1) + sc * 0);
        assert(p.0 == from.0 + n * 0 + sc * sgn(d.0));
        lemma_mul_sgn_line(d.1, n as int);
        lemma_mul_sgn_line(d.0, sc);
        if n == lmaxd(d) {
            assert(sc == lmind(d));
        } else {
            assert(n < iabs(d.1));
            assert(p.1 != to.1);
        }
    }
}

/// Stepping `k` times by the sign of `d`, for `0 <= k <= |d|`, stays
/// between `0` and `d` and arrives at `d` exactly at `k == |d|`.
proof fn lemma_mul_sgn_line(d: int, k: int)
    requires
        0 <= k <= iabs(d),
    ensures
        d == 0 ==> k * sgn(d) == 0,
        d > 0 ==> 0 <= k * sgn(d) <= d,
        d < 0 ==> d <= k * sgn(d) <= 0,
        (k == iabs(d)) ==> k * sgn(d) == d,
        (k < iabs(d)) ==> k * sgn(d) != d,
{
    if d > 0 {
        assert(k * 1 == k) by (nonlinear_arith);
    } else if d < 0 {
        assert(k * -1 == -k) by (nonlinear_arith);
    } else {
        assert(k * 0 == 0) by (nonlinear_arith);
    }
}

/// Rasterizes the straight line from `from` toward `to`: steps one pixel
/// at a time along the longer axis, interleaving steps along the shorter
/// axis in proportion, and yields each visited pixel, `from` first, up to
/// but not including `to`.
#[derive(Debug)]
pub struct LineIterator {
    from: IPoint,
    to: IPoint,
    cur: IPoint,
    main_step: IPoint,
    secondary_step: IPoint,
    max_delta: i32,
    min_delta: i32,
    steps_taken: i32,
    secondary_steps_taken: i32,
}

impl LineIterator {
    pub closed spec fn spec_from(&self) -> (int, int) {
        pview(self.from)
    }

    pub closed spec fn spec_to(&self) -> (int, int) {
        pview(self.to)
    }

    /// How many advances the iterator has performed.
    pub closed spec fn spec_n(&self) -> int {
        self.steps_taken - 1
    }

    /// The cached steps and counters agree with the specification model
    /// of the walk after `spec_n()` advances.
    pub closed spec fn wf(&self) -> bool {
        let f = pview(self.from);
        let t = pview(self.to);
        let d = ldelta(f, t);
        &&& -PIXEL_LIMIT <= self.from.spec_x() <= PIXEL_LIMIT
        &&& -PIXEL_LIMIT <= self.from.spec_y() <= PIXEL_LIMIT
        &&& -PIXEL_LIMIT <= self.to.spec_x() <= PIXEL_LIMIT
        &&& -PIXEL_LIMIT <= self.to.spec_y() <= PIXEL_LIMIT
        &&& pview(self.main_step) == lmain(d)
        &&& pview(self.secondary_step) == lsec(d)
        &&& self.max_delta == lmaxd(d)
        &&& self.min_delta == lmind(d)
        &&& 1 <= self.steps_taken <= self.max_delta + 2
        &&& self.secondary_steps_taken == lscount(lmind(d), lmaxd(d), (self.steps_taken - 1) as nat)
        &&& 0 <= self.secondary_steps_taken <= self.min_delta + 1
        &&& pview(self.cur) == lpoint(f, t, (self.steps_taken - 1) as nat)
        &&& -PIXEL_LIMIT - 2 <= self.cur.spec_x() <= PIXEL_LIMIT + 2
        &&& -PIXEL_LIMIT - 2 <= self.cur.spec_y() <= PIXEL_LIMIT + 2
    }

    pub fn new(from: IPoint, to: IPoint) -> (r: LineIterator)
        requires
            -PIXEL_LIMIT <= from.spec_x() <= PIXEL_LIMIT,
            -PIXEL_LIMIT <= from.spec_y() <= PIXEL_LIMIT,
            -PIXEL_LIMIT <= to.spec_x() <= PIXEL_LIMIT,
            -PIXEL_LIMIT <= to.spec_y() <= PIXEL_LIMIT,
        ensures
            r.wf(),
            r.spec_from() == pview(from),
            r.spec_to() == pview(to),
            r.spec_n() == 0,
    {
        let delta = to.sub(from);
        let dx = delta.x();
        let dy = delta.y();

        let mut main_step: IPoint = Point::new(0, 0);
        let mut secondary_step: IPoint = Point::new(0, 0);

        if dx == 0 && dy == 0 {
            // both steps stay zero
        } else if dx == 0 {
            main_step = Point::new(0, sgn_i32(dy));
        } else if dy == 0 {
            main_step = Point::new(sgn_i32(dx), 0);
        } else {
            if abs_i32(dx) >= abs_i32(dy) {
                main_step = Point::new(sgn_i32(dx), 0);
                secondary_step = Point::new(0, sgn_i32(dy));
            } else {
                main_step = Point::new(0, sgn_i32(dy));
                secondary_step = Point::new(sgn_i32(dx), 0);
            }
        }

        let adx = abs_i32(dx);
        let ady = abs_i32(dy);
        let max_delta: i32 = if adx >= ady {
            adx
        } else {
            ady
        };
        let min_delta: i32 = if adx >= ady {
            ady
        } else {
            adx
        };

        let r = LineIterator {
            from,
            to,
            cur: from,
            main_step,
            secondary_step,
            max_delta,
            min_delta,
            steps_taken: 1,
            secondary_steps_taken: 0,
        };
        proof {
            let f = pview(from);
            let t = pview(to);
            let d = ldelta(f, t);
            assert(lscount(lmind(d), lmaxd(d), 0) == 0);
            assert(lpoint(f, t, 0).0 == f.0 + 0 * lmain(d).0 + 0 * lsec(d).0);
            assert(lpoint(f, t, 0).1 == f.1 + 0 * lmain(d).1 + 0 * lsec(d).1);
            assert(0 * lmain(d).0 == 0 && 0 * lmain(d).1 == 0 && 0 * lsec(d).0 == 0 && 0 * lsec(
                d,
            ).1 == 0) by (nonlinear_arith);
            assert(lpoint(f, t, 0) == f);
        }
        r
    }

    /// Moves one pixel along the main axis, interleaving a secondary-axis
    /// step when the walked proportion calls for one.
    fn advance(&mut self)
        requires
            old(self).wf(),
            old(self).spec_n() <= lmaxd(ldelta(old(self).spec_from(), old(self).spec_to())),
        ensures
            final(self).wf(),
            final(self).spec_from() == old(self).spec_from(),
            final(self).spec_to() == old(self).spec_to(),
            final(self).spec_n() == old(self).spec_n() + 1,
    {
        let ghost f = pview(self.from);
        let ghost t = pview(self.to);
        let ghost d = ldelta(f, t);
        let ghost n = (self.steps_taken - 1) as nat;
        let ghost s = lscount(lmind(d), lmaxd(d), n);

        proof {
            if lmind(d) >= 1 {
                lemma_lscount(lmind(d), lmaxd(d), n);
            }
            lemma_lpoint_props(f, t, n);
        }

        self.cur = self.cur.add(self.main_step);
        self.steps_taken = self.steps_taken + 1;

        if self.secondary_step.x() == 0 && self.secondary_step.y() == 0 {
            proof {
                assert(lsec(d) == (0int, 0int));
                assert(lmind(d) == 0 || (d.0 != 0 && d.1 != 0)) by {
                    if d.0 == 0 || d.1 == 0 {
                        assert(lmind(d) == 0);
                    }
                };
                assert(lscount(lmind(d), lmaxd(d), n + 1) == 0);
                assert(lpoint(f, t, n + 1).0 == f.0 + (n + 1) * lmain(d).0 + 0 * lsec(d).0);
                assert((n + 1) * lmain(d).0 == n * lmain(d).0 + lmain(d).0) by (nonlinear_arith);
                assert((n + 1) * lmain(d).1 == n * lmain(d).1 + lmain(d).1) by (nonlinear_arith);
            }
            return ;
        }

        proof {
            assert(lsec(d) != (0int, 0int));
            assert(lmind(d) >= 1) by {
                if d.0 == 0 || d.1 == 0 {
                    assert(lsec(d) == (0int, 0int));
                }
                assert(d.0 != 0 && d.1 != 0);
            };
        }

        proof {
            assert(self.max_delta <= 2 * PIXEL_LIMIT);
            assert(self.steps_taken * (self.min_delta + 1) <= (2 * PIXEL_LIMIT + 2) * (2
                * PIXEL_LIMIT + 1) && self.steps_taken * (self.min_delta + 1) >= 0)
                by (nonlinear_arith)
                requires
                    1 <= self.steps_taken <= 2 * PIXEL_LIMIT + 2,
                    0 <= self.min_delta <= 2 * PIXEL_LIMIT,
            ;
        }
        let go = self.steps_taken * (self.min_delta + 1) / (1 + self.secondary_steps_taken)
            > self.max_delta + 1;
        proof {
            let a = (n + 2) * (lmind(d) + 1);
            let b = s + 1;
            vstd::arithmetic::div_mod::lemma_fundamental_div_mod(a, b);
            vstd::arithmetic::div_mod::lemma_div_pos_is_pos(a, b);
            assert(a / b <= b * (a / b)) by (nonlinear_arith)
                requires
                    b >= 1,
                    a / b >= 0,
            ;
            assert(go == (a / b > lmaxd(d) + 1));
            assert(lscount(lmind(d), lmaxd(d), n + 1) == (if go {
                s + 1
            } else {
                s
            }));
        }
        if go {
            self.cur = self.cur.add(self.secondary_step);
            self.secondary_steps_taken = self.secondary_steps_taken + 1;
        }

        proof {
            let s2 = lscount(lmind(d), lmaxd(d), n + 1);
            assert((n + 1) * lmain(d).0 == n * lmain(d).0 + lmain(d).0) by (nonlinear_arith);
            assert((n + 1) * lmain(d).1 == n * lmain(d).1 + lmain(d).1) by (nonlinear_arith);
            assert((s + 1) * lsec(d).0 == s * lsec(d).0 + lsec(d).0) by (nonlinear_arith);
            assert((s + 1) * lsec(d).1 == s * lsec(d).1 + lsec(d).1) by (nonlinear_arith);
            lemma_lscount(lmind(d), lmaxd(d), n + 1);
            assert(self.cur.spec_x() == lpoint(f, t, n + 1).0);
            assert(self.cur.spec_y() == lpoint(f, t, n + 1).1);
        }
    }

    /// Yields the current pixel and advances, or reports that the walk
    /// has arrived at its target.
    pub fn next(&mut self) -> (r: Option<IPoint>)
        requires
            old(self).wf(),
            old(self).spec_n() <= lmaxd(ldelta(old(self).spec_from(), old(self).spec_to())),
        ensures
            final(self).wf(),
            final(self).spec_from() == old(self).spec_from(),
            final(self).spec_to() == old(self).spec_to(),
            final(self).spec_n() == old(self).spec_n() + 1,
            (match r {
                Option::None => old(self).spec_n() == lmaxd(
                    ldelta(old(self).spec_from(), old(self).spec_to()),
                ),
                Option::Some(p) => pview(p) == lpoint(
                    old(self).spec_from(),
                    old(self).spec_to(),
                    old(self).spec_n() as nat,
                ) && old(self).spec_n() < lmaxd(ldelta(old(self).spec_from(), old(self).spec_to())),
            }),
    {
        proof {
            lemma_lpoint_props(
                pview(self.from),
                pview(self.to),
                (self.steps_taken - 1) as nat,
            );
        }
        let result: Option<IPoint> = if self.cur.x() == self.to.x() && self.cur.y() == self.to.y() {
            None
        } else {
            Some(self.cur)
        };

        self.advance();

        result
    }
}

// ---------------------------------------------------------------------------
// The anchor scan
// ---------------------------------------------------------------------------

/// The rightmost opaque column of row `y` at or left of column `x`.
pub open spec fn scan_row(mask: Seq<Seq<bool>>, y: int, x: int) -> Option<int>
    decreases x + 1,
{
    if x < 0 {
        None
    } else if opq(mask, x, y) {
        Some(x)
    } else {
        scan_row(mask, y, x - 1)
    }
}

/// The first opaque pixel in reading order from row `y` down, each row
/// scanned from its rightmost column leftward.
pub open spec fn scan_rows(mask: Seq<Seq<bool>>, w: int, h: int, y: int) -> Option<(int, int)>
    decreases h - y,
{
    if y < 0 || y >= h {
        None
    } else {
        match scan_row(mask, y, w - 1) {
            Some(x) => Some((x, y)),
            None => scan_rows(mask, w, h, y + 1),
        }
    }
}

/// The top-right anchor: the first opaque pixel found scanning rows from
/// the top and columns from the right.
pub open spec fn anchor(mask: Seq<Seq<bool>>, w: int, h: int) -> Option<(int, int)> {
    scan_rows(mask, w, h, 0)
}

// ---------------------------------------------------------------------------
// The boundary circuit
// ---------------------------------------------------------------------------

/// The explicit formula for the clockwise boundary walk of
/// `[0, mx] x [0, my]` starting at `(mx, y0)`: down the right edge, left
/// along the bottom, up the left edge, right along the top, and down to
/// the start again.
pub open spec fn ppoint(mx: int, my: int, y0: int, k: int) -> (int, int) {
    let p1 = my - y0;
    let p2 = p1 + mx;
    let p3 = p2 + my;
    let p4 = p3 + mx;
    if k <= p1 {
        (mx, y0 + k)
    } else if k <= p2 {
        (mx - (k - p1), my)
    } else if k <= p3 {
        (0, my - (k - p2))
    } else if k <= p4 {
        (k - p3, 0)
    } else {
        (mx, k - p4)
    }
}

proof fn lemma_ppoint_step(mx: int, my: int, y0: int, k: int)
    requires
        1 <= mx,
        1 <= my,
        0 <= y0 <= my,
        0 <= k < 2 * (mx + my),
    ensures
        ppoint(mx, my, y0, k + 1) == bstep(mx, my, ppoint(mx, my, y0, k)),
{
}

/// The boundary walk follows the explicit formula.
proof fn lemma_bwalk_eq_ppoint(mx: int, my: int, y0: int, k: nat)
    requires
        1 <= mx,
        1 <= my,
        0 <= y0 <= my,
        k <= 2 * (mx + my),
    ensures
        bwalk(mx, my, (mx, y0), k) == ppoint(mx, my, y0, k as int),
    decreases k,
{
    if k > 0 {
        lemma_bwalk_eq_ppoint(mx, my, y0, (k - 1) as nat);
        lemma_ppoint_step(mx, my, y0, k - 1);
    }
}

/// The walk returns to its starting point after exactly one full
/// perimeter of steps, never earlier, and stays on the rectangle.
proof fn lemma_bwalk_period(mx: int, my: int, y0: int, k: nat)
    requires
        1 <= mx,
        1 <= my,
        0 <= y0 <= my,
        k <= 2 * (mx + my),
    ensures
        (bwalk(mx, my, (mx, y0), k) == (mx, y0)) <==> (k == 0 || k == 2 * (mx + my)),
        0 <= bwalk(mx, my, (mx, y0), k).0 <= mx,
        0 <= bwalk(mx, my, (mx, y0), k).1 <= my,
{
    lemma_bwalk_eq_ppoint(mx, my, y0, k);
}

// ---------------------------------------------------------------------------
// The hull fold
// ---------------------------------------------------------------------------

/// The first opaque pixel the rasterized line from `from` toward `to`
/// passes over, searching from its `n`-th pixel on. The endpoint itself
/// is never visited.
pub open spec fn first_hit_from(
    mask: Seq<Seq<bool>>,
    from: (int, int),
    to: (int, int),
    n: nat,
) -> Option<(int, int)>
    decreases lmaxd(ldelta(from, to)) - n,
{
    if n >= lmaxd(ldelta(from, to)) {
        None
    } else if opq(mask, lpoint(from, to, n).0, lpoint(from, to, n).1) {
        Some(lpoint(from, to, n))
    } else {
        first_hit_from(mask, from, to, n + 1)
    }
}

/// The first opaque pixel on the rasterized line from `from` toward
/// `to`, if any.
pub open spec fn first_hit(mask: Seq<Seq<bool>>, from: (int, int), to: (int, int)) -> Option<
    (int, int),
> {
    first_hit_from(mask, from, to, 0)
}

/// The direction marker recorded for a silhouette point found from
/// boundary point `bp`: one where the boundary point lies in the far half
/// of the rectangle on that axis, else zero.
pub open spec fn dir_of(w: int, h: int, bp: (int, int)) -> (int, int) {
    ((if bp.0 > w / 2 {
        1int
    } else {
        0int
    }), (if bp.1 > h / 2 {
        1int
    } else {
        0int
    }))
}

/// The running state of the silhouette scan: the current hull point and
/// its direction marker, the previous accepted point and marker, and the
/// vertices emitted so far.
#[verifier::ext_equal]
pub ghost struct HullState {
    pub cp: (int, int),
    pub cd: (int, int),
    pub pc: (int, int),
    pub pd: (int, int),
    pub out: Seq<((int, int), (int, int))>,
}

/// The scan state just after the anchor was found.
pub open spec fn hull_init(h: int, a: (int, int)) -> HullState {
    let d = (1int, if a.1 > h / 2 {
        1int
    } else {
        0int
    });
    HullState { cp: a, cd: d, pc: a, pd: d, out: Seq::empty() }
}

/// One silhouette-scan step for boundary point `bp`: cast a line toward
/// the current hull point; if it hits an opaque pixel, either merge the
/// hit into the running edge (when collinear with the previous two
/// points) or emit the previous point as a vertex.
pub open spec fn hstep(
    mask: Seq<Seq<bool>>,
    w: int,
    h: int,
    st: HullState,
    bp: (int, int),
) -> HullState {
    match first_hit(mask, bp, st.cp) {
        None => st,
        Some(p) => {
            let pushed = st.pc != st.cp && !on_line(st.pc, st.cp, p);
            HullState {
                cp: p,
                cd: dir_of(w, h, bp),
                pc: if pushed {
                    st.cp
                } else {
                    st.pc
                },
                pd: if pushed {
                    st.cd
                } else {
                    st.pd
                },
                out: if pushed {
                    st.out.push((st.pc, st.pd))
                } else {
                    st.out
                },
            }
        },
    }
}

/// The scan state after the first `k` boundary points of the clockwise
/// circuit from `(w - 1, a.1)` have been processed.
pub open spec fn hull_after(
    mask: Seq<Seq<bool>>,
    w: int,
    h: int,
    a: (int, int),
    k: nat,
) -> HullState
    decreases k,
{
    if k == 0 {
        hull_init(h, a)
    } else {
        hstep(
            mask,
            w,
            h,
            hull_after(mask, w, h, a, (k - 1) as nat),
            bwalk(w - 1, h - 1, (w - 1, a.1), k),
        )
    }
}

/// The convex silhouette of a `w` x `h` mask: the vertices the boundary
/// scan emits, closed off with the final running edge; empty when the
/// mask holds no opaque pixel at all.
pub open spec fn convex_spec(mask: Seq<Seq<bool>>, w: int, h: int) -> Seq<
    ((int, int), (int, int)),
> {
    match anchor(mask, w, h) {
        None => Seq::empty(),
        Some(a) => {
            let per = 2 * ((w - 1) + (h - 1));
            let st = hull_after(mask, w, h, a, (per - 1) as nat);
            let closed = st.out.push((st.pc, st.pd));
            if !on_line(st.pc, st.cp, a) {
                closed.push((st.cp, st.cd))
            } else {
                closed
            }
        },
    }
}

// ---------------------------------------------------------------------------
// Laws of the silhouette scan
// ---------------------------------------------------------------------------

/// No pixel of the mask is opaque.
pub open spec fn all_transparent(mask: Seq<Seq<bool>>, w: int, h: int) -> bool {
    forall|x: int, y: int| 0 <= x < w && 0 <= y < h ==> !#[trigger] opq(mask, x, y)
}

/// Every pixel of the mask is opaque.
pub open spec fn all_opaque(mask: Seq<Seq<bool>>, w: int, h: int) -> bool {
    forall|x: int, y: int| 0 <= x < w && 0 <= y < h ==> #[trigger] opq(mask, x, y)
}

/// Exactly the pixel `(px, py)` of the mask is opaque.
pub open spec fn single_opaque(mask: Seq<Seq<bool>>, w: int, h: int, px: int, py: int) -> bool {
    &&& 0 <= px < w
    &&& 0 <= py < h
    &&& opq(mask, px, py)
    &&& forall|x: int, y: int|
        0 <= x < w && 0 <= y < h && (x, y) != (px, py) ==> !#[trigger] opq(mask, x, y)
}

proof fn lemma_scan_row_none(mask: Seq<Seq<bool>>, w: int, h: int, y: int, x: int)
    requires
        0 <= y < h,
        x < w,
        forall|x2: int| 0 <= x2 < w ==> !#[trigger] opq(mask, x2, y),
    ensures
        scan_row(mask, y, x) is None,
    decreases x + 1,
{
    if x >= 0 {
        lemma_scan_row_none(mask, w, h, y, x - 1);
    }
}

proof fn lemma_scan_rows_none(mask: Seq<Seq<bool>>, w: int, h: int, y: int)
    requires
        all_transparent(mask, w, h),
        0 <= y,
    ensures
        scan_rows(mask, w, h, y) is None,
    decreases h - y,
{
    if y < h {
        lemma_scan_row_none(mask, w, h, y, w - 1);
        lemma_scan_rows_none(mask, w, h, y + 1);
    }
}

/// A fully transparent sprite yields an empty hull.
pub proof fn lemma_hull_of_transparent(mask: Seq<Seq<bool>>, w: int, h: int)
    requires
        all_transparent(mask, w, h),
    ensures
        convex_spec(mask, w, h) == Seq::<((int, int), (int, int))>::empty(),
{
    lemma_scan_rows_none(mask, w, h, 0);
}

/// A line cast toward the only opaque pixel never reports a hit: the
/// target pixel itself is excluded, and every other visited pixel is
/// transparent.
proof fn lemma_single_first_hit(
    mask: Seq<Seq<bool>>,
    w: int,
    h: int,
    px: int,
    py: int,
    from: (int, int),
    n: nat,
)
    requires
        single_opaque(mask, w, h, px, py),
        0 <= from.0 < w,
        0 <= from.1 < h,
        n <= lmaxd(ldelta(from, (px, py))),
    ensures
        first_hit_from(mask, from, (px, py), n) is None,
    decreases lmaxd(ldelta(from, (px, py))) - n,
{
    let to = (px, py);
    if n < lmaxd(ldelta(from, to)) {
        lemma_lpoint_props(from, to, n);
        let p = lpoint(from, to, n);
        assert(p != to);
        assert(0 <= p.0 < w && 0 <= p.1 < h);
        assert(!opq(mask, p.0, p.1));
        lemma_single_first_hit(mask, w, h, px, py, from, n + 1);
    }
}

proof fn lemma_single_hull_after(mask: Seq<Seq<bool>>, w: int, h: int, px: int, py: int, k: nat)
    requires
        single_opaque(mask, w, h, px, py),
        2 <= w,
        2 <= h,
        k <= 2 * ((w - 1) + (h - 1)),
    ensures
        hull_after(mask, w, h, (px, py), k) == hull_init(h, (px, py)),
    decreases k,
{
    if k > 0 {
        lemma_single_hull_after(mask, w, h, px, py, (k - 1) as nat);
        let bp = bwalk(w - 1, h - 1, (w - 1, py), k);
        lemma_bwalk_period(w - 1, h - 1, py, k);
        if bp == (px, py) {
            assert(lmaxd(ldelta(bp, (px, py))) == 0);
            assert(first_hit(mask, bp, (px, py)) is None);
        } else {
            lemma_single_first_hit(mask, w, h, px, py, bp, 0);
        }
    }
}

proof fn lemma_single_anchor(mask: Seq<Seq<bool>>, w: int, h: int, px: int, py: int, y: int)
    requires
        single_opaque(mask, w, h, px, py),
        0 <= y <= py,
    ensures
        scan_rows(mask, w, h, y) == Some((px, py)),
    decreases h - y,
{
    if y < py {
        lemma_scan_row_none(mask, w, h, y, w - 1);
        lemma_single_anchor(mask, w, h, px, py, y + 1);
    } else {
        assert forall|x: int| px < x < w implies !opq(mask, x, py) by {}
        assert forall|x: int| px <= x < w implies scan_row(mask, py, x) == Some::<int>(px) by {
            lemma_single_scan_row(mask, w, h, px, py, x);
        }
    }
}

proof fn lemma_single_scan_row(mask: Seq<Seq<bool>>, w: int, h: int, px: int, py: int, x: int)
    requires
        single_opaque(mask, w, h, px, py),
        px <= x < w,
    ensures
        scan_row(mask, py, x) == Some::<int>(px),
    decreases x + 1,
{
    if x > px {
        lemma_single_scan_row(mask, w, h, px, py, x - 1);
    }
}

/// A sprite with a single opaque pixel yields a one-vertex hull: the
/// pixel itself, marked with the anchor direction.
pub proof fn lemma_hull_of_single_pixel(mask: Seq<Seq<bool>>, w: int, h: int, px: int, py: int)
    requires
        single_opaque(mask, w, h, px, py),
        2 <= w,
        2 <= h,
    ensures
        convex_spec(mask, w, h).len() == 1,
        convex_spec(mask, w, h)[0].0 == (px, py),
{
    lemma_single_anchor(mask, w, h, px, py, 0);
    let per = 2 * ((w - 1) + (h - 1));
    lemma_single_hull_after(mask, w, h, px, py, (per - 1) as nat);
    let st = hull_after(mask, w, h, (px, py), (per - 1) as nat);
    assert(st == hull_init(h, (px, py)));
    assert(on_line(st.pc, st.cp, (px, py)));
}

/// What the silhouette scan holds after `k` boundary steps over a fully
/// opaque rectangle: every cast line hits its own boundary point, so the
/// current hull point simply follows the boundary, and a vertex is
/// emitted at each corner turn.
spec fn filled_state(w: int, h: int, k: int) -> HullState {
    let mx = w - 1;
    let my = h - 1;
    let fx: int = if mx > w / 2 {
        1
    } else {
        0
    };
    let fy: int = if my > h / 2 {
        1
    } else {
        0
    };
    let d0 = (1int, 0int);
    let p2 = my + mx;
    let p3 = p2 + my;
    if k == 0 {
        HullState { cp: (mx, 0), cd: d0, pc: (mx, 0), pd: d0, out: Seq::empty() }
    } else if k <= my {
        HullState {
            cp: (mx, k),
            cd: (fx, if k > h / 2 {
                1int
            } else {
                0int
            }),
            pc: (mx, 0),
            pd: d0,
            out: Seq::empty(),
        }
    } else if k <= p2 {
        HullState {
            cp: (mx - (k - my), my),
            cd: (if mx - (k - my) > w / 2 {
                1int
            } else {
                0int
            }, fy),
            pc: (mx, my),
            pd: (fx, fy),
            out: seq![((mx, 0), d0)],
        }
    } else if k <= p3 {
        HullState {
            cp: (0, my - (k - p2)),
            cd: (0, if my - (k - p2) > h / 2 {
                1int
            } else {
                0int
            }),
            pc: (0, my),
            pd: (0, fy),
            out: seq![((mx, 0), d0), ((mx, my), (fx, fy))],
        }
    } else {
        HullState {
            cp: (k - p3, 0),
            cd: (if k - p3 > w / 2 {
                1int
            } else {
                0int
            }, 0),
            pc: (0, 0),
            pd: (0, 0),
            out: seq![((mx, 0), d0), ((mx, my), (fx, fy)), ((0, my), (0, fy))],
        }
    }
}

/// On a fully opaque mask, a cast line reports its own starting point.
proof fn lemma_filled_first_hit(
    mask: Seq<Seq<bool>>,
    w: int,
    h: int,
    from: (int, int),
    to: (int, int),
)
    requires
        all_opaque(mask, w, h),
        0 <= from.0 < w,
        0 <= from.1 < h,
        from != to,
    ensures
        first_hit(mask, from, to) == Some(from),
{
    let d = ldelta(from, to);
    assert(lmaxd(d) >= 1);
    assert(lscount(lmind(d), lmaxd(d), 0) == 0);
    assert(0 * lmain(d).0 == 0 && 0 * lmain(d).1 == 0 && 0 * lsec(d).0 == 0 && 0 * lsec(d).1 == 0)
        by (nonlinear_arith);
    assert(lpoint(from, to, 0) == from);
    assert(opq(mask, from.0, from.1));
}

proof fn lemma_filled_hull_after(mask: Seq<Seq<bool>>, w: int, h: int, k: nat)
    requires
        all_opaque(mask, w, h),
        2 <= w,
        2 <= h,
        k <= 2 * ((w - 1) + (h - 1)) - 1,
    ensures
        hull_after(mask, w, h, (w - 1, 0int), k) == filled_state(w, h, k as int),
    decreases k,
{
    let mx = w - 1;
    let my = h - 1;
    if k == 0 {
        assert(hull_after(mask, w, h, (mx, 0int), 0) =~= filled_state(w, h, 0));
    } else {
        lemma_filled_hull_after(mask, w, h, (k - 1) as nat);
        let prev = filled_state(w, h, k - 1);
        lemma_bwalk_eq_ppoint(mx, my, 0, k);
        lemma_bwalk_eq_ppoint(mx, my, 0, (k - 1) as nat);
        let bp = ppoint(mx, my, 0, k as int);
        lemma_ppoint_step(mx, my, 0, k - 1);
        assert(bp == bstep(mx, my, ppoint(mx, my, 0, k - 1)));
        assert(prev.cp == ppoint(mx, my, 0, k - 1));
        lemma_bwalk_period(mx, my, 0, k);
        lemma_bwalk_period(mx, my, 0, (k - 1) as nat);
        assert(bp != prev.cp);
        lemma_filled_first_hit(mask, w, h, bp, prev.cp);
        assert(hull_after(mask, w, h, (mx, 0int), k) == hstep(mask, w, h, prev, bp));
        assert(hstep(mask, w, h, prev, bp) =~= filled_state(w, h, k as int));
    }
}

/// The hull of a fully opaque rectangle of width and height at least two
/// is exactly its four corners, clockwise from the top-right.
pub proof fn lemma_hull_of_filled_rect(mask: Seq<Seq<bool>>, w: int, h: int)
    requires
        all_opaque(mask, w, h),
        2 <= w,
        2 <= h,
    ensures
        convex_spec(mask, w, h).len() == 4,
        convex_spec(mask, w, h)[0].0 == (w - 1, 0int),
        convex_spec(mask, w, h)[1].0 == (w - 1, h - 1),
        convex_spec(mask, w, h)[2].0 == (0int, h - 1),
        convex_spec(mask, w, h)[3].0 == (0int, 0int),
        convex_spec(mask, w, h)[0].1 == (1int, 0int),
        convex_spec(mask, w, h)[1].1 == dir_of(w, h, (w - 1, h - 1)),
        convex_spec(mask, w, h)[2].1 == (0int, dir_of(w, h, (w - 1, h - 1)).1),
        convex_spec(mask, w, h)[3].1 == (0int, 0int),
{
    let mx = w - 1;
    let my = h - 1;
    assert(opq(mask, mx, 0));
    assert(scan_row(mask, 0, mx) == Some::<int>(mx));
    assert(anchor(mask, w, h) == Some((mx, 0int)));
    let per = 2 * (mx + my);
    lemma_filled_hull_after(mask, w, h, (per - 1) as nat);
    let st = hull_after(mask, w, h, (mx, 0int), (per - 1) as nat);
    if w == 2 {
        assert(per - 1 == my + mx + my);
        assert(st.cp == (0int, 0int));
        assert(st.pc == (0int, my));
        assert(!on_line(st.pc, st.cp, (mx, 0int)));
    } else {
        assert(per - 1 > my + mx + my);
        assert(st.cp == (mx - 1, 0int));
        assert(st.pc == (0int, 0int));
        assert(on_line(st.pc, st.cp, (mx, 0int)));
    }
}

/// The view of an emitted vertex list as pairs of integer pairs.
pub open spec fn hull_view(s: Seq<(IPoint, IPoint)>) -> Seq<((int, int), (int, int))> {
    s.map_values(|pr: (IPoint, IPoint)| (pview(pr.0), pview(pr.1)))
}

proof fn lemma_hull_view_push(s: Seq<(IPoint, IPoint)>, e: (IPoint, IPoint))
    ensures
        hull_view(s.push(e)) == hull_view(s).push((pview(e.0), pview(e.1))),
{
    assert(hull_view(s.push(e)) =~= hull_view(s).push((pview(e.0), pview(e.1))));
}

/// Extracts the convex silhouette of the `size` sub-rectangle of
/// `pixels` at `offset`. Each element pairs a silhouette point in
/// sub-image pixel coordinates with its direction marker; a fully
/// transparent sub-image yields an empty vector. The sub-image must be
/// at least two pixels on each side: the boundary walk is not defined
/// for thinner strips.
#[verifier::loop_isolation(false)]
pub fn calculate_convex(pixels: &PixelBuffer, offset: UPoint, size: UPoint) -> (result: Vec<
    (IPoint, IPoint),
>)
    requires
        pixels.wf(),
        offset.spec_x() + size.spec_x() <= pixels.spec_width(),
        offset.spec_y() + size.spec_y() <= pixels.spec_height(),
        2 <= size.spec_x() <= PIXEL_LIMIT as u32,
        2 <= size.spec_y() <= PIXEL_LIMIT as u32,
    ensures
        hull_view(result@) == convex_spec(
            pixels.mask(
                offset.spec_x() as int,
                offset.spec_y() as int,
                size.spec_x() as int,
                size.spec_y() as int,
            ),
            size.spec_x() as int,
            size.spec_y() as int,
        ),
        forall|k: int|
            0 <= k < result@.len() ==> {
                &&& 0 <= (#[trigger] result@[k]).0.spec_x() < size.spec_x()
                &&& 0 <= result@[k].0.spec_y() < size.spec_y()
                &&& 0 <= result@[k].1.spec_x() <= 1
                &&& 0 <= result@[k].1.spec_y() <= 1
            },
{
    let w: i32 = size.x() as i32;
    let h: i32 = size.y() as i32;
    let ox: u32 = offset.x();
    let oy: u32 = offset.y();
    let image_w: u32 = pixels.width();
    let image_h: u32 = pixels.height();
    let ghost mask = pixels.mask(ox as int, oy as int, w as int, h as int);

    // Find the top-right anchor: scan rows from the top, columns from
    // the right, for the first opaque pixel.
    let mut found = false;
    let mut ax: i32 = 0;
    let mut ay: i32 = 0;
    let mut y: i32 = 0;
    while y < h && !found
        invariant
            0 <= y <= h,
            !found ==> scan_rows(mask, w as int, h as int, 0) == scan_rows(
                mask,
                w as int,
                h as int,
                y as int,
            ),
            found ==> {
                &&& scan_rows(mask, w as int, h as int, 0) == Some((ax as int, ay as int))
                &&& 0 <= ax < w
                &&& 0 <= ay < h
            },
        decreases 2 * (h - y) + (if found {
            0int
        } else {
            1int
        }),
    {
        let mut x: i32 = w;
        while x > 0 && !found
            invariant
                0 <= x <= w,
                0 <= y < h,
                !found ==> scan_row(mask, y as int, w - 1) == scan_row(mask, y as int, x - 1),
                found ==> {
                    &&& scan_row(mask, y as int, w - 1) == Some(ax as int)
                    &&& ay == y
                    &&& 0 <= ax < w
                },
            decreases x,
        {
            x = x - 1;
            let alpha = pixels.alpha(ox + (x as u32), oy + (y as u32));
            proof {
                assert(opq(mask, x as int, y as int) == (pixels.spec_alpha(
                    ox + x,
                    oy + y,
                ) != 0));
            }
            if alpha != 0 {
                ax = x;
                ay = y;
                found = true;
            }
        }
        if !found {
            proof {
                assert(scan_row(mask, y as int, -1) is None);
                assert(scan_rows(mask, w as int, h as int, y as int) == scan_rows(
                    mask,
                    w as int,
                    h as int,
                    y + 1,
                ));
            }
            y = y + 1;
        }
    }

    if !found {
        let result: Vec<(IPoint, IPoint)> = Vec::new();
        proof {
            assert(scan_rows(mask, w as int, h as int, h as int) is None);
            assert(anchor(mask, w as int, h as int) is None);
            assert(hull_view(result@) =~= convex_spec(mask, w as int, h as int));
        }
        return result;
    }

    let ghost aa: (int, int) = (ax as int, ay as int);
    let ghost mx: int = w - 1;
    let ghost my: int = h - 1;
    let ghost start: (int, int) = (mx, ay as int);
    let ghost per: int = 2 * (mx + my);

    let mut result: Vec<(IPoint, IPoint)> = Vec::new();
    let mut convex_point: IPoint = Point::new(ax, ay);
    let mut convex_direction: IPoint = Point::new(
        1,
        if ay > h / 2 {
            1
        } else {
            0
        },
    );
    let start_convex: IPoint = convex_point;
    let mut prev_convex: IPoint = convex_point;
    let mut prev_direction: IPoint = convex_direction;

    let mut it = BoundaryIterator::new(w, h, Point::new(w - 1, ay));
    let ghost mut k: nat = 0;

    proof {
        assert(hull_view(result@) =~= Seq::<((int, int), (int, int))>::empty());
        assert(hull_after(mask, w as int, h as int, aa, 0) == hull_init(h as int, aa));
    }

    let mut done = false;
    while !done
        invariant
            it.wf(),
            it.spec_from() == start,
            it.spec_max_x() == mx,
            it.spec_max_y() == my,
            0 <= k <= per - 1,
            !done ==> it.spec_cur() == bwalk(mx, my, start, k),
            done ==> k == per - 1,
            pview(convex_point) == hull_after(mask, w as int, h as int, aa, k).cp,
            pview(convex_direction) == hull_after(mask, w as int, h as int, aa, k).cd,
            pview(prev_convex) == hull_after(mask, w as int, h as int, aa, k).pc,
            pview(prev_direction) == hull_after(mask, w as int, h as int, aa, k).pd,
            hull_view(result@) == hull_after(mask, w as int, h as int, aa, k).out,
            0 <= convex_point.spec_x() < w,
            0 <= convex_point.spec_y() < h,
            0 <= prev_convex.spec_x() < w,
            0 <= prev_convex.spec_y() < h,
            0 <= convex_direction.spec_x() <= 1,
            0 <= convex_direction.spec_y() <= 1,
            0 <= prev_direction.spec_x() <= 1,
            0 <= prev_direction.spec_y() <= 1,
            forall|kk: int|
                0 <= kk < result@.len() ==> {
                    &&& 0 <= (#[trigger] result@[kk]).0.spec_x() < w
                    &&& 0 <= result@[kk].0.spec_y() < h
                    &&& 0 <= result@[kk].1.spec_x() <= 1
                    &&& 0 <= result@[kk].1.spec_y() <= 1
                },
        decreases per - k + (if done {
            0int
        } else {
            1int
        }),
    {
        let next_point = it.next();
        match next_point {
            None => {
                // The walk is back at its starting point: the circuit is
                // complete.
                proof {
                    lemma_bwalk_period(mx, my, ay as int, (k + 1) as nat);
                    assert(k + 1 == per);
                }
                done = true;
            },
            Some(bp) => {
                proof {
                    k = k + 1;
                    lemma_bwalk_period(mx, my, ay as int, k);
                    assert(0 <= pview(bp).0 <= mx);
                    assert(0 <= pview(bp).1 <= my);
                }
                let ghost f: (int, int) = pview(bp);
                let ghost t: (int, int) = pview(convex_point);

                let mut li = LineIterator::new(bp, convex_point);
                let mut hit: Option<IPoint> = None;
                let mut scan_done = false;
                while !scan_done
                    invariant
                        li.wf(),
                        li.spec_from() == f,
                        li.spec_to() == t,
                        !scan_done ==> {
                            &&& hit is None
                            &&& 0 <= li.spec_n() <= lmaxd(ldelta(f, t))
                            &&& first_hit(mask, f, t) == first_hit_from(
                                mask,
                                f,
                                t,
                                li.spec_n() as nat,
                            )
                        },
                        scan_done ==> (match hit {
                            Option::None => first_hit(mask, f, t) is None,
                            Option::Some(p) => {
                                &&& first_hit(mask, f, t) == Some(pview(p))
                                &&& 0 <= pview(p).0 < w
                                &&& 0 <= pview(p).1 < h
                            },
                        }),
                    decreases (if scan_done {
                        0int
                    } else {
                        lmaxd(ldelta(f, t)) - li.spec_n() + 1
                    }),
                {
                    let ghost n = li.spec_n() as nat;
                    match li.next() {
                        None => {
                            scan_done = true;
                        },
                        Some(pt) => {
                            proof {
                                lemma_lpoint_props(f, t, n);
                                assert(0 <= pt.spec_x() < w);
                                assert(0 <= pt.spec_y() < h);
                                assert(ox + pt.spec_x() < image_w);
                                assert(oy + pt.spec_y() < image_h);
                            }
                            let alpha = pixels.alpha(ox + (pt.x() as u32), oy + (pt.y() as u32));
                            proof {
                                assert(opq(mask, pview(pt).0, pview(pt).1) == (pixels.spec_alpha(
                                    ox + pview(pt).0,
                                    oy + pview(pt).1,
                                ) != 0));
                            }
                            if alpha != 0 {
                                hit = Some(pt);
                                scan_done = true;
                            }
                        },
                    }
                }

                match hit {
                    None => {
                        proof {
                            assert(hull_after(mask, w as int, h as int, aa, k) == hull_after(
                                mask,
                                w as int,
                                h as int,
                                aa,
                                (k - 1) as nat,
                            ));
                        }
                    },
                    Some(p) => {
                        let ghost st = hull_after(mask, w as int, h as int, aa, (k - 1) as nat);
                        if prev_convex != convex_point && !is_points_on_line(
                            prev_convex,
                            convex_point,
                            p,
                        ) {
                            proof {
                                lemma_hull_view_push(result@, (prev_convex, prev_direction));
                            }
                            result.push((prev_convex, prev_direction));
                            prev_convex = convex_point;
                            prev_direction = convex_direction;
                        }
                        convex_point = p;
                        convex_direction = Point::new(
                            if bp.x() > w / 2 {
                                1
                            } else {
                                0
                            },
                            if bp.y() > h / 2 {
                                1
                            } else {
                                0
                            },
                        );
                    },
                }
            },
        }
    }

    proof {
        lemma_hull_view_push(result@, (prev_convex, prev_direction));
    }
    result.push((prev_convex, prev_direction));
    if !is_points_on_line(prev_convex, convex_point, start_convex) {
        proof {
            lemma_hull_view_push(result@, (convex_point, convex_direction));
        }
        result.push((convex_point, convex_direction));
    }
    result
}

} // verus!
