//! Shared geometry primitives: 2D points, fixed-point scalars, angles.
//!
//! A world coordinate is an `i64` holding millionths of a world unit
//! (`FX_ONE`). The unit square is the visible playfield; `COORD_LIMIT`
//! bounds every coordinate the collision pipeline handles, which keeps all
//! intermediate products inside the machine integer ranges.

use vstd::prelude::*;

verus! {

/// Fixed-point scale: this many raw units make one world unit.
pub const FX_ONE: i64 = 1_000_000;

/// Bound on any world-space coordinate handled by the collision pipeline
/// (positions, transformed hull vertices, hitbox offsets, ranges,
/// allowances). Sixteen world units is far beyond the unit-square
/// playfield, and small enough that every product computed during
/// detection fits in an `i128`.
pub const COORD_LIMIT: i64 = 16_000_000;

/// Bound on a sprite-local hull coordinate (four world units: no sprite is
/// larger than four screens).
pub const SPRITE_COORD_LIMIT: i64 = 4_000_000;

/// Bound on a scale factor (at most a doubling).
pub const SCALE_LIMIT: i64 = 2_000_000;

/// A full turn in fixed-point degrees.
pub const DEG_FULL: i64 = 360_000_000;

/// Absolute value over mathematical integers.
pub open spec fn iabs(a: int) -> int {
    if a >= 0 {
        a
    } else {
        -a
    }
}

/// Truncating division (rounds toward zero), the semantics of Rust's `/`
/// on signed integers, for a positive divisor.
pub open spec fn trunc_div(a: int, d: int) -> int {
    if a >= 0 {
        a / d
    } else {
        -((-a) / d)
    }
}

/// The fixed-point product: `a * b` rescaled back by `FX_ONE`, rounding
/// toward zero.
pub open spec fn fx_mul_spec(a: int, b: int) -> int {
    trunc_div(a * b, FX_ONE as int)
}

proof fn lemma_trunc_div_bound(a: int, m: int)
    requires
        iabs(a) <= m * (FX_ONE as int),
        m >= 0,
    ensures
        iabs(trunc_div(a, FX_ONE as int)) <= m,
{
    let f = FX_ONE as int;
    if a >= 0 {
        vstd::arithmetic::div_mod::lemma_div_is_ordered(a, m * f, f);
        vstd::arithmetic::div_mod::lemma_div_by_multiple(m, f);
    } else {
        vstd::arithmetic::div_mod::lemma_div_is_ordered(-a, m * f, f);
        vstd::arithmetic::div_mod::lemma_div_by_multiple(m, f);
        vstd::arithmetic::div_mod::lemma_div_pos_is_pos(-a, f);
    }
}

/// The fixed-point product of two bounded values stays within the bound
/// implied by its factors.
pub proof fn lemma_fx_mul_bound(a: int, b: int, m: int)
    requires
        iabs(a) * iabs(b) <= m * (FX_ONE as int),
        m >= 0,
    ensures
        iabs(fx_mul_spec(a, b)) <= m,
{
    assert(iabs(a * b) == iabs(a) * iabs(b)) by (nonlinear_arith);
    lemma_trunc_div_bound(a * b, m);
}

/// Fixed-point multiplication of two raw values.
pub fn fx_mul(a: i64, b: i64) -> (r: i64)
    requires
        -2_000_000_000 <= a <= 2_000_000_000,
        -2_000_000_000 <= b <= 2_000_000_000,
    ensures
        r == fx_mul_spec(a as int, b as int),
{
    proof {
        assert((a as int) * (b as int) <= 4_000_000_000_000_000_000
            && (a as int) * (b as int) >= -4_000_000_000_000_000_000) by (nonlinear_arith)
            requires
                -2_000_000_000 <= a as int <= 2_000_000_000,
                -2_000_000_000 <= b as int <= 2_000_000_000,
        ;
    }
    let p: i64 = a * b;
    proof {
        if p >= 0 {
            vstd::arithmetic::div_mod::lemma_div_is_ordered(p as int, i64::MAX as int, FX_ONE as int);
            vstd::arithmetic::div_mod::lemma_div_pos_is_pos(p as int, FX_ONE as int);
        } else {
            vstd::arithmetic::div_mod::lemma_div_is_ordered((-p) as int, i64::MAX as int, FX_ONE as int);
            vstd::arithmetic::div_mod::lemma_div_pos_is_pos((-p) as int, FX_ONE as int);
        }
        vstd::arithmetic::div_mod::lemma_div_is_ordered(0, i64::MAX as int, FX_ONE as int);
    }
    p / FX_ONE
}

/// A pair of coordinates; doubles as a size (`width`/`height` read the
/// same fields as `x`/`y`).
#[derive(Clone, Copy, Debug, PartialEq, Eq, Structural)]
pub struct Point<T> {
    pub a: T,
    pub b: T,
}

impl<T> Point<T> where T: Copy {
    /// The first coordinate, for specifications.
    pub open spec fn spec_x(&self) -> T {
        self.a
    }

    /// The second coordinate, for specifications.
    pub open spec fn spec_y(&self) -> T {
        self.b
    }

    pub fn new(a: T, b: T) -> (r: Point<T>)
        ensures
            r.spec_x() == a,
            r.spec_y() == b,
    {
        Point { a, b }
    }

    #[verifier::when_used_as_spec(spec_x)]
    pub fn x(&self) -> (r: T)
        ensures
            r == self.spec_x(),
    {
        self.a
    }

    #[verifier::when_used_as_spec(spec_x)]
    pub fn width(&self) -> (r: T)
        ensures
            r == self.spec_x(),
    {
        self.a
    }

    pub fn mut_x(&mut self) -> (r: &mut T)
        ensures
            *r == old(self).spec_x(),
            final(self).spec_x() == *final(r),
            final(self).spec_y() == old(self).spec_y(),
    {
        &mut self.a
    }

    pub fn mut_width(&mut self) -> (r: &mut T)
        ensures
            *r == old(self).spec_x(),
            final(self).spec_x() == *final(r),
            final(self).spec_y() == old(self).spec_y(),
    {
        &mut self.a
    }

    #[verifier::when_used_as_spec(spec_y)]
    pub fn y(&self) -> (r: T)
        ensures
            r == self.spec_y(),
    {
        self.b
    }

    #[verifier::when_used_as_spec(spec_y)]
    pub fn height(&self) -> (r: T)
        ensures
            r == self.spec_y(),
    {
        self.b
    }

    pub fn mut_y(&mut self) -> (r: &mut T)
        ensures
            *r == old(self).spec_y(),
            final(self).spec_y() == *final(r),
            final(self).spec_x() == old(self).spec_x(),
    {
        &mut self.b
    }

    pub fn mut_height(&mut self) -> (r: &mut T)
        ensures
            *r == old(self).spec_y(),
            final(self).spec_y() == *final(r),
            final(self).spec_x() == old(self).spec_x(),
    {
        &mut self.b
    }
}

impl Point<u32> {
    pub fn as_i32(&self) -> (r: Point<i32>)
        requires
            self.spec_x() <= i32::MAX,
            self.spec_y() <= i32::MAX,
        ensures
            r.spec_x() == self.spec_x() as i32,
            r.spec_y() == self.spec_y() as i32,
    {
        Point { a: self.a as i32, b: self.b as i32 }
    }
}

impl Point<i32> {
    pub fn as_u32(&self) -> (r: Point<u32>)
        requires
            self.spec_x() >= 0,
            self.spec_y() >= 0,
        ensures
            r.spec_x() == self.spec_x() as u32,
            r.spec_y() == self.spec_y() as u32,
    {
        Point { a: self.a as u32, b: self.b as u32 }
    }

    /// Componentwise sum.
    pub fn add(self, rhs: Point<i32>) -> (r: Point<i32>)
        requires
            i32::MIN <= self.spec_x() + rhs.spec_x() <= i32::MAX,
            i32::MIN <= self.spec_y() + rhs.spec_y() <= i32::MAX,
        ensures
            r.spec_x() == self.spec_x() + rhs.spec_x(),
            r.spec_y() == self.spec_y() + rhs.spec_y(),
    {
        Point { a: self.a + rhs.a, b: self.b + rhs.b }
    }

    /// Componentwise difference.
    pub fn sub(self, rhs: Point<i32>) -> (r: Point<i32>)
        requires
            i32::MIN <= self.spec_x() - rhs.spec_x() <= i32::MAX,
            i32::MIN <= self.spec_y() - rhs.spec_y() <= i32::MAX,
        ensures
            r.spec_x() == self.spec_x() - rhs.spec_x(),
            r.spec_y() == self.spec_y() - rhs.spec_y(),
    {
        Point { a: self.a - rhs.a, b: self.b - rhs.b }
    }
}

impl Point<i64> {
    /// Componentwise sum.
    pub fn add(self, rhs: Point<i64>) -> (r: Point<i64>)
        requires
            i64::MIN <= self.spec_x() + rhs.spec_x() <= i64::MAX,
            i64::MIN <= self.spec_y() + rhs.spec_y() <= i64::MAX,
        ensures
            r.spec_x() == self.spec_x() + rhs.spec_x(),
            r.spec_y() == self.spec_y() + rhs.spec_y(),
    {
        Point { a: self.a + rhs.a, b: self.b + rhs.b }
    }

    /// Componentwise difference.
    pub fn sub(self, rhs: Point<i64>) -> (r: Point<i64>)
        requires
            i64::MIN <= self.spec_x() - rhs.spec_x() <= i64::MAX,
            i64::MIN <= self.spec_y() - rhs.spec_y() <= i64::MAX,
        ensures
            r.spec_x() == self.spec_x() - rhs.spec_x(),
            r.spec_y() == self.spec_y() - rhs.spec_y(),
    {
        Point { a: self.a - rhs.a, b: self.b - rhs.b }
    }
}

/// Integer points in sprite-local pixel space.
pub type IPoint = Point<i32>;

/// Unsigned points: pixel offsets and sizes.
pub type UPoint = Point<u32>;

/// Pixel dimensions of an image or sub-image.
pub type Dimensions = Point<u32>;

/// Fixed-point points in world space.
pub type FxPoint = Point<i64>;

/// Truncating remainder (the semantics of Rust's `%` on signed integers),
/// for a positive modulus.
pub open spec fn trunc_mod(a: int, m: int) -> int {
    if a >= 0 {
        a % m
    } else {
        -((-a) % m)
    }
}

/// An angle held in fixed-point degrees (`FX_ONE` raw units per degree).
///
/// The stored value is unnormalized, as an accumulated sum; `as_deg`
/// reduces it to a single turn with the sign of the accumulated value,
/// matching a truncating floating-point remainder.
#[derive(Clone, Copy, Debug, PartialEq, Eq, Structural)]
pub struct Angle {
    pub deg: i64,
}

impl Angle {
    /// The raw accumulated fixed-point degree value, for specifications.
    pub open spec fn spec_raw_deg(self) -> int {
        self.deg as int
    }

    pub fn from_deg(d: i64) -> (r: Angle)
        ensures
            r.spec_raw_deg() == d,
    {
        Angle { deg: d }
    }

    /// The angle reduced to a single turn, in fixed-point degrees, in the
    /// open interval `(-DEG_FULL, DEG_FULL)`.
    pub fn as_deg(&self) -> (r: i64)
        ensures
            r == trunc_mod(self.spec_raw_deg(), DEG_FULL as int),
            -(DEG_FULL as int) < r < DEG_FULL as int,
    {
        self.deg % DEG_FULL
    }

    /// The sum of this angle and `d` fixed-point degrees, re-wrapped from
    /// the reduced reading of this angle.
    pub fn add_deg(&self, d: i64) -> (r: Angle)
        requires
            -9_000_000_000_000_000_000 <= d <= 9_000_000_000_000_000_000,
        ensures
            r.spec_raw_deg() == trunc_mod(self.spec_raw_deg(), DEG_FULL as int) + d,
    {
        let w: i64 = self.as_deg();
        Angle::from_deg(w + d)
    }
}

/// A rotation given by the fixed-point cosine and sine of its angle.
///
/// The library cannot evaluate trigonometric functions exactly, so a
/// rotation enters the pipeline as a pair of plain fixed-point values,
/// computed once by the caller (or exactly, for the axis-aligned turns
/// below). Well-formedness only asks that both components lie in
/// `[-FX_ONE, FX_ONE]`, which is what the overflow arguments need.
#[derive(Clone, Copy, Debug, PartialEq, Eq, Structural)]
pub struct Rotation {
    pub cos_fx: i64,
    pub sin_fx: i64,
}

impl Rotation {
    /// Both components lie within one fixed-point unit.
    pub open spec fn wf(self) -> bool {
        &&& -(FX_ONE as int) <= self.cos_fx <= FX_ONE as int
        &&& -(FX_ONE as int) <= self.sin_fx <= FX_ONE as int
    }

    pub fn new(cos_fx: i64, sin_fx: i64) -> (r: Rotation)
        requires
            -FX_ONE <= cos_fx <= FX_ONE,
            -FX_ONE <= sin_fx <= FX_ONE,
        ensures
            r.cos_fx == cos_fx,
            r.sin_fx == sin_fx,
            r.wf(),
    {
        Rotation { cos_fx, sin_fx }
    }

    /// The rotation by zero degrees.
    pub fn identity() -> (r: Rotation)
        ensures
            r.cos_fx == FX_ONE,
            r.sin_fx == 0,
            r.wf(),
    {
        Rotation { cos_fx: FX_ONE, sin_fx: 0 }
    }
}

} // verus!
