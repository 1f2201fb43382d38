//! Per-entity collision geometry and the two-phase collision detector.
//!
//! `CollisionData` turns a sprite's silhouette into world-space geometry
//! for one entity: the hull scaled and rotated into the entity's
//! orientation, its axis-aligned hitbox, one outward normal per hull
//! edge (the candidate separating axes), and a coarse per-axis range for
//! a cheap first rejection.
//!
//! `CollisionDetector` buckets one entity set into a fixed 10x10 grid
//! over the unit square (broad phase), then tests each candidate pair
//! with three increasingly expensive filters: range, hitbox, and a
//! separating-axis polygon test (narrow phase). Its result is proved
//! sound and complete: a pair is reported exactly when it passes all
//! three filters.
//!
//! All geometry is fixed-point: coordinates are `i64` multiples of
//! `1 / FX_ONE` world units, and the separating-axis comparison against
//! the allowance is made exact by comparing squared magnitudes in
//! `i128`.

use vstd::prelude::*;

use crate::scene::SceneObject;
use crate::sprites_data::SpriteData;
use crate::util::{COORD_LIMIT, FX_ONE, FxPoint, Point, Rotation, SCALE_LIMIT, fx_mul, fx_mul_spec,
    iabs, lemma_fx_mul_bound};

verus! {

/// The view of a world-space point as a pair of mathematical integers.
pub open spec fn fxview(p: FxPoint) -> (int, int) {
    (p.a as int, p.b as int)
}

/// The view of a vector of world-space points.
pub open spec fn hull64(v: Seq<FxPoint>) -> Seq<(int, int)> {
    v.map_values(|p: FxPoint| fxview(p))
}

/// One silhouette vertex scaled componentwise, then rotated by the
/// rotation whose cosine and sine are `c` and `s` (all fixed-point).
pub open spec fn scale_rot(p: (int, int), c: int, s: int, sx: int, sy: int) -> (int, int) {
    let ax = fx_mul_spec(p.0, sx);
    let ay = fx_mul_spec(p.1, sy);
    (fx_mul_spec(ax, c) - fx_mul_spec(ay, s), fx_mul_spec(ax, s) + fx_mul_spec(ay, c))
}

/// A whole hull scaled and rotated.
pub open spec fn rotated_hull(pts: Seq<(int, int)>, c: int, s: int, sx: int, sy: int) -> Seq<
    (int, int),
> {
    pts.map_values(|p: (int, int)| scale_rot(p, c, s, sx, sy))
}

/// The minimum of zero and the first `n` x-coordinates.
pub open spec fn fmin_x(pts: Seq<(int, int)>, n: nat) -> int
    decreases n,
{
    if n == 0 {
        0
    } else {
        let m = fmin_x(pts, (n - 1) as nat);
        if pts[n - 1].0 < m {
            pts[n - 1].0
        } else {
            m
        }
    }
}

/// The minimum of zero and the first `n` y-coordinates.
pub open spec fn fmin_y(pts: Seq<(int, int)>, n: nat) -> int
    decreases n,
{
    if n == 0 {
        0
    } else {
        let m = fmin_y(pts, (n - 1) as nat);
        if pts[n - 1].1 < m {
            pts[n - 1].1
        } else {
            m
        }
    }
}

/// The maximum of zero and the first `n` x-coordinates.
pub open spec fn fmax_x(pts: Seq<(int, int)>, n: nat) -> int
    decreases n,
{
    if n == 0 {
        0
    } else {
        let m = fmax_x(pts, (n - 1) as nat);
        if pts[n - 1].0 > m {
            pts[n - 1].0
        } else {
            m
        }
    }
}

/// The maximum of zero and the first `n` y-coordinates.
pub open spec fn fmax_y(pts: Seq<(int, int)>, n: nat) -> int
    decreases n,
{
    if n == 0 {
        0
    } else {
        let m = fmax_y(pts, (n - 1) as nat);
        if pts[n - 1].1 > m {
            pts[n - 1].1
        } else {
            m
        }
    }
}

/// The outward normal direction of an edge: the edge direction rotated a
/// quarter turn. Its length is the edge's length; the separating-axis
/// comparisons account for the scale.
pub open spec fn normal_of(d: (int, int)) -> (int, int) {
    (d.1, -d.0)
}

/// The displacement of hull edge `i`, wrapping from the last vertex back
/// to the first.
pub open spec fn edge_delta(pts: Seq<(int, int)>, i: int) -> (int, int) {
    if i + 1 < pts.len() {
        (pts[i + 1].0 - pts[i].0, pts[i + 1].1 - pts[i].1)
    } else {
        (pts[0].0 - pts[i].0, pts[0].1 - pts[i].1)
    }
}

/// The edge normals of a hull: one per edge, in edge order; none for a
/// degenerate hull of fewer than two vertices.
pub open spec fn normals_spec(pts: Seq<(int, int)>) -> Seq<(int, int)> {
    if pts.len() < 2 {
        Seq::empty()
    } else {
        Seq::new(pts.len(), |i: int| normal_of(edge_delta(pts, i)))
    }
}

/// Four non-negative offsets from an entity's origin, together bounding
/// the entity's rotated hull in world space.
#[derive(Debug, Copy, Clone, PartialEq, Eq, Structural)]
pub struct Hitbox {
    pub left: i64,
    pub top: i64,
    pub right: i64,
    pub bottom: i64,
}

impl Hitbox {
    pub open spec fn wf(&self) -> bool {
        &&& 0 <= self.left <= COORD_LIMIT
        &&& 0 <= self.top <= COORD_LIMIT
        &&& 0 <= self.right <= COORD_LIMIT
        &&& 0 <= self.bottom <= COORD_LIMIT
    }
}

/// Derived world-space geometry of one entity: the transformed hull, its
/// hitbox, the candidate separating axes, and the coarse range.
#[derive(Debug, Clone)]
pub struct CollisionData {
    pub hitbox: Hitbox,
    pub convex: Vec<FxPoint>,
    pub normals: Vec<FxPoint>,
    pub range: FxPoint,
}

/// What `CollisionData::new` computes from a source hull, a rotation and
/// a scale: the transformed hull, the bounding offsets (clamped at zero,
/// so they are always non-negative), the per-axis range, and the edge
/// normals of the transformed hull.
pub open spec fn cd_matches(
    cd: CollisionData,
    src: Seq<(int, int)>,
    rot: Rotation,
    sx: int,
    sy: int,
) -> bool {
    let pts = rotated_hull(src, rot.cos_fx as int, rot.sin_fx as int, sx, sy);
    let n = pts.len();
    &&& hull64(cd.convex@) == pts
    &&& cd.hitbox.left == -fmin_x(pts, n)
    &&& cd.hitbox.top == -fmin_y(pts, n)
    &&& cd.hitbox.right == fmax_x(pts, n)
    &&& cd.hitbox.bottom == fmax_y(pts, n)
    &&& cd.range.spec_x() == (if fmax_x(pts, n) >= -fmin_x(pts, n) {
        fmax_x(pts, n)
    } else {
        -fmin_x(pts, n)
    })
    &&& cd.range.spec_y() == (if fmax_y(pts, n) >= -fmin_y(pts, n) {
        fmax_y(pts, n)
    } else {
        -fmin_y(pts, n)
    })
    &&& hull64(cd.normals@) == normals_spec(pts)
}

impl CollisionData {
    /// Every stored coordinate is bounded, so the detector's projection
    /// arithmetic stays in range.
    pub open spec fn wf(&self) -> bool {
        &&& self.hitbox.wf()
        &&& 0 <= self.range.spec_x() <= COORD_LIMIT
        &&& 0 <= self.range.spec_y() <= COORD_LIMIT
        &&& forall|i: int|
            0 <= i < self.convex@.len() ==> {
                &&& -COORD_LIMIT <= (#[trigger] self.convex@[i]).spec_x() <= COORD_LIMIT
                &&& -COORD_LIMIT <= self.convex@[i].spec_y() <= COORD_LIMIT
            }
        &&& forall|i: int|
            0 <= i < self.normals@.len() ==> {
                &&& -2 * COORD_LIMIT <= (#[trigger] self.normals@[i]).spec_x() <= 2 * COORD_LIMIT
                &&& -2 * COORD_LIMIT <= self.normals@[i].spec_y() <= 2 * COORD_LIMIT
            }
    }

    /// Builds the collision geometry of one entity from its sprite's
    /// silhouette, its orientation and its scale.
    #[verifier::loop_isolation(false)]
    pub fn new(sprite_data: &SpriteData, sprite_rotation: Rotation, sprite_scale: FxPoint) -> (r:
        CollisionData)
        requires
            sprite_data.wf(),
            sprite_rotation.wf(),
            -SCALE_LIMIT <= sprite_scale.spec_x() <= SCALE_LIMIT,
            -SCALE_LIMIT <= sprite_scale.spec_y() <= SCALE_LIMIT,
        ensures
            cd_matches(
                r,
                hull64(sprite_data.convex@),
                sprite_rotation,
                sprite_scale.spec_x() as int,
                sprite_scale.spec_y() as int,
            ),
            r.wf(),
    {
        let ghost src = hull64(sprite_data.convex@);
        let ghost c = sprite_rotation.cos_fx as int;
        let ghost s = sprite_rotation.sin_fx as int;
        let ghost sx = sprite_scale.spec_x() as int;
        let ghost sy = sprite_scale.spec_y() as int;
        let ghost pts = rotated_hull(src, c, s, sx, sy);

        let n = sprite_data.convex.len();
        let mut rotated_points: Vec<FxPoint> = Vec::new();
        let mut i: usize = 0;
        while i < n
            invariant
                0 <= i <= n,
                rotated_points@.len() == i,
                forall|k: int|
                    0 <= k < i ==> fxview(#[trigger] rotated_points@[k]) == pts[k],
                forall|k: int|
                    0 <= k < i ==> {
                        &&& -COORD_LIMIT <= (#[trigger] rotated_points@[k]).spec_x() <= COORD_LIMIT
                        &&& -COORD_LIMIT <= rotated_points@[k].spec_y() <= COORD_LIMIT
                    },
            decreases n - i,
        {
            let p = sprite_data.convex[i];
            proof {
                assert(iabs(p.spec_x() as int) * iabs(sx) <= 8_000_000 * 1_000_000)
                    by (nonlinear_arith)
                    requires
                        iabs(p.spec_x() as int) <= 4_000_000,
                        iabs(sx) <= 2_000_000,
                ;
                assert(iabs(p.spec_y() as int) * iabs(sy) <= 8_000_000 * 1_000_000)
                    by (nonlinear_arith)
                    requires
                        iabs(p.spec_y() as int) <= 4_000_000,
                        iabs(sy) <= 2_000_000,
                ;
                lemma_fx_mul_bound(p.spec_x() as int, sx, 8_000_000);
                lemma_fx_mul_bound(p.spec_y() as int, sy, 8_000_000);
            }
            let ax = fx_mul(p.x(), sprite_scale.x());
            let ay = fx_mul(p.y(), sprite_scale.y());
            proof {
                assert(iabs(ax as int) * iabs(c) <= 8_000_000 * 1_000_000) by (nonlinear_arith)
                    requires
                        iabs(ax as int) <= 8_000_000,
                        iabs(c) <= 1_000_000,
                ;
                assert(iabs(ax as int) * iabs(s) <= 8_000_000 * 1_000_000) by (nonlinear_arith)
                    requires
                        iabs(ax as int) <= 8_000_000,
                        iabs(s) <= 1_000_000,
                ;
                assert(iabs(ay as int) * iabs(c) <= 8_000_000 * 1_000_000) by (nonlinear_arith)
                    requires
                        iabs(ay as int) <= 8_000_000,
                        iabs(c) <= 1_000_000,
                ;
                assert(iabs(ay as int) * iabs(s) <= 8_000_000 * 1_000_000) by (nonlinear_arith)
                    requires
                        iabs(ay as int) <= 8_000_000,
                        iabs(s) <= 1_000_000,
                ;
                lemma_fx_mul_bound(ax as int, c, 8_000_000);
                lemma_fx_mul_bound(ax as int, s, 8_000_000);
                lemma_fx_mul_bound(ay as int, c, 8_000_000);
                lemma_fx_mul_bound(ay as int, s, 8_000_000);
            }
            let rx = fx_mul(ax, sprite_rotation.cos_fx) - fx_mul(ay, sprite_rotation.sin_fx);
            let ry = fx_mul(ax, sprite_rotation.sin_fx) + fx_mul(ay, sprite_rotation.cos_fx);
            rotated_points.push(crate::util::Point::new(rx, ry));
            i = i + 1;
        }
        proof {
            assert(hull64(rotated_points@) =~= pts);
        }

        let mut min_x: i64 = 0;
        let mut min_y: i64 = 0;
        let mut max_x: i64 = 0;
        let mut max_y: i64 = 0;
        let mut j: usize = 0;
        while j < n
            invariant
                0 <= j <= n,
                min_x == fmin_x(pts, j as nat),
                min_y == fmin_y(pts, j as nat),
                max_x == fmax_x(pts, j as nat),
                max_y == fmax_y(pts, j as nat),
                -COORD_LIMIT <= min_x <= 0,
                -COORD_LIMIT <= min_y <= 0,
                0 <= max_x <= COORD_LIMIT,
                0 <= max_y <= COORD_LIMIT,
            decreases n - j,
        {
            let p = rotated_points[j];
            if p.x() < min_x {
                min_x = p.x();
            }
            if p.y() < min_y {
                min_y = p.y();
            }
            if p.x() > max_x {
                max_x = p.x();
            }
            if p.y() > max_y {
                max_y = p.y();
            }
            proof {
                assert(pts[j as int] == fxview(rotated_points@[j as int]));
            }
            j = j + 1;
        }

        let normals = compute_normals(&rotated_points);

        let range_x: i64 = if max_x >= -min_x {
            max_x
        } else {
            -min_x
        };
        let range_y: i64 = if max_y >= -min_y {
            max_y
        } else {
            -min_y
        };

        CollisionData {
            hitbox: Hitbox { left: -min_x, top: -min_y, right: max_x, bottom: max_y },
            convex: rotated_points,
            range: crate::util::Point::new(range_x, range_y),
            normals,
        }
    }

    pub fn hitbox(&self) -> (r: &Hitbox)
        ensures
            r == &self.hitbox,
    {
        &self.hitbox
    }
}

/// One outward normal per hull edge; a hull with fewer than two vertices
/// yields none.
#[verifier::loop_isolation(false)]
fn compute_normals(convex: &Vec<FxPoint>) -> (r: Vec<FxPoint>)
    requires
        forall|i: int|
            0 <= i < convex@.len() ==> {
                &&& -COORD_LIMIT <= (#[trigger] convex@[i]).spec_x() <= COORD_LIMIT
                &&& -COORD_LIMIT <= convex@[i].spec_y() <= COORD_LIMIT
            },
    ensures
        hull64(r@) == normals_spec(hull64(convex@)),
        forall|i: int|
            0 <= i < r@.len() ==> {
                &&& -2 * COORD_LIMIT <= (#[trigger] r@[i]).spec_x() <= 2 * COORD_LIMIT
                &&& -2 * COORD_LIMIT <= r@[i].spec_y() <= 2 * COORD_LIMIT
            },
{
    let ghost pts = hull64(convex@);
    let mut result: Vec<FxPoint> = Vec::new();
    let n = convex.len();
    if n < 2 {
        proof {
            assert(hull64(result@) =~= normals_spec(pts));
        }
        return result;
    }
    let mut i: usize = 0;
    while i < n
        invariant
            2 <= n == convex@.len(),
            0 <= i <= n,
            result@.len() == i,
            forall|k: int|
                0 <= k < i ==> fxview(#[trigger] result@[k]) == normal_of(edge_delta(pts, k)),
            forall|k: int|
                0 <= k < i ==> {
                    &&& -2 * COORD_LIMIT <= (#[trigger] result@[k]).spec_x() <= 2 * COORD_LIMIT
                    &&& -2 * COORD_LIMIT <= result@[k].spec_y() <= 2 * COORD_LIMIT
                },
        decreases n - i,
    {
        let cur = convex[i];
        let next = if i + 1 < n {
            convex[i + 1]
        } else {
            convex[0]
        };
        let dx = next.x() - cur.x();
        let dy = next.y() - cur.y();
        result.push(crate::util::Point::new(dy, -dx));
        i = i + 1;
    }
    proof {
        assert(hull64(result@) =~= normals_spec(pts));
    }
    result
}

/// Scaling by one and rotating by zero degrees leaves every hull vertex
/// in place.
pub proof fn lemma_rotation_identity_hull(src: Seq<(int, int)>)
    ensures
        rotated_hull(src, FX_ONE as int, 0, FX_ONE as int, FX_ONE as int) == src,
{
    assert forall|i: int| 0 <= i < src.len() implies scale_rot(
        #[trigger] src[i],
        FX_ONE as int,
        0,
        FX_ONE as int,
        FX_ONE as int,
    ) == src[i] by {
        lemma_fx_mul_one(src[i].0);
        lemma_fx_mul_one(src[i].1);
        lemma_fx_mul_zero(fx_mul_spec(src[i].0, FX_ONE as int));
        lemma_fx_mul_zero(fx_mul_spec(src[i].1, FX_ONE as int));
    }
    assert(rotated_hull(src, FX_ONE as int, 0, FX_ONE as int, FX_ONE as int) =~= src);
}

/// Multiplying by the fixed-point unit is the identity.
proof fn lemma_fx_mul_one(v: int)
    ensures
        fx_mul_spec(v, FX_ONE as int) == v,
{
    let f = FX_ONE as int;
    if v >= 0 {
        vstd::arithmetic::div_mod::lemma_div_by_multiple(v, f);
        assert(v * f == f * v) by (nonlinear_arith);
    } else {
        vstd::arithmetic::div_mod::lemma_div_by_multiple(-v, f);
        assert((-v) * f == f * (-v) && -(v * f) == (-v) * f) by (nonlinear_arith);
    }
}

/// Multiplying by a fixed-point zero gives zero.
proof fn lemma_fx_mul_zero(v: int)
    ensures
        fx_mul_spec(v, 0) == 0,
{
    assert(v * 0 == 0) by (nonlinear_arith);
}

/// Rebuilding collision data is pure: the same silhouette, rotation and
/// scale determine every piece of the derived geometry, with no hidden
/// state.
pub proof fn lemma_build_is_pure(
    cd1: CollisionData,
    cd2: CollisionData,
    src: Seq<(int, int)>,
    rot: Rotation,
    sx: int,
    sy: int,
)
    requires
        cd_matches(cd1, src, rot, sx, sy),
        cd_matches(cd2, src, rot, sx, sy),
    ensures
        cd1.hitbox == cd2.hitbox,
        cd1.range == cd2.range,
        hull64(cd1.convex@) == hull64(cd2.convex@),
        hull64(cd1.normals@) == hull64(cd2.normals@),
{
}

// ---------------------------------------------------------------------------
// The narrow phase
// ---------------------------------------------------------------------------

/// Bound on the projection of any well-formed translated hull point onto
/// any well-formed axis.
pub const PROJ_BOUND: i128 = 2_100_000_000_000_000;

/// An entity's position as a pair of mathematical integers.
pub open spec fn apos(so: SceneObject) -> (int, int) {
    (so.pos.spec_x() as int, so.pos.spec_y() as int)
}

/// An entity's transformed hull.
pub open spec fn hull_pts(so: SceneObject) -> Seq<(int, int)> {
    hull64(so.collision_data.convex@)
}

/// An entity's candidate separating axes.
pub open spec fn norm_pts(so: SceneObject) -> Seq<(int, int)> {
    hull64(so.collision_data.normals@)
}

/// The coarse range filter: on each axis the centers are closer than the
/// summed ranges, loosened by the allowance.
pub open spec fn range_ok(a: SceneObject, b: SceneObject, allow: int) -> bool {
    &&& iabs(a.pos.spec_x() - b.pos.spec_x()) < a.collision_data.range.spec_x()
        + b.collision_data.range.spec_x() + allow
    &&& iabs(a.pos.spec_y() - b.pos.spec_y()) < a.collision_data.range.spec_y()
        + b.collision_data.range.spec_y() + allow
}

/// The hitbox filter: the axis-aligned boxes overlap once one of them is
/// grown by the allowance.
pub open spec fn hitbox_ok(a: SceneObject, b: SceneObject, allow: int) -> bool {
    &&& a.pos.spec_x() + a.collision_data.hitbox.right + allow > b.pos.spec_x()
        - b.collision_data.hitbox.left
    &&& b.pos.spec_x() + b.collision_data.hitbox.right + allow > a.pos.spec_x()
        - a.collision_data.hitbox.left
    &&& a.pos.spec_y() + a.collision_data.hitbox.bottom + allow > b.pos.spec_y()
        - b.collision_data.hitbox.top
    &&& b.pos.spec_y() + b.collision_data.hitbox.bottom + allow > a.pos.spec_y()
        - a.collision_data.hitbox.top
}

/// The projection of a translated hull point onto an axis (scaled by the
/// axis length).
pub open spec fn proj(pos: (int, int), p: (int, int), n: (int, int)) -> int {
    (pos.0 + p.0) * n.0 + (pos.1 + p.1) * n.1
}

/// The least projection of the first `k` hull points (`k >= 1`).
pub open spec fn min_proj(pos: (int, int), pts: Seq<(int, int)>, n: (int, int), k: nat) -> int
    decreases k,
{
    if k <= 1 {
        proj(pos, pts[0], n)
    } else {
        let m = min_proj(pos, pts, n, (k - 1) as nat);
        let p = proj(pos, pts[k - 1], n);
        if p < m {
            p
        } else {
            m
        }
    }
}

/// The greatest projection of the first `k` hull points (`k >= 1`).
pub open spec fn max_proj(pos: (int, int), pts: Seq<(int, int)>, n: (int, int), k: nat) -> int
    decreases k,
{
    if k <= 1 {
        proj(pos, pts[0], n)
    } else {
        let m = max_proj(pos, pts, n, (k - 1) as nat);
        let p = proj(pos, pts[k - 1], n);
        if p > m {
            p
        } else {
            m
        }
    }
}

/// Whether axis `n` separates the two hulls with a true-distance margin
/// greater than the allowance. The projections are scaled by the axis
/// length `|n|`, so the margin comparison squares both sides: a positive
/// scaled gap `g` exceeds `allow * |n|` exactly when `g^2` exceeds
/// `allow^2 * |n|^2`.
pub open spec fn sep_on(a: SceneObject, b: SceneObject, n: (int, int), allow: int) -> bool {
    let amin = min_proj(apos(a), hull_pts(a), n, hull_pts(a).len());
    let amax = max_proj(apos(a), hull_pts(a), n, hull_pts(a).len());
    let bmin = min_proj(apos(b), hull_pts(b), n, hull_pts(b).len());
    let bmax = max_proj(apos(b), hull_pts(b), n, hull_pts(b).len());
    let nn = n.0 * n.0 + n.1 * n.1;
    ||| (bmin - amax > 0 && (bmin - amax) * (bmin - amax) > allow * allow * nn)
    ||| (amin - bmax > 0 && (amin - bmax) * (amin - bmax) > allow * allow * nn)
}

/// The separating-axis outcome: no axis of either hull's normal list
/// separates the two hulls by more than the allowance.
pub open spec fn sat_ok(a: SceneObject, b: SceneObject, allow: int) -> bool {
    &&& forall|i: int|
        0 <= i < norm_pts(a).len() ==> !sep_on(a, b, #[trigger] norm_pts(a)[i], allow)
    &&& forall|i: int|
        0 <= i < norm_pts(b).len() ==> !sep_on(a, b, #[trigger] norm_pts(b)[i], allow)
}

/// The full pairwise test: both entities have a non-degenerate hull
/// (a fully transparent sprite never collides), and the pair passes the
/// range, hitbox and separating-axis filters.
pub open spec fn collides(a: SceneObject, b: SceneObject, allow: int) -> bool {
    &&& hull_pts(a).len() > 0
    &&& hull_pts(b).len() > 0
    &&& range_ok(a, b, allow)
    &&& hitbox_ok(a, b, allow)
    &&& sat_ok(a, b, allow)
}

/// The separating-axis outcome over the union of both hulls' axes does
/// not depend on which entity supplies which axes: the whole pairwise
/// outcome is symmetric.
pub proof fn lemma_collision_symmetric(a: SceneObject, b: SceneObject, allow: int)
    ensures
        sat_ok(a, b, allow) == sat_ok(b, a, allow),
        collides(a, b, allow) == collides(b, a, allow),
{
    assert forall|n: (int, int)| #[trigger] sep_on(a, b, n, allow) == sep_on(b, a, n, allow) by {}
}

/// The projection of one translated point onto an axis.
fn project_point(p: FxPoint, normal: FxPoint) -> (r: i128)
    requires
        -2 * COORD_LIMIT <= p.spec_x() <= 2 * COORD_LIMIT,
        -2 * COORD_LIMIT <= p.spec_y() <= 2 * COORD_LIMIT,
        -2 * COORD_LIMIT <= normal.spec_x() <= 2 * COORD_LIMIT,
        -2 * COORD_LIMIT <= normal.spec_y() <= 2 * COORD_LIMIT,
    ensures
        r == (p.spec_x() as int) * (normal.spec_x() as int) + (p.spec_y() as int) * (
        normal.spec_y() as int),
        -PROJ_BOUND <= r <= PROJ_BOUND,
{
    proof {
        assert((p.spec_x() as int) * (normal.spec_x() as int) <= 1_050_000_000_000_000 && (
        p.spec_x() as int) * (normal.spec_x() as int) >= -1_050_000_000_000_000)
            by (nonlinear_arith)
            requires
                -32_000_000 <= p.spec_x() <= 32_000_000,
                -32_000_000 <= normal.spec_x() <= 32_000_000,
        ;
        assert((p.spec_y() as int) * (normal.spec_y() as int) <= 1_050_000_000_000_000 && (
        p.spec_y() as int) * (normal.spec_y() as int) >= -1_050_000_000_000_000)
            by (nonlinear_arith)
            requires
                -32_000_000 <= p.spec_y() <= 32_000_000,
                -32_000_000 <= normal.spec_y() <= 32_000_000,
        ;
    }
    (p.x() as i128) * (normal.x() as i128) + (p.y() as i128) * (normal.y() as i128)
}

/// The least and greatest projections of an entity's translated hull
/// onto an axis.
#[verifier::loop_isolation(false)]
fn proj_interval(pos: FxPoint, hull: &Vec<FxPoint>, normal: FxPoint) -> (r: (i128, i128))
    requires
        hull@.len() > 0,
        -COORD_LIMIT <= pos.spec_x() <= COORD_LIMIT,
        -COORD_LIMIT <= pos.spec_y() <= COORD_LIMIT,
        forall|i: int|
            0 <= i < hull@.len() ==> {
                &&& -COORD_LIMIT <= (#[trigger] hull@[i]).spec_x() <= COORD_LIMIT
                &&& -COORD_LIMIT <= hull@[i].spec_y() <= COORD_LIMIT
            },
        -2 * COORD_LIMIT <= normal.spec_x() <= 2 * COORD_LIMIT,
        -2 * COORD_LIMIT <= normal.spec_y() <= 2 * COORD_LIMIT,
    ensures
        r.0 == min_proj(
            (pos.spec_x() as int, pos.spec_y() as int),
            hull64(hull@),
            (normal.spec_x() as int, normal.spec_y() as int),
            hull@.len(),
        ),
        r.1 == max_proj(
            (pos.spec_x() as int, pos.spec_y() as int),
            hull64(hull@),
            (normal.spec_x() as int, normal.spec_y() as int),
            hull@.len(),
        ),
        -PROJ_BOUND <= r.0 <= PROJ_BOUND,
        -PROJ_BOUND <= r.1 <= PROJ_BOUND,
{
    let ghost gpos = (pos.spec_x() as int, pos.spec_y() as int);
    let ghost pts = hull64(hull@);
    let ghost gn = (normal.spec_x() as int, normal.spec_y() as int);
    let first = pos.add(hull[0]);
    let p0 = project_point(first, normal);
    let mut lo: i128 = p0;
    let mut hi: i128 = p0;
    let n = hull.len();
    let mut k: usize = 1;
    while k < n
        invariant
            1 <= k <= n,
            lo == min_proj(gpos, pts, gn, k as nat),
            hi == max_proj(gpos, pts, gn, k as nat),
            -PROJ_BOUND <= lo <= PROJ_BOUND,
            -PROJ_BOUND <= hi <= PROJ_BOUND,
        decreases n - k,
    {
        let p = project_point(pos.add(hull[k]), normal);
        if p < lo {
            lo = p;
        }
        if p > hi {
            hi = p;
        }
        k = k + 1;
    }
    (lo, hi)
}

/// The stateless detector: it holds only the allowance, the tolerance
/// by which every filter is loosened so that near-touching entities
/// still register.
#[derive(Copy, Clone, Debug, PartialEq, Eq, Structural)]
pub struct CollisionDetector {
    pub allowance: i64,
}

impl CollisionDetector {
    pub open spec fn wf(&self) -> bool {
        0 <= self.allowance <= COORD_LIMIT
    }

    /// A detector whose allowance is a quarter of a virtual pixel of the
    /// finer axis.
    pub fn new(virtual_dimensions: crate::util::Dimensions) -> (r: CollisionDetector)
        requires
            1 <= virtual_dimensions.spec_x(),
            1 <= virtual_dimensions.spec_y(),
        ensures
            r.allowance == FX_ONE as int / (4 * (if virtual_dimensions.spec_x()
                <= virtual_dimensions.spec_y() {
                virtual_dimensions.spec_x() as int
            } else {
                virtual_dimensions.spec_y() as int
            })),
            r.wf(),
    {
        let side: u32 = if virtual_dimensions.x() <= virtual_dimensions.y() {
            virtual_dimensions.x()
        } else {
            virtual_dimensions.y()
        };
        let allowance: i64 = FX_ONE / (4 * (side as i64));
        proof {
            vstd::arithmetic::div_mod::lemma_div_pos_is_pos(FX_ONE as int, 4 * (side as int));
            vstd::arithmetic::div_mod::lemma_div_is_ordered_by_denominator(
                FX_ONE as int,
                4,
                4 * (side as int),
            );
        }
        CollisionDetector { allowance }
    }

    /// A detector with an explicit allowance, in fixed-point world
    /// units.
    pub fn with_allowance(allowance: i64) -> (r: CollisionDetector)
        requires
            0 <= allowance <= COORD_LIMIT,
        ensures
            r.allowance == allowance,
            r.wf(),
    {
        CollisionDetector { allowance }
    }

    /// The range filter, exactly.
    fn range_collision(&self, a: &SceneObject, b: &SceneObject) -> (r: bool)
        requires
            self.wf(),
            a.wf(),
            b.wf(),
        ensures
            r == range_ok(*a, *b, self.allowance as int),
    {
        let dx = a.pos.x() - b.pos.x();
        let dy = a.pos.y() - b.pos.y();
        let adx = if dx < 0 {
            -dx
        } else {
            dx
        };
        let ady = if dy < 0 {
            -dy
        } else {
            dy
        };
        adx < a.collision_data.range.x() + b.collision_data.range.x() + self.allowance
            && ady < a.collision_data.range.y() + b.collision_data.range.y() + self.allowance
    }

    /// The hitbox filter, exactly.
    fn hitbox_collision(&self, a: &SceneObject, b: &SceneObject) -> (r: bool)
        requires
            self.wf(),
            a.wf(),
            b.wf(),
        ensures
            r == hitbox_ok(*a, *b, self.allowance as int),
    {
        let a_hitbox = a.collision_data.hitbox;
        let b_hitbox = b.collision_data.hitbox;
        a.pos.x() + a_hitbox.right + self.allowance > b.pos.x() - b_hitbox.left && b.pos.x()
            + b_hitbox.right + self.allowance > a.pos.x() - a_hitbox.left && a.pos.y()
            + a_hitbox.bottom + self.allowance > b.pos.y() - b_hitbox.top && b.pos.y()
            + b_hitbox.bottom + self.allowance > a.pos.y() - a_hitbox.top
    }

    /// The separating-axis filter, exactly: scans the axes supplied
    /// by both hulls and reports a collision unless one of them
    /// separates the hulls by more than the allowance.
    #[verifier::loop_isolation(false)]
    fn convex_collision(&self, a: &SceneObject, b: &SceneObject) -> (r: bool)
        requires
            self.wf(),
            a.wf(),
            b.wf(),
            hull_pts(*a).len() > 0,
            hull_pts(*b).len() > 0,
        ensures
            r == sat_ok(*a, *b, self.allowance as int),
    {
        let allow = self.allowance;
        let na = a.collision_data.normals.len();
        let mut i: usize = 0;
        while i < na
            invariant
                0 <= i <= na,
                forall|j: int|
                    0 <= j < i ==> !sep_on(*a, *b, #[trigger] norm_pts(*a)[j], allow as int),
            decreases na - i,
        {
            let n = a.collision_data.normals[i];
            if self.separated_on(a, b, n) {
                proof {
                    assert(sep_on(*a, *b, norm_pts(*a)[i as int], allow as int));
                }
                return false;
            }
            i = i + 1;
        }
        let nb = b.collision_data.normals.len();
        let mut j: usize = 0;
        while j < nb
            invariant
                0 <= j <= nb,
                forall|k: int|
                    0 <= k < j ==> !sep_on(*a, *b, #[trigger] norm_pts(*b)[k], allow as int),
                forall|k: int|
                    0 <= k < na ==> !sep_on(*a, *b, #[trigger] norm_pts(*a)[k], allow as int),
            decreases nb - j,
        {
            let n = b.collision_data.normals[j];
            if self.separated_on(a, b, n) {
                proof {
                    assert(sep_on(*a, *b, norm_pts(*b)[j as int], allow as int));
                }
                return false;
            }
            j = j + 1;
        }
        true
    }

    /// Whether one axis separates the two hulls by more than the
    /// allowance.
    fn separated_on(&self, a: &SceneObject, b: &SceneObject, n: FxPoint) -> (r: bool)
        requires
            self.wf(),
            a.wf(),
            b.wf(),
            hull_pts(*a).len() > 0,
            hull_pts(*b).len() > 0,
            -2 * COORD_LIMIT <= n.spec_x() <= 2 * COORD_LIMIT,
            -2 * COORD_LIMIT <= n.spec_y() <= 2 * COORD_LIMIT,
    ensures
            r == sep_on(*a, *b, (n.spec_x() as int, n.spec_y() as int), self.allowance as int),
    {
        let (a_min, a_max) = proj_interval(a.pos, &a.collision_data.convex, n);
        let (b_min, b_max) = proj_interval(b.pos, &b.collision_data.convex, n);
        proof {
            assert((n.spec_x() as int) * (n.spec_x() as int) <= 1_050_000_000_000_000 && (
            n.spec_x() as int) * (n.spec_x() as int) >= 0) by (nonlinear_arith)
                requires
                    -32_000_000 <= n.spec_x() <= 32_000_000,
            ;
            assert((n.spec_y() as int) * (n.spec_y() as int) <= 1_050_000_000_000_000 && (
            n.spec_y() as int) * (n.spec_y() as int) >= 0) by (nonlinear_arith)
                requires
                    -32_000_000 <= n.spec_y() <= 32_000_000,
            ;
            assert((self.allowance as int) * (self.allowance as int) <= 300_000_000_000_000 && (
            self.allowance as int) * (self.allowance as int) >= 0) by (nonlinear_arith)
                requires
                    0 <= self.allowance <= 16_000_000,
            ;
        }
        let nn: i128 = (n.x() as i128) * (n.x() as i128) + (n.y() as i128) * (n.y() as i128);
        let aa: i128 = (self.allowance as i128) * (self.allowance as i128);
        proof {
            assert((aa as int) * (nn as int) <= 300_000_000_000_000 * 2_100_000_000_000_000 && (
            aa as int) * (nn as int) >= 0) by (nonlinear_arith)
                requires
                    0 <= aa <= 300_000_000_000_000,
                    0 <= nn <= 2_100_000_000_000_000,
            ;
        }
        let threshold: i128 = aa * nn;
        let g1: i128 = b_min - a_max;
        let g2: i128 = a_min - b_max;
        proof {
            assert(g1 * g1 <= (4 * PROJ_BOUND) * PROJ_BOUND && g1 * g1 >= 0) by (nonlinear_arith)
                requires
                    -2 * PROJ_BOUND <= g1 <= 2 * PROJ_BOUND,
            ;
            assert(g2 * g2 <= (4 * PROJ_BOUND) * PROJ_BOUND && g2 * g2 >= 0) by (nonlinear_arith)
                requires
                    -2 * PROJ_BOUND <= g2 <= 2 * PROJ_BOUND,
            ;
        }
        (g1 > 0 && g1 * g1 > threshold) || (g2 > 0 && g2 * g2 > threshold)
    }
}

// ---------------------------------------------------------------------------
// The broad phase: a fixed 10x10 grid over the unit square
// ---------------------------------------------------------------------------

/// Cells per grid axis.
pub const SEGMENTS_SIDE: u32 = 10;

/// Total grid cells.
pub const SEGMENTS_COUNT: u32 = 100;

/// Fixed-point width of one grid cell.
pub const CELL_FX: i64 = 100_000;

/// A world coordinate clamped to the unit square.
pub open spec fn clamp01(v: int) -> int {
    if v < 0 {
        0
    } else if v > FX_ONE {
        FX_ONE as int
    } else {
        v
    }
}

/// The grid cell index (0..=9) that a world coordinate falls in, after
/// clamping to the unit square.
pub open spec fn cell_of(v: int) -> int {
    let q = clamp01(v) / (CELL_FX as int);
    if q > 9 {
        9
    } else {
        q
    }
}

proof fn lemma_cell_of_range(v: int)
    ensures
        0 <= cell_of(v) <= 9,
{
    vstd::arithmetic::div_mod::lemma_div_pos_is_pos(clamp01(v), CELL_FX as int);
}

proof fn lemma_cell_of_monotone(u: int, v: int)
    requires
        u <= v,
    ensures
        cell_of(u) <= cell_of(v),
{
    vstd::arithmetic::div_mod::lemma_div_is_ordered(clamp01(u), clamp01(v), CELL_FX as int);
}

/// Maps a world-space point to the grid cell that holds it.
fn segment_coords(p: FxPoint) -> (r: crate::util::UPoint)
    requires
        -4 * COORD_LIMIT <= p.spec_x() <= 4 * COORD_LIMIT,
        -4 * COORD_LIMIT <= p.spec_y() <= 4 * COORD_LIMIT,
    ensures
        r.spec_x() == cell_of(p.spec_x() as int),
        r.spec_y() == cell_of(p.spec_y() as int),
        r.spec_x() <= 9,
        r.spec_y() <= 9,
{
    proof {
        lemma_cell_of_range(p.spec_x() as int);
        lemma_cell_of_range(p.spec_y() as int);
        vstd::arithmetic::div_mod::lemma_div_pos_is_pos(clamp01(p.spec_x() as int), CELL_FX as int);
        vstd::arithmetic::div_mod::lemma_div_pos_is_pos(clamp01(p.spec_y() as int), CELL_FX as int);
        vstd::arithmetic::div_mod::lemma_div_is_ordered(
            clamp01(p.spec_x() as int),
            FX_ONE as int,
            CELL_FX as int,
        );
        vstd::arithmetic::div_mod::lemma_div_is_ordered(
            clamp01(p.spec_y() as int),
            FX_ONE as int,
            CELL_FX as int,
        );
    }
    let cx: i64 = if p.x() < 0 {
        0
    } else if p.x() > FX_ONE {
        FX_ONE
    } else {
        p.x()
    };
    let cy: i64 = if p.y() < 0 {
        0
    } else if p.y() > FX_ONE {
        FX_ONE
    } else {
        p.y()
    };
    let qx: i64 = cx / CELL_FX;
    let qy: i64 = cy / CELL_FX;
    let rx: u32 = if qx > 9 {
        9
    } else {
        qx as u32
    };
    let ry: u32 = if qy > 9 {
        9
    } else {
        qy as u32
    };
    Point::new(rx, ry)
}

/// The index of a grid cell in the flat bucket array: row-major.
pub fn segment_no(p: crate::util::UPoint) -> (r: u32)
    requires
        p.spec_x() <= 9,
        p.spec_y() <= 9,
    ensures
        r == p.spec_y() * 10 + p.spec_x(),
        r < 100,
{
    p.y() * SEGMENTS_SIDE + p.x()
}

/// The grid-cell span of an entity's hitbox, as inclusive cell bounds.
pub open spec fn span_lo(so: SceneObject) -> (int, int) {
    (
        cell_of(so.pos.spec_x() - so.collision_data.hitbox.left),
        cell_of(so.pos.spec_y() - so.collision_data.hitbox.top),
    )
}

/// See `span_lo`.
pub open spec fn span_hi(so: SceneObject) -> (int, int) {
    (
        cell_of(so.pos.spec_x() + so.collision_data.hitbox.right),
        cell_of(so.pos.spec_y() + so.collision_data.hitbox.bottom),
    )
}

/// Whether the entity's hitbox span covers grid cell `(cx, cy)`.
pub open spec fn covers(so: SceneObject, cx: int, cy: int) -> bool {
    &&& span_lo(so).0 <= cx <= span_hi(so).0
    &&& span_lo(so).1 <= cy <= span_hi(so).1
}

/// The query span: the hitbox span grown by the allowance on every side,
/// so that no pair the allowance-loosened filters could accept is missed
/// by the grid.
pub open spec fn qspan_lo(so: SceneObject, allow: int) -> (int, int) {
    (
        cell_of(so.pos.spec_x() - so.collision_data.hitbox.left - allow),
        cell_of(so.pos.spec_y() - so.collision_data.hitbox.top - allow),
    )
}

/// See `qspan_lo`.
pub open spec fn qspan_hi(so: SceneObject, allow: int) -> (int, int) {
    (
        cell_of(so.pos.spec_x() + so.collision_data.hitbox.right + allow),
        cell_of(so.pos.spec_y() + so.collision_data.hitbox.bottom + allow),
    )
}

/// Whether the entity's allowance-grown span covers grid cell
/// `(cx, cy)`.
pub open spec fn qcovers(so: SceneObject, allow: int, cx: int, cy: int) -> bool {
    &&& qspan_lo(so, allow).0 <= cx <= qspan_hi(so, allow).0
    &&& qspan_lo(so, allow).1 <= cy <= qspan_hi(so, allow).1
}

/// Two entities that pass the hitbox filter share a grid cell: one
/// covered by the first entity's allowance-grown span and by the second
/// entity's plain span. This is why bucketing `b`-entities by their
/// span and querying the grown span of each `a`-entity misses no pair.
pub proof fn lemma_hitbox_shared_cell(a: SceneObject, b: SceneObject, allow: int)
    requires
        a.wf(),
        b.wf(),
        0 <= allow,
        hitbox_ok(a, b, allow),
    ensures
        exists|cx: int, cy: int| #[trigger] qcovers(a, allow, cx, cy) && covers(b, cx, cy),
{
    let a_lo_x = a.pos.spec_x() - a.collision_data.hitbox.left - allow;
    let a_hi_x = a.pos.spec_x() + a.collision_data.hitbox.right + allow;
    let a_lo_y = a.pos.spec_y() - a.collision_data.hitbox.top - allow;
    let a_hi_y = a.pos.spec_y() + a.collision_data.hitbox.bottom + allow;
    let b_lo_x = b.pos.spec_x() - b.collision_data.hitbox.left;
    let b_hi_x = b.pos.spec_x() + b.collision_data.hitbox.right;
    let b_lo_y = b.pos.spec_y() - b.collision_data.hitbox.top;
    let b_hi_y = b.pos.spec_y() + b.collision_data.hitbox.bottom;
    lemma_cell_of_monotone(a_lo_x, a_hi_x);
    lemma_cell_of_monotone(a_lo_y, a_hi_y);
    lemma_cell_of_monotone(b_lo_x, b_hi_x);
    lemma_cell_of_monotone(b_lo_y, b_hi_y);
    lemma_cell_of_monotone(b_lo_x, a_hi_x);
    lemma_cell_of_monotone(a_lo_x, b_hi_x);
    lemma_cell_of_monotone(b_lo_y, a_hi_y);
    lemma_cell_of_monotone(a_lo_y, b_hi_y);
    let cx = if qspan_lo(a, allow).0 >= span_lo(b).0 {
        qspan_lo(a, allow).0
    } else {
        span_lo(b).0
    };
    let cy = if qspan_lo(a, allow).1 >= span_lo(b).1 {
        qspan_lo(a, allow).1
    } else {
        span_lo(b).1
    };
    assert(qcovers(a, allow, cx, cy) && covers(b, cx, cy));
}

/// Enumerates, row by row, the grid cells that an entity's hitbox span
/// covers.
#[derive(Debug)]
pub struct SegmentsIterator {
    from_point: crate::util::UPoint,
    to_point: crate::util::UPoint,
    cur_point: crate::util::UPoint,
}

/// The row-major successor of a cell cursor within a span.
pub open spec fn seg_step(from: (int, int), to: (int, int), cur: (int, int)) -> (int, int) {
    if cur.0 + 1 > to.0 && cur.1 < to.1 {
        (from.0, cur.1 + 1)
    } else {
        (cur.0 + 1, cur.1)
    }
}

impl SegmentsIterator {
    pub closed spec fn spec_from(&self) -> (int, int) {
        (self.from_point.spec_x() as int, self.from_point.spec_y() as int)
    }

    pub closed spec fn spec_to(&self) -> (int, int) {
        (self.to_point.spec_x() as int, self.to_point.spec_y() as int)
    }

    pub closed spec fn spec_cur(&self) -> (int, int) {
        (self.cur_point.spec_x() as int, self.cur_point.spec_y() as int)
    }

    /// The cursor sits inside the span, or one column past the end of
    /// its last row.
    pub open spec fn wf(&self) -> bool {
        &&& 0 <= self.spec_from().0 <= self.spec_to().0 <= 9
        &&& 0 <= self.spec_from().1 <= self.spec_to().1 <= 9
        &&& self.spec_from().0 <= self.spec_cur().0 <= self.spec_to().0 + 1
        &&& self.spec_from().1 <= self.spec_cur().1 <= self.spec_to().1
        &&& self.spec_cur().0 > self.spec_to().0 ==> self.spec_cur().1 == self.spec_to().1
    }

    /// Starts the enumeration at the top-left cell of the entity's
    /// hitbox span.
    pub fn new(so: &SceneObject) -> (r: SegmentsIterator)
        requires
            so.wf(),
        ensures
            r.wf(),
            r.spec_from() == span_lo(*so),
            r.spec_to() == span_hi(*so),
            r.spec_cur() == span_lo(*so),
    {
        let hitbox = so.collision_data.hitbox;
        let from_point = segment_coords(
            Point::new(so.pos.x() - hitbox.left, so.pos.y() - hitbox.top),
        );
        let to_point = segment_coords(
            Point::new(so.pos.x() + hitbox.right, so.pos.y() + hitbox.bottom),
        );
        proof {
            lemma_cell_of_monotone(
                so.pos.spec_x() - hitbox.left as int,
                so.pos.spec_x() + hitbox.right as int,
            );
            lemma_cell_of_monotone(
                so.pos.spec_y() - hitbox.top as int,
                so.pos.spec_y() + hitbox.bottom as int,
            );
        }
        SegmentsIterator { from_point, cur_point: from_point, to_point }
    }

    /// Yields the flat index of the cell under the cursor and moves the
    /// cursor one cell along its row, wrapping to the next row; reports
    /// exhaustion once the cursor has passed the span's last cell.
    pub fn next(&mut self) -> (r: Option<u32>)
        requires
            old(self).wf(),
        ensures
            final(self).wf(),
            final(self).spec_from() == old(self).spec_from(),
            final(self).spec_to() == old(self).spec_to(),
            (match r {
                Option::None => {
                    &&& old(self).spec_cur().0 > old(self).spec_to().0
                    &&& *final(self) == *old(self)
                },
                Option::Some(c) => {
                    &&& old(self).spec_cur().0 <= old(self).spec_to().0
                    &&& c == old(self).spec_cur().1 * 10 + old(self).spec_cur().0
                    &&& final(self).spec_cur() == seg_step(
                        old(self).spec_from(),
                        old(self).spec_to(),
                        old(self).spec_cur(),
                    )
                },
            }),
    {
        if self.cur_point.x() > self.to_point.x() {
            return None;
        }

        let result = self.cur_point;

        let nx = self.cur_point.x() + 1;
        if nx > self.to_point.x() && self.cur_point.y() < self.to_point.y() {
            self.cur_point = Point::new(self.from_point.x(), self.cur_point.y() + 1);
        } else {
            self.cur_point = Point::new(nx, self.cur_point.y());
        }

        Some(segment_no(result))
    }
}

/// Whether the cell `(cx, cy)` comes strictly before the cursor in
/// row-major order.
pub open spec fn lex_before(cur: (int, int), cx: int, cy: int) -> bool {
    cy < cur.1 || (cy == cur.1 && cx < cur.0)
}

/// Every cell of an entity's hitbox span, as flat indices. Under- or
/// over-registration would break the detector's completeness, so the
/// contract is an exact set description.
#[verifier::loop_isolation(false)]
pub fn segments_of(so: &SceneObject) -> (cells: Vec<u32>)
    requires
        so.wf(),
    ensures
        forall|cx: int, cy: int|
            0 <= cx <= 9 && 0 <= cy <= 9 ==> (cells@.contains((cy * 10 + cx) as u32) <==> #[trigger]
            covers(*so, cx, cy)),
        forall|k: int| 0 <= k < cells@.len() ==> #[trigger] cells@[k] < 100,
{
    let mut cells: Vec<u32> = Vec::new();
    let mut it = SegmentsIterator::new(so);
    let ghost from = it.spec_from();
    let ghost to = it.spec_to();
    let mut done = false;
    while !done
        invariant
            it.wf(),
            it.spec_from() == from,
            it.spec_to() == to,
            from == span_lo(*so),
            to == span_hi(*so),
            forall|cx: int, cy: int|
                0 <= cx <= 9 && 0 <= cy <= 9 ==> (cells@.contains((cy * 10 + cx) as u32)
                    <==> #[trigger] covers(*so, cx, cy) && (lex_before(it.spec_cur(), cx, cy)
                    || done)),
            forall|k: int| 0 <= k < cells@.len() ==> #[trigger] cells@[k] < 100,
            done ==> it.spec_cur().0 > to.0,
        decreases (if done {
            0int
        } else {
            (to.1 - it.spec_cur().1) * 12 + (to.0 + 1 - it.spec_cur().0) + 1
        }),
    {
        let ghost old_cells = cells@;
        let ghost cur = it.spec_cur();
        match it.next() {
            None => {
                done = true;
            },
            Some(c) => {
                cells.push(c);
                proof {
                    assert forall|x: u32| #[trigger]
                        cells@.contains(x) <==> (old_cells.contains(x) || x == c) by {
                        lemma_push_contains(old_cells, c, x);
                    }
                    assert forall|cx: int, cy: int|
                        0 <= cx <= 9 && 0 <= cy <= 9 && (#[trigger] ((cy * 10 + cx) as u32))
                            == c implies cx == cur.0 && cy == cur.1 by {
                        assert(cy * 10 + cx == cur.1 * 10 + cur.0);
                    }
                }
            },
        }
    }
    cells
}

/// Every entity of a collection is well-formed.
pub open spec fn all_wf(objs: Seq<SceneObject>) -> bool {
    forall|i: int| 0 <= i < objs.len() ==> (#[trigger] objs[i]).wf()
}

/// The grid buckets hold exactly the first `done` entities of `bs`,
/// each filed under every cell its hitbox span covers.
spec fn buckets_wf(buckets: Seq<Vec<usize>>, bs: Seq<SceneObject>, done: int) -> bool {
    &&& buckets.len() == 100
    &&& forall|c: int, jj: usize|
        0 <= c < 100 ==> ((#[trigger] buckets[c]@.contains(jj)) <==> (jj < done && covers(
            bs[jj as int],
            c % 10,
            c / 10,
        )))
}

/// Mid-registration shape of the buckets: entities before `j` fully
/// filed, entity `j` filed exactly in the cells before the row-major
/// cursor `(ccx, ccy)`.
spec fn buckets_partial(
    buckets: Seq<Vec<usize>>,
    bs: Seq<SceneObject>,
    j: usize,
    ccx: int,
    ccy: int,
) -> bool {
    &&& buckets.len() == 100
    &&& j < bs.len()
    &&& forall|c: int, jj: usize|
        0 <= c < 100 ==> ((#[trigger] buckets[c]@.contains(jj)) <==> ((jj < j && covers(
            bs[jj as int],
            c % 10,
            c / 10,
        )) || (jj == j && covers(bs[j as int], c % 10, c / 10) && lex_before(
            (ccx, ccy),
            c % 10,
            c / 10,
        ))))
}

/// Every reported pair indexes both collections and passes the full
/// pairwise outcome.
pub open spec fn sound_pairs(
    pairs: Seq<(usize, usize)>,
    aseq: Seq<SceneObject>,
    bseq: Seq<SceneObject>,
    allow: int,
) -> bool {
    forall|k: int|
        0 <= k < pairs.len() ==> {
            &&& (#[trigger] pairs[k]).0 < aseq.len()
            &&& pairs[k].1 < bseq.len()
            &&& collides(aseq[pairs[k].0 as int], bseq[pairs[k].1 as int], allow)
        }
}

/// Every colliding pair whose first entity comes before `i` has been
/// reported.
pub open spec fn complete_upto(
    pairs: Seq<(usize, usize)>,
    aseq: Seq<SceneObject>,
    bseq: Seq<SceneObject>,
    allow: int,
    i: int,
) -> bool {
    forall|ii: usize, jj: usize|
        ii < i && jj < bseq.len() && collides(aseq[ii as int], bseq[jj as int], allow)
            ==> #[trigger] pairs.contains((ii, jj))
}

/// Every colliding partner of entity `i` reachable through a grid cell
/// before the row-major cursor has been reported.
spec fn complete_cells(
    pairs: Seq<(usize, usize)>,
    aseq: Seq<SceneObject>,
    bseq: Seq<SceneObject>,
    allow: int,
    i: usize,
    ccx: int,
    ccy: int,
) -> bool {
    forall|jj: usize, cx: int, cy: int|
        jj < bseq.len() && collides(aseq[i as int], bseq[jj as int], allow) && #[trigger] qcovers(
            aseq[i as int],
            allow,
            cx,
            cy,
        ) && #[trigger] covers(bseq[jj as int], cx, cy) && lex_before((ccx, ccy), cx, cy)
            ==> pairs.contains((i, jj))
}

impl CollisionDetector {
    /// Detects every colliding pair between two entity collections.
    ///
    /// Broad phase: each entity of `objects_b` is filed in every grid
    /// cell its hitbox covers; each entity of `objects_a` then queries
    /// only the cells its own hitbox (grown by the allowance) covers.
    /// Narrow phase: a candidate pair must pass the range, hitbox and
    /// separating-axis filters; entities with an empty hull never
    /// collide.
    ///
    /// The result lists each colliding pair `(i, j)` of indices into
    /// `objects_a` and `objects_b` at least once — exactly the pairs
    /// that pass the filters, no more and no fewer. A pair whose shapes
    /// span several shared cells may be listed more than once; callers
    /// that count hits rather than flag them must deduplicate.
    #[verifier::loop_isolation(false)]
    pub fn detect_collisions(
        &self,
        objects_a: &Vec<SceneObject>,
        objects_b: &Vec<SceneObject>,
    ) -> (pairs: Vec<(usize, usize)>)
        requires
            self.wf(),
            all_wf(objects_a@),
            all_wf(objects_b@),
        ensures
            sound_pairs(pairs@, objects_a@, objects_b@, self.allowance as int),
            complete_upto(
                pairs@,
                objects_a@,
                objects_b@,
                self.allowance as int,
                objects_a@.len() as int,
            ),
            forall|i: usize, j: usize|
                #[trigger] pairs@.contains((i, j)) <==> (i < objects_a@.len() && j
                    < objects_b@.len() && collides(
                    objects_a@[i as int],
                    objects_b@[j as int],
                    self.allowance as int,
                )),
    {
        let ghost aseq = objects_a@;
        let ghost bseq = objects_b@;
        let ghost allow = self.allowance as int;

        // The grid, rebuilt from scratch for this call.
        let mut buckets: Vec<Vec<usize>> = Vec::new();
        let mut c0: usize = 0;
        while c0 < 100
            invariant
                0 <= c0 <= 100,
                buckets@.len() == c0,
                forall|c: int| 0 <= c < c0 ==> (#[trigger] buckets@[c]@) =~= Seq::<usize>::empty(),
            decreases 100 - c0,
        {
            buckets.push(Vec::new());
            c0 = c0 + 1;
        }
        proof {
            assert(buckets_wf(buckets@, bseq, 0));
        }

        // Broad phase: file every b-entity under the cells its hitbox
        // span covers.
        let mut j: usize = 0;
        while j < objects_b.len()
            invariant
                0 <= j <= bseq.len(),
                buckets_wf(buckets@, bseq, j as int),
            decreases bseq.len() - j,
        {
            let b = &objects_b[j];
            let hitbox = b.collision_data.hitbox;
            let lo = segment_coords(Point::new(b.pos.x() - hitbox.left, b.pos.y() - hitbox.top));
            let hi = segment_coords(
                Point::new(b.pos.x() + hitbox.right, b.pos.y() + hitbox.bottom),
            );
            proof {
                lemma_cell_of_monotone(
                    b.pos.spec_x() - hitbox.left as int,
                    b.pos.spec_x() + hitbox.right as int,
                );
                lemma_cell_of_monotone(
                    b.pos.spec_y() - hitbox.top as int,
                    b.pos.spec_y() + hitbox.bottom as int,
                );
                assert(buckets_partial(buckets@, bseq, j, lo.spec_x() as int, lo.spec_y() as int));
            }
            let mut cy: u32 = lo.y();
            while cy <= hi.y()
                invariant
                    lo.spec_y() <= cy <= hi.spec_y() + 1,
                    buckets_partial(buckets@, bseq, j, lo.spec_x() as int, cy as int),
                    (lo.spec_x() as int, lo.spec_y() as int) == span_lo(bseq[j as int]),
                    (hi.spec_x() as int, hi.spec_y() as int) == span_hi(bseq[j as int]),
                decreases hi.spec_y() + 1 - cy,
            {
                let mut cx: u32 = lo.x();
                while cx <= hi.x()
                    invariant
                        lo.spec_x() <= cx <= hi.spec_x() + 1,
                        lo.spec_y() <= cy <= hi.spec_y(),
                        buckets_partial(buckets@, bseq, j, cx as int, cy as int),
                        (lo.spec_x() as int, lo.spec_y() as int) == span_lo(bseq[j as int]),
                        (hi.spec_x() as int, hi.spec_y() as int) == span_hi(bseq[j as int]),
                    decreases hi.spec_x() + 1 - cx,
                {
                    let c = (cy * 10 + cx) as usize;
                    proof {
                        vstd::arithmetic::div_mod::lemma_fundamental_div_mod_converse(
                            c as int,
                            10,
                            cy as int,
                            cx as int,
                        );
                    }
                    let ghost old_buckets = buckets@;
                    let bucket = &mut buckets[c];
                    bucket.push(j);
                    proof {
                        assert(buckets@[c as int]@ == old_buckets[c as int]@.push(j));
                        assert forall|c2: int, jj: usize|
                            0 <= c2 < 100 implies ((#[trigger] buckets@[c2]@.contains(jj)) <==> ((jj
                            < j && covers(bseq[jj as int], c2 % 10, c2 / 10)) || (jj == j && covers(
                            bseq[j as int],
                            c2 % 10,
                            c2 / 10,
                        ) && lex_before((cx as int + 1, cy as int), c2 % 10, c2 / 10)))) by {
                            if c2 == c {
                                lemma_push_contains(old_buckets[c2]@, j, jj);
                            } else {
                                assert(buckets@[c2]@ == old_buckets[c2]@);
                            }
                        }
                    }
                    cx = cx + 1;
                }
                proof {
                    assert(buckets_partial(buckets@, bseq, j, lo.spec_x() as int, cy as int + 1));
                }
                cy = cy + 1;
            }
            proof {
                assert(buckets_wf(buckets@, bseq, j as int + 1));
            }
            j = j + 1;
        }

        // Query phase: walk each a-entity's grown span and test the
        // bucketed candidates.
        let mut pairs: Vec<(usize, usize)> = Vec::new();
        let mut i: usize = 0;
        while i < objects_a.len()
            invariant
                0 <= i <= aseq.len(),
                buckets_wf(buckets@, bseq, bseq.len() as int),
                sound_pairs(pairs@, aseq, bseq, allow),
                complete_upto(pairs@, aseq, bseq, allow, i as int),
            decreases aseq.len() - i,
        {
            let a = &objects_a[i];
            let hitbox = a.collision_data.hitbox;
            let qlo = segment_coords(
                Point::new(
                    a.pos.x() - hitbox.left - self.allowance,
                    a.pos.y() - hitbox.top - self.allowance,
                ),
            );
            let qhi = segment_coords(
                Point::new(
                    a.pos.x() + hitbox.right + self.allowance,
                    a.pos.y() + hitbox.bottom + self.allowance,
                ),
            );
            proof {
                lemma_cell_of_monotone(
                    a.pos.spec_x() - hitbox.left as int - allow,
                    a.pos.spec_x() + hitbox.right as int + allow,
                );
                lemma_cell_of_monotone(
                    a.pos.spec_y() - hitbox.top as int - allow,
                    a.pos.spec_y() + hitbox.bottom as int + allow,
                );
            }
            let mut cy: u32 = qlo.y();
            while cy <= qhi.y()
                invariant
                    qlo.spec_y() <= cy <= qhi.spec_y() + 1,
                    sound_pairs(pairs@, aseq, bseq, allow),
                    complete_upto(pairs@, aseq, bseq, allow, i as int),
                    complete_cells(pairs@, aseq, bseq, allow, i, qlo.spec_x() as int, cy as int),
                    (qlo.spec_x() as int, qlo.spec_y() as int) == qspan_lo(aseq[i as int], allow),
                    (qhi.spec_x() as int, qhi.spec_y() as int) == qspan_hi(aseq[i as int], allow),
                decreases qhi.spec_y() + 1 - cy,
            {
                let mut cx: u32 = qlo.x();
                while cx <= qhi.x()
                    invariant
                        qlo.spec_x() <= cx <= qhi.spec_x() + 1,
                        qlo.spec_y() <= cy <= qhi.spec_y(),
                        sound_pairs(pairs@, aseq, bseq, allow),
                        complete_upto(pairs@, aseq, bseq, allow, i as int),
                        complete_cells(pairs@, aseq, bseq, allow, i, cx as int, cy as int),
                        (qlo.spec_x() as int, qlo.spec_y() as int) == qspan_lo(
                            aseq[i as int],
                            allow,
                        ),
                        (qhi.spec_x() as int, qhi.spec_y() as int) == qspan_hi(
                            aseq[i as int],
                            allow,
                        ),
                    decreases qhi.spec_x() + 1 - cx,
                {
                    let c = (cy * 10 + cx) as usize;
                    proof {
                        vstd::arithmetic::div_mod::lemma_fundamental_div_mod_converse(
                            c as int,
                            10,
                            cy as int,
                            cx as int,
                        );
                    }
                    let bucket = &buckets[c];
                    let mut t: usize = 0;
                    while t < bucket.len()
                        invariant
                            0 <= t <= bucket@.len(),
                            sound_pairs(pairs@, aseq, bseq, allow),
                            complete_upto(pairs@, aseq, bseq, allow, i as int),
                            complete_cells(pairs@, aseq, bseq, allow, i, cx as int, cy as int),
                            forall|t2: int|
                                0 <= t2 < t ==> ((#[trigger] bucket@[t2]) < bseq.len() && (collides(
                                    aseq[i as int],
                                    bseq[bucket@[t2] as int],
                                    allow,
                                ) ==> pairs@.contains((i, bucket@[t2])))),
                        decreases bucket@.len() - t,
                    {
                        let jb = bucket[t];
                        proof {
                            assert(bucket@.contains(bucket@[t as int]));
                            assert(jb < bseq.len() && covers(
                                bseq[jb as int],
                                c as int % 10,
                                c as int / 10,
                            ));
                        }
                        let b = &objects_b[jb];
                        if a.collision_data.convex.len() > 0 && b.collision_data.convex.len() > 0
                            && self.range_collision(a, b) && self.hitbox_collision(a, b)
                            && self.convex_collision(a, b) {
                            let ghost old_pairs = pairs@;
                            pairs.push((i, jb));
                            proof {
                                assert forall|x: (usize, usize)| #[trigger]
                                    pairs@.contains(x) <==> (old_pairs.contains(x) || x == (
                                    i,
                                    jb,
                                )) by {
                                    lemma_push_contains(old_pairs, (i, jb), x);
                                }
                            }
                        }
                        proof {
                            assert(hull_pts(aseq[i as int]).len()
                                == aseq[i as int].collision_data.convex@.len());
                            assert(hull_pts(bseq[jb as int]).len()
                                == bseq[jb as int].collision_data.convex@.len());
                        }
                        t = t + 1;
                    }
                    proof {
                        assert forall|jj: usize, cx2: int, cy2: int|
                            jj < bseq.len() && collides(aseq[i as int], bseq[jj as int], allow)
                                && #[trigger] qcovers(aseq[i as int], allow, cx2, cy2)
                                && #[trigger] covers(bseq[jj as int], cx2, cy2) && lex_before(
                                (cx as int + 1, cy as int),
                                cx2,
                                cy2,
                            ) implies pairs@.contains((i, jj)) by {
                            if cx2 == cx as int && cy2 == cy as int {
                                assert(buckets@[c as int]@.contains(jj));
                                let t2 = choose|t2: int|
                                    0 <= t2 < bucket@.len() && bucket@[t2] == jj;
                                assert(pairs@.contains((i, bucket@[t2])));
                            } else {
                                assert(lex_before((cx as int, cy as int), cx2, cy2));
                            }
                        }
                    }
                    cx = cx + 1;
                }
                proof {
                    assert forall|jj: usize, cx2: int, cy2: int|
                        jj < bseq.len() && collides(aseq[i as int], bseq[jj as int], allow)
                            && #[trigger] qcovers(aseq[i as int], allow, cx2, cy2) && #[trigger]
                        covers(bseq[jj as int], cx2, cy2) && lex_before(
                            (qlo.spec_x() as int, cy as int + 1),
                            cx2,
                            cy2,
                        ) implies pairs@.contains((i, jj)) by {
                        assert(lex_before((qhi.spec_x() as int + 1, cy as int), cx2, cy2));
                    }
                }
                cy = cy + 1;
            }
            proof {
                assert forall|jj: usize|
                    jj < bseq.len() && collides(aseq[i as int], bseq[jj as int], allow) implies
                    pairs@.contains((i, jj)) by {
                    lemma_hitbox_shared_cell(aseq[i as int], bseq[jj as int], allow);
                    let (cx2, cy2) = choose|cx2: int, cy2: int| #[trigger]
                        qcovers(aseq[i as int], allow, cx2, cy2) && covers(
                            bseq[jj as int],
                            cx2,
                            cy2,
                        );
                    assert(lex_before((qlo.spec_x() as int, qhi.spec_y() as int + 1), cx2, cy2));
                }
            }
            i = i + 1;
        }
        proof {
            assert forall|ii: usize, jb: usize| #[trigger]
                pairs@.contains((ii, jb)) implies (ii < aseq.len() && jb < bseq.len() && collides(
                aseq[ii as int],
                bseq[jb as int],
                allow,
            )) by {
                let k = choose|k: int| 0 <= k < pairs@.len() && pairs@[k] == (ii, jb);
            }
        }
        pairs
    }
}

/// Membership in a sequence extended by one element.
proof fn lemma_push_contains<T>(s: Seq<T>, e: T, x: T)
    ensures
        s.push(e).contains(x) <==> (s.contains(x) || x == e),
{
    if s.contains(x) {
        let i = choose|i: int| 0 <= i < s.len() && s[i] == x;
        assert(s.push(e)[i] == x);
    }
    if x == e {
        assert(s.push(e)[s.len() as int] == x);
    }
    if s.push(e).contains(x) {
        let i = choose|i: int| 0 <= i < s.push(e).len() && s.push(e)[i] == x;
        if i < s.len() {
            assert(s[i] == x);
        }
    }
}

/// Building collision data with no rotation and unit scale makes the
/// hitbox exactly the bounding box of the raw hull, the hull itself
/// unchanged.
pub proof fn lemma_rotation_identity(cd: CollisionData, src: Seq<(int, int)>, rot: Rotation)
    requires
        cd_matches(cd, src, rot, FX_ONE as int, FX_ONE as int),
        rot.cos_fx == FX_ONE,
        rot.sin_fx == 0,
    ensures
        hull64(cd.convex@) == src,
        cd.hitbox.left == -fmin_x(src, src.len()),
        cd.hitbox.top == -fmin_y(src, src.len()),
        cd.hitbox.right == fmax_x(src, src.len()),
        cd.hitbox.bottom == fmax_y(src, src.len()),
{
    lemma_rotation_identity_hull(src);
}

} // verus!
