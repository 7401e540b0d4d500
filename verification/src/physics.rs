//! Collision geometry over integer world coordinates: overlap predicates and
//! penetration-resolution vectors between circles and axis-aligned boxes.
//!
//! Coordinates, radii and half-extents are 64-bit integers in an arbitrary
//! world unit, bounded by [`COORD_LIMIT`] so that every squared distance fits
//! the machine word. Radii and half-extents are taken by absolute value
//! before every computation, so negative sizes never produce negative
//! geometry.

use crate::isqrt::{isqrt64, lemma_sqrt_floor_le, lemma_sqrt_floor_mono, lemma_sqrt_floor_square,
    sqrt_floor};
use vstd::arithmetic::div_mod::{lemma_div_is_ordered, lemma_div_multiples_vanish};
use vstd::arithmetic::mul::{lemma_mul_inequality, lemma_mul_is_commutative};
use vstd::prelude::*;

verus! {

/// Largest magnitude a coordinate, radius or half-extent may have.
pub const COORD_LIMIT: i64 = 1_000_000_000;

/// Marker attached to game objects that block movement.
pub struct Solid;

/// A 2D vector of world coordinates.
#[derive(Clone, Copy, Debug, PartialEq, Eq, Structural)]
pub struct Vec2 {
    pub x: i64,
    pub y: i64,
}

/// A positionless shape descriptor: combined with a world position at query
/// time to produce a [`Collider`]. Size fields are per-axis radii
/// (half-extents).
#[derive(Clone, Copy, Debug, PartialEq, Eq, Structural)]
pub enum CollisionBox {
    Circle { radius: i64 },
    AABB { width_radius: i64, height_radius: i64 },
}

/// A positioned shape taking part in one collision query: a circle as center
/// and radius, or an axis-aligned box as center and half-extents.
#[derive(Clone, Copy, Debug, PartialEq, Eq, Structural)]
pub enum Collider {
    Circle(Vec2, i64),
    AABB(Vec2, Vec2),
}

/// Magnitude of `x`.
pub open spec fn abs_val(x: int) -> int {
    if x < 0 {
        -x
    } else {
        x
    }
}

/// `v` lies within the world's coordinate bound.
pub open spec fn in_world(v: int) -> bool {
    -(COORD_LIMIT as int) <= v <= COORD_LIMIT as int
}

/// Squared Euclidean norm.
pub open spec fn norm2(x: int, y: int) -> int {
    x * x + y * y
}

/// Lower bound of the interval covered by center `c` and half-extent `h`.
pub open spec fn bound_min(c: int, h: int) -> int {
    c - abs_val(h)
}

/// Upper bound of the interval covered by center `c` and half-extent `h`.
pub open spec fn bound_max(c: int, h: int) -> int {
    c + abs_val(h)
}

/// `v` clamped to the interval `[lo, hi]`.
pub open spec fn clamp_val(v: int, lo: int, hi: int) -> int {
    if v < lo {
        lo
    } else if v > hi {
        hi
    } else {
        v
    }
}

/// Squared distance from point `(px, py)` to the box of center `bc` and
/// half-extents `bh`: the squared distance to the nearest point of the box.
pub open spec fn dist2_point_box(px: int, py: int, bc: Vec2, bh: Vec2) -> int {
    let qx = clamp_val(px, bound_min(bc.x as int, bh.x as int), bound_max(bc.x as int, bh.x as int));
    let qy = clamp_val(py, bound_min(bc.y as int, bh.y as int), bound_max(bc.y as int, bh.y as int));
    norm2(px - qx, py - qy)
}

/// Two circles overlap: center distance at most the sum of the radii
/// (touching counts).
pub open spec fn circles_overlap(ac: Vec2, ar: i64, bc: Vec2, br: i64) -> bool {
    norm2(bc.x - ac.x, bc.y - ac.y) <= (abs_val(ar as int) + abs_val(br as int)) * (abs_val(
        ar as int,
    ) + abs_val(br as int))
}

/// Two axis-aligned boxes overlap: their intervals meet on both axes
/// (touching counts).
pub open spec fn boxes_overlap(ac: Vec2, ah: Vec2, bc: Vec2, bh: Vec2) -> bool {
    &&& bound_min(ac.x as int, ah.x as int) <= bound_max(bc.x as int, bh.x as int)
    &&& bound_min(bc.x as int, bh.x as int) <= bound_max(ac.x as int, ah.x as int)
    &&& bound_min(ac.y as int, ah.y as int) <= bound_max(bc.y as int, bh.y as int)
    &&& bound_min(bc.y as int, bh.y as int) <= bound_max(ac.y as int, ah.y as int)
}

/// A circle overlaps a box: the circle's center is within radius of the
/// nearest point of the box (touching counts).
pub open spec fn circle_box_overlap(cc: Vec2, r: i64, bc: Vec2, bh: Vec2) -> bool {
    dist2_point_box(cc.x as int, cc.y as int, bc, bh) <= abs_val(r as int) * abs_val(r as int)
}

impl Collider {
    /// Every coordinate, radius and half-extent lies within the world bound.
    pub open spec fn wf(self) -> bool {
        match self {
            Collider::Circle(c, r) => in_world(c.x as int) && in_world(c.y as int) && in_world(
                r as int,
            ),
            Collider::AABB(c, h) => in_world(c.x as int) && in_world(c.y as int) && in_world(
                h.x as int,
            ) && in_world(h.y as int),
        }
    }
}

/// Whether two shapes overlap, case-split by the shape pair; touching counts
/// as overlap in every case.
pub open spec fn spec_collides(a: Collider, b: Collider) -> bool {
    match (a, b) {
        (Collider::Circle(ac, ar), Collider::Circle(bc, br)) => circles_overlap(ac, ar, bc, br),
        (Collider::AABB(ac, ah), Collider::AABB(bc, bh)) => boxes_overlap(ac, ah, bc, bh),
        (Collider::Circle(cc, r), Collider::AABB(bc, bh)) => circle_box_overlap(cc, r, bc, bh),
        (Collider::AABB(bc, bh), Collider::Circle(cc, r)) => circle_box_overlap(cc, r, bc, bh),
    }
}

/// Overlap is order-independent: swapping the two shapes never changes the
/// answer.
pub proof fn lemma_collides_symmetric(a: Collider, b: Collider)
    ensures
        spec_collides(a, b) == spec_collides(b, a),
{
    match (a, b) {
        (Collider::Circle(ac, ar), Collider::Circle(bc, br)) => {
            assert((bc.x - ac.x) * (bc.x - ac.x) == (ac.x - bc.x) * (ac.x - bc.x))
                by (nonlinear_arith);
            assert((bc.y - ac.y) * (bc.y - ac.y) == (ac.y - bc.y) * (ac.y - bc.y))
                by (nonlinear_arith);
        },
        _ => {},
    }
}

/// Magnitude of `x`; exact because the world bound keeps `x` well away from
/// the extreme values.
fn abs64(x: i64) -> (r: i64)
    requires
        x > i64::MIN,
    ensures
        r == abs_val(x as int),
{
    if x < 0 {
        -x
    } else {
        x
    }
}

/// Squared distance between two points whose coordinates are at most
/// `4 * COORD_LIMIT` in magnitude.
fn dist2(ax: i64, ay: i64, bx: i64, by: i64) -> (r: u64)
    requires
        abs_val(ax as int - bx as int) <= 3_000_000_000,
        abs_val(ay as int - by as int) <= 3_000_000_000,
    ensures
        r == norm2(ax as int - bx as int, ay as int - by as int),
{
    let dx: i64 = if ax >= bx {
        ax - bx
    } else {
        bx - ax
    };
    let dy: i64 = if ay >= by {
        ay - by
    } else {
        by - ay
    };
    assert(dx * dx <= 9_000_000_000_000_000_000 && dx * dx == (ax - bx) * (ax - bx))
        by (nonlinear_arith)
        requires
            0 <= dx <= 3_000_000_000 && (dx == ax - bx || dx == bx - ax),
    ;
    assert(dy * dy <= 9_000_000_000_000_000_000 && dy * dy == (ay - by) * (ay - by))
        by (nonlinear_arith)
        requires
            0 <= dy <= 3_000_000_000 && (dy == ay - by || dy == by - ay),
    ;
    (dx as u64) * (dx as u64) + (dy as u64) * (dy as u64)
}

/// `v` clamped to `[lo, hi]`.
fn clamp64(v: i64, lo: i64, hi: i64) -> (r: i64)
    requires
        lo <= hi,
    ensures
        r == clamp_val(v as int, lo as int, hi as int),
{
    if v < lo {
        lo
    } else if v > hi {
        hi
    } else {
        v
    }
}

impl Collider {
    /// Whether this shape overlaps `other`; touching counts. Order of the two
    /// shapes does not matter.
    pub fn does_collide(&self, other: &Collider) -> (r: bool)
        requires
            self.wf(),
            other.wf(),
        ensures
            r == spec_collides(*self, *other),
    {
        match (self, other) {
            (Collider::Circle(ac, ar), Collider::Circle(bc, br)) => {
                let d2 = dist2(bc.x, bc.y, ac.x, ac.y);
                let rsum: i64 = abs64(*ar) + abs64(*br);
                assert(rsum * rsum <= 4_000_000_000_000_000_000) by (nonlinear_arith)
                    requires
                        0 <= rsum <= 2_000_000_000,
                ;
                d2 <= (rsum as u64) * (rsum as u64)
            },
            (Collider::AABB(ac, ah), Collider::AABB(bc, bh)) => {
                let a_hx = abs64(ah.x);
                let a_hy = abs64(ah.y);
                let b_hx = abs64(bh.x);
                let b_hy = abs64(bh.y);
                ac.x - a_hx <= bc.x + b_hx && bc.x - b_hx <= ac.x + a_hx && ac.y - a_hy <= bc.y
                    + b_hy && bc.y - b_hy <= ac.y + a_hy
            },
            (Collider::Circle(cc, r), Collider::AABB(bc, bh)) => circle_box_hit(cc, *r, bc, bh),
            (Collider::AABB(bc, bh), Collider::Circle(cc, r)) => circle_box_hit(cc, *r, bc, bh),
        }
    }
}

/// Sign of an axis displacement; a zero displacement counts as positive.
pub open spec fn axis_sign(d: int) -> int {
    if d >= 0 {
        1
    } else {
        -1
    }
}

/// The magnitude of `delta` scaled by `num / den` and rounded toward zero,
/// keeping `delta`'s sign.
pub open spec fn axis_scale(delta: int, num: int, den: int) -> int {
    if delta >= 0 {
        (delta * num) / den
    } else {
        -(((-delta) * num) / den)
    }
}

/// The point `(px, py)` lies within the box (bounds inclusive).
pub open spec fn point_in_box(px: int, py: int, bc: Vec2, bh: Vec2) -> bool {
    &&& bound_min(bc.x as int, bh.x as int) <= px <= bound_max(bc.x as int, bh.x as int)
    &&& bound_min(bc.y as int, bh.y as int) <= py <= bound_max(bc.y as int, bh.y as int)
}

/// A resolution result as mathematical integers.
pub open spec fn as_model(v: Option<Vec2>) -> Option<(int, int)> {
    match v {
        Some(p) => Some((p.x as int, p.y as int)),
        None => None,
    }
}

/// The same resolution, applied to the other shape.
pub open spec fn negate_candidate(v: Option<(int, int)>) -> Option<(int, int)> {
    match v {
        Some(p) => Some((-p.0, -p.1)),
        None => None,
    }
}

/// Minimum-translation vector between two overlapping circles: along the
/// center-to-center axis from the first toward the second, with magnitude
/// half the overlap depth, so the overlap is split evenly. Concentric
/// circles have no axis; they push along the positive x axis.
pub open spec fn spec_resolve_circles(ac: Vec2, ar: i64, bc: Vec2, br: i64) -> Option<(int, int)> {
    let dx = bc.x - ac.x;
    let dy = bc.y - ac.y;
    let d2 = norm2(dx, dy);
    let rsum = abs_val(ar as int) + abs_val(br as int);
    if d2 > rsum * rsum {
        None
    } else if d2 == 0 {
        Some((rsum / 2, 0))
    } else {
        let d = sqrt_floor(d2);
        Some((axis_scale(dx, rsum - d, 2 * d), axis_scale(dy, rsum - d, 2 * d)))
    }
}

/// Candidate push-out against one axis-aligned segment: from the point of
/// the segment nearest the circle's center toward the center, with magnitude
/// the radius minus the center's distance; `None` where the segment lies
/// outside the circle. A center exactly on the segment has no direction and
/// yields the zero vector.
pub open spec fn edge_candidate(cc: Vec2, r: int, p0: (int, int), p1: (int, int)) -> Option<
    (int, int),
> {
    let lox = if p0.0 <= p1.0 {
        p0.0
    } else {
        p1.0
    };
    let hix = if p0.0 <= p1.0 {
        p1.0
    } else {
        p0.0
    };
    let loy = if p0.1 <= p1.1 {
        p0.1
    } else {
        p1.1
    };
    let hiy = if p0.1 <= p1.1 {
        p1.1
    } else {
        p0.1
    };
    let ex = cc.x - clamp_val(cc.x as int, lox, hix);
    let ey = cc.y - clamp_val(cc.y as int, loy, hiy);
    let e2 = norm2(ex, ey);
    if e2 > r * r {
        None
    } else if e2 == 0 {
        Some((0, 0))
    } else {
        let d = sqrt_floor(e2);
        Some((axis_scale(ex, r - d, d), axis_scale(ey, r - d, d)))
    }
}

/// Of two candidate push-outs, the one of greater squared magnitude; the
/// later wins a tie, matching the scan order of the box edges.
pub open spec fn better_candidate(best: Option<(int, int)>, cand: Option<(int, int)>) -> Option<
    (int, int),
> {
    match (best, cand) {
        (None, _) => cand,
        (_, None) => best,
        (Some(b), Some(c)) => if norm2(c.0, c.1) >= norm2(b.0, b.1) {
            Some(c)
        } else {
            Some(b)
        },
    }
}

/// Push-out for a circle whose center lies inside the box: of the two
/// purely-axial candidates, each sized to carry the center to the nearer
/// edge plus the radius, the shorter one; the vertical wins a tie.
pub open spec fn resolve_inside_box(cc: Vec2, ra: int, bc: Vec2, bh: Vec2) -> Option<(int, int)> {
    let dx = cc.x - bc.x;
    let dy = cc.y - bc.y;
    let px_mag = abs_val(bh.x as int) - abs_val(dx) + ra;
    let py_mag = abs_val(bh.y as int) - abs_val(dy) + ra;
    if px_mag < py_mag {
        Some((axis_sign(dx) * px_mag, 0))
    } else {
        Some((0, axis_sign(dy) * py_mag))
    }
}

/// Push-out for a circle whose center lies outside the box: among the four
/// edges' candidates, the one of greatest magnitude, scanning left, bottom,
/// top, right.
pub open spec fn resolve_outside_box(cc: Vec2, ra: int, bc: Vec2, bh: Vec2) -> Option<(int, int)> {
    let minx = bound_min(bc.x as int, bh.x as int);
    let maxx = bound_max(bc.x as int, bh.x as int);
    let miny = bound_min(bc.y as int, bh.y as int);
    let maxy = bound_max(bc.y as int, bh.y as int);
    better_candidate(
        better_candidate(
            better_candidate(
                better_candidate(None, edge_candidate(cc, ra, (minx, miny), (minx, maxy))),
                edge_candidate(cc, ra, (minx, miny), (maxx, miny)),
            ),
            edge_candidate(cc, ra, (maxx, maxy), (minx, maxy)),
        ),
        edge_candidate(cc, ra, (maxx, maxy), (maxx, miny)),
    )
}

/// Minimum-translation vector to move a circle out of an axis-aligned box;
/// the box is the reference frame.
pub open spec fn spec_resolve_circle_box(cc: Vec2, r: i64, bc: Vec2, bh: Vec2) -> Option<
    (int, int),
> {
    let ra = abs_val(r as int);
    if point_in_box(cc.x as int, cc.y as int, bc, bh) {
        resolve_inside_box(cc, ra, bc, bh)
    } else {
        resolve_outside_box(cc, ra, bc, bh)
    }
}

/// Minimum-translation vector to move `a` out of `b`, or `None` where the
/// shapes do not overlap. Box against box is unsupported and left `None`;
/// [`Collider::collide`] refuses that pair.
pub open spec fn spec_resolve(a: Collider, b: Collider) -> Option<(int, int)> {
    match (a, b) {
        (Collider::Circle(ac, ar), Collider::Circle(bc, br)) => spec_resolve_circles(
            ac,
            ar,
            bc,
            br,
        ),
        (Collider::Circle(cc, r), Collider::AABB(bc, bh)) => spec_resolve_circle_box(cc, r, bc, bh),
        (Collider::AABB(bc, bh), Collider::Circle(cc, r)) => negate_candidate(
            spec_resolve_circle_box(cc, r, bc, bh),
        ),
        (Collider::AABB(_, _), Collider::AABB(_, _)) => None,
    }
}

/// Scaling a value between 0 and the divisor keeps the factor as a bound.
proof fn lemma_scale_le(a: int, b: int, c: int)
    requires
        0 <= a <= c,
        0 <= b,
        1 <= c,
    ensures
        0 <= (a * b) / c <= b,
{
    lemma_mul_inequality(a, c, b);
    lemma_div_is_ordered(a * b, c * b, c);
    lemma_mul_is_commutative(c, b);
    lemma_div_multiples_vanish(b, c);
    assert(a * b >= 0) by (nonlinear_arith)
        requires
            a >= 0 && b >= 0,
    ;
    lemma_div_is_ordered(0, a * b, c);
}

/// Whether a circle overlaps an axis-aligned box, by comparing the squared
/// distance from the center to the nearest box point against the squared
/// radius.
fn circle_box_hit(cc: &Vec2, r: i64, bc: &Vec2, bh: &Vec2) -> (hit: bool)
    requires
        Collider::Circle(*cc, r).wf(),
        Collider::AABB(*bc, *bh).wf(),
    ensures
        hit == circle_box_overlap(*cc, r, *bc, *bh),
{
    let min_x = bc.x - abs64(bh.x);
    let max_x = bc.x + abs64(bh.x);
    let min_y = bc.y - abs64(bh.y);
    let max_y = bc.y + abs64(bh.y);
    let qx = clamp64(cc.x, min_x, max_x);
    let qy = clamp64(cc.y, min_y, max_y);
    let d2 = dist2(cc.x, cc.y, qx, qy);
    let ra = abs64(r);
    assert(ra * ra <= 1_000_000_000_000_000_000) by (nonlinear_arith)
        requires
            0 <= ra <= 1_000_000_000,
    ;
    d2 <= (ra as u64) * (ra as u64)
}

/// Squares do not shrink under a magnitude bound.
proof fn lemma_square_le(a: int, b: int)
    requires
        abs_val(a) <= abs_val(b),
    ensures
        a * a <= b * b,
{
    assert(a * a <= b * b) by (nonlinear_arith)
        requires
            abs_val(a) <= abs_val(b),
    ;
}

/// `delta` scaled by `num / den` on its magnitude, rounded toward zero,
/// keeping its sign. The magnitude may not exceed the divisor, so the result
/// is bounded by the factor.
fn scale_axis(delta: i64, num: u64, den: u64) -> (r: i64)
    requires
        1 <= den <= 6_000_000_000,
        abs_val(delta as int) <= den,
        num <= 2_000_000_000,
    ensures
        r == axis_scale(delta as int, num as int, den as int),
        abs_val(r as int) <= num,
{
    let da: u64 = if delta >= 0 {
        delta as u64
    } else {
        (-delta) as u64
    };
    assert(da * num <= 12_000_000_000_000_000_000) by (nonlinear_arith)
        requires
            0 <= da <= 6_000_000_000 && num <= 2_000_000_000,
    ;
    proof {
        lemma_scale_le(da as int, num as int, den as int);
    }
    let q: u64 = (da * num) / den;
    if delta >= 0 {
        q as i64
    } else {
        -(q as i64)
    }
}

/// Squared length of a vector.
fn len2(v: &Vec2) -> (r: u64)
    requires
        abs_val(v.x as int) <= 3_000_000_000,
        abs_val(v.y as int) <= 3_000_000_000,
    ensures
        r == norm2(v.x as int, v.y as int),
{
    dist2(v.x, v.y, 0, 0)
}

/// Of two candidate push-outs, the one of greater squared magnitude; the
/// later wins a tie.
fn pick_better(best: Option<Vec2>, cand: Option<Vec2>) -> (r: Option<Vec2>)
    requires
        (best matches Some(b) ==> abs_val(b.x as int) <= 3_000_000_000 && abs_val(b.y as int)
            <= 3_000_000_000),
        (cand matches Some(c) ==> abs_val(c.x as int) <= 3_000_000_000 && abs_val(c.y as int)
            <= 3_000_000_000),
    ensures
        as_model(r) == better_candidate(as_model(best), as_model(cand)),
        r == best || r == cand,
{
    match (best, cand) {
        (None, _) => cand,
        (_, None) => best,
        (Some(b), Some(c)) => {
            let lb = len2(&b);
            let lc = len2(&c);
            if lc >= lb {
                cand
            } else {
                best
            }
        },
    }
}

/// The per-axis bounds `[min_x, max_x, min_y, max_y]` covered by a box of
/// the given center and half-extents.
fn aabb_bounds(center: &Vec2, half_extents: &Vec2) -> (r: (i64, i64, i64, i64))
    requires
        Collider::AABB(*center, *half_extents).wf(),
    ensures
        r.0 == bound_min(center.x as int, half_extents.x as int),
        r.1 == bound_max(center.x as int, half_extents.x as int),
        r.2 == bound_min(center.y as int, half_extents.y as int),
        r.3 == bound_max(center.y as int, half_extents.y as int),
{
    let hx = abs64(half_extents.x);
    let hy = abs64(half_extents.y);
    (center.x - hx, center.x + hx, center.y - hy, center.y + hy)
}

/// The four edges of a box, each as an axis-aligned segment, in the scan
/// order left, bottom, top, right.
fn aabb_line_segments(center: &Vec2, half_extents: &Vec2) -> (r: (
    (Vec2, Vec2),
    (Vec2, Vec2),
    (Vec2, Vec2),
    (Vec2, Vec2),
))
    requires
        Collider::AABB(*center, *half_extents).wf(),
    ensures
        ({
            let minx = bound_min(center.x as int, half_extents.x as int);
            let maxx = bound_max(center.x as int, half_extents.x as int);
            let miny = bound_min(center.y as int, half_extents.y as int);
            let maxy = bound_max(center.y as int, half_extents.y as int);
            &&& r.0.0.x == minx && r.0.0.y == miny && r.0.1.x == minx && r.0.1.y == maxy
            &&& r.1.0.x == minx && r.1.0.y == miny && r.1.1.x == maxx && r.1.1.y == miny
            &&& r.2.0.x == maxx && r.2.0.y == maxy && r.2.1.x == minx && r.2.1.y == maxy
            &&& r.3.0.x == maxx && r.3.0.y == maxy && r.3.1.x == maxx && r.3.1.y == miny
        }),
{
    let (min_x, max_x, min_y, max_y) = aabb_bounds(center, half_extents);
    (
        (Vec2 { x: min_x, y: min_y }, Vec2 { x: min_x, y: max_y }),
        (Vec2 { x: min_x, y: min_y }, Vec2 { x: max_x, y: min_y }),
        (Vec2 { x: max_x, y: max_y }, Vec2 { x: min_x, y: max_y }),
        (Vec2 { x: max_x, y: max_y }, Vec2 { x: max_x, y: min_y }),
    )
}

impl Collider {
    /// Candidate push-out of this circle against one axis-aligned segment;
    /// `None` where the segment lies outside the circle.
    fn intersect_circle_line_segment(&self, line_segment: &(Vec2, Vec2)) -> (res: Option<Vec2>)
        requires
            self.wf(),
            self is Circle,
            line_segment.0.x == line_segment.1.x || line_segment.0.y == line_segment.1.y,
            abs_val(line_segment.0.x as int) <= 2_000_000_000,
            abs_val(line_segment.0.y as int) <= 2_000_000_000,
            abs_val(line_segment.1.x as int) <= 2_000_000_000,
            abs_val(line_segment.1.y as int) <= 2_000_000_000,
        ensures
            as_model(res) == edge_candidate(
                self->Circle_0,
                abs_val(self->Circle_1 as int),
                (line_segment.0.x as int, line_segment.0.y as int),
                (line_segment.1.x as int, line_segment.1.y as int),
            ),
            (res matches Some(v) ==> abs_val(v.x as int) <= 1_000_000_000 && abs_val(v.y as int)
                <= 1_000_000_000),
    {
        match self {
            Collider::Circle(c, r) => {
                let ra = abs64(*r);
                let lox = if line_segment.0.x <= line_segment.1.x {
                    line_segment.0.x
                } else {
                    line_segment.1.x
                };
                let hix = if line_segment.0.x <= line_segment.1.x {
                    line_segment.1.x
                } else {
                    line_segment.0.x
                };
                let loy = if line_segment.0.y <= line_segment.1.y {
                    line_segment.0.y
                } else {
                    line_segment.1.y
                };
                let hiy = if line_segment.0.y <= line_segment.1.y {
                    line_segment.1.y
                } else {
                    line_segment.0.y
                };
                let qx = clamp64(c.x, lox, hix);
                let qy = clamp64(c.y, loy, hiy);
                let e2 = dist2(c.x, c.y, qx, qy);
                assert(ra * ra <= 1_000_000_000_000_000_000) by (nonlinear_arith)
                    requires
                        0 <= ra <= 1_000_000_000,
                ;
                if e2 > (ra as u64) * (ra as u64) {
                    None
                } else if e2 == 0 {
                    Some(Vec2 { x: 0, y: 0 })
                } else {
                    let d = isqrt64(e2);
                    let ex = c.x - qx;
                    let ey = c.y - qy;
                    proof {
                        lemma_sqrt_floor_le(e2 as int, ra as int);
                        assert(ex * ex <= e2 && ey * ey <= e2) by (nonlinear_arith)
                            requires
                                e2 == ex * ex + ey * ey,
                        ;
                        assert(ex * ex == abs_val(ex as int) * abs_val(ex as int)
                            && ey * ey == abs_val(ey as int) * abs_val(ey as int))
                            by (nonlinear_arith);
                        lemma_sqrt_floor_mono(ex * ex, e2 as int);
                        lemma_sqrt_floor_mono(ey * ey, e2 as int);
                        lemma_sqrt_floor_square(abs_val(ex as int));
                        lemma_sqrt_floor_square(abs_val(ey as int));
                        if d == 0 {
                            assert(e2 < (0 + 1) * (0 + 1));
                        }
                    }
                    let depth = ra as u64 - d;
                    let vx = scale_axis(ex, depth, d);
                    let vy = scale_axis(ey, depth, d);
                    Some(Vec2 { x: vx, y: vy })
                }
            },
            _ => vstd::pervasive::unreached(),
        }
    }

    /// Minimum-translation vector between two overlapping circles.
    fn collide_circle_circle(&self, other: &Collider) -> (res: Option<Vec2>)
        requires
            self.wf(),
            other.wf(),
            self is Circle,
            other is Circle,
        ensures
            as_model(res) == spec_resolve(*self, *other),
    {
        match (self, other) {
            (Collider::Circle(ac, ar), Collider::Circle(bc, br)) => {
                let d2 = dist2(bc.x, bc.y, ac.x, ac.y);
                let rsum: i64 = abs64(*ar) + abs64(*br);
                assert(rsum * rsum <= 4_000_000_000_000_000_000) by (nonlinear_arith)
                    requires
                        0 <= rsum <= 2_000_000_000,
                ;
                if d2 > (rsum as u64) * (rsum as u64) {
                    None
                } else if d2 == 0 {
                    Some(Vec2 { x: ((rsum as u64) / 2) as i64, y: 0 })
                } else {
                    let d = isqrt64(d2);
                    let dx = bc.x - ac.x;
                    let dy = bc.y - ac.y;
                    proof {
                        lemma_sqrt_floor_le(d2 as int, rsum as int);
                        assert(dx * dx <= d2 && dy * dy <= d2) by (nonlinear_arith)
                            requires
                                d2 == dx * dx + dy * dy,
                        ;
                        assert(dx * dx == abs_val(dx as int) * abs_val(dx as int)
                            && dy * dy == abs_val(dy as int) * abs_val(dy as int))
                            by (nonlinear_arith);
                        lemma_sqrt_floor_mono(dx * dx, d2 as int);
                        lemma_sqrt_floor_mono(dy * dy, d2 as int);
                        lemma_sqrt_floor_square(abs_val(dx as int));
                        lemma_sqrt_floor_square(abs_val(dy as int));
                        if d == 0 {
                            assert(d2 < (0 + 1) * (0 + 1));
                        }
                    }
                    let depth = rsum as u64 - d;
                    let vx = scale_axis(dx, depth, 2 * d);
                    let vy = scale_axis(dy, depth, 2 * d);
                    Some(Vec2 { x: vx, y: vy })
                }
            },
            _ => vstd::pervasive::unreached(),
        }
    }

    /// Minimum-translation vector to move this circle out of the box `other`.
    fn collide_circle_aabb(&self, other: &Collider) -> (res: Option<Vec2>)
        requires
            self.wf(),
            other.wf(),
            self is Circle,
            other is AABB,
        ensures
            as_model(res) == spec_resolve(*self, *other),
            (res matches Some(v) ==> abs_val(v.x as int) <= 2_000_000_000 && abs_val(v.y as int)
                <= 2_000_000_000),
    {
        match (self, other) {
            (Collider::Circle(cc, r), Collider::AABB(bc, bh)) => {
                let ra = abs64(*r);
                let (min_x, max_x, min_y, max_y) = aabb_bounds(bc, bh);
                if min_x <= cc.x && cc.x <= max_x && min_y <= cc.y && cc.y <= max_y {
                    let dx = cc.x - bc.x;
                    let dy = cc.y - bc.y;
                    let px_mag = abs64(bh.x) - abs64(dx) + ra;
                    let py_mag = abs64(bh.y) - abs64(dy) + ra;
                    if px_mag < py_mag {
                        Some(Vec2 { x: if dx >= 0 { px_mag } else { -px_mag }, y: 0 })
                    } else {
                        Some(Vec2 { x: 0, y: if dy >= 0 { py_mag } else { -py_mag } })
                    }
                } else {
                    let segments = aabb_line_segments(bc, bh);
                    let mut best = self.intersect_circle_line_segment(&segments.0);
                    best = pick_better(best, self.intersect_circle_line_segment(&segments.1));
                    best = pick_better(best, self.intersect_circle_line_segment(&segments.2));
                    best = pick_better(best, self.intersect_circle_line_segment(&segments.3));
                    best
                }
            },
            _ => vstd::pervasive::unreached(),
        }
    }

    /// Minimum-translation vector to move this shape out of `other`, or
    /// `None` where the shapes do not overlap. Box against box is
    /// unsupported: detection works ([`Collider::does_collide`]), but no
    /// translation vector is defined for that pair.
    pub fn collide(&self, other: &Collider) -> (res: Option<Vec2>)
        requires
            self.wf(),
            other.wf(),
            !(self is AABB && other is AABB),
        ensures
            as_model(res) == spec_resolve(*self, *other),
            (res is Some) == spec_collides(*self, *other),
    {
        proof {
            lemma_resolve_some_iff_collides(*self, *other);
        }
        match (self, other) {
            (Collider::Circle(_, _), Collider::Circle(_, _)) => self.collide_circle_circle(other),
            (Collider::Circle(_, _), Collider::AABB(_, _)) => self.collide_circle_aabb(other),
            (Collider::AABB(_, _), Collider::Circle(_, _)) => {
                let flipped = other.collide_circle_aabb(self);
                match flipped {
                    Some(v) => Some(Vec2 { x: -v.x, y: -v.y }),
                    None => None,
                }
            },
            (Collider::AABB(_, _), Collider::AABB(_, _)) => vstd::pervasive::unreached(),
        }
    }
}

/// A candidate against an edge whose endpoints lie within the box's bounds
/// puts the circle's center within radius of the box.
proof fn lemma_edge_at_least_clamp(cc: Vec2, ra: int, bc: Vec2, bh: Vec2, p0: (int, int), p1: (
    int,
    int,
))
    requires
        ra >= 0,
        bound_min(bc.x as int, bh.x as int) <= p0.0 <= bound_max(bc.x as int, bh.x as int),
        bound_min(bc.x as int, bh.x as int) <= p1.0 <= bound_max(bc.x as int, bh.x as int),
        bound_min(bc.y as int, bh.y as int) <= p0.1 <= bound_max(bc.y as int, bh.y as int),
        bound_min(bc.y as int, bh.y as int) <= p1.1 <= bound_max(bc.y as int, bh.y as int),
    ensures
        edge_candidate(cc, ra, p0, p1) is Some ==> dist2_point_box(cc.x as int, cc.y as int, bc, bh)
            <= ra * ra,
{
    if edge_candidate(cc, ra, p0, p1) is Some {
        let minx = bound_min(bc.x as int, bh.x as int);
        let maxx = bound_max(bc.x as int, bh.x as int);
        let miny = bound_min(bc.y as int, bh.y as int);
        let maxy = bound_max(bc.y as int, bh.y as int);
        let qx = clamp_val(cc.x as int, minx, maxx);
        let qy = clamp_val(cc.y as int, miny, maxy);
        let lox = if p0.0 <= p1.0 {
            p0.0
        } else {
            p1.0
        };
        let hix = if p0.0 <= p1.0 {
            p1.0
        } else {
            p0.0
        };
        let loy = if p0.1 <= p1.1 {
            p0.1
        } else {
            p1.1
        };
        let hiy = if p0.1 <= p1.1 {
            p1.1
        } else {
            p0.1
        };
        let qex = clamp_val(cc.x as int, lox, hix);
        let qey = clamp_val(cc.y as int, loy, hiy);
        assert(abs_val(cc.x - qx) <= abs_val(cc.x - qex));
        assert(abs_val(cc.y - qy) <= abs_val(cc.y - qey));
        lemma_square_le(cc.x - qx, cc.x - qex);
        lemma_square_le(cc.y - qy, cc.y - qey);
    }
}

/// Where the circle's center is outside the box but within radius of its
/// nearest point, the edge the nearest point lies on yields a candidate.
proof fn lemma_clamp_on_some_edge(cc: Vec2, ra: int, bc: Vec2, bh: Vec2)
    requires
        ra >= 0,
        !point_in_box(cc.x as int, cc.y as int, bc, bh),
        dist2_point_box(cc.x as int, cc.y as int, bc, bh) <= ra * ra,
    ensures
        resolve_outside_box(cc, ra, bc, bh) is Some,
{
    let minx = bound_min(bc.x as int, bh.x as int);
    let maxx = bound_max(bc.x as int, bh.x as int);
    let miny = bound_min(bc.y as int, bh.y as int);
    let maxy = bound_max(bc.y as int, bh.y as int);
    if cc.x > maxx {
        assert(edge_candidate(cc, ra, (maxx, maxy), (maxx, miny)) is Some);
    } else if cc.x < minx {
        assert(edge_candidate(cc, ra, (minx, miny), (minx, maxy)) is Some);
    } else if cc.y > maxy {
        assert(edge_candidate(cc, ra, (maxx, maxy), (minx, maxy)) is Some);
    } else {
        assert(edge_candidate(cc, ra, (minx, miny), (maxx, miny)) is Some);
    }
}

/// A circle-box resolution vector exists exactly where the circle overlaps
/// the box.
proof fn lemma_circle_box_resolve_iff(cc: Vec2, r: i64, bc: Vec2, bh: Vec2)
    ensures
        (spec_resolve_circle_box(cc, r, bc, bh) is Some) == circle_box_overlap(cc, r, bc, bh),
{
    let ra = abs_val(r as int);
    assert(ra * ra >= 0) by (nonlinear_arith)
        requires
            ra >= 0,
    ;
    if !point_in_box(cc.x as int, cc.y as int, bc, bh) {
        let minx = bound_min(bc.x as int, bh.x as int);
        let maxx = bound_max(bc.x as int, bh.x as int);
        let miny = bound_min(bc.y as int, bh.y as int);
        let maxy = bound_max(bc.y as int, bh.y as int);
        let c_left = edge_candidate(cc, ra, (minx, miny), (minx, maxy));
        let c_bottom = edge_candidate(cc, ra, (minx, miny), (maxx, miny));
        let c_top = edge_candidate(cc, ra, (maxx, maxy), (minx, maxy));
        let c_right = edge_candidate(cc, ra, (maxx, maxy), (maxx, miny));
        lemma_edge_at_least_clamp(cc, ra, bc, bh, (minx, miny), (minx, maxy));
        lemma_edge_at_least_clamp(cc, ra, bc, bh, (minx, miny), (maxx, miny));
        lemma_edge_at_least_clamp(cc, ra, bc, bh, (maxx, maxy), (minx, maxy));
        lemma_edge_at_least_clamp(cc, ra, bc, bh, (maxx, maxy), (maxx, miny));
        if resolve_outside_box(cc, ra, bc, bh) is Some {
            assert(c_left is Some || c_bottom is Some || c_top is Some || c_right is Some) by {
                if c_left is None && c_bottom is None && c_top is None && c_right is None {
                    assert(resolve_outside_box(cc, ra, bc, bh) is None);
                }
            }
            assert(circle_box_overlap(cc, r, bc, bh));
        }
        if circle_box_overlap(cc, r, bc, bh) {
            lemma_clamp_on_some_edge(cc, ra, bc, bh);
        }
        assert((spec_resolve_circle_box(cc, r, bc, bh) is Some) == (resolve_outside_box(
            cc,
            ra,
            bc,
            bh,
        ) is Some));
    } else {
        assert(spec_resolve_circle_box(cc, r, bc, bh) is Some);
        assert(0int * 0int == 0) by (nonlinear_arith);
        assert(dist2_point_box(cc.x as int, cc.y as int, bc, bh) == 0);
        assert(circle_box_overlap(cc, r, bc, bh));
    }
}

/// A resolution vector exists exactly where the shapes overlap, for every
/// supported pair: the boolean collision test is the penetration test's
/// success.
pub proof fn lemma_resolve_some_iff_collides(a: Collider, b: Collider)
    requires
        !(a is AABB && b is AABB),
    ensures
        (spec_resolve(a, b) is Some) == spec_collides(a, b),
{
    match (a, b) {
        (Collider::Circle(ac, ar), Collider::Circle(bc, br)) => {
            let rsum = abs_val(ar as int) + abs_val(br as int);
            assert(rsum * rsum >= 0) by (nonlinear_arith)
                requires
                    rsum >= 0,
            ;
        },
        (Collider::Circle(cc, r), Collider::AABB(bc, bh)) => {
            lemma_circle_box_resolve_iff(cc, r, bc, bh);
        },
        (Collider::AABB(bc, bh), Collider::Circle(cc, r)) => {
            lemma_circle_box_resolve_iff(cc, r, bc, bh);
        },
        _ => {},
    }
}

/// For a circle whose center lies inside the box, the resolution is the
/// shorter of the two axis push-outs: a purely axial vector whose magnitude
/// is the minimum of the two candidates, each sized to carry the center to
/// its nearer edge plus the radius (the vertical one at a tie).
pub proof fn lemma_inside_pushout_shorter(cc: Vec2, r: i64, bc: Vec2, bh: Vec2)
    requires
        point_in_box(cc.x as int, cc.y as int, bc, bh),
    ensures
        ({
            let ra = abs_val(r as int);
            let dx = cc.x - bc.x;
            let dy = cc.y - bc.y;
            let px_mag = abs_val(bh.x as int) - abs_val(dx) + ra;
            let py_mag = abs_val(bh.y as int) - abs_val(dy) + ra;
            let shorter = if px_mag < py_mag {
                px_mag
            } else {
                py_mag
            };
            spec_resolve_circle_box(cc, r, bc, bh) matches Some(v) && (v.0 == 0 || v.1 == 0)
                && abs_val(v.0) + abs_val(v.1) == shorter && shorter <= px_mag && shorter <= py_mag
                && (v == (axis_sign(dx) * px_mag, 0int) || v == (0int, axis_sign(dy) * py_mag))
        }),
{
    let ra = abs_val(r as int);
    let dx = cc.x - bc.x;
    let dy = cc.y - bc.y;
    let px_mag = abs_val(bh.x as int) - abs_val(dx) + ra;
    let py_mag = abs_val(bh.y as int) - abs_val(dy) + ra;
    assert(0 <= px_mag && 0 <= py_mag);
    assert(abs_val(axis_sign(dx) * px_mag) == px_mag) by (nonlinear_arith)
        requires
            (axis_sign(dx) == 1 || axis_sign(dx) == -1) && px_mag >= 0,
    ;
    assert(abs_val(axis_sign(dy) * py_mag) == py_mag) by (nonlinear_arith)
        requires
            (axis_sign(dy) == 1 || axis_sign(dy) == -1) && py_mag >= 0,
    ;
}

impl CollisionBox {
    /// The shape of this descriptor, placed at the world position `(x, y)`.
    pub fn to_collider(&self, x: i64, y: i64) -> (c: Collider)
        ensures
            (*self matches CollisionBox::Circle { radius } ==> c == Collider::Circle(
                (Vec2 { x, y }),
                radius,
            )),
            (*self matches CollisionBox::AABB { width_radius, height_radius } ==> c
                == Collider::AABB((Vec2 { x, y }), (Vec2 { x: width_radius, y: height_radius }))),
    {
        match self {
            CollisionBox::Circle { radius } => Collider::Circle(Vec2 { x, y }, *radius),
            CollisionBox::AABB { width_radius, height_radius } => Collider::AABB(
                Vec2 { x, y },
                Vec2 { x: *width_radius, y: *height_radius },
            ),
        }
    }
}

} // verus!
