//! Vector math and the numeric kernel of the rasterizers.
//!
//! Positions are integer pixel coordinates. Positions between pixels arise
//! only as exact rationals (interpolation along a segment), and `round_div`
//! places such a rational on the grid by rounding to the nearest integer,
//! halves away from zero.

use vstd::prelude::*;
use vstd::arithmetic::div_mod::{
    lemma_div_is_ordered, lemma_div_pos_is_pos, lemma_fundamental_div_mod_converse,
};
use vstd::math::{abs, max};

use crate::geometry::{Line, Triangle};

verus! {

/// A 2D point on the pixel grid. A value type with no identity.
#[derive(Clone, Copy, PartialEq, Eq, Structural, Debug)]
pub struct Vec2 {
    pub x: i32,
    pub y: i32,
}

impl Vec2 {
    pub fn new(x: i32, y: i32) -> (v: Self)
        ensures
            v == (Vec2 { x, y }),
    {
        Self { x, y }
    }

    /// Whether the point lies strictly inside the open viewport
    /// `(0, width) x (0, height)`.
    pub fn inside(self, width: i32, height: i32) -> (r: bool)
        ensures
            r == (self.x > 0 && self.y > 0 && self.x < width && self.y < height),
    {
        self.y > 0 && self.x > 0 && self.x < width && self.y < height
    }
}

/// The exact rational `p / q` (with `q > 0`) rounded to the nearest
/// integer, halves away from zero.
pub open spec fn round_div(p: int, q: int) -> int
    recommends
        q > 0,
{
    if p >= 0 {
        (2 * p + q) / (2 * q)
    } else {
        -((2 * -p + q) / (2 * q))
    }
}

/// Rounding an exact multiple of the denominator changes nothing.
pub proof fn lemma_round_div_exact(v: int, q: int)
    requires
        q > 0,
    ensures
        round_div(v * q, q) == v,
{
    if v >= 0 {
        assert(v * q >= 0) by (nonlinear_arith)
            requires
                v >= 0 && q > 0,
        ;
        assert(2 * (v * q) + q == v * (2 * q) + q) by (nonlinear_arith);
        lemma_fundamental_div_mod_converse(v * (2 * q) + q, 2 * q, v, q);
    } else {
        assert(v * q < 0) by (nonlinear_arith)
            requires
                v < 0 && q > 0,
        ;
        assert(2 * -(v * q) + q == (-v) * (2 * q) + q) by (nonlinear_arith);
        lemma_fundamental_div_mod_converse((-v) * (2 * q) + q, 2 * q, -v, q);
    }
}

/// Rounding is monotone in the numerator.
pub proof fn lemma_round_div_ordered(p1: int, p2: int, q: int)
    requires
        q > 0,
        p1 <= p2,
    ensures
        round_div(p1, q) <= round_div(p2, q),
{
    if p1 >= 0 {
        lemma_div_is_ordered(2 * p1 + q, 2 * p2 + q, 2 * q);
    } else if p2 < 0 {
        lemma_div_is_ordered(2 * -p2 + q, 2 * -p1 + q, 2 * q);
    } else {
        lemma_div_pos_is_pos(2 * -p1 + q, 2 * q);
        lemma_div_pos_is_pos(2 * p2 + q, 2 * q);
    }
}

/// A rational between two integers rounds to an integer between them.
pub proof fn lemma_round_div_bounds(p: int, q: int, lo: int, hi: int)
    requires
        q > 0,
        lo * q <= p <= hi * q,
    ensures
        lo <= round_div(p, q) <= hi,
{
    lemma_round_div_exact(lo, q);
    lemma_round_div_exact(hi, q);
    lemma_round_div_ordered(lo * q, p, q);
    lemma_round_div_ordered(p, hi * q, q);
}

/// Executable form of `round_div` on wide integers.
pub(crate) fn round_div_wide(p: i128, q: u128) -> (r: i128)
    requires
        0 < q <= 0x10000000000000000,
        -0x10000000000000000000000000 <= p <= 0x10000000000000000000000000,
    ensures
        r == round_div(p as int, q as int),
{
    if p >= 0 {
        let m: u128 = p as u128;
        let d: u128 = (2 * m + q) / (2 * q);
        d as i128
    } else {
        let m: u128 = (-p) as u128;
        let d: u128 = (2 * m + q) / (2 * q);
        -(d as i128)
    }
}

/// Chebyshev distance: the larger of the two per-axis extents. It is the
/// number of grid steps a segment needs so that no axis advances by more
/// than one pixel per step.
pub open spec fn diag_dist(from: Vec2, to: Vec2) -> int {
    max(abs(to.x - from.x) as int, abs(to.y - from.y) as int)
}

/// Get either width or height, depending on which is longer.
pub fn diagonal_distance(from: Vec2, to: Vec2) -> (d: u64)
    ensures
        d == diag_dist(from, to),
        d == 0 <==> from == to,
{
    let dx: i64 = to.x as i64 - from.x as i64;
    let dy: i64 = to.y as i64 - from.y as i64;
    let ax: u64 = if dx < 0 {
        (-dx) as u64
    } else {
        dx as u64
    };
    let ay: u64 = if dy < 0 {
        (-dy) as u64
    } else {
        dy as u64
    };
    if ax >= ay {
        ax
    } else {
        ay
    }
}

/// The signed half-plane term for point `p` against the directed edge
/// `a -> b`: positive or zero when `p` lies on the inclusive "positive"
/// side of the edge, negative otherwise.
pub open spec fn side_val(p: Vec2, a: Vec2, b: Vec2) -> int {
    (p.x - b.x) * (a.y - b.y) - (a.x - b.x) * (p.y - b.y)
}

/// Winding-independent containment: the three edge tests must agree
/// (all on the non-negative side, or all strictly negative). A point
/// exactly on an edge counts as the non-negative side, so boundaries
/// are inclusive.
pub open spec fn in_triangle(p: Vec2, a: Vec2, b: Vec2, c: Vec2) -> bool {
    let s1 = side_val(p, a, b) >= 0;
    let s2 = side_val(p, b, c) >= 0;
    let s3 = side_val(p, c, a) >= 0;
    (s1 && s2 && s3) || (!s1 && !s2 && !s3)
}

/// Widening multiplication, exact in the result type.
pub(crate) fn wide_mul(a: i64, b: i64) -> (r: i128)
    ensures
        r == a * b,
{
    proof {
        assert(-0x8000000000000000 * 0x8000000000000000 <= a * b
            <= 0x8000000000000000 * 0x8000000000000000) by (nonlinear_arith)
            requires
                -0x8000000000000000 <= a < 0x8000000000000000,
                -0x8000000000000000 <= b < 0x8000000000000000,
        ;
    }
    (a as i128) * (b as i128)
}

fn side_of_the_plane(point: Vec2, line: Line) -> (r: bool)
    ensures
        r == (side_val(point, line.a, line.b) >= 0),
{
    let a = line.a;
    let b = line.b;
    let dx1: i64 = point.x as i64 - b.x as i64;
    let dy1: i64 = a.y as i64 - b.y as i64;
    let dx2: i64 = a.x as i64 - b.x as i64;
    let dy2: i64 = point.y as i64 - b.y as i64;
    let t1: i128 = wide_mul(dx1, dy1);
    let t2: i128 = wide_mul(dx2, dy2);
    proof {
        assert(-0x10000000000000000 <= t1 <= 0x10000000000000000 && -0x10000000000000000 <= t2
            <= 0x10000000000000000) by (nonlinear_arith)
            requires
                t1 == dx1 * dy1,
                t2 == dx2 * dy2,
                -0x100000000 <= dx1 <= 0x100000000,
                -0x100000000 <= dy1 <= 0x100000000,
                -0x100000000 <= dx2 <= 0x100000000,
                -0x100000000 <= dy2 <= 0x100000000,
        ;
    }
    t1 - t2 >= 0
}

/// Determine if point is within the triangle formed by its three
/// vertices: if so, the point is on the same side of each of the half
/// planes defined by the edges `a -> b`, `b -> c`, and `c -> a`.
pub fn point_is_in_triangle(point: Vec2, triangle: &Triangle) -> (r: bool)
    ensures
        r == in_triangle(point, triangle.a, triangle.b, triangle.c),
{
    let a = triangle.a;
    let b = triangle.b;
    let c = triangle.c;
    let side1 = side_of_the_plane(point, Line::new(a, b));
    let side2 = side_of_the_plane(point, Line::new(b, c));
    let side3 = side_of_the_plane(point, Line::new(c, a));
    side1 && side2 && side3 || !side1 && !side2 && !side3
}

/// Reversing a directed edge negates its half-plane term.
pub proof fn lemma_side_val_antisymmetric(p: Vec2, a: Vec2, b: Vec2)
    ensures
        side_val(p, a, b) == -side_val(p, b, a),
{
    assert((p.x - b.x) * (a.y - b.y) - (a.x - b.x) * (p.y - b.y) == -((p.x - a.x) * (b.y - a.y)
        - (b.x - a.x) * (p.y - a.y))) by (nonlinear_arith);
}

/// Containment does not depend on which vertex the listing starts at.
pub proof fn law_in_triangle_cyclic(p: Vec2, a: Vec2, b: Vec2, c: Vec2)
    ensures
        in_triangle(p, a, b, c) == in_triangle(p, b, c, a),
{
}

/// For a point strictly off all three edge lines, containment does not
/// depend on the winding direction either. (A point exactly on an edge
/// line is counted on the inclusive side only for the winding at hand,
/// so such points are left out here.)
pub proof fn law_in_triangle_reversal(p: Vec2, a: Vec2, b: Vec2, c: Vec2)
    requires
        side_val(p, a, b) != 0,
        side_val(p, b, c) != 0,
        side_val(p, c, a) != 0,
    ensures
        in_triangle(p, a, b, c) == in_triangle(p, a, c, b),
{
    lemma_side_val_antisymmetric(p, a, c);
    lemma_side_val_antisymmetric(p, c, b);
    lemma_side_val_antisymmetric(p, b, a);
}

} // verus!
