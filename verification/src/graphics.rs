//! Functions here produce pixels; analytical shapes are in `geometry`.
//!
//! A segment from `a` to `b` is sampled at evenly spaced positions and each
//! sample is rounded onto the pixel grid. The sample at fraction `num / den`
//! of the way has exact coordinates `(a * (den - num) + b * num) / den` per
//! axis, so everything reduces to `round_div`.

use vstd::prelude::*;
use vstd::math::{max, min};

use crate::math::{
    diag_dist, diagonal_distance, lemma_round_div_bounds, lemma_round_div_exact, round_div,
    round_div_wide, Vec2,
};

verus! {

/// Exact linear interpolation from `a0` to `b0` at fraction `num / den`,
/// rounded to the nearest integer (halves away from zero).
pub open spec fn lerp_round(a0: int, b0: int, num: int, den: int) -> int
    recommends
        den > 0,
        0 <= num <= den,
{
    round_div(a0 * (den - num) + b0 * num, den)
}

/// An interpolated sample never rounds outside the interval spanned by the
/// two endpoints.
pub proof fn lemma_lerp_round_bounds(a0: int, b0: int, num: int, den: int)
    requires
        den > 0,
        0 <= num <= den,
    ensures
        min(a0, b0) <= lerp_round(a0, b0, num, den) <= max(a0, b0),
{
    let lo = min(a0, b0);
    let hi = max(a0, b0);
    assert(lo * den <= a0 * (den - num) + b0 * num <= hi * den) by (nonlinear_arith)
        requires
            lo <= a0 <= hi,
            lo <= b0 <= hi,
            0 <= num <= den,
    ;
    lemma_round_div_bounds(a0 * (den - num) + b0 * num, den, lo, hi);
}

/// Interpolating at fraction zero returns the start exactly.
pub proof fn lemma_lerp_round_start(a0: int, b0: int, den: int)
    requires
        den > 0,
    ensures
        lerp_round(a0, b0, 0, den) == a0,
{
    lemma_round_div_exact(a0, den);
}

/// Widening multiplication of a coordinate by a (possibly large)
/// non-negative factor, exact in the result type.
fn coord_mul(a: i32, m: u128) -> (r: i128)
    requires
        m <= 0x10000000000000000,
    ensures
        r == a * m,
        -0x800000000000000000000000 <= r <= 0x800000000000000000000000,
{
    proof {
        assert(-0x800000000000000000000000 <= a * m <= 0x800000000000000000000000)
            by (nonlinear_arith)
            requires
                -0x80000000 <= a <= 0x80000000,
                0 <= m <= 0x10000000000000000,
        ;
    }
    (a as i128) * (m as i128)
}

/// One rounded interpolation step on a single axis.
fn lerp_round_exec(a0: i32, b0: i32, num: u128, den: u128) -> (r: i32)
    requires
        0 < den <= 0x10000000000000000,
        num <= den,
    ensures
        r == lerp_round(a0 as int, b0 as int, num as int, den as int),
{
    let t1: i128 = coord_mul(a0, den - num);
    let t2: i128 = coord_mul(b0, num);
    proof {
        lemma_lerp_round_bounds(a0 as int, b0 as int, num as int, den as int);
    }
    let r128: i128 = round_div_wide(t1 + t2, den);
    r128 as i32
}

/// The `i`-th of the `diag_dist(a, b)` samples of the segment from `a` to
/// `b`: the rounding of the exact position at progress `i / diag_dist`.
pub open spec fn line_point(a: Vec2, b: Vec2, i: int) -> Vec2
    recommends
        0 <= i < diag_dist(a, b),
{
    let n = diag_dist(a, b);
    Vec2 {
        x: lerp_round(a.x as int, b.x as int, i, n) as i32,
        y: lerp_round(a.y as int, b.y as int, i, n) as i32,
    }
}

/// All samples of the segment from `a` to `b`, in order: one per unit of
/// the dominant axis, starting at `a`, stopping short of `b`.
pub open spec fn line_points(a: Vec2, b: Vec2) -> Seq<Vec2> {
    Seq::new(diag_dist(a, b) as nat, |i: int| line_point(a, b, i))
}

/// The first sample of a non-degenerate segment is its start point.
pub proof fn lemma_line_point_start(a: Vec2, b: Vec2)
    requires
        diag_dist(a, b) > 0,
    ensures
        line_point(a, b, 0) == a,
{
    let n = diag_dist(a, b);
    lemma_lerp_round_start(a.x as int, b.x as int, n);
    lemma_lerp_round_start(a.y as int, b.y as int, n);
}

/// No sample of the segment equals the far endpoint: along the dominant
/// axis the samples advance exactly one pixel per step and stop one short.
pub proof fn lemma_line_point_not_endpoint(a: Vec2, b: Vec2, i: int)
    requires
        0 <= i < diag_dist(a, b),
    ensures
        line_point(a, b, i) != b,
{
    let n = diag_dist(a, b);
    if vstd::math::abs(b.x - a.x) == n {
        lemma_dominant_axis_advances(a.x as int, b.x as int, n, i);
        assert(line_point(a, b, i).x != b.x);
    } else {
        assert(vstd::math::abs(b.y - a.y) == n);
        lemma_dominant_axis_advances(a.y as int, b.y as int, n, i);
        assert(line_point(a, b, i).y != b.y);
    }
}

/// On an axis whose extent equals the sample count, sample `i` sits exactly
/// `i` pixels from the start, so it differs from the far end.
proof fn lemma_dominant_axis_advances(a0: int, b0: int, n: int, i: int)
    requires
        0 <= i < n,
        vstd::math::abs(b0 - a0) == n,
    ensures
        lerp_round(a0, b0, i, n) == if b0 >= a0 {
            a0 + i
        } else {
            a0 - i
        },
        lerp_round(a0, b0, i, n) != b0,
{
    if b0 >= a0 {
        assert(b0 - a0 == n);
        assert(a0 * (n - i) + b0 * i == (a0 + i) * n) by (nonlinear_arith)
            requires
                b0 - a0 == n,
        ;
        lemma_round_div_exact(a0 + i, n);
    } else {
        assert(a0 - b0 == n);
        assert(a0 * (n - i) + b0 * i == (a0 - i) * n) by (nonlinear_arith)
            requires
                a0 - b0 == n,
        ;
        lemma_round_div_exact(a0 - i, n);
    }
}

/// Rasterize the segment from `from` to `to`: exactly `diag_dist` points,
/// the first at `from`, and never `to` itself (consumers that need the far
/// endpoint append it explicitly). A degenerate segment yields no points.
pub fn line(from: Vec2, to: Vec2) -> (points: Vec<Vec2>)
    ensures
        points@ == line_points(from, to),
        points@.len() == diag_dist(from, to),
        diag_dist(from, to) > 0 ==> points@[0] == from,
        forall|i: int| 0 <= i < points@.len() ==> points@[i] != to,
{
    let n: u64 = diagonal_distance(from, to);
    let mut points: Vec<Vec2> = Vec::new();
    let mut i: u64 = 0;
    while i < n
        invariant
            n == diag_dist(from, to),
            i <= n,
            points@.len() == i,
            forall|k: int| 0 <= k < i ==> points@[k] == #[trigger] line_points(from, to)[k],
        decreases n - i,
    {
        let x = lerp_round_exec(from.x, to.x, i as u128, n as u128);
        let y = lerp_round_exec(from.y, to.y, i as u128, n as u128);
        points.push(Vec2::new(x, y));
        i = i + 1;
    }
    proof {
        assert(points@ =~= line_points(from, to));
        if diag_dist(from, to) > 0 {
            lemma_line_point_start(from, to);
        }
        assert forall|k: int| 0 <= k < points@.len() implies points@[k] != to by {
            lemma_line_point_not_endpoint(from, to, k);
        }
    }
    points
}

/// A degenerate segment spans no distance and rasterizes to no points at
/// all — not to a single point.
pub proof fn law_line_degenerate(a: Vec2)
    ensures
        diag_dist(a, a) == 0,
        line_points(a, a) =~= Seq::<Vec2>::empty(),
{
}

/// How many samples a dotted segment emits: one every `num / den` units of
/// the dominant axis instead of one per unit.
pub open spec fn dotted_count(a: Vec2, b: Vec2, num: int, den: int) -> int
    recommends
        num > 0,
        den > 0,
{
    diag_dist(a, b) * den / num
}

/// The `i`-th dotted sample: progress `i * num / (diag_dist * den)`.
pub open spec fn dotted_point(a: Vec2, b: Vec2, num: int, den: int, i: int) -> Vec2
    recommends
        num > 0,
        den > 0,
        0 <= i < dotted_count(a, b, num, den),
{
    let bigden = diag_dist(a, b) * den;
    Vec2 {
        x: lerp_round(a.x as int, b.x as int, i * num, bigden) as i32,
        y: lerp_round(a.y as int, b.y as int, i * num, bigden) as i32,
    }
}

/// All samples of a dotted segment, in order.
pub open spec fn dotted_points(a: Vec2, b: Vec2, num: int, den: int) -> Seq<Vec2>
    recommends
        num > 0,
        den > 0,
{
    Seq::new(dotted_count(a, b, num, den) as nat, |i: int| dotted_point(a, b, num, den, i))
}

/// A dotted connector between two points of one row stays on that row:
/// interpolation between equal coordinates is constant, and rounding an
/// integer is the identity.
pub proof fn lemma_dotted_points_row(a: Vec2, b: Vec2, num: int, den: int, i: int)
    requires
        num > 0,
        den > 0,
        a.y == b.y,
        0 <= i < dotted_count(a, b, num, den),
    ensures
        dotted_points(a, b, num, den)[i].y == a.y,
{
    let n = diag_dist(a, b);
    let bigden = n * den;
    if n == 0 {
        assert(n * den == 0) by (nonlinear_arith)
            requires
                n == 0,
        ;
        vstd::arithmetic::div_mod::lemma_fundamental_div_mod_converse(0, num, 0, 0);
        assert(dotted_count(a, b, num, den) == 0);
    }
    assert(bigden > 0) by (nonlinear_arith)
        requires
            n > 0,
            den > 0,
            bigden == n * den,
    ;
    assert(a.y * (bigden - i * num) + b.y * (i * num) == a.y * bigden) by (nonlinear_arith)
        requires
            a.y == b.y,
    ;
    lemma_round_div_exact(a.y as int, bigden);
}

/// Rasterize a sparse segment: points spaced `step_num / step_den` world
/// units apart along the dominant axis rather than one per unit. A
/// fractional step is permitted and yields an irregular, non-repeating
/// spacing once rounded.
pub fn dotted_line(from: Vec2, to: Vec2, step_num: u32, step_den: u32) -> (points: Vec<Vec2>)
    requires
        step_num >= 1,
        step_den >= 1,
    ensures
        points@ == dotted_points(from, to, step_num as int, step_den as int),
        points@.len() == dotted_count(from, to, step_num as int, step_den as int),
        points@.len() > 0 ==> points@[0] == from,
{
    let n: u64 = diagonal_distance(from, to);
    proof {
        assert(n <= 0xffffffff);
        assert(n * step_den <= 0x10000000000000000) by (nonlinear_arith)
            requires
                0 <= n <= 0xffffffff,
                0 < step_den <= 0xffffffff,
        ;
    }
    let bigden: u128 = n as u128 * step_den as u128;
    let count: u128 = bigden / (step_num as u128);
    let mut points: Vec<Vec2> = Vec::new();
    let mut i: u128 = 0;
    proof {
        vstd::arithmetic::div_mod::lemma_fundamental_div_mod(bigden as int, step_num as int);
        vstd::arithmetic::div_mod::lemma_mod_bound(bigden as int, step_num as int);
    }
    while i < count
        invariant
            n == diag_dist(from, to),
            bigden == n * step_den,
            bigden <= 0x10000000000000000,
            count == dotted_count(from, to, step_num as int, step_den as int),
            count * step_num <= bigden,
            1 <= step_num,
            i <= count,
            points@.len() == i,
            forall|k: int|
                0 <= k < i ==> points@[k] == #[trigger] dotted_points(
                    from,
                    to,
                    step_num as int,
                    step_den as int,
                )[k],
        decreases count - i,
    {
        proof {
            assert(i * step_num <= count * step_num) by (nonlinear_arith)
                requires
                    0 <= i < count,
                    step_num >= 1,
            ;
        }
        let num: u128 = i * (step_num as u128);
        let x = lerp_round_exec(from.x, to.x, num, bigden);
        let y = lerp_round_exec(from.y, to.y, num, bigden);
        points.push(Vec2::new(x, y));
        i = i + 1;
    }
    proof {
        assert(points@ =~= dotted_points(from, to, step_num as int, step_den as int));
        if count > 0 {
            assert(bigden > 0);
            lemma_lerp_round_start(from.x as int, to.x as int, bigden as int);
            lemma_lerp_round_start(from.y as int, to.y as int, bigden as int);
        }
    }
    points
}

} // verus!
