//! Analytical forms of shapes: axis-aligned bounds, rectangles, line
//! segments and triangles, together with the grid points they cover.

use vstd::prelude::*;
use vstd::arithmetic::div_mod::lemma_fundamental_div_mod_converse;
use vstd::math::{max, min};

use crate::graphics::{dotted_count, dotted_line, dotted_points, line, line_points};
use crate::math::{diag_dist, in_triangle, point_is_in_triangle, Vec2};

verus! {

/// A non-negative extent in pixels.
#[derive(Clone, Copy, PartialEq, Eq, Structural, Debug)]
pub struct Size {
    pub width: u32,
    pub height: u32,
}

impl Size {
    pub fn new(width: u32, height: u32) -> (s: Self)
        ensures
            s == (Size { width, height }),
    {
        Self { width, height }
    }

    pub fn area(self) -> (a: u32)
        requires
            self.width * self.height <= u32::MAX,
        ensures
            a == self.width * self.height,
    {
        self.width * self.height
    }
}

/// Smallest x coordinate among `points`, or the `i32::MAX` sentinel for an
/// empty set.
pub open spec fn lower_x(points: Seq<Vec2>) -> int
    decreases points.len(),
{
    if points.len() == 0 {
        i32::MAX as int
    } else {
        min(lower_x(points.drop_last()), points.last().x as int)
    }
}

/// Largest x coordinate among `points`, or the `i32::MIN` sentinel for an
/// empty set.
pub open spec fn upper_x(points: Seq<Vec2>) -> int
    decreases points.len(),
{
    if points.len() == 0 {
        i32::MIN as int
    } else {
        max(upper_x(points.drop_last()), points.last().x as int)
    }
}

/// Smallest y coordinate among `points`, or the `i32::MAX` sentinel.
pub open spec fn lower_y(points: Seq<Vec2>) -> int
    decreases points.len(),
{
    if points.len() == 0 {
        i32::MAX as int
    } else {
        min(lower_y(points.drop_last()), points.last().y as int)
    }
}

/// Largest y coordinate among `points`, or the `i32::MIN` sentinel.
pub open spec fn upper_y(points: Seq<Vec2>) -> int
    decreases points.len(),
{
    if points.len() == 0 {
        i32::MIN as int
    } else {
        max(upper_y(points.drop_last()), points.last().y as int)
    }
}

/// The folded bounds always stay within the coordinate type's range.
pub proof fn lemma_bounds_in_range(points: Seq<Vec2>)
    ensures
        i32::MIN <= lower_x(points) <= i32::MAX,
        i32::MIN <= upper_x(points) <= i32::MAX,
        i32::MIN <= lower_y(points) <= i32::MAX,
        i32::MIN <= upper_y(points) <= i32::MAX,
    decreases points.len(),
{
    if points.len() > 0 {
        lemma_bounds_in_range(points.drop_last());
    }
}

/// Every point of the set lies within the four folded bounds.
pub proof fn lemma_bounds_contain(points: Seq<Vec2>, i: int)
    requires
        0 <= i < points.len(),
    ensures
        lower_x(points) <= points[i].x <= upper_x(points),
        lower_y(points) <= points[i].y <= upper_y(points),
    decreases points.len(),
{
    if i < points.len() - 1 {
        lemma_bounds_contain(points.drop_last(), i);
    }
}

/// Each folded bound is attained by some point of a non-empty set: the
/// single-pass fold computes exactly the per-axis minima and maxima.
pub proof fn law_bounds_attained(points: Seq<Vec2>)
    requires
        points.len() > 0,
    ensures
        exists|i: int| 0 <= i < points.len() && (#[trigger] points[i]).x == lower_x(points),
        exists|i: int| 0 <= i < points.len() && (#[trigger] points[i]).x == upper_x(points),
        exists|i: int| 0 <= i < points.len() && (#[trigger] points[i]).y == lower_y(points),
        exists|i: int| 0 <= i < points.len() && (#[trigger] points[i]).y == upper_y(points),
    decreases points.len(),
{
    let last = points.len() - 1;
    if points.len() == 1 {
        assert(points.drop_last().len() == 0);
        assert(lower_x(points.drop_last()) == i32::MAX as int);
        assert(upper_x(points.drop_last()) == i32::MIN as int);
        assert(lower_y(points.drop_last()) == i32::MAX as int);
        assert(upper_y(points.drop_last()) == i32::MIN as int);
        assert(points[0].x == lower_x(points));
        assert(points[0].x == upper_x(points));
        assert(points[0].y == lower_y(points));
        assert(points[0].y == upper_y(points));
    } else {
        law_bounds_attained(points.drop_last());
        if points.last().x as int > lower_x(points.drop_last()) {
            let j = choose|i: int|
                0 <= i < points.drop_last().len() && (#[trigger] points.drop_last()[i]).x
                    == lower_x(points.drop_last());
            assert(points[j].x == lower_x(points));
        } else {
            assert(points[last].x == lower_x(points));
        }
        if (points.last().x as int) < upper_x(points.drop_last()) {
            let j = choose|i: int|
                0 <= i < points.drop_last().len() && (#[trigger] points.drop_last()[i]).x
                    == upper_x(points.drop_last());
            assert(points[j].x == upper_x(points));
        } else {
            assert(points[last].x == upper_x(points));
        }
        if points.last().y as int > lower_y(points.drop_last()) {
            let j = choose|i: int|
                0 <= i < points.drop_last().len() && (#[trigger] points.drop_last()[i]).y
                    == lower_y(points.drop_last());
            assert(points[j].y == lower_y(points));
        } else {
            assert(points[last].y == lower_y(points));
        }
        if (points.last().y as int) < upper_y(points.drop_last()) {
            let j = choose|i: int|
                0 <= i < points.drop_last().len() && (#[trigger] points.drop_last()[i]).y
                    == upper_y(points.drop_last());
            assert(points[j].y == upper_y(points));
        } else {
            assert(points[last].y == upper_y(points));
        }
    }
}

/// Accumulator for a single-pass fold of per-axis minima and maxima over a
/// point set, seeded with sentinels that any real coordinate displaces.
#[derive(Clone, Copy, PartialEq, Eq, Structural, Debug)]
pub struct Bounds {
    pub top: i32,
    pub bottom: i32,
    pub left: i32,
    pub right: i32,
}

impl Default for Bounds {
    fn default() -> (b: Self)
        ensures
            b == (Bounds { top: i32::MAX, bottom: i32::MIN, right: i32::MIN, left: i32::MAX }),
    {
        Self { top: i32::MAX, bottom: i32::MIN, right: i32::MIN, left: i32::MAX }
    }
}

impl Bounds {
    /// Fold the whole point set, starting from the sentinel bounds.
    pub fn wrap(points: &Vec<Vec2>) -> (b: Self)
        ensures
            b.left == lower_x(points@),
            b.right == upper_x(points@),
            b.top == lower_y(points@),
            b.bottom == upper_y(points@),
    {
        let mut bounds = Self::default();
        let mut i: usize = 0;
        while i < points.len()
            invariant
                i <= points.len(),
                bounds.left == lower_x(points@.take(i as int)),
                bounds.right == upper_x(points@.take(i as int)),
                bounds.top == lower_y(points@.take(i as int)),
                bounds.bottom == upper_y(points@.take(i as int)),
            decreases points.len() - i,
        {
            proof {
                assert(points@.take(i + 1).drop_last() =~= points@.take(i as int));
            }
            bounds.wrap_point(points[i]);
            i = i + 1;
        }
        proof {
            assert(points@.take(points@.len() as int) =~= points@);
        }
        bounds
    }

    /// Widen each bound that the point lies beyond. Both bounds of an axis
    /// are examined independently, so the fold computes exact per-axis
    /// minima and maxima (see `law_bounds_attained`).
    pub fn wrap_point(&mut self, point: Vec2)
        ensures
            final (self).right == max(old(self).right as int, point.x as int),
            final (self).left == min(old(self).left as int, point.x as int),
            final (self).top == min(old(self).top as int, point.y as int),
            final (self).bottom == max(old(self).bottom as int, point.y as int),
    {
        let x = point.x;
        let y = point.y;
        if x > self.right {
            self.right = x;
        }
        if x < self.left {
            self.left = x;
        }
        if y < self.top {
            self.top = y;
        }
        if y > self.bottom {
            self.bottom = y;
        }
    }
}

/// An axis-aligned rectangle on the pixel grid. Its `size` counts whole
/// steps between the rounded extremes, so the covered grid is
/// `(width + 1) x (height + 1)` points, both edges inclusive.
#[derive(Clone, Copy, PartialEq, Eq, Structural, Debug)]
pub struct Rect {
    pub origin: Vec2,
    pub size: Size,
}

/// The bounding rectangle of a point set: origin at the per-axis minima,
/// size spanning to the maxima. An empty set keeps the fold's sentinel
/// origin and a zero size.
pub open spec fn rect_bounding(points: Seq<Vec2>) -> Rect {
    let left = lower_x(points);
    let top = lower_y(points);
    let right = upper_x(points);
    let bottom = upper_y(points);
    Rect {
        origin: Vec2 { x: left as i32, y: top as i32 },
        size: Size {
            width: if right >= left {
                (right - left) as u32
            } else {
                0
            },
            height: if bottom >= top {
                (bottom - top) as u32
            } else {
                0
            },
        },
    }
}

/// The grid points a rectangle covers, row by row, both edges of both axes
/// inclusive.
pub open spec fn rect_grid(r: Rect) -> Seq<Vec2> {
    let cols = r.size.width + 1;
    let rows = r.size.height + 1;
    Seq::new(
        (cols * rows) as nat,
        |k: int|
            Vec2 {
                x: (r.origin.x + k % (cols as int)) as i32,
                y: (r.origin.y + k / (cols as int)) as i32,
            },
    )
}

impl Rect {
    pub fn new(pos: Vec2, size: Size) -> (r: Self)
        ensures
            r == (Rect { origin: pos, size }),
    {
        Self { origin: pos, size }
    }

    /// The axis-aligned bounding rectangle of a point set.
    pub fn bounding(points: &Vec<Vec2>) -> (r: Self)
        ensures
            r == rect_bounding(points@),
            points@.len() > 0 ==> r.origin.x == lower_x(points@) && r.origin.y == lower_y(points@)
                && r.origin.x + r.size.width == upper_x(points@) && r.origin.y + r.size.height
                == upper_y(points@),
    {
        let bounds = Bounds::wrap(points);
        proof {
            if points@.len() > 0 {
                lemma_bounds_contain(points@, 0);
            }
        }
        let width: u32 = if bounds.right >= bounds.left {
            (bounds.right as i64 - bounds.left as i64) as u32
        } else {
            0
        };
        let height: u32 = if bounds.bottom >= bounds.top {
            (bounds.bottom as i64 - bounds.top as i64) as u32
        } else {
            0
        };
        let origin = Vec2::new(bounds.left, bounds.top);
        let size = Size::new(width, height);
        Self { origin, size }
    }

    /// Enumerate every grid point within the rectangle, row-major, both the
    /// minimum and maximum edge of both axes included: `(width + 1) *
    /// (height + 1)` points in all.
    pub fn points(&self) -> (points: Vec<Vec2>)
        requires
            (self.size.width + 1) * (self.size.height + 1) <= i32::MAX,
            self.origin.x + self.size.width <= i32::MAX,
            self.origin.y + self.size.height <= i32::MAX,
        ensures
            points@ == rect_grid(*self),
            points@.len() == (self.size.width + 1) * (self.size.height + 1),
    {
        proof {
            assert(self.size.width + 1 <= i32::MAX && self.size.height + 1 <= i32::MAX)
                by (nonlinear_arith)
                requires
                    (self.size.width + 1) * (self.size.height + 1) <= i32::MAX,
                    self.size.width >= 0,
                    self.size.height >= 0,
            ;
        }
        let cols: u32 = self.size.width + 1;
        let rows: u32 = self.size.height + 1;
        let mut points: Vec<Vec2> = Vec::new();
        let mut row: u32 = 0;
        while row < rows
            invariant
                row <= rows,
                cols == self.size.width + 1,
                rows == self.size.height + 1,
                cols * rows <= i32::MAX,
                cols <= i32::MAX,
                rows <= i32::MAX,
                self.origin.x + self.size.width <= i32::MAX,
                self.origin.y + self.size.height <= i32::MAX,
                points@.len() == row * cols,
                forall|k: int|
                    0 <= k < points@.len() ==> points@[k] == #[trigger] rect_grid(*self)[k],
            decreases rows - row,
        {
            let mut col: u32 = 0;
            proof {
                assert(row * cols + cols <= rows * cols) by (nonlinear_arith)
                    requires
                        row < rows,
                        cols > 0,
                ;
            }
            while col < cols
                invariant
                    col <= cols,
                    row < rows,
                    cols == self.size.width + 1,
                    rows == self.size.height + 1,
                    cols * rows <= i32::MAX,
                    cols <= i32::MAX,
                    rows <= i32::MAX,
                    self.origin.x + self.size.width <= i32::MAX,
                    self.origin.y + self.size.height <= i32::MAX,
                    points@.len() == row * cols + col,
                    row * cols + cols <= rows * cols,
                    forall|k: int|
                        0 <= k < points@.len() ==> points@[k] == #[trigger] rect_grid(*self)[k],
                decreases cols - col,
            {
                let k: u32 = row * cols + col;
                let x: i32 = self.origin.x + col as i32;
                let y: i32 = self.origin.y + row as i32;
                proof {
                    assert(cols * rows == rows * cols) by (nonlinear_arith);
                    lemma_fundamental_div_mod_converse(
                        k as int,
                        cols as int,
                        row as int,
                        col as int,
                    );
                }
                points.push(Vec2::new(x, y));
                col = col + 1;
            }
            proof {
                assert((row + 1) * cols == row * cols + cols) by (nonlinear_arith);
            }
            row = row + 1;
        }
        proof {
            assert(rows * cols == cols * rows) by (nonlinear_arith);
            assert(points@ =~= rect_grid(*self));
        }
        points
    }
}

/// A point `p` occurs in a rectangle's grid exactly when both of its
/// coordinates lie within the rectangle's inclusive extent.
pub proof fn lemma_rect_grid_contains(r: Rect, p: Vec2)
    requires
        r.origin.x + r.size.width <= i32::MAX,
        r.origin.y + r.size.height <= i32::MAX,
    ensures
        rect_grid(r).contains(p) <==> (r.origin.x <= p.x <= r.origin.x + r.size.width
            && r.origin.y <= p.y <= r.origin.y + r.size.height),
{
    let cols = r.size.width as int + 1;
    let rows = r.size.height as int + 1;
    if r.origin.x <= p.x <= r.origin.x + r.size.width && r.origin.y <= p.y <= r.origin.y
        + r.size.height {
        let col = p.x - r.origin.x;
        let row = p.y - r.origin.y;
        let k = row * cols + col;
        assert(0 <= k < rows * cols) by (nonlinear_arith)
            requires
                k == row * cols + col,
                0 <= col < cols,
                0 <= row < rows,
        ;
        assert(cols * rows == rows * cols) by (nonlinear_arith);
        lemma_fundamental_div_mod_converse(k, cols, row, col);
        assert(rect_grid(r)[k] == p);
        assert(rect_grid(r).contains(p));
    }
    if rect_grid(r).contains(p) {
        let k = choose|k: int| 0 <= k < rect_grid(r).len() && rect_grid(r)[k] == p;
        assert(0 <= k < cols * rows);
        vstd::arithmetic::div_mod::lemma_mod_bound(k, cols);
        vstd::arithmetic::div_mod::lemma_div_pos_is_pos(k, cols);
        vstd::arithmetic::div_mod::lemma_fundamental_div_mod(k, cols);
        assert(k / cols < rows) by (nonlinear_arith)
            requires
                0 <= k < cols * rows,
                cols > 0,
                k == cols * (k / cols) + k % cols,
                0 <= k % cols,
        ;
    }
}

/// A directed line segment between two points, no normalization.
#[derive(Clone, Copy, PartialEq, Eq, Structural, Debug)]
pub struct Line {
    pub a: Vec2,
    pub b: Vec2,
}

impl Line {
    pub fn new(from: Vec2, to: Vec2) -> (l: Self)
        ensures
            l == (Line { a: from, b: to }),
    {
        Self { a: from, b: to }
    }

    /// Rasterize the segment: one point per unit of the dominant axis.
    pub fn solid(&self) -> (points: Vec<Vec2>)
        ensures
            points@ == line_points(self.a, self.b),
            points@.len() == diag_dist(self.a, self.b),
    {
        line(self.a, self.b)
    }

    /// Rasterize sparsely, one point every `step_num / step_den` units of
    /// the dominant axis.
    pub fn dotted(&self, step_num: u32, step_den: u32) -> (points: Vec<Vec2>)
        requires
            step_num >= 1,
            step_den >= 1,
        ensures
            points@ == dotted_points(self.a, self.b, step_num as int, step_den as int),
            points@.len() == dotted_count(self.a, self.b, step_num as int, step_den as int),
    {
        dotted_line(self.a, self.b, step_num, step_den)
    }
}

/// Three vertices; the winding is not normalized, and consumers tolerate
/// both orientations.
#[derive(Clone, Copy, PartialEq, Eq, Structural, Debug)]
pub struct Triangle {
    pub a: Vec2,
    pub b: Vec2,
    pub c: Vec2,
}

impl Triangle {
    pub fn new(p0: Vec2, p1: Vec2, p2: Vec2) -> (t: Self)
        ensures
            t == (Triangle { a: p0, b: p1, c: p2 }),
    {
        Self { a: p0, b: p1, c: p2 }
    }
}

/// The members of `candidates` that lie inside the triangle `a b c`,
/// keeping the order of `candidates`.
pub open spec fn kept_inside(candidates: Seq<Vec2>, a: Vec2, b: Vec2, c: Vec2) -> Seq<Vec2>
    decreases candidates.len(),
{
    if candidates.len() == 0 {
        Seq::empty()
    } else {
        let rest = kept_inside(candidates.drop_last(), a, b, c);
        if in_triangle(candidates.last(), a, b, c) {
            rest.push(candidates.last())
        } else {
            rest
        }
    }
}

/// A point appears among the kept candidates exactly when it appears among
/// the candidates and lies inside the triangle.
pub proof fn lemma_kept_inside_member(candidates: Seq<Vec2>, a: Vec2, b: Vec2, c: Vec2, p: Vec2)
    ensures
        kept_inside(candidates, a, b, c).contains(p) <==> (candidates.contains(p) && in_triangle(
            p,
            a,
            b,
            c,
        )),
    decreases candidates.len(),
{
    if candidates.len() > 0 {
        lemma_kept_inside_member(candidates.drop_last(), a, b, c, p);
        let rest = kept_inside(candidates.drop_last(), a, b, c);
        let whole = kept_inside(candidates, a, b, c);
        if whole.contains(p) {
            let i = choose|i: int| 0 <= i < whole.len() && whole[i] == p;
            if in_triangle(candidates.last(), a, b, c) && i == whole.len() - 1 {
                assert(p == candidates.last());
                assert(candidates.contains(p));
            } else {
                assert(rest[i] == p);
                assert(rest.contains(p));
            }
        }
        if candidates.contains(p) && in_triangle(p, a, b, c) {
            let i = choose|i: int| 0 <= i < candidates.len() && candidates[i] == p;
            if i == candidates.len() - 1 {
                assert(whole.last() == p);
                assert(whole.contains(p));
            } else {
                assert(candidates.drop_last()[i] == p);
                assert(candidates.drop_last().contains(p));
                assert(rest.contains(p));
                let j = choose|j: int| 0 <= j < rest.len() && rest[j] == p;
                assert(whole[j] == p);
                assert(whole.contains(p));
            }
        }
    }
}

/// The candidates kept inside a triangle do not depend on which vertex the
/// listing starts at.
pub proof fn lemma_kept_inside_cyclic(candidates: Seq<Vec2>, a: Vec2, b: Vec2, c: Vec2)
    ensures
        kept_inside(candidates, a, b, c) == kept_inside(candidates, b, c, a),
    decreases candidates.len(),
{
    if candidates.len() > 0 {
        lemma_kept_inside_cyclic(candidates.drop_last(), a, b, c);
        crate::math::law_in_triangle_cyclic(candidates.last(), a, b, c);
    }
}

/// Strategy-B fill: every grid point of the vertices' bounding rectangle
/// that passes the point-in-triangle test, in row-major order.
pub open spec fn triangle_fill(a: Vec2, b: Vec2, c: Vec2) -> Seq<Vec2> {
    kept_inside(rect_grid(rect_bounding(seq![a, b, c])), a, b, c)
}

impl Triangle {
    /// Outline rasterization: the three edges, each sampled up to but not
    /// including its far endpoint.
    pub fn empty(&self) -> (points: Vec<Vec2>)
        ensures
            points@ == line_points(self.a, self.b) + line_points(self.b, self.c) + line_points(
                self.a,
                self.c,
            ),
    {
        let mut triangle = line(self.a, self.b);
        let mut second = line(self.b, self.c);
        triangle.append(&mut second);
        let mut third = line(self.a, self.c);
        triangle.append(&mut third);
        proof {
            assert(triangle@ =~= line_points(self.a, self.b) + line_points(self.b, self.c)
                + line_points(self.a, self.c));
        }
        triangle
    }

    /// Strategy-B fill (dense, solid): enumerate the bounding rectangle's
    /// grid, both edges inclusive, and keep the points inside the triangle.
    pub fn solid_color(&self) -> (points: Vec<Vec2>)
        requires
            (rect_bounding(seq![self.a, self.b, self.c]).size.width + 1) * (rect_bounding(
                seq![self.a, self.b, self.c],
            ).size.height + 1) <= i32::MAX,
        ensures
            points@ == triangle_fill(self.a, self.b, self.c),
    {
        let verts: Vec<Vec2> = vec![self.a, self.b, self.c];
        proof {
            assert(verts@ =~= seq![self.a, self.b, self.c]);
        }
        let rect = Rect::bounding(&verts);
        proof {
            lemma_bounds_in_range(verts@);
        }
        let grid = rect.points();
        let mut points: Vec<Vec2> = Vec::new();
        let mut i: usize = 0;
        while i < grid.len()
            invariant
                i <= grid@.len(),
                grid@ == rect_grid(rect_bounding(seq![self.a, self.b, self.c])),
                points@ == kept_inside(grid@.take(i as int), self.a, self.b, self.c),
            decreases grid@.len() - i,
        {
            let p = grid[i];
            proof {
                assert(grid@.take(i + 1).drop_last() =~= grid@.take(i as int));
                assert(grid@.take(i + 1).last() == grid@[i as int]);
            }
            if point_is_in_triangle(p, self) {
                points.push(p);
            }
            i = i + 1;
        }
        proof {
            assert(grid@.take(grid@.len() as int) =~= grid@);
        }
        points
    }
}

/// Strategy-B fill emits only grid points of the vertices' bounding
/// rectangle — every emitted point lies within the rectangle's inclusive
/// extent — and only points that pass the containment test.
pub proof fn law_triangle_fill_within_bounding(a: Vec2, b: Vec2, c: Vec2, p: Vec2)
    requires
        triangle_fill(a, b, c).contains(p),
    ensures
        rect_grid(rect_bounding(seq![a, b, c])).contains(p),
        rect_bounding(seq![a, b, c]).origin.x <= p.x <= rect_bounding(seq![a, b, c]).origin.x
            + rect_bounding(seq![a, b, c]).size.width,
        rect_bounding(seq![a, b, c]).origin.y <= p.y <= rect_bounding(seq![a, b, c]).origin.y
            + rect_bounding(seq![a, b, c]).size.height,
        in_triangle(p, a, b, c),
{
    let r = rect_bounding(seq![a, b, c]);
    lemma_kept_inside_member(rect_grid(r), a, b, c, p);
    lemma_bounds_in_range(seq![a, b, c]);
    lemma_bounds_contain(seq![a, b, c], 0);
    lemma_rect_grid_contains(r, p);
}

/// The four folded bounds of a three-point set, written out.
pub proof fn lemma_bounds_three(a: Vec2, b: Vec2, c: Vec2)
    ensures
        lower_x(seq![a, b, c]) == min(min(a.x as int, b.x as int), c.x as int),
        upper_x(seq![a, b, c]) == max(max(a.x as int, b.x as int), c.x as int),
        lower_y(seq![a, b, c]) == min(min(a.y as int, b.y as int), c.y as int),
        upper_y(seq![a, b, c]) == max(max(a.y as int, b.y as int), c.y as int),
{
    let s = seq![a, b, c];
    assert(s.drop_last() =~= seq![a, b]);
    assert(seq![a, b].drop_last() =~= seq![a]);
    assert(seq![a].drop_last() =~= Seq::<Vec2>::empty());
    assert(lower_x(seq![a].drop_last()) == i32::MAX as int);
    assert(upper_x(seq![a].drop_last()) == i32::MIN as int);
    assert(lower_y(seq![a].drop_last()) == i32::MAX as int);
    assert(upper_y(seq![a].drop_last()) == i32::MIN as int);
    assert(lower_x(seq![a]) == a.x as int);
    assert(upper_x(seq![a]) == a.x as int);
    assert(lower_y(seq![a]) == a.y as int);
    assert(upper_y(seq![a]) == a.y as int);
    assert(lower_x(seq![a, b]) == min(a.x as int, b.x as int));
    assert(upper_x(seq![a, b]) == max(a.x as int, b.x as int));
    assert(lower_y(seq![a, b]) == min(a.y as int, b.y as int));
    assert(upper_y(seq![a, b]) == max(a.y as int, b.y as int));
}

/// Strategy-B fill is unchanged by a cyclic renaming of the vertices.
pub proof fn law_triangle_fill_cyclic(a: Vec2, b: Vec2, c: Vec2)
    ensures
        triangle_fill(a, b, c) == triangle_fill(b, c, a),
{
    lemma_bounds_three(a, b, c);
    lemma_bounds_three(b, c, a);
    assert(rect_bounding(seq![a, b, c]) == rect_bounding(seq![b, c, a]));
    lemma_kept_inside_cyclic(rect_grid(rect_bounding(seq![a, b, c])), a, b, c);
}

/// Strategy-B fill is also unchanged by reversing the winding, provided no
/// candidate grid point sits exactly on an edge line: such a point is kept
/// only under the winding that puts it on the inclusive side.
pub proof fn law_triangle_fill_reversal(a: Vec2, b: Vec2, c: Vec2)
    requires
        forall|p: Vec2|
            rect_grid(rect_bounding(seq![a, b, c])).contains(p) ==> crate::math::side_val(p, a, b)
                != 0 && crate::math::side_val(p, b, c) != 0 && crate::math::side_val(p, c, a) != 0,
    ensures
        triangle_fill(a, b, c) == triangle_fill(a, c, b),
{
    lemma_bounds_three(a, b, c);
    lemma_bounds_three(a, c, b);
    assert(rect_bounding(seq![a, b, c]) == rect_bounding(seq![a, c, b]));
    lemma_kept_inside_reversal(rect_grid(rect_bounding(seq![a, b, c])), a, b, c);
}

proof fn lemma_kept_inside_reversal(candidates: Seq<Vec2>, a: Vec2, b: Vec2, c: Vec2)
    requires
        forall|p: Vec2|
            candidates.contains(p) ==> crate::math::side_val(p, a, b) != 0
                && crate::math::side_val(p, b, c) != 0 && crate::math::side_val(p, c, a) != 0,
    ensures
        kept_inside(candidates, a, b, c) == kept_inside(candidates, a, c, b),
    decreases candidates.len(),
{
    if candidates.len() > 0 {
        assert forall|p: Vec2| #[trigger] candidates.drop_last().contains(p) implies crate::math::side_val(
            p,
            a,
            b,
        ) != 0 && crate::math::side_val(p, b, c) != 0 && crate::math::side_val(p, c, a) != 0 by {
            let i = choose|i: int|
                0 <= i < candidates.drop_last().len() && candidates.drop_last()[i] == p;
            assert(candidates[i] == p);
            assert(candidates.contains(p));
        }
        lemma_kept_inside_reversal(candidates.drop_last(), a, b, c);
        let last = candidates.last();
        assert(candidates.contains(last)) by {
            assert(candidates[candidates.len() - 1] == last);
        }
        crate::math::law_in_triangle_reversal(last, a, b, c);
    }
}

/// Numerator of the dotted step used by the scanline fill: the closest
/// single-precision value to pi, as an exact fraction.
pub const PI_STEP_NUMER: u32 = 13176795;

/// Denominator of the dotted step used by the scanline fill.
pub const PI_STEP_DENOM: u32 = 4194304;

/// The three vertices in ascending y order, ties keeping their original
/// order.
pub open spec fn sorted_by_y(a: Vec2, b: Vec2, c: Vec2) -> (Vec2, Vec2, Vec2) {
    let low = if b.y < a.y {
        b
    } else {
        a
    };
    let high = if b.y < a.y {
        a
    } else {
        b
    };
    if c.y < low.y {
        (c, low, high)
    } else if c.y < high.y {
        (low, c, high)
    } else {
        (low, high, c)
    }
}

fn sort3_by_y(a: Vec2, b: Vec2, c: Vec2) -> (r: (Vec2, Vec2, Vec2))
    ensures
        r == sorted_by_y(a, b, c),
        r.0.y <= r.1.y <= r.2.y,
{
    let (low, high) = if b.y < a.y {
        (b, a)
    } else {
        (a, b)
    };
    if c.y < low.y {
        (c, low, high)
    } else if c.y < high.y {
        (low, c, high)
    } else {
        (low, high, c)
    }
}

/// Index of the first point at position `from` or later in `chain` whose
/// y coordinate equals `target`, or `chain.len()` when none remains.
pub open spec fn find_match(chain: Seq<Vec2>, from: int, target: int) -> int
    recommends
        0 <= from <= chain.len(),
    decreases chain.len() - from,
{
    if from < 0 || from >= chain.len() {
        chain.len() as int
    } else if chain[from].y == target {
        from
    } else {
        find_match(chain, from + 1, target)
    }
}

/// The match position never runs backwards, stays within the chain, and
/// points at a row match whenever one remains.
pub proof fn lemma_find_match_props(chain: Seq<Vec2>, from: int, target: int)
    requires
        0 <= from <= chain.len(),
    ensures
        from <= find_match(chain, from, target) <= chain.len(),
        find_match(chain, from, target) < chain.len() ==> chain[find_match(chain, from, target)].y
            == target,
    decreases chain.len() - from,
{
    if from < chain.len() && chain[from].y != target {
        lemma_find_match_props(chain, from + 1, target);
    }
}

/// The scanline fill, walking the rasterized long edge from `li` with the
/// short-chain cursor at `cursor`: pair each long-edge point with the next
/// short-chain point on the same row, connect the pair with a dotted
/// segment stepped by pi, and stop outright once the short chain has no
/// matching point left.
pub open spec fn scan_spec(long: Seq<Vec2>, short: Seq<Vec2>, li: int, cursor: int) -> Seq<Vec2>
    recommends
        0 <= li,
        0 <= cursor <= short.len(),
    decreases long.len() - li,
{
    if li < 0 || li >= long.len() {
        Seq::empty()
    } else {
        let m = find_match(short, cursor, long[li].y as int);
        if m >= short.len() {
            Seq::empty()
        } else {
            dotted_points(long[li], short[m], PI_STEP_NUMER as int, PI_STEP_DENOM as int)
                + scan_spec(long, short, li + 1, m)
        }
    }
}

/// The whole strategy-A fill of a triangle: vertices sorted by ascending
/// y, the long edge spanning the full vertical extent, the short chain
/// bending at the middle vertex, and the scan walked from the start of
/// both.
pub open spec fn triangle_scanline(a: Vec2, b: Vec2, c: Vec2) -> Seq<Vec2> {
    let s = sorted_by_y(a, b, c);
    scan_spec(line_points(s.0, s.2), line_points(s.0, s.1) + line_points(s.1, s.2), 0, 0)
}

impl Triangle {
    /// Strategy-A fill (sparse, scanline/edge-walk): sort the vertices by
    /// ascending y, rasterize the long edge `low -> high` and the short
    /// chain `low -> mid -> high`, then walk the long edge, connecting
    /// each of its points to the next short-chain point on the same row
    /// with a dotted segment stepped by pi. The fractional step leaves a
    /// textured rather than solid fill. (On rounded points, two rows match
    /// exactly when their integers are equal; any tolerance below one
    /// pixel selects the same points.)
    pub fn scanline(&self) -> (points: Vec<Vec2>)
        ensures
            points@ == triangle_scanline(self.a, self.b, self.c),
    {
        let (p0, p1, p2) = sort3_by_y(self.a, self.b, self.c);
        let long = line(p0, p2);
        let mut short = line(p0, p1);
        let mut tail = line(p1, p2);
        short.append(&mut tail);
        let mut points: Vec<Vec2> = Vec::new();
        let mut cursor: usize = 0;
        let mut li: usize = 0;
        while li < long.len()
            invariant_except_break
                li <= long@.len(),
                cursor <= short@.len(),
                points@ + scan_spec(long@, short@, li as int, cursor as int) == scan_spec(
                    long@,
                    short@,
                    0,
                    0,
                ),
            ensures
                points@ == scan_spec(long@, short@, 0, 0),
            decreases long@.len() - li,
        {
            let y = long[li].y;
            let ghost c0 = cursor as int;
            while cursor < short.len() && short[cursor].y != y
                invariant
                    c0 <= cursor <= short@.len(),
                    find_match(short@, c0, y as int) == find_match(
                        short@,
                        cursor as int,
                        y as int,
                    ),
                decreases short@.len() - cursor,
            {
                cursor = cursor + 1;
            }
            proof {
                assert(find_match(short@, cursor as int, y as int) == if cursor < short@.len() {
                    cursor as int
                } else {
                    short@.len() as int
                });
            }
            if cursor >= short.len() {
                proof {
                    assert(scan_spec(long@, short@, li as int, c0) =~= Seq::<Vec2>::empty());
                    assert(points@ + Seq::<Vec2>::empty() =~= points@);
                }
                break ;
            }
            let connect_to = short[cursor];
            let mut seg = dotted_line(long[li], connect_to, PI_STEP_NUMER, PI_STEP_DENOM);
            let ghost points_before = points@;
            points.append(&mut seg);
            proof {
                let d = dotted_points(
                    long@[li as int],
                    short@[cursor as int],
                    PI_STEP_NUMER as int,
                    PI_STEP_DENOM as int,
                );
                let rest = scan_spec(long@, short@, li + 1, cursor as int);
                assert(scan_spec(long@, short@, li as int, c0) == d + rest);
                assert((points_before + d) + rest =~= points_before + (d + rest));
            }
            li = li + 1;
        }
        points
    }
}

/// Each point the scan emits lies on the row of some long-edge point at
/// or after the current walk position: the dotted connectors never leave
/// the row they connect.
proof fn lemma_scan_spec_rows(long: Seq<Vec2>, short: Seq<Vec2>, li: int, cursor: int, k: int)
    requires
        0 <= cursor <= short.len(),
        0 <= k < scan_spec(long, short, li, cursor).len(),
    ensures
        exists|j: int|
            li <= j < long.len() && (#[trigger] long[j]).y == scan_spec(long, short, li, cursor)[k].y,
    decreases long.len() - li,
{
    let m = find_match(short, cursor, long[li].y as int);
    lemma_find_match_props(short, cursor, long[li].y as int);
    let d = dotted_points(long[li], short[m], PI_STEP_NUMER as int, PI_STEP_DENOM as int);
    if k < d.len() {
        crate::graphics::lemma_dotted_points_row(
            long[li],
            short[m],
            PI_STEP_NUMER as int,
            PI_STEP_DENOM as int,
            k,
        );
        assert(long[li].y == scan_spec(long, short, li, cursor)[k].y);
    } else {
        lemma_scan_spec_rows(long, short, li + 1, m, k - d.len());
        let j = choose|j: int|
            li + 1 <= j < long.len() && (#[trigger] long[j]).y == scan_spec(
                long,
                short,
                li + 1,
                m,
            )[k - d.len()].y;
        assert(long[j].y == scan_spec(long, short, li, cursor)[k].y);
    }
}

/// The scanline fill never leaves the triangle's vertical extent: every
/// emitted point sits on a row of the rasterized long edge, and those rows
/// run from the lowest vertex toward the highest.
pub proof fn law_scanline_within_rows(a: Vec2, b: Vec2, c: Vec2, k: int)
    requires
        0 <= k < triangle_scanline(a, b, c).len(),
    ensures
        min(min(a.y as int, b.y as int), c.y as int) <= triangle_scanline(a, b, c)[k].y,
        triangle_scanline(a, b, c)[k].y <= max(max(a.y as int, b.y as int), c.y as int),
{
    let s = sorted_by_y(a, b, c);
    let long = line_points(s.0, s.2);
    let short = line_points(s.0, s.1) + line_points(s.1, s.2);
    lemma_scan_spec_rows(long, short, 0, 0, k);
    let j = choose|j: int|
        0 <= j < long.len() && (#[trigger] long[j]).y == scan_spec(long, short, 0, 0)[k].y;
    crate::graphics::lemma_lerp_round_bounds(
        s.0.y as int,
        s.2.y as int,
        j,
        diag_dist(s.0, s.2),
    );
}

/// The bounding rectangle of a single point collapses onto that point.
pub proof fn law_bounding_single(p: Vec2)
    ensures
        rect_bounding(seq![p]) == (Rect { origin: p, size: Size { width: 0, height: 0 } }),
{
    assert(seq![p].drop_last() =~= Seq::<Vec2>::empty());
    assert(lower_x(seq![p].drop_last()) == i32::MAX as int);
    assert(upper_x(seq![p].drop_last()) == i32::MIN as int);
    assert(lower_y(seq![p].drop_last()) == i32::MAX as int);
    assert(upper_y(seq![p].drop_last()) == i32::MIN as int);
}

} // verus!
