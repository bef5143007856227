use pixel_shapes::common::constrain;
use pixel_shapes::geometry::{Bounds, Line, Rect, Size, Triangle};
use pixel_shapes::math::{point_is_in_triangle, Vec2};

fn v(x: i32, y: i32) -> Vec2 {
    Vec2::new(x, y)
}

#[test]
fn constrain_clamps() {
    assert_eq!(constrain(5, 0, 10), 5);
    assert_eq!(constrain(-1, 0, 10), 0);
    assert_eq!(constrain(11, 0, 10), 10);
    assert_eq!(constrain(0, 0, 10), 0);
    assert_eq!(constrain(10, 0, 10), 10);
}

#[test]
fn size_area() {
    assert_eq!(Size::new(4, 5).area(), 20);
    assert_eq!(Size::new(0, 7).area(), 0);
}

#[test]
fn bounds_track_minima_and_maxima() {
    // Ascending x once pushed only one side under an else-if fold; each
    // side of an axis is examined independently here.
    let points = vec![v(1, 5), v(2, 4), v(3, 6)];
    let bounds = Bounds::wrap(&points);
    assert_eq!(bounds.left, 1);
    assert_eq!(bounds.right, 3);
    assert_eq!(bounds.top, 4);
    assert_eq!(bounds.bottom, 6);
}

#[test]
fn bounding_of_single_point() {
    let rect = Rect::bounding(&vec![v(9, -2)]);
    assert_eq!(rect.origin, v(9, -2));
    assert_eq!(rect.size.width, 0);
    assert_eq!(rect.size.height, 0);
}

#[test]
fn bounding_spans_extremes() {
    let rect = Rect::bounding(&vec![v(-1, 2), v(4, 0), v(2, 7)]);
    assert_eq!(rect.origin, v(-1, 0));
    assert_eq!(rect.size.width, 5);
    assert_eq!(rect.size.height, 7);
}

#[test]
fn rect_points_inclusive_grid() {
    let rect = Rect::new(v(1, 2), Size::new(2, 1));
    let points = rect.points();
    assert_eq!(
        points,
        vec![v(1, 2), v(2, 2), v(3, 2), v(1, 3), v(2, 3), v(3, 3)]
    );
}

#[test]
fn point_in_triangle_interior_and_boundary() {
    let t = Triangle::new(v(0, 0), v(3, 0), v(0, 3));
    assert!(point_is_in_triangle(v(1, 1), &t));
    // Boundaries are inclusive for this winding.
    assert!(point_is_in_triangle(v(1, 0), &t));
    assert!(point_is_in_triangle(v(0, 0), &t));
    assert!(!point_is_in_triangle(v(2, 2), &t));
    assert!(!point_is_in_triangle(v(-1, 0), &t));
}

#[test]
fn point_in_triangle_cyclic_invariance() {
    let probes = [v(1, 1), v(1, 0), v(2, 2), v(-1, 4), v(0, 3)];
    let t1 = Triangle::new(v(0, 0), v(3, 0), v(0, 3));
    let t2 = Triangle::new(v(3, 0), v(0, 3), v(0, 0));
    let t3 = Triangle::new(v(0, 3), v(0, 0), v(3, 0));
    for p in probes {
        let r = point_is_in_triangle(p, &t1);
        assert_eq!(point_is_in_triangle(p, &t2), r);
        assert_eq!(point_is_in_triangle(p, &t3), r);
    }
}

#[test]
fn point_in_triangle_reversal_off_edges() {
    // Strictly interior and strictly exterior points classify the same
    // under both windings; a point on an edge line need not.
    let t = Triangle::new(v(0, 0), v(5, 0), v(0, 5));
    let rev = Triangle::new(v(0, 0), v(0, 5), v(5, 0));
    assert_eq!(
        point_is_in_triangle(v(1, 1), &t),
        point_is_in_triangle(v(1, 1), &rev)
    );
    assert_eq!(
        point_is_in_triangle(v(4, 4), &t),
        point_is_in_triangle(v(4, 4), &rev)
    );
}

#[test]
fn triangle_outline_concatenates_edges() {
    let t = Triangle::new(v(0, 0), v(2, 0), v(0, 2));
    let outline = t.empty();
    let mut expected = pixel_shapes::graphics::line(v(0, 0), v(2, 0));
    expected.extend(pixel_shapes::graphics::line(v(2, 0), v(0, 2)));
    expected.extend(pixel_shapes::graphics::line(v(0, 0), v(0, 2)));
    assert_eq!(outline, expected);
}

#[test]
fn solid_fill_is_subset_of_bounding_grid() {
    let t = Triangle::new(v(0, 0), v(4, 1), v(1, 5));
    let fill = t.solid_color();
    let grid = Rect::bounding(&vec![v(0, 0), v(4, 1), v(1, 5)]).points();
    for p in &fill {
        assert!(grid.contains(p));
        assert!(point_is_in_triangle(*p, &t));
    }
}

#[test]
fn solid_fill_exact() {
    let t = Triangle::new(v(0, 0), v(2, 0), v(0, 2));
    let fill = t.solid_color();
    assert_eq!(fill, vec![v(0, 0), v(1, 0), v(2, 0), v(0, 1), v(1, 1), v(0, 2)]);
}

#[test]
fn solid_fill_cyclic_vertex_order() {
    let fill1 = Triangle::new(v(0, 0), v(4, 1), v(1, 5)).solid_color();
    let fill2 = Triangle::new(v(4, 1), v(1, 5), v(0, 0)).solid_color();
    let fill3 = Triangle::new(v(1, 5), v(0, 0), v(4, 1)).solid_color();
    assert_eq!(fill1, fill2);
    assert_eq!(fill1, fill3);
}

#[test]
fn solid_fill_reversal_keeps_interior() {
    // Winding reversal flips which side of an edge line is inclusive, so
    // boundary grid points may differ; strict interior points stay.
    let fill = Triangle::new(v(0, 0), v(3, 0), v(0, 3)).solid_color();
    let fill_rev = Triangle::new(v(0, 0), v(0, 3), v(3, 0)).solid_color();
    assert!(fill.contains(&v(1, 1)));
    assert!(fill_rev.contains(&v(1, 1)));
    assert!(fill.contains(&v(0, 0)));
    assert!(!fill_rev.contains(&v(0, 0)));
}

#[test]
fn line_solid_matches_free_function() {
    let l = Line::new(v(0, 0), v(3, 4));
    assert_eq!(l.solid(), pixel_shapes::graphics::line(v(0, 0), v(3, 4)));
}

#[test]
fn line_dotted_matches_free_function() {
    let l = Line::new(v(0, 0), v(10, 0));
    assert_eq!(
        l.dotted(2, 1),
        pixel_shapes::graphics::dotted_line(v(0, 0), v(10, 0), 2, 1)
    );
}

#[test]
fn scanline_fill_exact() {
    let t = Triangle::new(v(0, 0), v(0, 4), v(10, 4));
    let fill = t.scanline();
    assert_eq!(
        fill,
        vec![
            v(4, 2),
            v(5, 2),
            v(6, 2),
            v(7, 3),
            v(4, 3),
            v(8, 3),
            v(5, 3),
            v(9, 4),
            v(6, 4),
        ]
    );
}

#[test]
fn wrap_point_widens_only_passed_bounds() {
    let mut bounds = Bounds::default();
    bounds.wrap_point(v(2, 3));
    assert_eq!((bounds.left, bounds.right, bounds.top, bounds.bottom), (2, 2, 3, 3));
    bounds.wrap_point(v(5, 1));
    assert_eq!((bounds.left, bounds.right, bounds.top, bounds.bottom), (2, 5, 1, 3));
    bounds.wrap_point(v(3, 2));
    assert_eq!((bounds.left, bounds.right, bounds.top, bounds.bottom), (2, 5, 1, 3));
}

#[test]
fn inside_is_strict_on_all_edges() {
    assert!(v(1, 1).inside(3, 3));
    assert!(!v(0, 1).inside(3, 3));
    assert!(!v(1, 0).inside(3, 3));
    assert!(!v(3, 1).inside(3, 3));
    assert!(!v(1, 3).inside(3, 3));
    assert!(!v(-1, 1).inside(3, 3));
}

#[test]
fn scanline_of_degenerate_triangle_is_empty() {
    let p = v(3, 3);
    let fill = Triangle::new(p, p, p).scanline();
    assert!(fill.is_empty());
}
