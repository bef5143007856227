use pixel_shapes::graphics::dotted_line;
use pixel_shapes::math::{diagonal_distance, Vec2};

fn line(from: Vec2, to: Vec2) -> Vec<Vec2> {
    pixel_shapes::graphics::line(from, to)
}

fn v(x: i32, y: i32) -> Vec2 {
    Vec2::new(x, y)
}

#[test]
fn degenerate_line_is_empty() {
    let a = v(7, -3);
    assert_eq!(diagonal_distance(a, a), 0);
    let points = line(a, a);
    assert!(points.is_empty());
}

#[test]
fn diagonal_distance_is_chebyshev() {
    assert_eq!(diagonal_distance(v(0, 0), v(3, 4)), 4);
    assert_eq!(diagonal_distance(v(0, 0), v(-5, 2)), 5);
    assert_eq!(diagonal_distance(v(2, 2), v(2, 2)), 0);
    assert_eq!(diagonal_distance(v(-1, -1), v(1, 1)), 2);
}

#[test]
fn line_count_start_and_open_end() {
    let a = v(0, 0);
    let b = v(3, 4);
    let points = line(a, b);
    assert_eq!(points.len(), 4);
    assert_eq!(points[0], a);
    for p in &points {
        assert_ne!(*p, b);
    }
}

#[test]
fn line_exact_samples() {
    // Samples of (0,0)->(3,4): lerp at i/4, rounded half away from zero.
    let points = line(v(0, 0), v(3, 4));
    assert_eq!(points, vec![v(0, 0), v(1, 1), v(2, 2), v(2, 3)]);
}

#[test]
fn line_negative_direction() {
    let points = line(v(2, 0), v(-2, 0));
    assert_eq!(points, vec![v(2, 0), v(1, 0), v(0, 0), v(-1, 0)]);
}

#[test]
fn dotted_line_integer_step() {
    // Step 2: every other point of the 10-unit segment.
    let points = dotted_line(v(0, 0), v(10, 0), 2, 1);
    assert_eq!(points, vec![v(0, 0), v(2, 0), v(4, 0), v(6, 0), v(8, 0)]);
}

#[test]
fn dotted_line_pi_step() {
    // Step pi on a 10-unit segment: floor(10/pi) = 3 samples at 0, pi, 2 pi.
    let points = dotted_line(
        v(0, 0),
        v(10, 0),
        pixel_shapes::geometry::PI_STEP_NUMER,
        pixel_shapes::geometry::PI_STEP_DENOM,
    );
    assert_eq!(points, vec![v(0, 0), v(3, 0), v(6, 0)]);
}

#[test]
fn dotted_line_degenerate() {
    let points = dotted_line(v(4, 4), v(4, 4), 3, 1);
    assert!(points.is_empty());
}
