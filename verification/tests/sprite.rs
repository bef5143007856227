use pixel_shapes::geometry::Size;
use pixel_shapes::math::Vec2;
use pixel_shapes::sprite::{Color, Sprite};

fn v(x: i32, y: i32) -> Vec2 {
    Vec2::new(x, y)
}

const RED: Color = Color { r: 255, g: 0, b: 0, a: 255 };
const CLEAR: Color = Color { r: 0, g: 0, b: 0, a: 0 };

fn numbered(n: u8) -> Color {
    Color::new(n, n, n, 255)
}

#[test]
fn from_point_set_stamps_and_drops() {
    // Bounding rect of {(0,0), (2,1)} is 2 x 1, so the buffer holds two
    // pixels; the far corner maps past the buffer and is dropped.
    let sprite = Sprite::from_vec2(vec![v(0, 0), v(2, 1)], RED);
    assert_eq!(sprite.origin, v(0, 0));
    assert_eq!(sprite.size.width, 2);
    assert_eq!(sprite.size.height, 1);
    assert_eq!(sprite.pixels, vec![RED, CLEAR]);
}

#[test]
fn from_point_set_interior_points() {
    let sprite = Sprite::from_vec2(vec![v(1, 1), v(2, 2), v(1, 2), v(4, 4)], RED);
    assert_eq!(sprite.origin, v(1, 1));
    assert_eq!(sprite.size.width, 3);
    assert_eq!(sprite.size.height, 3);
    // 3 x 3 buffer, row-major from (1,1): stamped at (0,0), (1,1), (0,1).
    assert_eq!(
        sprite.pixels,
        vec![RED, CLEAR, CLEAR, RED, RED, CLEAR, CLEAR, CLEAR, CLEAR]
    );
}

#[test]
fn draw_fully_on_surface() {
    let pixels = vec![
        numbered(0),
        numbered(1),
        numbered(2),
        numbered(3),
        numbered(4),
        numbered(5),
    ];
    let sprite = Sprite::new(v(2, 3), Size::new(3, 2), pixels.clone());
    let blit = sprite.draw(10, 10).expect("sprite is fully visible");
    assert_eq!(blit.x, 2);
    assert_eq!(blit.y, 3);
    assert_eq!(blit.width, 3);
    assert_eq!(blit.height, 2);
    assert_eq!(blit.pixels, pixels);
}

#[test]
fn draw_clips_negative_origin() {
    let pixels = vec![
        numbered(0),
        numbered(1),
        numbered(2),
        numbered(3),
        numbered(4),
        numbered(5),
    ];
    let sprite = Sprite::new(v(-1, -1), Size::new(3, 2), pixels);
    let blit = sprite.draw(10, 10).expect("part of the sprite is visible");
    assert_eq!(blit.x, 0);
    assert_eq!(blit.y, 0);
    assert_eq!(blit.width, 2);
    assert_eq!(blit.height, 1);
    // Reading starts one row down and one column in.
    assert_eq!(blit.pixels, vec![numbered(4), numbered(5)]);
}

#[test]
fn draw_clips_far_edge() {
    let pixels = vec![numbered(0), numbered(1), numbered(2), numbered(3)];
    let sprite = Sprite::new(v(3, 0), Size::new(2, 2), pixels);
    let blit = sprite.draw(4, 4).expect("one column is visible");
    assert_eq!(blit.x, 3);
    assert_eq!(blit.y, 0);
    assert_eq!(blit.width, 1);
    assert_eq!(blit.height, 2);
    assert_eq!(blit.pixels, vec![numbered(0), numbered(2)]);
}

#[test]
fn draw_off_surface_writes_nothing() {
    let sprite = Sprite::new(v(12, 0), Size::new(2, 2), vec![RED; 4]);
    assert!(sprite.draw(10, 10).is_none());
    let sprite = Sprite::new(v(-5, 0), Size::new(2, 2), vec![RED; 4]);
    assert!(sprite.draw(10, 10).is_none());
    let sprite = Sprite::new(v(0, 10), Size::new(2, 2), vec![RED; 4]);
    assert!(sprite.draw(10, 10).is_none());
    let sprite = Sprite::new(v(0, -2), Size::new(2, 2), vec![RED; 4]);
    assert!(sprite.draw(10, 10).is_none());
}

#[test]
fn draw_touching_edge_writes_nothing() {
    // A sprite whose rect only touches the surface boundary has zero
    // visible extent, which is clamped to a no-op rather than underflowing.
    let sprite = Sprite::new(v(10, 3), Size::new(2, 2), vec![RED; 4]);
    assert!(sprite.draw(10, 10).is_none());
}

#[test]
fn zero_size_sprite_writes_nothing() {
    let sprite = Sprite::new(v(3, 3), Size::new(0, 0), vec![]);
    assert!(sprite.draw(10, 10).is_none());
}

#[test]
fn stamp_then_draw_round_trip() {
    // A point set within the surface: stamping then drawing reproduces the
    // stamped buffer verbatim at the bounding rect's origin.
    let points = vec![v(1, 1), v(3, 2), v(2, 3), v(5, 5)];
    let sprite = Sprite::from_vec2(points.clone(), RED);
    assert_eq!(sprite.origin, v(1, 1));
    let blit = sprite.draw(20, 20).expect("sprite is fully visible");
    assert_eq!(blit.x, 1);
    assert_eq!(blit.y, 1);
    assert_eq!(blit.width, 4);
    assert_eq!(blit.height, 4);
    assert_eq!(blit.pixels, sprite.pixels);
    // Every point short of the far edges shows up at its own slot.
    let w = sprite.size.width as i32;
    for p in &points {
        if p.x < 5 && p.y < 5 {
            let k = ((p.y - 1) * w + (p.x - 1)) as usize;
            assert_eq!(blit.pixels[k], RED);
        }
    }
    // Slots no point maps to stay transparent.
    let hit: Vec<usize> = points
        .iter()
        .map(|p| ((p.y - 1) * w + (p.x - 1)) as usize)
        .filter(|k| *k < blit.pixels.len())
        .collect();
    for k in 0..blit.pixels.len() {
        if !hit.contains(&k) {
            assert_eq!(blit.pixels[k], CLEAR);
        }
    }
}
