use pixel_shapes::dither::dither;
use pixel_shapes::sprite::Color;

const MAIN: Color = Color { r: 255, g: 0, b: 0, a: 255 };
const ALT: Color = Color { r: 0, g: 0, b: 255, a: 255 };

#[test]
fn zero_mix_is_always_main() {
    for x in -6..7 {
        for y in -6..7 {
            assert_eq!(dither(x, y, MAIN, ALT, 0, 1), MAIN);
        }
    }
}

#[test]
fn full_mix_is_always_alt() {
    for x in -6..7 {
        for y in -6..7 {
            assert_eq!(dither(x, y, MAIN, ALT, 1, 1), ALT);
        }
    }
}

#[test]
fn threshold_pattern_at_origin_row() {
    // Along y = 0 the pattern index is x mod 9 and the thresholds are the
    // table entries 1,7,4,5,8,3,6,2,9 in ninths. A mix of one half (4.5
    // ninths) selects main exactly where the entry exceeds 4.5.
    let expected_main = [false, true, false, true, true, false, true, false, true];
    for x in 0..9 {
        let got = dither(x, 0, MAIN, ALT, 1, 2);
        assert_eq!(got == MAIN, expected_main[x as usize], "x = {}", x);
    }
}

#[test]
fn skew_factor_three_on_y() {
    // (x, y) and (x + 3, y + 1) share a pattern cell: x - 3 y is equal.
    for x in 0..9 {
        for y in 0..3 {
            assert_eq!(
                dither(x, y, MAIN, ALT, 4, 9),
                dither(x + 3, y + 1, MAIN, ALT, 4, 9)
            );
        }
    }
}

#[test]
fn negative_coordinates_use_magnitude() {
    // The pattern index is |x - 3 y| mod 9, so (-1, 0) and (1, 0) share
    // the entry 7/9.
    assert_eq!(dither(-1, 0, MAIN, ALT, 1, 2), dither(1, 0, MAIN, ALT, 1, 2));
    assert_eq!(dither(-1, 0, MAIN, ALT, 1, 2), MAIN);
    assert_eq!(dither(0, 3, MAIN, ALT, 1, 2), dither(0, -3, MAIN, ALT, 1, 2));
}

#[test]
fn mix_just_below_threshold() {
    // At (0,0) the threshold is 1/9: a mix of 1/10 still selects main, a
    // mix of 1/9 already selects alt.
    assert_eq!(dither(0, 0, MAIN, ALT, 1, 10), MAIN);
    assert_eq!(dither(0, 0, MAIN, ALT, 1, 9), ALT);
}
