//! Ordered dithering: a deterministic per-pixel choice between two colors
//! that approximates a continuous mix using a fixed 9-entry threshold
//! pattern, skewed along a diagonal.

use vstd::prelude::*;

use crate::sprite::Color;

verus! {

/// Number of entries in the dispersion pattern.
pub const DISPERSION_MATRIX_SIZE: u8 = 9;

/// The fixed dispersion pattern: entry `i` is the threshold numerator (in
/// ninths) at pattern position `i`. Process-wide constant, never mutated.
pub open spec fn dispersed(i: int) -> int {
    if i == 0 {
        1
    } else if i == 1 {
        7
    } else if i == 2 {
        4
    } else if i == 3 {
        5
    } else if i == 4 {
        8
    } else if i == 5 {
        3
    } else if i == 6 {
        6
    } else if i == 7 {
        2
    } else {
        9
    }
}

/// Which pattern entry a pixel uses: `|x - 3 y|` modulo the pattern size.
/// The skew factor 3 on `y` only is what produces the diagonal texture.
pub open spec fn dither_index(x: int, y: int) -> int {
    (vstd::math::abs(x - 3 * y) as int) % 9
}

/// The dithered choice: the main color where the mix (a fraction
/// `mix_num / mix_den` in `[0, 1]`) is still below the pixel's threshold
/// `dispersed(index) / 9`, the alternative color otherwise.
pub open spec fn dither_choice(
    x: int,
    y: int,
    main_color: Color,
    alternative_color: Color,
    mix_num: int,
    mix_den: int,
) -> Color {
    if 9 * mix_num < dispersed(dither_index(x, y)) * mix_den {
        main_color
    } else {
        alternative_color
    }
}

fn dispersed_at(i: u8) -> (t: u8)
    requires
        i < 9,
    ensures
        t == dispersed(i as int),
{
    if i == 0 {
        1
    } else if i == 1 {
        7
    } else if i == 2 {
        4
    } else if i == 3 {
        5
    } else if i == 4 {
        8
    } else if i == 5 {
        3
    } else if i == 6 {
        6
    } else if i == 7 {
        2
    } else {
        9
    }
}

/// Pick one of two colors for the pixel at `(x, y)` from a mix value given
/// as the exact fraction `mix_num / mix_den` in `[0, 1]`. A pure function
/// of its arguments; no error-diffusion state is carried between pixels.
pub fn dither(
    x: i32,
    y: i32,
    main_color: Color,
    alternative_color: Color,
    mix_num: u32,
    mix_den: u32,
) -> (c: Color)
    requires
        mix_den >= 1,
        mix_num <= mix_den,
    ensures
        c == dither_choice(
            x as int,
            y as int,
            main_color,
            alternative_color,
            mix_num as int,
            mix_den as int,
        ),
{
    let skewed: i64 = x as i64 - 3 * (y as i64);
    let magnitude: i64 = if skewed < 0 {
        -skewed
    } else {
        skewed
    };
    let idx_in_dispersion_matrix: u8 = (magnitude % (DISPERSION_MATRIX_SIZE as i64)) as u8;
    let threshold: u8 = dispersed_at(idx_in_dispersion_matrix);
    proof {
        assert(threshold * mix_den <= 9 * 0xffffffff) by (nonlinear_arith)
            requires
                0 <= threshold <= 9,
                0 <= mix_den <= 0xffffffff,
        ;
    }
    if 9 * (mix_num as u64) < (threshold as u64) * (mix_den as u64) {
        main_color
    } else {
        alternative_color
    }
}

/// A mix of zero always selects the main color: the smallest pattern
/// threshold is one ninth, which is still above zero.
pub proof fn law_dither_zero(x: int, y: int, main_color: Color, alternative_color: Color, den: int)
    requires
        den >= 1,
    ensures
        dither_choice(x, y, main_color, alternative_color, 0, den) == main_color,
{
    vstd::arithmetic::div_mod::lemma_mod_bound(vstd::math::abs(x - 3 * y) as int, 9);
    assert(dispersed(dither_index(x, y)) * den >= 1) by (nonlinear_arith)
        requires
            dispersed(dither_index(x, y)) >= 1,
            den >= 1,
    ;
}

/// A mix of one always selects the alternative color: no pattern
/// threshold exceeds nine ninths.
pub proof fn law_dither_full(x: int, y: int, main_color: Color, alternative_color: Color, den: int)
    requires
        den >= 1,
    ensures
        dither_choice(x, y, main_color, alternative_color, den, den) == alternative_color,
{
    vstd::arithmetic::div_mod::lemma_mod_bound(vstd::math::abs(x - 3 * y) as int, 9);
    assert(dispersed(dither_index(x, y)) * den <= 9 * den) by (nonlinear_arith)
        requires
            dispersed(dither_index(x, y)) <= 9,
            den >= 1,
    ;
}

} // verus!
