//! The sprite compositor: a small owned pixel buffer stamped from a
//! colored point set, blitted onto a host surface with clipping.

use vstd::prelude::*;
use vstd::math::{max, min};
use vstd::pervasive::VecAdditionalExecFns;

use crate::geometry::{
    lemma_bounds_contain, lemma_bounds_in_range, lower_x, lower_y, rect_bounding, upper_x,
    upper_y, Rect, Size,
};
use crate::math::Vec2;

verus! {

/// An 8-bit-per-channel RGBA color, a plain value type.
#[derive(Clone, Copy, PartialEq, Eq, Structural, Debug)]
pub struct Color {
    pub r: u8,
    pub g: u8,
    pub b: u8,
    pub a: u8,
}

impl Color {
    pub fn new(r: u8, g: u8, b: u8, a: u8) -> (c: Self)
        ensures
            c == (Color { r, g, b, a }),
    {
        Self { r, g, b, a }
    }
}

/// The fully transparent color that fresh sprite buffers are filled with.
pub open spec fn transparent() -> Color {
    Color { r: 0, g: 0, b: 0, a: 0 }
}

/// The row-major buffer slot a stamped point lands in, relative to a
/// buffer whose top-left corner is `(left, top)` and whose rows are
/// `width` pixels wide.
pub open spec fn stamp_index(p: Vec2, left: int, top: int, width: int) -> int {
    (p.y - top) * width + (p.x - left)
}

/// Whether one of the first `n` points lands in buffer slot `k`.
pub open spec fn stamp_hits(points: Seq<Vec2>, n: int, left: int, top: int, w: int, k: int) -> bool {
    exists|j: int| 0 <= j < n && stamp_index(#[trigger] points[j], left, top, w) == k
}

proof fn lemma_stamp_hits_step(points: Seq<Vec2>, n: int, left: int, top: int, w: int, k: int)
    requires
        0 <= n < points.len(),
    ensures
        stamp_hits(points, n + 1, left, top, w, k) <==> (stamp_hits(points, n, left, top, w, k)
            || stamp_index(points[n], left, top, w) == k),
{
    if stamp_hits(points, n + 1, left, top, w, k) {
        let j = choose|j: int| 0 <= j < n + 1 && stamp_index(#[trigger] points[j], left, top, w)
            == k;
        if j < n {
            assert(stamp_hits(points, n, left, top, w, k));
        }
    }
    if stamp_hits(points, n, left, top, w, k) {
        let j = choose|j: int| 0 <= j < n && stamp_index(#[trigger] points[j], left, top, w) == k;
        assert(stamp_hits(points, n + 1, left, top, w, k));
    }
    if stamp_index(points[n], left, top, w) == k {
        assert(stamp_hits(points, n + 1, left, top, w, k));
    }
}

/// The buffer that stamping `points` with `color` produces: `color` in
/// exactly the slots some point maps to, transparent everywhere else.
/// Points mapping outside the buffer are silently dropped.
pub open spec fn stamped_pixels(points: Seq<Vec2>, color: Color) -> Seq<Color> {
    let r = rect_bounding(points);
    let left = r.origin.x as int;
    let top = r.origin.y as int;
    let w = r.size.width as int;
    let h = r.size.height as int;
    Seq::new(
        (w * h) as nat,
        |k: int|
            if stamp_hits(points, points.len() as int, left, top, w, k) {
                color
            } else {
                transparent()
            },
    )
}

/// A sprite: a fixed-size pixel buffer in row-major order, positioned on
/// the surface by a mutable origin. The sprite exclusively owns its
/// buffer; after construction it is only re-read, never re-stamped.
#[derive(Debug)]
pub struct Sprite {
    pub origin: Vec2,
    pub size: Size,
    pub pixels: Vec<Color>,
}

/// How far the visible part of an axis extends: from the sprite's origin
/// clipped to the surface start, to the sprite's far edge clipped to the
/// surface end.
pub open spec fn visible_extent(o: int, len: int, surface: int) -> int {
    min(o + len, surface) - max(0, o)
}

/// How far into the sprite's buffer reading starts on an axis: zero unless
/// the sprite hangs off the surface's near edge.
pub open spec fn sprite_offset(o: int) -> int {
    if o < 0 {
        -o
    } else {
        0
    }
}

/// One clipped bulk write: a contiguous row-major buffer to place at
/// `(x, y)` on the surface.
pub struct Blit {
    pub x: i32,
    pub y: i32,
    pub width: u32,
    pub height: u32,
    pub pixels: Vec<Color>,
}

impl Sprite {
    /// Buffer well-formedness: exactly one pixel per cell.
    pub open spec fn wf(self) -> bool {
        self.pixels@.len() == self.size.width * self.size.height
    }

    pub fn new(pos: Vec2, size: Size, pixels: Vec<Color>) -> (s: Self)
        requires
            pixels@.len() == size.width * size.height,
        ensures
            s == (Sprite { origin: pos, size, pixels }),
            s.wf(),
    {
        Self { origin: pos, size, pixels }
    }

    /// Build a sprite from a colored point set: bound the set, allocate a
    /// transparent buffer of the bounding size, and stamp `color` at each
    /// point's slot. Slots outside the buffer are silently dropped, a
    /// deliberate best-effort policy.
    pub fn from_vec2(points: Vec<Vec2>, color: Color) -> (s: Self)
        requires
            rect_bounding(points@).size.width * rect_bounding(points@).size.height <= u32::MAX,
        ensures
            s.origin == rect_bounding(points@).origin,
            s.size == rect_bounding(points@).size,
            s.pixels@ == stamped_pixels(points@, color),
            s.wf(),
    {
        let rect = Rect::bounding(&points);
        let width = rect.size.width;
        let height = rect.size.height;
        let ghost left = rect.origin.x as int;
        let ghost top = rect.origin.y as int;
        let area: u32 = width * height;
        let mut pixels: Vec<Color> = vec![Color::new(0, 0, 0, 0); area as usize];
        proof {
            assert(forall|k: int|
                0 <= k < area ==> #[trigger] pixels@[k] == transparent());
        }
        let mut i: usize = 0;
        while i < points.len()
            invariant
                i <= points@.len(),
                rect == rect_bounding(points@),
                left == rect.origin.x as int,
                top == rect.origin.y as int,
                width == rect.size.width,
                height == rect.size.height,
                area == width * height,
                pixels@.len() == area,
                forall|k: int|
                    0 <= k < area ==> #[trigger] pixels@[k] == if stamp_hits(
                        points@,
                        i as int,
                        left,
                        top,
                        width as int,
                        k,
                    ) {
                        color
                    } else {
                        transparent()
                    },
            decreases points@.len() - i,
        {
            let p = points[i];
            proof {
                lemma_bounds_contain(points@, i as int);
                lemma_bounds_in_range(points@);
            }
            let dx: u64 = (p.x as i64 - rect.origin.x as i64) as u64;
            let dy: u64 = (p.y as i64 - rect.origin.y as i64) as u64;
            proof {
                assert(dy * width + dx < 0x10000000000000000) by (nonlinear_arith)
                    requires
                        0 <= dy < 0x100000000,
                        0 <= width < 0x100000000,
                        0 <= dx < 0x100000000,
                ;
            }
            let idx: u64 = dy * (width as u64) + dx;
            proof {
                assert(idx == stamp_index(points@[i as int], left, top, width as int));
                assert forall|k: int| 0 <= k < area implies #[trigger] stamp_hits(
                    points@,
                    i + 1,
                    left,
                    top,
                    width as int,
                    k,
                ) == (stamp_hits(points@, i as int, left, top, width as int, k) || stamp_index(
                    points@[i as int],
                    left,
                    top,
                    width as int,
                ) == k) by {
                    lemma_stamp_hits_step(points@, i as int, left, top, width as int, k);
                }
            }
            if idx < area as u64 {
                pixels.set(idx as usize, color);
            }
            i = i + 1;
        }
        proof {
            assert(pixels@ =~= stamped_pixels(points@, color));
        }
        Self { origin: rect.origin, size: rect.size, pixels }
    }

    /// Clip the sprite against the surface rectangle `(0, 0, width,
    /// height)` and produce the single bulk write for the visible part,
    /// reading from the buffer offset where the sprite hangs off the
    /// near edges. A sprite with no visible part produces no write.
    pub fn draw(&self, surface_width: u32, surface_height: u32) -> (blit: Option<Blit>)
        requires
            self.wf(),
            self.size.width <= i32::MAX,
            self.size.height <= i32::MAX,
            surface_width <= i32::MAX,
            surface_height <= i32::MAX,
            self.origin.x + self.size.width <= i32::MAX,
            self.origin.y + self.size.height <= i32::MAX,
        ensures
            blit is None <==> (visible_extent(
                self.origin.x as int,
                self.size.width as int,
                surface_width as int,
            ) <= 0 || visible_extent(
                self.origin.y as int,
                self.size.height as int,
                surface_height as int,
            ) <= 0),
            blit matches Some(b) ==> {
                let vw = visible_extent(
                    self.origin.x as int,
                    self.size.width as int,
                    surface_width as int,
                );
                let vh = visible_extent(
                    self.origin.y as int,
                    self.size.height as int,
                    surface_height as int,
                );
                let offx = sprite_offset(self.origin.x as int);
                let offy = sprite_offset(self.origin.y as int);
                &&& b.x == max(0, self.origin.x as int)
                &&& b.y == max(0, self.origin.y as int)
                &&& b.width == vw
                &&& b.height == vh
                &&& b.pixels@.len() == vw * vh
                &&& forall|k: int|
                    0 <= k < b.pixels@.len() ==> #[trigger] b.pixels@[k] == self.pixels@[(k / vw
                        + offy) * self.size.width + (k % vw + offx)]
            },
    {
        let ox: i64 = self.origin.x as i64;
        let oy: i64 = self.origin.y as i64;
        let visible_from_x: i64 = if ox > 0 {
            ox
        } else {
            0
        };
        let to_x: i64 = ox + self.size.width as i64;
        let visible_to_x: i64 = if to_x < surface_width as i64 {
            to_x
        } else {
            surface_width as i64
        };
        let visible_width: i64 = visible_to_x - visible_from_x;

        let visible_from_y: i64 = if oy > 0 {
            oy
        } else {
            0
        };
        let to_y: i64 = oy + self.size.height as i64;
        let visible_to_y: i64 = if to_y < surface_height as i64 {
            to_y
        } else {
            surface_height as i64
        };
        let visible_height: i64 = visible_to_y - visible_from_y;

        if visible_width <= 0 || visible_height <= 0 {
            return None;
        }
        let vw: u32 = visible_width as u32;
        let vh: u32 = visible_height as u32;
        let sprite_offset_x: u32 = if ox < 0 {
            (-ox) as u32
        } else {
            0
        };
        let sprite_offset_y: u32 = if oy < 0 {
            (-oy) as u32
        } else {
            0
        };
        let w: u32 = self.size.width;
        let buf_len: usize = self.pixels.len();
        let ghost vwi = vw as int;
        let ghost offx = sprite_offset_x as int;
        let ghost offy = sprite_offset_y as int;

        let mut visible_pixels: Vec<Color> = Vec::new();
        let mut row: u32 = 0;
        proof {
            assert(vw + offx <= w);
            assert(vh + offy <= self.size.height);
        }
        while row < vh
            invariant
                row <= vh,
                vw > 0,
                vwi == vw as int,
                offx == sprite_offset_x as int,
                offy == sprite_offset_y as int,
                w == self.size.width,
                vw + offx <= w,
                vh + offy <= self.size.height,
                self.wf(),
                buf_len == self.pixels@.len(),
                visible_pixels@.len() == row * vwi,
                forall|k: int|
                    0 <= k < visible_pixels@.len() ==> #[trigger] visible_pixels@[k]
                        == self.pixels@[(k / vwi + offy) * w + (k % vwi + offx)],
            decreases vh - row,
        {
            let mut col: u32 = 0;
            proof {
                assert(row * vwi + vwi <= vh * vwi) by (nonlinear_arith)
                    requires
                        0 <= row < vh,
                        vwi > 0,
                ;
            }
            while col < vw
                invariant
                    col <= vw,
                    row < vh,
                    vw > 0,
                    vwi == vw as int,
                    offx == sprite_offset_x as int,
                    offy == sprite_offset_y as int,
                    w == self.size.width,
                    vw + offx <= w,
                    vh + offy <= self.size.height,
                    self.wf(),
                    buf_len == self.pixels@.len(),
                    visible_pixels@.len() == row * vwi + col,
                    forall|k: int|
                        0 <= k < visible_pixels@.len() ==> #[trigger] visible_pixels@[k]
                            == self.pixels@[(k / vwi + offy) * w + (k % vwi + offx)],
                decreases vw - col,
            {
                proof {
                    assert((row + offy) * w + (col + offx) < self.size.height * w
                        && self.size.height * w < 0x10000000000000000) by (nonlinear_arith)
                        requires
                            0 <= row,
                            0 <= col,
                            0 <= offx,
                            0 <= offy,
                            row + offy < self.size.height,
                            col + offx < w,
                            0 < w < 0x100000000,
                            0 <= self.size.height < 0x100000000,
                    ;
                    assert(self.size.height * w == w * self.size.height) by (nonlinear_arith);
                    assert(self.pixels@.len() <= usize::MAX);
                }
                let src: usize = (row as usize + sprite_offset_y as usize) * (w as usize) + (col
                    as usize + sprite_offset_x as usize);
                let pixel = self.pixels[src];
                proof {
                    vstd::arithmetic::div_mod::lemma_fundamental_div_mod_converse(
                        row * vwi + col,
                        vwi,
                        row as int,
                        col as int,
                    );
                }
                visible_pixels.push(pixel);
                col = col + 1;
            }
            proof {
                assert((row + 1) * vwi == row * vwi + vwi) by (nonlinear_arith);
            }
            row = row + 1;
        }

        let bx: i64 = if ox > 0 {
            ox
        } else {
            0
        };
        let by: i64 = if oy > 0 {
            oy
        } else {
            0
        };
        let blit = Blit {
            x: bx as i32,
            y: by as i32,
            width: vw,
            height: vh,
            pixels: visible_pixels,
        };
        proof {
            assert(vwi == visible_extent(
                self.origin.x as int,
                self.size.width as int,
                surface_width as int,
            ));
            assert(vh as int == visible_extent(
                self.origin.y as int,
                self.size.height as int,
                surface_height as int,
            ));
            assert(offx == sprite_offset(self.origin.x as int));
            assert(offy == sprite_offset(self.origin.y as int));
            assert(bx as int == max(0, self.origin.x as int));
            assert(by as int == max(0, self.origin.y as int));
            assert(vh * vwi == vwi * vh) by (nonlinear_arith);
        }
        Some(blit)
    }
}

/// A sprite whose rectangle misses the surface entirely has no visible
/// extent on at least one axis, so its draw produces no write at all.
pub proof fn law_draw_off_surface(ox: int, oy: int, w: int, h: int, sw: int, sh: int)
    requires
        ox >= sw || oy >= sh || ox + w <= 0 || oy + h <= 0,
    ensures
        visible_extent(ox, w, sw) <= 0 || visible_extent(oy, h, sh) <= 0,
{
}

/// Round trip: stamp a point set, then draw the sprite on a surface large
/// enough to contain its bounding rectangle. The whole stamped buffer is
/// written verbatim at the bounding rectangle's origin: `color` in exactly
/// the slots some point maps to, transparent everywhere else; and every
/// point short of the far edges is reproduced at its own slot.
pub proof fn law_stamp_then_draw(points: Seq<Vec2>, color: Color, sw: int, sh: int)
    requires
        points.len() > 0,
        lower_x(points) >= 0,
        lower_y(points) >= 0,
        upper_x(points) <= sw,
        upper_y(points) <= sh,
        rect_bounding(points).size.width > 0,
        rect_bounding(points).size.height > 0,
    ensures
        visible_extent(
            rect_bounding(points).origin.x as int,
            rect_bounding(points).size.width as int,
            sw,
        ) == rect_bounding(points).size.width,
        visible_extent(
            rect_bounding(points).origin.y as int,
            rect_bounding(points).size.height as int,
            sh,
        ) == rect_bounding(points).size.height,
        sprite_offset(rect_bounding(points).origin.x as int) == 0,
        sprite_offset(rect_bounding(points).origin.y as int) == 0,
        max(0, rect_bounding(points).origin.x as int) == lower_x(points),
        max(0, rect_bounding(points).origin.y as int) == lower_y(points),
        forall|k: int|
            0 <= k < rect_bounding(points).size.width * rect_bounding(points).size.height
                ==> #[trigger] stamped_pixels(points, color)[k] == if stamp_hits(
                points,
                points.len() as int,
                lower_x(points),
                lower_y(points),
                rect_bounding(points).size.width as int,
                k,
            ) {
                color
            } else {
                transparent()
            },
        forall|i: int|
            0 <= i < points.len() && (#[trigger] points[i]).x < upper_x(points) && points[i].y
                < upper_y(points) ==> {
                let k = stamp_index(
                    points[i],
                    lower_x(points),
                    lower_y(points),
                    rect_bounding(points).size.width as int,
                );
                0 <= k < rect_bounding(points).size.width * rect_bounding(points).size.height
                    && stamped_pixels(points, color)[k] == color
            },
{
    lemma_bounds_in_range(points);
    lemma_bounds_contain(points, 0);
    let r = rect_bounding(points);
    let left = lower_x(points);
    let top = lower_y(points);
    let w = r.size.width as int;
    let h = r.size.height as int;
    assert forall|i: int|
        0 <= i < points.len() && (#[trigger] points[i]).x < upper_x(points) && points[i].y
            < upper_y(points) implies {
        let k = stamp_index(points[i], left, top, w);
        0 <= k < w * h && stamped_pixels(points, color)[k] == color
    } by {
        lemma_bounds_contain(points, i);
        let row = points[i].y - top;
        let col = points[i].x - left;
        let k = stamp_index(points[i], left, top, w);
        assert(k == row * w + col);
        assert(0 <= k < h * w) by (nonlinear_arith)
            requires
                k == row * w + col,
                0 <= col < w,
                0 <= row < h,
        ;
        assert(w * h == h * w) by (nonlinear_arith);
        assert(stamp_hits(points, points.len() as int, left, top, w, k));
    }
}

} // verus!
