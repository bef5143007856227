//! Rasterization of 2D analytic shapes (lines, circles, triangles,
//! rectangles) into discrete pixel coordinates, a sprite compositor with a
//! clipped blit, and an ordered-dither color selector.
//!
//! Geometry is carried on integer pixel coordinates; positions that fall
//! between pixels are handled through exact rational interpolation and
//! round-to-nearest, so every function here is a pure, verified map from
//! plain values to plain values.

pub mod common;
pub mod dither;
pub mod geometry;
pub mod graphics;
pub mod math;
pub mod sprite;
