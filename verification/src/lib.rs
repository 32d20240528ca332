//! The discrete core of a software triangle rasterizer: a depth-buffered pixel
//! canvas, scanline tables, triangle clipping topology and texel storage.
//!
//! The library works on integers and on values it only carries along. Real
//! numbers never enter it: a depth is an ordered integer key, a side of a
//! clipping plane is a flag or the answer of the caller's function, and an
//! interpolated attribute is a value of the caller's type that the caller's
//! own step function advances.
//!
//! - `canvas`: the pixel and depth buffers, and the depth test.
//! - `depth`: the integer key that stands for a binary64 depth.
//! - `util`: edge tables and scanline tables.
//! - `triangle`, `point`: a triangle over a vertex list, a projected vertex.
//! - `clip`: which triangles a plane leaves, and which edges it cuts.
//! - `shading`: the shading models, and the span of a scanline.
//! - `texture`: decoded images and their texels.
//! - `model`: the faces of a sphere.

pub mod canvas;
pub mod clip;
pub mod depth;
pub mod model;
pub mod point;
pub mod shading;
pub mod texture;
pub mod triangle;
pub mod util;
