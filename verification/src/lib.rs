//! Terrain height fields for ray-based rendering.
//!
//! The crate holds the exact, integer side of a renderer of terrain:
//!
//! - `textures`: row-major textures, and the tiles that cut an image into
//!   parts for rendering;
//! - `ops`: copying one texture onto another, mapping a function over a
//!   texture, and the reductions from a raster of elevations to bilinear
//!   patches and to maxima;
//! - `height_map`: the power-of-two grid of bilinear patches over a raster,
//!   the pyramid of maximum elevations above it, and the proof that each
//!   cell of the pyramid bounds every patch beneath it;
//! - `traversal`: the walk over the pyramid that a ray query makes, nearest
//!   cell first;
//! - `spatial`: quad trees as flat lists of nodes, and the tree of tiles
//!   that is laid over a height map;
//! - `export`: images as the bytes of a PNG file;
//! - `progress`: how a span of time is broken up for display;
//! - `samplers`: how many samples a stencil of rings holds;
//! - `math`: powers of two and colours.
//!
//! Elevations are signed integers. A caller that holds real-valued samples
//! maps them to integers in a way that keeps their order and maps zero to
//! zero; every statement made here is about order and equality only. The
//! tests of a ray against a box or a patch are the caller's: they are made
//! in floating point, and the walk takes their outcomes as they come.

pub mod export;
pub mod height_map;
pub mod math;
pub mod ops;
pub mod progress;
pub mod samplers;
pub mod spatial;
pub mod textures;
pub mod traversal;
