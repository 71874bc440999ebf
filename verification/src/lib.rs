//! Integer core of a tile-based CPU rasterizer: frame buffers, tile
//! scheduling, supersampling resolve, scene-graph bookkeeping, mesh index
//! assembly and texel addressing. Floating-point shading lives outside.
use vstd::prelude::*;

pub mod config;
pub mod loader;
pub mod pixel;
pub mod rasterizer;
pub mod scene;
pub mod shader;
pub mod texture;
pub mod tiles;
pub mod ssaa;

verus! {
}
