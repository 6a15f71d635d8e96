//! Rendering core of a 2D sprite blitter: rasters with premultiplied
//! source-over compositing, tiled placement, visibility culling, depth
//! ordering and timed full-screen fades.

pub mod bitmap;
pub mod camera;
pub mod compositor;
pub mod config;
pub mod fade;
pub mod intro;
pub mod placement;
pub mod raster;
pub mod spatial;
