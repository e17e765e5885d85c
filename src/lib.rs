//! A software triangle rasterizer on fixed-point screen coordinates, with a
//! depth-tested framebuffer and a background image that is scaled to fill it.
pub mod color;
pub mod framebuffer;
pub mod raster;
pub mod skybox;
