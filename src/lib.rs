//! The verified core of a small path tracer: the raster that collects the
//! rendered pixels and the order in which they are rendered, its plain-text
//! PPM form, and the termination policy of the shading loop.

pub mod image;
pub mod ppm;
pub mod render;
pub mod shading;

pub use image::Image;
