//! A software rasterizer over a borrowed pixel buffer, and the frame pacing of
//! an animated analog display drawn with it.
pub mod draw;
pub mod pacing;
pub mod raster;
pub mod scene;
