//! Fills a square grid with quantized RGB colors so that similar colors
//! end up on nearby cells, growing outward from a few seeded anchors.

pub mod canvas;
pub mod color;
pub mod engine;
pub mod fill;
pub mod offsets;
pub mod palette;
pub mod random;
