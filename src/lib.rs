//! Pixel-accurate collision detection between bitmaps whose rows are packed
//! into 64-bit chunks, so that overlap tests run one word at a time.
pub mod bitline;
pub mod binary_raster;
pub mod laws;
