//! Map vocabulary: tile terrain and the shape types map generation works with.

pub mod generation;
pub mod terrain;
