//! Per-tile data generated for the map.

pub mod terrain_type;
pub mod tile;
