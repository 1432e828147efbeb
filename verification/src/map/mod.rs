//! Seeded map generation, run once per match.

pub mod generation;
pub mod ownership;
pub mod pipeline;
pub mod seed;
pub mod terrain_edit;
pub mod tile_table;

pub use generation::MapGenError;
pub use pipeline::{board_coords, populate, MapGenConfig, TileMap};
pub use seed::random_seed;
