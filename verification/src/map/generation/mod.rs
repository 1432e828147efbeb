//! The player-count + `MapType`-aware generation pipeline: sizing -> shape -> terrain ->
//! town placement -> starting towers -> initial texture spread.

pub mod error;
pub mod farthest_point;
pub mod rng;
pub mod sizing;
pub mod starting_towers;
pub mod texture_spread;
pub mod towns;

pub use error::MapGenError;
pub use farthest_point::farthest_point_sample;
pub use rng::{rng_for, Stage};
pub use sizing::edge_tiles_for;
pub use starting_towers::select_starting_towers;
pub use texture_spread::spread_textures;
pub use towns::place_towns;
