//! Triangular grid coordinate system shared by the server (authority) and client
//! (prediction, rendering, touch picking).

pub mod coords;
pub mod hexagon;
pub mod neighbors;

pub use coords::TriCoord;
pub use hexagon::{hexagon_tiles, HexMapError};
pub use neighbors::tiles_within;
