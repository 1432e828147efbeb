//! Tuning constants shared by both apps.

use vstd::prelude::*;

verus! {

/// Default hexagon edge length (triangles per side) used until a real lobby lets players
/// choose a map size.
pub const DEFAULT_EDGE_TILES: i32 = 31;

/// Fewest players a match supports.
pub const MIN_PLAYERS: u8 = 2;

/// Most players a match supports.
pub const MAX_PLAYERS: u8 = 6;

/// Identifies this app's wire protocol to netcode.io (the ASCII bytes of "TRIA").
pub const PROTOCOL_ID: u64 = 0x5452_4941;

/// UDP port the server listens on.
pub const SERVER_PORT: u16 = 5000;

} // verus!
