//! Errors from generating a full map.

use vstd::prelude::*;

use crate::grid::hexagon::HexMapError;

verus! {

/// Why a map could not be generated.
#[derive(Debug, Clone, Copy, PartialEq, Eq, Structural)]
pub enum MapGenError {
    /// The hexagon could not be laid out.
    Hex(HexMapError),
    /// `num_players` is outside `MIN_PLAYERS..=MAX_PLAYERS`.
    InvalidPlayerCount(u8),
    /// Fewer towns could be placed than there are players to give a starting town.
    NotEnoughTowns { needed: u8, placed: usize },
}

impl From<HexMapError> for MapGenError {
    fn from(e: HexMapError) -> (r: MapGenError) {
        MapGenError::Hex(e)
    }
}

impl vstd::std_specs::convert::FromSpecImpl<HexMapError> for MapGenError {
    open spec fn obeys_from_spec() -> bool {
        true
    }

    open spec fn from_spec(e: HexMapError) -> MapGenError {
        MapGenError::Hex(e)
    }
}

} // verus!
