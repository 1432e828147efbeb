//! Types needed by both map generation (server) and lobby/map-preview UI (client): no
//! generation logic here, just the vocabulary.

use vstd::prelude::*;

verus! {

/// How land is distributed across the map. Drives both sizing (`edge_tiles`, town count)
/// and the noise-falloff shape used to carve land from water.
#[derive(Debug, Clone, Copy, PartialEq, Eq, Hash, Structural)]
pub enum MapType {
    /// 0-10% water. Almost no water.
    Drylands,
    /// 25-30% water. Moderate wetness results in scattered inland lakes.
    Lakes,
    /// 40-70% water. High wetness shrinks continents, expands surrounding ocean.
    Continents,
    /// 40-60% water. Large land mass surrounded by ocean and the occasional island.
    Pangea,
    /// 60-80% water. High wetness leads to small island chains and more ocean.
    Archipelago,
    /// 90-100% water. Almost all tiles become water; land is forced under Biome Towns.
    Waterworld,
}

/// A player's index within this match, `0..num_players`.
#[derive(Debug, Clone, Copy, PartialEq, Eq, Hash, PartialOrd, Ord, Structural)]
pub struct PlayerSlot(pub u8);

} // verus!
