//! Tile data. Tiles are not entities: `TileData` is looked up by
//! [`crate::grid::TriCoord`] inside the server's tile map and the client's revealed tiles.

use vstd::prelude::*;

use super::terrain_type::TerrainType;

verus! {

/// The environment a triangle tile is made of. Assigned during map generation and used for
/// movement (skill gating), placement/boost lookups, and rendering.
#[derive(Debug, Clone, Copy, PartialEq, Eq, Hash, Structural)]
pub enum Terrain {
    Field,
    Mountain,
    Water,
    Empty,
}

impl Default for Terrain {
    /// A tile is `Field` until generation says otherwise.
    fn default() -> (t: Terrain)
        ensures
            t == Terrain::Field,
    {
        Terrain::Field
    }
}

/// Everything generated for one map tile: the coarse, gameplay-authoritative [`Terrain`]
/// plus the finer-grained [`TerrainType`] used only for biome coloring. Both are derived
/// from the same elevation/moisture sample during generation, so they always agree
/// (`Terrain::Water` tiles are always `TerrainType::Ocean`).
#[derive(Debug, Clone, Copy, PartialEq, Eq, Hash, Structural)]
pub struct TileData {
    pub terrain: Terrain,
    pub terrain_type: TerrainType,
}

} // verus!
