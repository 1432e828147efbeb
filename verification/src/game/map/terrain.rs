//! Tile data with a pared-down, four-band biome table (`Ocean`/`Beach`/`Tundra`/`Snow`).

use vstd::prelude::*;

verus! {

/// The environment a triangle tile is made of. Assigned during map generation and used for
/// movement (skill gating), placement/boost lookups, and rendering.
#[derive(Debug, Clone, Copy, PartialEq, Eq, Hash, Structural)]
pub enum Terrain {
    Field,
    Mountain,
    Water,
    Empty,
}

impl Default for Terrain {
    /// A tile is `Field` until generation says otherwise.
    fn default() -> (t: Terrain)
        ensures
            t == Terrain::Field,
    {
        Terrain::Field
    }
}

/// Everything generated for one map tile: coarse [`Terrain`] plus the cosmetic
/// [`TerrainType`], both derived from the same sample so that they always agree.
#[derive(Debug, Clone, Copy, PartialEq, Eq, Hash, Structural)]
pub struct TileData {
    pub terrain: Terrain,
    pub terrain_type: TerrainType,
}

/// Fine-grained biome classification pared down to four elevation bands.
#[derive(Debug, Clone, Copy, PartialEq, Eq, Hash, Structural)]
pub enum TerrainType {
    Ocean,
    Beach,
    Snow,
    Tundra,
}

} // verus!

verus! {

impl TerrainType {
    /// The biome's display color as sRGB bytes.
    pub open spec fn spec_color(self) -> (u8, u8, u8) {
        match self {
            TerrainType::Ocean => (0x44, 0x44, 0x7a),
            TerrainType::Beach => (0xa0, 0x90, 0x77),
            TerrainType::Snow => (0xff, 0xff, 0xff),
            TerrainType::Tundra => (0xbb, 0xbb, 0xaa),
        }
    }

    /// The biome's display color as sRGB bytes `(red, green, blue)`.
    pub fn color(&self) -> (rgb: (u8, u8, u8))
        ensures
            rgb == self.spec_color(),
    {
        match self {
            TerrainType::Ocean => (0x44, 0x44, 0x7a),
            TerrainType::Beach => (0xa0, 0x90, 0x77),
            TerrainType::Snow => (0xff, 0xff, 0xff),
            TerrainType::Tundra => (0xbb, 0xbb, 0xaa),
        }
    }
}

/// The colors are mapgen2's display colors: ocean blue, beach sand, snow white and tundra
/// gray.
pub proof fn lemma_display_colors()
    ensures
        TerrainType::Ocean.spec_color() == (0x44u8, 0x44u8, 0x7au8),
        TerrainType::Beach.spec_color() == (0xa0u8, 0x90u8, 0x77u8),
        TerrainType::Snow.spec_color() == (0xffu8, 0xffu8, 0xffu8),
        TerrainType::Tundra.spec_color() == (0xbbu8, 0xbbu8, 0xaau8),
{
}

/// Water, and only water, is drawn blue: its blue channel outweighs red and green.
pub proof fn lemma_only_ocean_is_blue(x: TerrainType)
    ensures
        (x.spec_color().2 > x.spec_color().0 && x.spec_color().2 > x.spec_color().1) <==> x
            == TerrainType::Ocean,
{
}

/// Every biome has a color of its own: distinct biomes never share a color.
pub proof fn lemma_colors_distinct(x: TerrainType, y: TerrainType)
    requires
        x != y,
    ensures
        x.spec_color() != y.spec_color(),
{
}

} // verus!
