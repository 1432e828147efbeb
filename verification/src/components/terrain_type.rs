//! Fine-grained biome classification, purely for rendering variety. It plays no role in
//! movement or skill gating; that is [`super::tile::Terrain`], derived alongside it from the
//! same elevation/moisture sample.

use vstd::prelude::*;

verus! {

/// A tile's biome, classified from elevation and moisture. Purely cosmetic.
#[derive(Debug, Clone, Copy, PartialEq, Eq, Hash, Structural)]
pub enum TerrainType {
    Ocean,
    Beach,
    Snow,
    Tundra,
    Bare,
    Scorched,
    Taiga,
    Shrubland,
    TemperateDesert,
    TemperateRainForest,
    TemperateDeciduousForest,
    Grassland,
    SubtropicalDesert,
    TropicalRainForest,
    TropicalSeasonalForest,
}

/// Number of dry-land biomes, every variant but `Ocean`.
pub const LAND_TERRAIN_TYPE_COUNT: usize = 14;

/// The `i`-th dry-land biome, in declaration order (every variant but `Ocean`).
pub open spec fn spec_land_terrain_type(i: int) -> TerrainType {
    if i == 0 {
        TerrainType::Beach
    } else if i == 1 {
        TerrainType::Snow
    } else if i == 2 {
        TerrainType::Tundra
    } else if i == 3 {
        TerrainType::Bare
    } else if i == 4 {
        TerrainType::Scorched
    } else if i == 5 {
        TerrainType::Taiga
    } else if i == 6 {
        TerrainType::Shrubland
    } else if i == 7 {
        TerrainType::TemperateDesert
    } else if i == 8 {
        TerrainType::TemperateRainForest
    } else if i == 9 {
        TerrainType::TemperateDeciduousForest
    } else if i == 10 {
        TerrainType::Grassland
    } else if i == 11 {
        TerrainType::SubtropicalDesert
    } else if i == 12 {
        TerrainType::TropicalRainForest
    } else {
        TerrainType::TropicalSeasonalForest
    }
}

/// The `i`-th dry-land biome: the palette players' territories are painted from.
pub fn land_terrain_type(i: usize) -> (t: TerrainType)
    requires
        i < LAND_TERRAIN_TYPE_COUNT,
    ensures
        t == spec_land_terrain_type(i as int),
        t != TerrainType::Ocean,
{
    if i == 0 {
        TerrainType::Beach
    } else if i == 1 {
        TerrainType::Snow
    } else if i == 2 {
        TerrainType::Tundra
    } else if i == 3 {
        TerrainType::Bare
    } else if i == 4 {
        TerrainType::Scorched
    } else if i == 5 {
        TerrainType::Taiga
    } else if i == 6 {
        TerrainType::Shrubland
    } else if i == 7 {
        TerrainType::TemperateDesert
    } else if i == 8 {
        TerrainType::TemperateRainForest
    } else if i == 9 {
        TerrainType::TemperateDeciduousForest
    } else if i == 10 {
        TerrainType::Grassland
    } else if i == 11 {
        TerrainType::SubtropicalDesert
    } else if i == 12 {
        TerrainType::TropicalRainForest
    } else {
        TerrainType::TropicalSeasonalForest
    }
}

/// Distinct palette indices give distinct dry-land biomes.
pub proof fn lemma_land_terrain_types_distinct(i: int, j: int)
    requires
        0 <= i < LAND_TERRAIN_TYPE_COUNT,
        0 <= j < LAND_TERRAIN_TYPE_COUNT,
        i != j,
    ensures
        spec_land_terrain_type(i) != spec_land_terrain_type(j),
        spec_land_terrain_type(i) != TerrainType::Ocean,
{
}

} // verus!

verus! {

impl TerrainType {
    /// The biome's display color as sRGB bytes.
    pub open spec fn spec_color(self) -> (u8, u8, u8) {
        match self {
            TerrainType::Ocean => (0x44, 0x44, 0x7a),
            TerrainType::Beach => (0xa0, 0x90, 0x77),
            TerrainType::Snow => (0xff, 0xff, 0xff),
            TerrainType::Tundra => (0xbb, 0xbb, 0xaa),
            TerrainType::Bare => (0x88, 0x88, 0x88),
            TerrainType::Scorched => (0x55, 0x55, 0x55),
            TerrainType::Taiga => (0x99, 0xaa, 0x77),
            TerrainType::Shrubland => (0x88, 0x99, 0x77),
            TerrainType::TemperateDesert => (0xc9, 0xd2, 0x9b),
            TerrainType::TemperateRainForest => (0x44, 0x88, 0x55),
            TerrainType::TemperateDeciduousForest => (0x67, 0x94, 0x59),
            TerrainType::Grassland => (0x88, 0xaa, 0x55),
            TerrainType::SubtropicalDesert => (0xd2, 0xb9, 0x8b),
            TerrainType::TropicalRainForest => (0x33, 0x77, 0x55),
            TerrainType::TropicalSeasonalForest => (0x55, 0x99, 0x44),
        }
    }

    /// The biome's display color as sRGB bytes `(red, green, blue)`.
    pub fn color(&self) -> (rgb: (u8, u8, u8))
        ensures
            rgb == self.spec_color(),
    {
        match self {
            TerrainType::Ocean => (0x44, 0x44, 0x7a),
            TerrainType::Beach => (0xa0, 0x90, 0x77),
            TerrainType::Snow => (0xff, 0xff, 0xff),
            TerrainType::Tundra => (0xbb, 0xbb, 0xaa),
            TerrainType::Bare => (0x88, 0x88, 0x88),
            TerrainType::Scorched => (0x55, 0x55, 0x55),
            TerrainType::Taiga => (0x99, 0xaa, 0x77),
            TerrainType::Shrubland => (0x88, 0x99, 0x77),
            TerrainType::TemperateDesert => (0xc9, 0xd2, 0x9b),
            TerrainType::TemperateRainForest => (0x44, 0x88, 0x55),
            TerrainType::TemperateDeciduousForest => (0x67, 0x94, 0x59),
            TerrainType::Grassland => (0x88, 0xaa, 0x55),
            TerrainType::SubtropicalDesert => (0xd2, 0xb9, 0x8b),
            TerrainType::TropicalRainForest => (0x33, 0x77, 0x55),
            TerrainType::TropicalSeasonalForest => (0x55, 0x99, 0x44),
        }
    }
}

/// The colors are mapgen2's display colors, biome by biome.
pub proof fn lemma_display_colors()
    ensures
        TerrainType::Ocean.spec_color() == (0x44u8, 0x44u8, 0x7au8),
        TerrainType::Beach.spec_color() == (0xa0u8, 0x90u8, 0x77u8),
        TerrainType::Snow.spec_color() == (0xffu8, 0xffu8, 0xffu8),
        TerrainType::Tundra.spec_color() == (0xbbu8, 0xbbu8, 0xaau8),
        TerrainType::Bare.spec_color() == (0x88u8, 0x88u8, 0x88u8),
        TerrainType::Scorched.spec_color() == (0x55u8, 0x55u8, 0x55u8),
        TerrainType::Taiga.spec_color() == (0x99u8, 0xaau8, 0x77u8),
        TerrainType::Shrubland.spec_color() == (0x88u8, 0x99u8, 0x77u8),
        TerrainType::TemperateDesert.spec_color() == (0xc9u8, 0xd2u8, 0x9bu8),
        TerrainType::TemperateRainForest.spec_color() == (0x44u8, 0x88u8, 0x55u8),
        TerrainType::TemperateDeciduousForest.spec_color() == (0x67u8, 0x94u8, 0x59u8),
        TerrainType::Grassland.spec_color() == (0x88u8, 0xaau8, 0x55u8),
        TerrainType::SubtropicalDesert.spec_color() == (0xd2u8, 0xb9u8, 0x8bu8),
        TerrainType::TropicalRainForest.spec_color() == (0x33u8, 0x77u8, 0x55u8),
        TerrainType::TropicalSeasonalForest.spec_color() == (0x55u8, 0x99u8, 0x44u8),
{
}

/// Water, and only water, is drawn blue: its blue channel outweighs red and green.
pub proof fn lemma_only_ocean_is_blue(x: TerrainType)
    ensures
        (x.spec_color().2 > x.spec_color().0 && x.spec_color().2 > x.spec_color().1) <==> x
            == TerrainType::Ocean,
{
}

/// Every biome has a color of its own: distinct biomes never share a color.
pub proof fn lemma_colors_distinct(x: TerrainType, y: TerrainType)
    requires
        x != y,
    ensures
        x.spec_color() != y.spec_color(),
{
}

} // verus!
