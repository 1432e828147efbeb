use std::collections::HashSet;

use triactory::components::terrain_type::TerrainType;
use triactory::components::tile::Terrain;
use triactory::config::{DEFAULT_EDGE_TILES, MAX_PLAYERS, MIN_PLAYERS, PROTOCOL_ID, SERVER_PORT};
use triactory::game::map::terrain::TerrainType as BandType;
use triactory::grid::HexMapError;
use triactory::map::random_seed;
use triactory::mapgen::{MapGenConfig, TileMap};
use triactory::{AppState, GameMode};

#[test]
fn terrain_type_every_variant_has_a_distinct_color() {
    let variants = [
        TerrainType::Ocean,
        TerrainType::Beach,
        TerrainType::Snow,
        TerrainType::Tundra,
        TerrainType::Bare,
        TerrainType::Scorched,
        TerrainType::Taiga,
        TerrainType::Shrubland,
        TerrainType::TemperateDesert,
        TerrainType::TemperateRainForest,
        TerrainType::TemperateDeciduousForest,
        TerrainType::Grassland,
        TerrainType::SubtropicalDesert,
        TerrainType::TropicalRainForest,
        TerrainType::TropicalSeasonalForest,
    ];
    let mut colors: Vec<(u8, u8, u8)> = variants.iter().map(|t| t.color()).collect();
    colors.sort();
    colors.dedup();
    assert_eq!(colors.len(), variants.len(), "two biomes share the same color");
}

#[test]
fn terrain_every_variant_has_a_distinct_color() {
    let variants = [BandType::Ocean, BandType::Beach, BandType::Snow, BandType::Tundra];
    let mut colors: Vec<(u8, u8, u8)> = variants.iter().map(|t| t.color()).collect();
    colors.sort();
    colors.dedup();
    assert_eq!(colors.len(), variants.len(), "two biomes share the same color");
}

#[test]
fn biome_colors_match_their_hex_codes() {
    assert_eq!(TerrainType::Ocean.color(), (0x44, 0x44, 0x7a));
    assert_eq!(TerrainType::Snow.color(), (0xff, 0xff, 0xff));
    assert_eq!(TerrainType::TropicalSeasonalForest.color(), (0x55, 0x99, 0x44));
    assert_eq!(BandType::Tundra.color(), (0xbb, 0xbb, 0xaa));
}

#[test]
fn mod_generate_hexagon_populates_every_tile() {
    let map = TileMap::generate_hexagon(15).unwrap();
    assert_eq!(map.tiles.len(), 294);
    assert!(map.tiles.iter().all(|(_, t)| *t == Terrain::Field));
}

#[test]
fn generate_hexagon_refuses_bad_edge_lengths() {
    assert_eq!(TileMap::generate_hexagon(8).err(), Some(HexMapError::MustBeOdd(8)));
    assert_eq!(TileMap::generate_hexagon(1).err(), Some(HexMapError::TooSmall(1)));
    let coords: HashSet<_> = TileMap::generate_hexagon(9).unwrap().tiles.iter().map(|(c, _)| *c).collect();
    assert_eq!(coords.len(), 96);
}

#[test]
fn default_map_config_uses_the_default_edge_length() {
    assert_eq!(MapGenConfig::default().edge_tiles, DEFAULT_EDGE_TILES);
    assert_eq!(DEFAULT_EDGE_TILES, 31);
    let map = TileMap::generate_hexagon(MapGenConfig::default().edge_tiles).unwrap();
    assert_eq!(map.tiles.len(), 6 * 15 * 15);
}

#[test]
fn config_constants() {
    assert_eq!(MIN_PLAYERS, 2);
    assert_eq!(MAX_PLAYERS, 6);
    assert_eq!(PROTOCOL_ID.to_be_bytes()[4..], *b"TRIA");
    assert_eq!(SERVER_PORT, 5000);
}

#[test]
fn app_and_game_mode_defaults() {
    assert_eq!(AppState::default(), AppState::MainMenu);
    assert_eq!(GameMode::default(), GameMode::BuildMode);
    assert_eq!(Terrain::default(), Terrain::Field);
}

#[test]
fn toggling_twice_comes_back() {
    for m in [GameMode::BuildMode, GameMode::PlayMode] {
        assert_ne!(m.toggled(), m);
        assert_eq!(m.toggled().toggled(), m);
    }
    assert_eq!(GameMode::BuildMode.toggled(), GameMode::PlayMode);
}

#[test]
fn random_seed_is_a_sub_second_nanosecond_count() {
    let seed = random_seed().unwrap();
    assert!(seed < 1_000_000_000);
}
