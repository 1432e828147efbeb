use triactory::components::terrain_type::TerrainType;
use triactory::components::tile::{Terrain, TileData};
use triactory::game::map::generation::MapType;
use triactory::grid::TriCoord;
use triactory::map::{board_coords, populate, MapGenConfig};
use triactory::protocol::{map_state_messages, BiomeTowersRevealed, SetMapConfig, TilesRevealed};
use triactory::world_model::{tower_labels, BiomeTowers, RevealedTiles};

fn field() -> TileData {
    TileData { terrain: Terrain::Field, terrain_type: TerrainType::Taiga }
}

fn sea() -> TileData {
    TileData { terrain: Terrain::Water, terrain_type: TerrainType::Ocean }
}

#[test]
fn revealed_tiles_start_empty() {
    let r = RevealedTiles::new();
    assert_eq!(r.get(&TriCoord::new(0, 0, 1)), None);
    assert!(RevealedTiles::default().tiles.is_empty());
}

#[test]
fn an_absorbed_tile_is_read_back() {
    let a = TriCoord::new(0, 0, 1);
    let b = TriCoord::new(1, 0, 1);
    let mut r = RevealedTiles::new();
    r.absorb(&TilesRevealed(vec![(a, field()), (b, sea())]));
    assert_eq!(r.get(&a), Some(field()));
    assert_eq!(r.get(&b), Some(sea()));
    assert_eq!(r.get(&TriCoord::new(0, 1, 1)), None);
}

#[test]
fn a_later_message_overrides_and_keeps_the_rest() {
    let a = TriCoord::new(0, 0, 1);
    let b = TriCoord::new(1, 0, 1);
    let c = TriCoord::new(0, 1, 1);
    let mut r = RevealedTiles::new();
    r.absorb(&TilesRevealed(vec![(a, field()), (b, field())]));
    r.absorb(&TilesRevealed(vec![(b, sea()), (c, field()), (c, sea())]));
    assert_eq!(r.get(&a), Some(field()));
    assert_eq!(r.get(&b), Some(sea()));
    assert_eq!(r.get(&c), Some(sea()));
    assert_eq!(r.tiles.len(), 3);
}

#[test]
fn biome_towers_are_replaced_wholesale() {
    let mut t = BiomeTowers::new();
    t.replace(BiomeTowersRevealed {
        towns: vec![TriCoord::new(0, 0, 1), TriCoord::new(2, 0, -1)],
        starting_towers: vec![TriCoord::new(2, 0, -1)],
    });
    t.replace(BiomeTowersRevealed { towns: vec![TriCoord::new(1, 0, 0)], starting_towers: vec![] });
    assert_eq!(t.towns, vec![TriCoord::new(1, 0, 0)]);
    assert!(t.starting_towers.is_empty());
    assert!(BiomeTowers::default().towns.is_empty());
}

#[test]
fn map_state_messages_carry_the_whole_map() {
    let coords = board_coords(MapType::Drylands, 2).unwrap();
    let tiles: Vec<(TriCoord, TileData)> = coords.iter().map(|&c| (c, field())).collect();
    let map = populate(2, 4, 6, tiles).unwrap();
    let (tiles_msg, towers_msg) = map_state_messages(&map);
    assert_eq!(tiles_msg.0, map.tiles);
    assert_eq!(towers_msg.towns, map.towns);
    assert_eq!(towers_msg.starting_towers, map.starting_towers);

    let mut known = RevealedTiles::new();
    known.absorb(&tiles_msg);
    for (c, d) in &map.tiles {
        assert_eq!(known.get(c), Some(*d));
    }
}

#[test]
fn a_set_map_config_request_changes_type_and_players_only() {
    let mut config = MapGenConfig::default_with_seed(99);
    config.apply_request(&SetMapConfig { map_type: MapType::Waterworld, num_players: 5 });
    assert_eq!(config.map_type, MapType::Waterworld);
    assert_eq!(config.num_players, 5);
    assert_eq!(config.seed, 99);
}

#[test]
fn tower_labels_show_known_towns_with_their_starting_slot() {
    let a = TriCoord::new(0, 0, 1);
    let b = TriCoord::new(2, 0, -1);
    let c = TriCoord::new(-2, 0, 3);
    let mut revealed = RevealedTiles::new();
    revealed.absorb(&TilesRevealed(vec![(a, field()), (b, field())]));
    let mut towers = BiomeTowers::new();
    towers.replace(BiomeTowersRevealed { towns: vec![a, b, c], starting_towers: vec![b, a, b] });
    assert_eq!(tower_labels(&towers, &revealed), vec![(a, Some(1)), (b, Some(2))]);

    towers.replace(BiomeTowersRevealed { towns: vec![c, a], starting_towers: vec![] });
    assert_eq!(tower_labels(&towers, &revealed), vec![(a, None)]);
}
