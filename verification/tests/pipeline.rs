use std::collections::{HashMap, HashSet};

use rand::SeedableRng;
use rand_chacha::ChaCha8Rng;

use triactory::components::terrain_type::{land_terrain_type, TerrainType, LAND_TERRAIN_TYPE_COUNT};
use triactory::components::tile::{Terrain, TileData};
use triactory::config::{MAX_PLAYERS, MIN_PLAYERS};
use triactory::game::map::generation::{MapType, PlayerSlot};
use triactory::grid::{HexMapError, TriCoord};
use triactory::map::generation::{rng_for, Stage};
use triactory::map::ownership::{hand_unclaimed_to_nearest, nearest_slot, paint_owned_tiles, shuffled_palette};
use triactory::map::pipeline::{collect_upward_sites, tiles_are_well_formed};
use triactory::map::terrain_edit::{eliminate_isolated_land, force_land, force_towns_land, land_at};
use triactory::map::tile_table::{find_entry, sort_coords};
use triactory::map::{board_coords, populate, MapGenConfig, MapGenError, TileMap};

const ALL_MAP_TYPES: [MapType; 6] = [
    MapType::Drylands,
    MapType::Lakes,
    MapType::Continents,
    MapType::Pangea,
    MapType::Archipelago,
    MapType::Waterworld,
];

fn land() -> TileData {
    TileData { terrain: Terrain::Field, terrain_type: TerrainType::Grassland }
}

fn water() -> TileData {
    TileData { terrain: Terrain::Water, terrain_type: TerrainType::Ocean }
}

/// A stand-in for the noise terrain: a deterministic pattern whose water share grows with
/// the map type, scattered so that some land comes out as lone specks.
fn terrain_for(map_type: MapType, coords: &[TriCoord]) -> Vec<(TriCoord, TileData)> {
    let wet = match map_type {
        MapType::Drylands => 1,
        MapType::Lakes => 3,
        MapType::Continents => 5,
        MapType::Pangea => 5,
        MapType::Archipelago => 7,
        MapType::Waterworld => 10,
    };
    coords
        .iter()
        .map(|&c| {
            let h = (c.a * 7 + c.b * 13 + c.c * 3).rem_euclid(11);
            (c, if h < wet { water() } else { land() })
        })
        .collect()
}

fn town_count(num_players: u8) -> u32 {
    4 + 4 * num_players as u32
}

fn generate(map_type: MapType, num_players: u8, seed: u32) -> Result<TileMap, MapGenError> {
    let coords = board_coords(map_type, num_players)?;
    let tiles = terrain_for(map_type, &coords);
    assert!(tiles_are_well_formed(&tiles));
    populate(num_players, seed, town_count(num_players), tiles)
}

fn lookup(map: &TileMap) -> HashMap<TriCoord, TileData> {
    map.tiles.iter().copied().collect()
}

fn owners(map: &TileMap) -> HashMap<TriCoord, PlayerSlot> {
    map.initial_texture_owners.iter().copied().collect()
}

#[test]
fn generate_is_deterministic_for_same_seed() {
    let a = generate(MapType::Archipelago, 4, 11).unwrap();
    let b = generate(MapType::Archipelago, 4, 11).unwrap();
    assert_eq!(a.tiles, b.tiles);
    assert_eq!(a.towns, b.towns);
    assert_eq!(a.starting_towers, b.starting_towers);
    assert_eq!(a.initial_texture_owners, b.initial_texture_owners);
}

#[test]
fn each_slot_keeps_its_biome_across_terrains_with_one_seed() {
    let a = generate(MapType::Drylands, 3, 29).unwrap();
    let b = generate(MapType::Archipelago, 3, 29).unwrap();
    let biome_of = |map: &TileMap, slot: u8| {
        let tiles = lookup(map);
        let (c, _) = map.initial_texture_owners.iter().find(|(_, s)| s.0 == slot).unwrap();
        tiles[c].terrain_type
    };
    for slot in 0..3u8 {
        assert_eq!(biome_of(&a, slot), biome_of(&b, slot));
    }
}

#[test]
fn starting_towers_ignore_how_many_towns_were_asked_beyond_the_sites() {
    let coords = triactory::grid::hexagon_tiles(7).unwrap();
    let tiles = terrain_for(MapType::Lakes, &coords);
    let many = populate(2, 8, 100_000, tiles.clone()).unwrap();
    let more = populate(2, 8, 200_000, tiles).unwrap();
    assert_eq!(many.towns.len(), collect_upward_sites(&many.tiles).len());
    assert_eq!(many.towns, more.towns);
    assert_eq!(many.starting_towers, more.starting_towers);
}

#[test]
fn generate_rejects_out_of_range_player_counts() {
    for invalid in [0, 1, MAX_PLAYERS + 1] {
        let err = generate(MapType::Continents, invalid, 1).err().unwrap();
        assert!(matches!(err, MapGenError::InvalidPlayerCount(n) if n == invalid));
        let err = populate(invalid, 1, 10, Vec::new()).err().unwrap();
        assert_eq!(err, MapGenError::InvalidPlayerCount(invalid));
    }
}

#[test]
fn generate_produces_num_players_starting_towers_for_every_map_type() {
    for num_players in MIN_PLAYERS..=MAX_PLAYERS {
        for map_type in ALL_MAP_TYPES {
            let map = generate(map_type, num_players, 123).unwrap_or_else(|e| {
                panic!("generate({map_type:?}, {num_players}, 123) failed: {e:?}")
            });
            assert_eq!(
                map.starting_towers.len(),
                num_players as usize,
                "wrong starting tower count for {map_type:?}/{num_players}"
            );
        }
    }
}

#[test]
fn generate_towns_are_all_non_water_and_upward() {
    let map = generate(MapType::Waterworld, 6, 7).unwrap();
    let tiles = lookup(&map);
    for town in &map.towns {
        assert!(town.is_upward(), "{town:?} should be upward");
        assert_ne!(tiles[town].terrain, Terrain::Water, "{town:?} should not be on water");
    }
}

#[test]
fn generate_never_produces_an_isolated_land_tile() {
    for map_type in ALL_MAP_TYPES {
        for seed in [1u32, 2, 3] {
            let map = generate(map_type, 4, seed).unwrap();
            let tiles = lookup(&map);
            for (coord, data) in &map.tiles {
                if data.terrain == Terrain::Water {
                    continue;
                }
                let has_land_neighbor = coord
                    .edge_neighbors()
                    .iter()
                    .any(|n| tiles.get(n).is_some_and(|d| d.terrain != Terrain::Water));
                assert!(
                    has_land_neighbor,
                    "{coord:?} ({map_type:?}/seed {seed}) is an isolated land tile with no same-type edge-neighbor"
                );
            }
        }
    }
}

#[test]
fn generate_distinct_land_colors_always_match_player_count() {
    for num_players in MIN_PLAYERS..=MAX_PLAYERS {
        for map_type in ALL_MAP_TYPES {
            let map = generate(map_type, num_players, 42).unwrap();
            let land_types: HashSet<TerrainType> = map
                .tiles
                .iter()
                .filter(|(_, d)| d.terrain != Terrain::Water)
                .map(|(_, d)| d.terrain_type)
                .collect();
            assert_eq!(
                land_types.len(),
                num_players as usize,
                "{map_type:?}/{num_players} players: expected {num_players} distinct land colors, got {land_types:?}"
            );
        }
    }
}

#[test]
fn generate_every_non_water_tile_has_an_owner() {
    for map_type in ALL_MAP_TYPES {
        let map = generate(map_type, 5, 99).unwrap();
        let owned = owners(&map);
        for (coord, data) in &map.tiles {
            if data.terrain != Terrain::Water {
                assert!(owned.contains_key(coord), "{coord:?} ({map_type:?}) is land but has no owner");
            }
        }
    }
}

// ---- further pipeline cases ----

#[test]
fn board_coords_is_the_sized_hexagon() {
    let coords = board_coords(MapType::Continents, 2).unwrap();
    assert_eq!(coords.len(), 96);
    let coords = board_coords(MapType::Waterworld, 6).unwrap();
    assert_eq!(coords.len(), 6 * 13 * 13);
    assert_eq!(board_coords(MapType::Lakes, 7), Err(MapGenError::InvalidPlayerCount(7)));
}

#[test]
fn populate_reports_too_few_towns() {
    let coords = board_coords(MapType::Continents, 3).unwrap();
    let tiles = terrain_for(MapType::Continents, &coords);
    let err = populate(3, 5, 2, tiles).err().unwrap();
    assert_eq!(err, MapGenError::NotEnoughTowns { needed: 3, placed: 2 });
}

#[test]
fn populate_keeps_water_and_only_ever_raises_land() {
    let coords = board_coords(MapType::Waterworld, 3).unwrap();
    let input = terrain_for(MapType::Waterworld, &coords);
    let map = populate(3, 9, town_count(3), input.clone()).unwrap();
    assert_eq!(map.tiles.len(), input.len());
    for (before, after) in input.iter().zip(&map.tiles) {
        assert_eq!(before.0, after.0);
        if before.1.terrain != Terrain::Water {
            assert_eq!(after.1.terrain, before.1.terrain);
        }
        if after.1.terrain == Terrain::Water {
            assert_eq!(after, before);
        }
    }
}

#[test]
fn populate_towns_are_upward_sites_and_starting_towers_are_towns() {
    let map = generate(MapType::Pangea, 5, 3).unwrap();
    let tiles = lookup(&map);
    assert_eq!(map.towns.len(), town_count(5) as usize);
    let unique: HashSet<_> = map.towns.iter().collect();
    assert_eq!(unique.len(), map.towns.len());
    for t in &map.towns {
        assert!(tiles.contains_key(t));
    }
    for s in &map.starting_towers {
        assert!(map.towns.contains(s));
    }
}

#[test]
fn populate_gives_each_starting_tower_to_its_own_slot() {
    let map = generate(MapType::Lakes, 6, 21).unwrap();
    let owned = owners(&map);
    assert_eq!(owned.len(), map.initial_texture_owners.len());
    for (i, t) in map.starting_towers.iter().enumerate() {
        assert_eq!(owned[t], PlayerSlot(i as u8));
    }
    for (coord, slot) in &map.initial_texture_owners {
        assert!((slot.0 as usize) < map.starting_towers.len());
        assert_ne!(lookup(&map)[coord].terrain, Terrain::Water);
    }
}

#[test]
fn populate_paints_by_owner() {
    let map = generate(MapType::Continents, 4, 8).unwrap();
    let owned = owners(&map);
    let mut biome_of_slot: HashMap<PlayerSlot, TerrainType> = HashMap::new();
    for (coord, data) in &map.tiles {
        if let Some(slot) = owned.get(coord) {
            let prev = biome_of_slot.insert(*slot, data.terrain_type);
            assert!(prev.is_none() || prev == Some(data.terrain_type));
            assert_ne!(data.terrain_type, TerrainType::Ocean);
        }
    }
    let biomes: HashSet<_> = biome_of_slot.values().collect();
    assert_eq!(biomes.len(), biome_of_slot.len());
}

#[test]
fn populate_on_a_sea_with_no_upward_tiles_fails() {
    let tiles = vec![(TriCoord::new(0, 0, 2), water()), (TriCoord::new(1, 0, 1), water())];
    let err = populate(2, 1, 10, tiles).err().unwrap();
    assert_eq!(err, MapGenError::NotEnoughTowns { needed: 2, placed: 0 });
}

// ---- the steps on their own ----

#[test]
fn force_land_raises_only_water_of_the_given_tile() {
    let a = TriCoord::new(0, 0, 1);
    let b = TriCoord::new(1, 0, 1);
    let mut tiles = vec![(a, water()), (b, land())];
    force_land(&mut tiles, a);
    assert_eq!(tiles[0].1.terrain, Terrain::Field);
    assert_eq!(tiles[0].1.terrain_type, TerrainType::Beach);
    assert_eq!(tiles[1], (b, land()));
    force_land(&mut tiles, b);
    assert_eq!(tiles[1], (b, land()));
    force_land(&mut tiles, TriCoord::new(5, 5, -9));
    assert_eq!(tiles.len(), 2);
}

#[test]
fn eliminate_isolated_land_gives_a_lone_tile_a_neighbor() {
    let lone = TriCoord::new(0, 0, 1);
    let mut tiles: Vec<(TriCoord, TileData)> = vec![(lone, land())];
    for n in lone.edge_neighbors() {
        tiles.push((n, water()));
    }
    eliminate_isolated_land(&mut tiles);
    let first = lone.edge_neighbors()[0];
    assert_eq!(tiles[1].0, first);
    assert_eq!(tiles[1].1.terrain, Terrain::Field);
    assert_eq!(tiles[2].1, water());
    assert_eq!(tiles[3].1, water());
    assert!(land_at(&tiles, &first));
    assert!(!land_at(&tiles, &TriCoord::new(9, 9, -17)));
}

#[test]
fn force_towns_land_raises_towns_and_their_neighbors() {
    let coords = board_coords(MapType::Waterworld, 2).unwrap();
    let mut tiles: Vec<(TriCoord, TileData)> = coords.iter().map(|&c| (c, water())).collect();
    let town = TriCoord::new(0, 0, 1);
    force_towns_land(&mut tiles, &vec![town]);
    for (c, d) in &tiles {
        let raised = *c == town || town.edge_neighbors().contains(c);
        assert_eq!(d.terrain != Terrain::Water, raised, "{c:?}");
    }
}

#[test]
fn nearest_slot_takes_the_first_of_equally_near_towers() {
    let towers = vec![TriCoord::new(2, 0, -1), TriCoord::new(-2, 0, 3), TriCoord::new(0, 0, 1)];
    assert_eq!(nearest_slot(&TriCoord::new(0, 0, 1), &towers), 2);
    assert_eq!(nearest_slot(&TriCoord::new(0, 0, 1), &towers[..2].to_vec()), 0);
    assert_eq!(nearest_slot(&TriCoord::new(-1, 0, 2), &towers[..2].to_vec()), 1);
}

#[test]
fn hand_unclaimed_to_nearest_fills_the_rest_of_the_land() {
    let a = TriCoord::new(0, 0, 1);
    let far = TriCoord::new(6, -3, -2);
    let tiles = vec![(a, land()), (far, land()), (TriCoord::new(1, 0, 1), water())];
    let towers = vec![a, TriCoord::new(5, -3, -1)];
    let mut owned = vec![(a, PlayerSlot(0))];
    hand_unclaimed_to_nearest(&tiles, &mut owned, &towers);
    assert_eq!(owned, vec![(a, PlayerSlot(0)), (far, PlayerSlot(1))]);
}

#[test]
fn hand_unclaimed_to_nearest_appends_in_table_order() {
    let a = TriCoord::new(0, 0, 1);
    let b = TriCoord::new(5, -3, -1);
    let near_b = TriCoord::new(6, -3, -2);
    let near_a = TriCoord::new(-1, 0, 2);
    let tiles = vec![(near_b, land()), (a, land()), (near_a, land()), (b, land())];
    let towers = vec![a, b];
    let mut owned = vec![(a, PlayerSlot(0)), (b, PlayerSlot(1))];
    hand_unclaimed_to_nearest(&tiles, &mut owned, &towers);
    assert_eq!(
        owned,
        vec![(a, PlayerSlot(0)), (b, PlayerSlot(1)), (near_b, PlayerSlot(1)), (near_a, PlayerSlot(0))]
    );
}

#[test]
fn shuffled_palette_is_a_seeded_permutation() {
    let mut a = rng_for(1, Stage::PlayerBiomeAssignment);
    let mut b = rng_for(1, Stage::PlayerBiomeAssignment);
    let pa = shuffled_palette(&mut a);
    let pb = shuffled_palette(&mut b);
    assert_eq!(pa, pb);
    let mut sorted = pa.clone();
    sorted.sort();
    assert_eq!(sorted, (0..LAND_TERRAIN_TYPE_COUNT).collect::<Vec<_>>());
    let moved = (0..20u64).any(|s| {
        let mut rng = ChaCha8Rng::seed_from_u64(s);
        shuffled_palette(&mut rng) != (0..LAND_TERRAIN_TYPE_COUNT).collect::<Vec<_>>()
    });
    assert!(moved);
}

#[test]
fn paint_owned_tiles_uses_the_owner_palette_entry() {
    let a = TriCoord::new(0, 0, 1);
    let b = TriCoord::new(1, 0, 1);
    let c = TriCoord::new(0, 1, 1);
    let mut tiles = vec![(a, land()), (b, land()), (c, water())];
    let owned = vec![(b, PlayerSlot(1)), (a, PlayerSlot(0))];
    let palette = vec![3usize, 10];
    paint_owned_tiles(&mut tiles, &owned, &palette);
    assert_eq!(tiles[0].1.terrain_type, land_terrain_type(3));
    assert_eq!(tiles[1].1.terrain_type, land_terrain_type(10));
    assert_eq!(tiles[1].1.terrain_type, TerrainType::Grassland);
    assert_eq!(tiles[2], (c, water()));
}

#[test]
fn upward_sites_keep_table_order_and_sort_lexicographically() {
    let tiles = vec![
        (TriCoord::new(1, 0, 0), land()),
        (TriCoord::new(0, 0, 2), water()),
        (TriCoord::new(0, 0, 1), water()),
    ];
    assert!(tiles_are_well_formed(&tiles));
    let sites = collect_upward_sites(&tiles);
    assert_eq!(sites, vec![TriCoord::new(1, 0, 0), TriCoord::new(0, 0, 1)]);
    assert_eq!(sort_coords(&sites), vec![TriCoord::new(0, 0, 1), TriCoord::new(1, 0, 0)]);
    assert_eq!(find_entry(&tiles, &TriCoord::new(0, 0, 1)), Some(2));
    assert_eq!(find_entry(&tiles, &TriCoord::new(2, 0, -1)), None);
}

#[test]
fn tables_with_repeated_or_invalid_tiles_are_refused() {
    let t = TriCoord::new(0, 0, 1);
    assert!(!tiles_are_well_formed(&vec![(t, land()), (t, water())]));
    assert!(!tiles_are_well_formed(&vec![(TriCoord { a: 0, b: 0, c: 0 }, land())]));
    assert!(tiles_are_well_formed(&Vec::new()));
}

#[test]
fn tables_are_refused_only_where_grid_arithmetic_leaves_i32() {
    // Far from the origin, but every sum, step and distance still fits.
    let far = TriCoord::new(1 << 29, -(1 << 29), 1);
    assert!(tiles_are_well_formed(&vec![(far, land()), (TriCoord::new(0, 0, 1), land())]));
    // An upward tile at the top of a lane cannot be stepped to its neighbors.
    let edge = TriCoord::new(i32::MAX, -i32::MAX, 1);
    assert!(!tiles_are_well_formed(&vec![(edge, land())]));
    // Two tiles whose lane distance exceeds i32::MAX.
    let east = TriCoord::new(1 << 30, -(1 << 30), 1);
    let west = TriCoord::new(-(1 << 30), 1 << 30, 1);
    assert!(tiles_are_well_formed(&vec![(east, land())]));
    assert!(!tiles_are_well_formed(&vec![(east, land()), (west, land())]));
}

#[test]
fn map_gen_config_defaults_to_continents_for_the_minimum_player_count() {
    let config = MapGenConfig::default_with_seed(17);
    assert_eq!(config.map_type, MapType::Continents);
    assert_eq!(config.num_players, MIN_PLAYERS);
    assert_eq!(config.seed, 17);
    assert!(TileMap::empty().tiles.is_empty());
}

#[test]
fn hex_errors_convert_into_map_errors() {
    let e: MapGenError = HexMapError::MustBeOdd(4).into();
    assert_eq!(e, MapGenError::Hex(HexMapError::MustBeOdd(4)));
}

#[test]
fn land_palette_is_every_biome_but_ocean() {
    let all: HashSet<TerrainType> = (0..LAND_TERRAIN_TYPE_COUNT).map(land_terrain_type).collect();
    assert_eq!(all.len(), LAND_TERRAIN_TYPE_COUNT);
    assert!(!all.contains(&TerrainType::Ocean));
    assert_eq!(land_terrain_type(0), TerrainType::Beach);
}

#[test]
fn populate_keeps_terrain_and_biome_in_step_on_water() {
    let coords = board_coords(MapType::Archipelago, 3).unwrap();
    let tiles = terrain_for(MapType::Archipelago, &coords);
    let map = populate(3, 17, town_count(3), tiles).unwrap();
    for (_, d) in &map.tiles {
        assert_eq!(d.terrain == Terrain::Water, d.terrain_type == TerrainType::Ocean);
    }
}

#[test]
fn populate_raises_water_only_under_towns_and_for_lone_land() {
    let coords = board_coords(MapType::Continents, 2).unwrap();
    let input = terrain_for(MapType::Continents, &coords);
    let before = lookup_tiles(&input);
    let map = populate(2, 5, town_count(2), input.clone()).unwrap();
    let lone = |c: &TriCoord| {
        before[c].terrain != Terrain::Water
            && c.edge_neighbors().iter().all(|n| before.get(n).is_none_or(|d| d.terrain == Terrain::Water))
    };
    for ((c, old), (_, new)) in input.iter().zip(&map.tiles) {
        let near_town = map.towns.iter().any(|t| t == c || t.edge_neighbors().contains(c));
        let rescues_lone = coords
            .iter()
            .filter(|x| lone(x))
            .any(|x| x.edge_neighbors().iter().find(|n| before.contains_key(n)) == Some(c));
        let raised = old.terrain == Terrain::Water && (near_town || rescues_lone);
        let expected = if raised { Terrain::Field } else { old.terrain };
        assert_eq!(new.terrain, expected, "{c:?}");
    }
}

fn lookup_tiles(tiles: &[(TriCoord, TileData)]) -> HashMap<TriCoord, TileData> {
    tiles.iter().copied().collect()
}

#[test]
fn populate_gives_cut_off_land_to_the_nearest_tower() {
    // Two land strips split by water; all upward tiles of the left strip come first in
    // lexicographic order, so both starting towers end up wherever the spread puts them,
    // and whatever the spread cannot reach goes to the nearest tower by lane distance.
    let coords = board_coords(MapType::Continents, 2).unwrap();
    let tiles: Vec<(TriCoord, TileData)> = coords
        .iter()
        .map(|&c| (c, if c.a == 0 || c.a == -1 { water() } else { land() }))
        .collect();
    let map = populate(2, 3, 2, tiles).unwrap();
    let by_coord = lookup(&map);
    let owned = owners(&map);
    for (c, d) in &map.tiles {
        if d.terrain == Terrain::Water {
            assert!(!owned.contains_key(c));
            continue;
        }
        let slot = owned[c].0 as usize;
        let reachable_from = |t: &TriCoord| {
            let mut seen = HashSet::from([*t]);
            let mut stack = vec![*t];
            while let Some(x) = stack.pop() {
                for n in x.edge_neighbors() {
                    if by_coord.get(&n).is_some_and(|e| e.terrain != Terrain::Water) && seen.insert(n) {
                        stack.push(n);
                    }
                }
            }
            seen.contains(c)
        };
        if !map.starting_towers.iter().any(reachable_from) {
            let best = map.starting_towers.iter().map(|t| t.distance(c)).min().unwrap();
            let first = map.starting_towers.iter().position(|t| t.distance(c) == best).unwrap();
            assert_eq!(slot, first, "{c:?}");
        }
    }
}
