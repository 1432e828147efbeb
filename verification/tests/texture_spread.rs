use std::collections::{HashMap, HashSet};

use rand::{Rng, SeedableRng};
use rand_chacha::ChaCha8Rng;

use triactory::components::terrain_type::TerrainType;
use triactory::components::tile::{Terrain, TileData};
use triactory::game::map::generation::PlayerSlot;
use triactory::grid::{hexagon_tiles, TriCoord};
use triactory::map::generation::{select_starting_towers, spread_textures};

fn land() -> TileData {
    TileData { terrain: Terrain::Field, terrain_type: TerrainType::Grassland }
}

fn water() -> TileData {
    TileData { terrain: Terrain::Water, terrain_type: TerrainType::Ocean }
}

/// A hexagon whose land is a main island around the middle, cut by a partial moat, plus a
/// separate islet out in the water.
fn island_table(edge_tiles: i32) -> Vec<(TriCoord, TileData)> {
    let center = TriCoord::new(0, 0, 1);
    let islet = TriCoord::new(8, -8, 1);
    hexagon_tiles(edge_tiles)
        .unwrap()
        .into_iter()
        .map(|c| {
            let d = c.distance(&center);
            let main = d <= 12 && !(d == 7 && c.b > 0);
            let small = c.distance(&islet) <= 1;
            (c, if main || small { land() } else { water() })
        })
        .collect()
}

/// A land-heavy hexagon: water only in a thin diagonal streak.
fn dry_table(edge_tiles: i32) -> Vec<(TriCoord, TileData)> {
    hexagon_tiles(edge_tiles)
        .unwrap()
        .into_iter()
        .map(|c| (c, if c.a == c.b && c.a > 3 { water() } else { land() }))
        .collect()
}

fn lookup(tiles: &[(TriCoord, TileData)]) -> HashMap<TriCoord, TileData> {
    tiles.iter().copied().collect()
}

fn first_upward_land(tiles: &[(TriCoord, TileData)], n: usize) -> Vec<TriCoord> {
    tiles
        .iter()
        .filter(|(c, d)| d.terrain != Terrain::Water && c.is_upward())
        .map(|(c, _)| *c)
        .take(n)
        .collect()
}

#[test]
fn spread_textures_never_claims_water() {
    let tiles = island_table(21);
    let by_coord = lookup(&tiles);
    let starting = first_upward_land(&tiles, 3);
    let mut rng = ChaCha8Rng::seed_from_u64(1);
    let owners = spread_textures(&tiles, &starting, &mut rng);
    for (coord, _) in &owners {
        assert_ne!(by_coord[coord].terrain, Terrain::Water);
    }
}

#[test]
fn spread_textures_covers_every_reachable_land_tile() {
    let tiles = island_table(21);
    let by_coord = lookup(&tiles);
    let starting = first_upward_land(&tiles, 2);
    let mut rng = ChaCha8Rng::seed_from_u64(1);
    let owners = spread_textures(&tiles, &starting, &mut rng);
    let owned: HashSet<TriCoord> = owners.iter().map(|(c, _)| *c).collect();

    let mut reachable: HashSet<TriCoord> = starting.iter().copied().collect();
    let mut frontier: Vec<TriCoord> = starting.clone();
    while let Some(tile) = frontier.pop() {
        for n in tile.edge_neighbors() {
            if let Some(data) = by_coord.get(&n) {
                if data.terrain != Terrain::Water && reachable.insert(n) {
                    frontier.push(n);
                }
            }
        }
    }
    for coord in &reachable {
        assert!(owned.contains(coord), "{coord:?} should be owned");
    }
    // And nothing else: the cut-off islet stays unclaimed.
    assert_eq!(owned, reachable);
}

#[test]
fn spread_textures_starting_towers_own_themselves() {
    let tiles = island_table(21);
    let starting = first_upward_land(&tiles, 3);
    let mut rng = ChaCha8Rng::seed_from_u64(1);
    let owners = spread_textures(&tiles, &starting, &mut rng);
    let by_coord: HashMap<TriCoord, PlayerSlot> = owners.iter().copied().collect();
    for (i, t) in starting.iter().enumerate() {
        assert_eq!(by_coord[t], PlayerSlot(i as u8));
    }
}

#[test]
fn spread_textures_is_deterministic_for_same_seed() {
    let tiles = island_table(21);
    let starting = first_upward_land(&tiles, 3);
    let mut a = ChaCha8Rng::seed_from_u64(5);
    let mut b = ChaCha8Rng::seed_from_u64(5);
    assert_eq!(
        spread_textures(&tiles, &starting, &mut a),
        spread_textures(&tiles, &starting, &mut b)
    );
}

#[test]
fn spread_textures_partitions_are_roughly_balanced() {
    let tiles = dry_table(31);
    let candidates: Vec<TriCoord> = tiles
        .iter()
        .filter(|(c, d)| d.terrain != Terrain::Water && c.is_upward())
        .map(|(c, _)| *c)
        .collect();
    let mut select_rng = ChaCha8Rng::seed_from_u64(3);
    let starting = select_starting_towers(&candidates, 3, &mut select_rng);

    let mut spread_rng = ChaCha8Rng::seed_from_u64(2);
    let owners = spread_textures(&tiles, &starting, &mut spread_rng);
    let mut counts = [0usize; 3];
    for (_, slot) in &owners {
        counts[slot.0 as usize] += 1;
    }
    let total: usize = counts.iter().sum();
    for count in counts {
        assert!(
            count as f32 >= total as f32 * 0.1,
            "expected a roughly balanced partition, got {counts:?}"
        );
    }
}

#[test]
fn spread_owner_of_a_grown_tile_owns_a_neighbor_of_it() {
    let tiles = island_table(21);
    let starting = first_upward_land(&tiles, 3);
    let mut rng = ChaCha8Rng::seed_from_u64(8);
    let owners = spread_textures(&tiles, &starting, &mut rng);
    let by_coord: HashMap<TriCoord, PlayerSlot> = owners.iter().copied().collect();
    assert_eq!(by_coord.len(), owners.len());
    for (c, slot) in &owners {
        if starting.contains(c) {
            continue;
        }
        assert!(c.edge_neighbors().iter().any(|n| by_coord.get(n) == Some(slot)), "{c:?}");
    }
}

#[test]
fn spread_with_no_towers_claims_nothing() {
    let tiles = island_table(9);
    let mut rng = ChaCha8Rng::seed_from_u64(1);
    assert!(spread_textures(&tiles, &Vec::new(), &mut rng).is_empty());
}

/// Land-step distance from each tower, over the table's land.
fn land_steps(tiles: &HashMap<TriCoord, TileData>, from: TriCoord) -> HashMap<TriCoord, usize> {
    let mut dist = HashMap::new();
    dist.insert(from, 0usize);
    let mut ring = vec![from];
    let mut d = 0;
    while !ring.is_empty() {
        d += 1;
        let mut next = Vec::new();
        for t in ring {
            for n in t.edge_neighbors() {
                if tiles.get(&n).is_some_and(|x| x.terrain != Terrain::Water) && !dist.contains_key(&n) {
                    dist.insert(n, d);
                    next.push(n);
                }
            }
        }
        ring = next;
    }
    dist
}

#[test]
fn spread_claims_each_tile_for_a_tower_nearest_over_land() {
    let tiles = island_table(21);
    let by_coord = lookup(&tiles);
    let starting = first_upward_land(&tiles, 3);
    let dists: Vec<HashMap<TriCoord, usize>> =
        starting.iter().map(|&t| land_steps(&by_coord, t)).collect();
    for seed in [1u64, 2, 3] {
        let mut rng = ChaCha8Rng::seed_from_u64(seed);
        let owners = spread_textures(&tiles, &starting, &mut rng);
        for (c, slot) in &owners {
            let best = dists.iter().filter_map(|d| d.get(c)).min().unwrap();
            assert_eq!(dists[slot.0 as usize].get(c), Some(best), "{c:?}");
        }
    }
}

#[test]
fn spread_with_one_tower_never_draws() {
    let tiles = island_table(21);
    let starting = first_upward_land(&tiles, 1);
    let mut rng = ChaCha8Rng::seed_from_u64(12);
    let mut untouched = ChaCha8Rng::seed_from_u64(12);
    let owners = spread_textures(&tiles, &starting, &mut rng);
    assert!(owners.iter().all(|(_, s)| s.0 == 0));
    let a: Vec<u32> = (0..4).map(|_| rng.random()).collect();
    let b: Vec<u32> = (0..4).map(|_| untouched.random()).collect();
    assert_eq!(a, b);
}
