use std::collections::HashSet;

use rand::{Rng, SeedableRng};
use rand_chacha::ChaCha8Rng;

use triactory::config::{MAX_PLAYERS, MIN_PLAYERS};
use triactory::game::map::generation::MapType;
use triactory::grid::{hexagon_tiles, TriCoord};
use triactory::map::generation::farthest_point_sample;
use triactory::map::generation::place_towns;
use triactory::map::generation::rng::{stage_seed, stage_tag};
use triactory::map::generation::select_starting_towers;
use triactory::map::generation::sizing::{clamp_town_count, size_multiplier_percent};
use triactory::map::generation::{edge_tiles_for, rng_for, Stage};

const ALL_MAP_TYPES: [MapType; 6] = [
    MapType::Drylands,
    MapType::Lakes,
    MapType::Continents,
    MapType::Pangea,
    MapType::Archipelago,
    MapType::Waterworld,
];

fn upward_land_tiles(edge_tiles: i32) -> Vec<TriCoord> {
    hexagon_tiles(edge_tiles)
        .unwrap()
        .into_iter()
        .filter(|c| c.is_upward())
        .collect()
}

fn clustered_and_spread() -> Vec<TriCoord> {
    let mut candidates: Vec<TriCoord> = (0..5).map(|i| TriCoord::new(i, -i, 1)).collect();
    candidates.extend([
        TriCoord::new(40, -39, 0),
        TriCoord::new(-40, 41, 0),
        TriCoord::new(40, 0, -39),
        TriCoord::new(-40, 0, 41),
        TriCoord::new(0, 40, -39),
    ]);
    candidates
}

// ---- farthest-point sampling ----

#[test]
fn returns_min_of_count_and_candidates_len() {
    let candidates: Vec<TriCoord> = (0..5).map(|i| TriCoord::new(i, -i, 1)).collect();
    let mut rng = ChaCha8Rng::seed_from_u64(1);
    assert_eq!(farthest_point_sample(&candidates, 3, &mut rng).len(), 3);
    let mut rng = ChaCha8Rng::seed_from_u64(1);
    assert_eq!(farthest_point_sample(&candidates, 100, &mut rng).len(), 5);
    let mut rng = ChaCha8Rng::seed_from_u64(1);
    assert_eq!(farthest_point_sample(&candidates, 0, &mut rng).len(), 0);
}

#[test]
fn returns_distinct_points_from_candidates() {
    let candidates: Vec<TriCoord> = (0..10).map(|i| TriCoord::new(i, -i, 1)).collect();
    let mut rng = ChaCha8Rng::seed_from_u64(1);
    let chosen = farthest_point_sample(&candidates, 6, &mut rng);
    let unique: HashSet<_> = chosen.iter().collect();
    assert_eq!(unique.len(), chosen.len());
    for c in &chosen {
        assert!(candidates.contains(c));
    }
}

#[test]
fn prefers_a_spread_out_group_over_a_cluster() {
    let candidates = clustered_and_spread();
    let mut rng = ChaCha8Rng::seed_from_u64(1);
    let chosen = farthest_point_sample(&candidates, 5, &mut rng);
    let spread_group = &candidates[5..10];
    let from_spread_group = chosen.iter().filter(|t| spread_group.contains(t)).count();
    assert!(
        from_spread_group >= 4,
        "expected selection to favor the spread-out group, got {chosen:?}"
    );
}

#[test]
fn is_deterministic_for_same_seed() {
    let candidates: Vec<TriCoord> = (0..10).map(|i| TriCoord::new(i, -i, 1)).collect();
    let mut a = ChaCha8Rng::seed_from_u64(9);
    let mut b = ChaCha8Rng::seed_from_u64(9);
    assert_eq!(
        farthest_point_sample(&candidates, 4, &mut a),
        farthest_point_sample(&candidates, 4, &mut b)
    );
}

#[test]
fn differs_across_seeds() {
    let candidates: Vec<TriCoord> = (0..30).map(|i| TriCoord::new(i, -i, 1)).collect();
    let mut a = ChaCha8Rng::seed_from_u64(1);
    let mut b = ChaCha8Rng::seed_from_u64(2);
    assert_ne!(
        farthest_point_sample(&candidates, 4, &mut a),
        farthest_point_sample(&candidates, 4, &mut b)
    );
}

#[test]
fn every_later_point_is_a_farthest_remaining_candidate() {
    let candidates = upward_land_tiles(11);
    let mut rng = ChaCha8Rng::seed_from_u64(4);
    let chosen = farthest_point_sample(&candidates, 8, &mut rng);
    assert_eq!(chosen.len(), 8);
    for k in 1..chosen.len() {
        let prefix = &chosen[..k];
        let score = |c: &TriCoord| prefix.iter().map(|p| p.distance(c)).min().unwrap();
        let best = candidates
            .iter()
            .filter(|c| !prefix.contains(c))
            .map(score)
            .max()
            .unwrap();
        assert_eq!(score(&chosen[k]), best);
    }
}

#[test]
fn a_single_candidate_is_always_chosen() {
    let only = vec![TriCoord::new(3, -1, -1)];
    let mut rng = ChaCha8Rng::seed_from_u64(77);
    assert_eq!(farthest_point_sample(&only, 4, &mut rng), only);
}

// ---- towns ----

#[test]
fn place_towns_spreads_towns_apart() {
    let land_tiles = upward_land_tiles(41);
    let mut rng = ChaCha8Rng::seed_from_u64(1);
    let towns = place_towns(&land_tiles, 10, &mut rng);
    assert_eq!(towns.len(), 10);
    let mut min_pairwise = i32::MAX;
    for i in 0..towns.len() {
        for j in (i + 1)..towns.len() {
            min_pairwise = min_pairwise.min(towns[i].distance(&towns[j]));
        }
    }
    assert!(
        min_pairwise >= 6,
        "expected towns to be well spread, got min pairwise distance {min_pairwise}"
    );
}

#[test]
fn place_towns_never_exceeds_available_land_tiles() {
    let land_tiles = upward_land_tiles(9);
    let mut rng = ChaCha8Rng::seed_from_u64(1);
    let towns = place_towns(&land_tiles, 1000, &mut rng);
    assert!(towns.len() <= land_tiles.len());
}

#[test]
fn place_towns_is_deterministic_for_same_seed() {
    let land_tiles = upward_land_tiles(41);
    let mut a = ChaCha8Rng::seed_from_u64(3);
    let mut b = ChaCha8Rng::seed_from_u64(3);
    assert_eq!(
        place_towns(&land_tiles, 10, &mut a),
        place_towns(&land_tiles, 10, &mut b)
    );
}

#[test]
fn place_towns_differs_across_seeds() {
    let land_tiles = upward_land_tiles(41);
    let mut a = ChaCha8Rng::seed_from_u64(1);
    let mut b = ChaCha8Rng::seed_from_u64(2);
    assert_ne!(
        place_towns(&land_tiles, 10, &mut a),
        place_towns(&land_tiles, 10, &mut b)
    );
}

#[test]
fn place_towns_takes_every_tile_when_asked_for_more() {
    let land_tiles = upward_land_tiles(9);
    let mut rng = ChaCha8Rng::seed_from_u64(5);
    let towns = place_towns(&land_tiles, 1000, &mut rng);
    assert_eq!(towns.len(), land_tiles.len());
    let a: HashSet<_> = towns.iter().copied().collect();
    let b: HashSet<_> = land_tiles.iter().copied().collect();
    assert_eq!(a, b);
}

// ---- starting towers ----

#[test]
fn select_starting_towers_returns_num_players_distinct_entries_from_towns() {
    let towns: Vec<TriCoord> = (0..10).map(|i| TriCoord::new(i, -i, 1)).collect();
    let mut rng = ChaCha8Rng::seed_from_u64(1);
    let starting = select_starting_towers(&towns, 5, &mut rng);
    assert_eq!(starting.len(), 5);
    let unique: HashSet<_> = starting.iter().collect();
    assert_eq!(unique.len(), 5);
    for t in &starting {
        assert!(towns.contains(t));
    }
}

#[test]
fn select_starting_towers_spreads_across_a_clustered_and_a_spread_group() {
    let towns = clustered_and_spread();
    let mut rng = ChaCha8Rng::seed_from_u64(1);
    let starting = select_starting_towers(&towns, 5, &mut rng);
    let spread_group = &towns[5..10];
    let from_spread_group = starting.iter().filter(|t| spread_group.contains(t)).count();
    assert!(
        from_spread_group >= 4,
        "expected selection to favor the spread-out group, got {starting:?}"
    );
}

#[test]
fn select_starting_towers_is_deterministic_for_same_seed() {
    let towns: Vec<TriCoord> = (0..10).map(|i| TriCoord::new(i, -i, 1)).collect();
    let mut a = ChaCha8Rng::seed_from_u64(9);
    let mut b = ChaCha8Rng::seed_from_u64(9);
    assert_eq!(
        select_starting_towers(&towns, 4, &mut a),
        select_starting_towers(&towns, 4, &mut b)
    );
}

// ---- sizing ----

#[test]
fn edge_tiles_for_is_always_odd_and_at_least_3() {
    for num_players in MIN_PLAYERS..=MAX_PLAYERS {
        for map_type in ALL_MAP_TYPES {
            let edge_tiles = edge_tiles_for(num_players, map_type);
            assert_eq!(
                edge_tiles % 2,
                1,
                "edge_tiles_for({num_players}, {map_type:?}) = {edge_tiles} is not odd"
            );
            assert!(
                edge_tiles >= 3,
                "edge_tiles_for({num_players}, {map_type:?}) = {edge_tiles} is < 3"
            );
        }
    }
}

#[test]
fn edge_tiles_for_is_monotonic_in_player_count() {
    for map_type in ALL_MAP_TYPES {
        let mut prev = edge_tiles_for(MIN_PLAYERS, map_type);
        for num_players in (MIN_PLAYERS + 1)..=MAX_PLAYERS {
            let cur = edge_tiles_for(num_players, map_type);
            assert!(
                cur >= prev,
                "edge_tiles_for regressed from {prev} to {cur} going from {} to {num_players} players for {map_type:?}",
                num_players - 1
            );
            prev = cur;
        }
    }
}

#[test]
fn edge_tiles_for_matches_the_float_formula_for_every_input() {
    let multipliers: [f32; 6] = [0.9, 0.95, 1.0, 1.0, 1.15, 1.25];
    for num_players in 0..=u8::MAX {
        for (map_type, mult) in ALL_MAP_TYPES.iter().zip(multipliers) {
            let base = 9 + 3 * (num_players as i32 - MIN_PLAYERS as i32);
            let scaled = (base as f32 * mult).round() as i32;
            let odd = if scaled % 2 == 0 { scaled + 1 } else { scaled };
            assert_eq!(edge_tiles_for(num_players, *map_type), odd.max(3), "{num_players} {map_type:?}");
        }
    }
}

#[test]
fn edge_tiles_for_known_values() {
    assert_eq!(edge_tiles_for(2, MapType::Continents), 9);
    assert_eq!(edge_tiles_for(2, MapType::Drylands), 9);
    assert_eq!(edge_tiles_for(3, MapType::Drylands), 11);
    assert_eq!(edge_tiles_for(4, MapType::Drylands), 15);
    assert_eq!(edge_tiles_for(6, MapType::Waterworld), 27);
    assert_eq!(edge_tiles_for(5, MapType::Archipelago), 21);
    assert_eq!(edge_tiles_for(0, MapType::Drylands), 3);
}

#[test]
fn size_multipliers_in_hundredths() {
    let got: Vec<i32> = ALL_MAP_TYPES.iter().map(|m| size_multiplier_percent(*m)).collect();
    assert_eq!(got, vec![90, 95, 100, 100, 115, 125]);
}

// ---- per-stage random streams ----

#[test]
fn stage_seeds_put_the_tag_in_the_low_byte() {
    assert_eq!(stage_tag(Stage::TownCount), 0);
    assert_eq!(stage_tag(Stage::PlayerBiomeAssignment), 5);
    assert_eq!(stage_seed(1, Stage::TownPlacement), 258);
    assert_eq!(stage_seed(u32::MAX, Stage::TextureSpread), ((u32::MAX as u64) << 8) | 4);
}

#[test]
fn every_stage_of_a_seed_draws_its_own_stream() {
    let stages = [
        Stage::TownCount,
        Stage::ShapeCenters,
        Stage::TownPlacement,
        Stage::StartingTowers,
        Stage::TextureSpread,
        Stage::PlayerBiomeAssignment,
    ];
    let mut seeds = HashSet::new();
    for seed in [0u32, 1, 2, 1000] {
        for stage in stages {
            assert!(seeds.insert(stage_seed(seed, stage)));
        }
    }
}

#[test]
fn rng_for_is_the_stage_seeded_chacha_stream() {
    let mut a = rng_for(42, Stage::StartingTowers);
    let mut b = ChaCha8Rng::seed_from_u64((42u64 << 8) | 3);
    let xs: Vec<u32> = (0..4).map(|_| a.random()).collect();
    let ys: Vec<u32> = (0..4).map(|_| b.random()).collect();
    assert_eq!(xs, ys);
}

#[test]
fn town_count_is_never_below_the_player_count() {
    assert_eq!(clamp_town_count(0, 2), 2);
    assert_eq!(clamp_town_count(5, 6), 6);
    assert_eq!(clamp_town_count(17, 3), 17);
    assert_eq!(clamp_town_count(u32::MAX, 6), u32::MAX);
}

#[test]
fn place_towns_with_a_repeated_tile_still_places_every_town() {
    let x = TriCoord::new(0, 0, 1);
    let mut rng = ChaCha8Rng::seed_from_u64(1);
    assert_eq!(place_towns(&vec![x, x], 2, &mut rng), vec![x, x]);
    let y = TriCoord::new(3, -1, -1);
    let mut rng = ChaCha8Rng::seed_from_u64(2);
    let towns = place_towns(&vec![x, y, x], 3, &mut rng);
    assert_eq!(towns.len(), 3);
    let first_two: HashSet<_> = towns[..2].iter().copied().collect();
    assert_eq!(first_two, HashSet::from([x, y]));
    assert_eq!(towns[2], x);
}

#[test]
fn place_towns_with_enough_distinct_tiles_ignores_repeats_like_before() {
    let x = TriCoord::new(0, 0, 1);
    let y = TriCoord::new(3, -1, -1);
    let mut a = ChaCha8Rng::seed_from_u64(4);
    let mut b = ChaCha8Rng::seed_from_u64(4);
    assert_eq!(place_towns(&vec![x, x, y], 2, &mut a), farthest_point_sample(&vec![x, x, y], 2, &mut b));
}
