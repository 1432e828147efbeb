//! Derives the map size from `(num_players, map_type)`: bigger player counts and land-heavy
//! map types get more space.

use vstd::prelude::*;

use crate::config::MIN_PLAYERS;
use crate::game::map::generation::MapType;

verus! {

/// Hexagon edge length for the minimum player count, before the map-type multiplier.
pub const BASE_EDGE_TILES: i32 = 9;

/// Extra edge tiles per player above the minimum.
pub const EDGE_TILES_PER_PLAYER: i32 = 3;

/// Map-type size multiplier, in hundredths: a bigger multiplier gives more world canvas so
/// the map type's falloff centers have room to spread out without crowding.
pub open spec fn spec_size_multiplier_percent(map_type: MapType) -> int {
    match map_type {
        MapType::Drylands => 90,
        MapType::Lakes => 95,
        MapType::Continents => 100,
        MapType::Pangea => 100,
        MapType::Archipelago => 115,
        MapType::Waterworld => 125,
    }
}

/// Map-type size multiplier, in hundredths (`0.9` is `90`).
pub fn size_multiplier_percent(map_type: MapType) -> (p: i32)
    ensures
        p == spec_size_multiplier_percent(map_type),
{
    match map_type {
        MapType::Drylands => 90,
        MapType::Lakes => 95,
        MapType::Continents => 100,
        MapType::Pangea => 100,
        MapType::Archipelago => 115,
        MapType::Waterworld => 125,
    }
}

/// The edge length before the map-type multiplier: 9 plus 3 per player above the minimum.
pub open spec fn spec_base_edge_tiles(num_players: u8) -> int {
    BASE_EDGE_TILES + EDGE_TILES_PER_PLAYER * (num_players - MIN_PLAYERS)
}

/// `base * multiplier`, rounded to the nearest integer with halves rounded up.
pub open spec fn spec_scaled_edge_tiles(num_players: u8, map_type: MapType) -> int {
    (spec_base_edge_tiles(num_players) * spec_size_multiplier_percent(map_type) + 50) / 100
}

/// Hexagon edge length for a match: the scaled base, bumped to the next odd number when
/// even, and never below 3.
pub open spec fn spec_edge_tiles_for(num_players: u8, map_type: MapType) -> int {
    let scaled = spec_scaled_edge_tiles(num_players, map_type);
    let odd = if scaled % 2 == 0 {
        scaled + 1
    } else {
        scaled
    };
    if odd < 3 {
        3
    } else {
        odd
    }
}

/// Hexagon edge length (triangles per side) for a match with `num_players` players on
/// `map_type`. Always odd and at least 3, as `hexagon_tiles` requires.
pub fn edge_tiles_for(num_players: u8, map_type: MapType) -> (edge_tiles: i32)
    ensures
        edge_tiles == spec_edge_tiles_for(num_players, map_type),
        edge_tiles % 2 == 1,
        edge_tiles >= 3,
        edge_tiles <= 961,
{
    let base: i32 = BASE_EDGE_TILES + EDGE_TILES_PER_PLAYER * (num_players as i32
        - MIN_PLAYERS as i32);
    let scaled: i32 = (base * size_multiplier_percent(map_type) + 50) / 100;
    let odd: i32 = if scaled % 2 == 0 {
        scaled + 1
    } else {
        scaled
    };
    if odd < 3 {
        3
    } else {
        odd
    }
}

/// More players never shrink the map: for a fixed map type, the edge length is monotonic
/// in the player count.
pub proof fn lemma_edge_tiles_monotonic(n1: u8, n2: u8, map_type: MapType)
    requires
        n1 <= n2,
    ensures
        spec_edge_tiles_for(n1, map_type) <= spec_edge_tiles_for(n2, map_type),
{
    let p = spec_size_multiplier_percent(map_type);
    let b1 = spec_base_edge_tiles(n1);
    let b2 = spec_base_edge_tiles(n2);
    assert(b1 * p <= b2 * p) by (nonlinear_arith)
        requires
            b1 <= b2,
            p > 0,
    ;
    vstd::arithmetic::div_mod::lemma_div_is_ordered(b1 * p + 50, b2 * p + 50, 100);
}

/// The town count a map gets from its raw, randomly varied estimate: never below the
/// player count, so that every player has a town to start on.
pub fn clamp_town_count(raw: u32, num_players: u8) -> (count: u32)
    ensures
        count >= num_players,
        count >= raw,
        count == raw || count == num_players,
{
    if raw < num_players as u32 {
        num_players as u32
    } else {
        raw
    }
}

} // verus!
