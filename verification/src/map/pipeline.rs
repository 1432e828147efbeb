//! The full generation pipeline after terrain: town placement on every upward tile (water
//! included), land forced under towns, starting towers, the initial texture spread with its
//! nearest-tower fallback, and one biome per player.

use vstd::prelude::*;

use crate::components::terrain_type::{spec_land_terrain_type, TerrainType, LAND_TERRAIN_TYPE_COUNT};
use crate::components::tile::{Terrain, TileData};
use crate::config::{MAX_PLAYERS, MIN_PLAYERS};
use crate::game::map::generation::{MapType, PlayerSlot};
use crate::grid::coords::TriCoord;
use crate::grid::hexagon::{half_edge, hexagon_tiles, in_hexagon, lemma_sorted_unique, strictly_sorted};
use crate::grid::neighbors::{lane_distance, steppable};
use crate::map::generation::error::MapGenError;
use crate::map::generation::farthest_point::{
    greedy_spread, is_farthest_choice, lemma_distances_fit_within,
    lemma_greedy_spread_same_points, min_int,
};
use crate::map::generation::sizing::{edge_tiles_for, spec_edge_tiles_for};
use crate::map::generation::farthest_point::spec_farthest_point_sample;
use crate::map::generation::rng::{chacha8_shuffle, rng_for, stage_rng, Stage};
use crate::map::generation::texture_spread::spec_spread_textures;
use crate::map::generation::starting_towers::select_starting_towers;
use crate::map::generation::texture_spread::spread_textures;
use crate::map::generation::towns::place_towns;
use crate::map::ownership::{
    hand_unclaimed_to_nearest, is_nearest_slot, nearest_claims, paint_owned_tiles, painted,
    palette_in_order, shuffled_palette,
};
use crate::map::generation::texture_spread::reachable_over_land;
use crate::grid::neighbors::spec_edge_neighbors;
use crate::map::terrain_edit::{
    eliminate_isolated_land, every_tile_has_neighbor, force_towns_land, forced_land, forced_by_elimination,
    near_a_town, towns_forced_entry,
    lemma_neighbor_structure_kept, lemma_only_water_changed_trans, lemma_well_formed_kept,
    no_isolated_land, only_water_changed, has_land_neighbor,
};
use crate::protocol::SetMapConfig;
use crate::map::tile_table::{
    coords_distinct, has_tile, is_land, is_owned, lemma_table_coords, owned_by, sort_coords,
    table_distances_fit, tiles_well_formed,
};

verus! {

/// The upward-pointing coordinates of the table, in table order: where Biome Towns may
/// stand.
pub open spec fn upward_sites(tiles: Seq<(TriCoord, TileData)>) -> Seq<TriCoord>
    decreases tiles.len(),
{
    if tiles.len() == 0 {
        Seq::empty()
    } else {
        let rest = upward_sites(tiles.drop_last());
        if tiles.last().0.spec_is_upward() {
            rest.push(tiles.last().0)
        } else {
            rest
        }
    }
}

/// The upward-pointing coordinates of the table, in table order.
pub fn collect_upward_sites(tiles: &Vec<(TriCoord, TileData)>) -> (sites: Vec<TriCoord>)
    requires
        tiles_well_formed(tiles@),
    ensures
        sites@ == upward_sites(tiles@),
        sites@.no_duplicates(),
        forall|t: TriCoord|
            #![trigger sites@.contains(t)]
            #![trigger has_tile(tiles@, t)]
            sites@.contains(t) <==> (has_tile(tiles@, t) && t.spec_is_upward()),
{
    let mut sites: Vec<TriCoord> = Vec::new();
    let mut i: usize = 0;
    while i < tiles.len()
        invariant
            i <= tiles.len(),
            tiles_well_formed(tiles@),
            sites@ == upward_sites(tiles@.take(i as int)),
            sites@.no_duplicates(),
            forall|t: TriCoord|
                #![trigger sites@.contains(t)]
                #![trigger has_tile(tiles@.take(i as int), t)]
                sites@.contains(t) <==> (has_tile(tiles@.take(i as int), t) && t.spec_is_upward()),
        decreases tiles.len() - i,
    {
        let c = tiles[i].0;
        proof {
            assert(tiles@.take(i + 1).drop_last() =~= tiles@.take(i as int));
            assert(tiles@.take(i + 1).last() == tiles@[i as int]);
        }
        let ghost before = sites@;
        if c.is_upward() {
            sites.push(c);
        }
        proof {
            let long = tiles@.take(i + 1);
            let short = tiles@.take(i as int);
            assert forall|t: TriCoord| has_tile(long, t) <==> (has_tile(short, t) || t == c) by {
                if has_tile(long, t) {
                    let k = choose|k: int| 0 <= k < long.len() && (#[trigger] long[k]).0 == t;
                    if k < i {
                        assert(short[k] == long[k]);
                    }
                }
                if has_tile(short, t) {
                    let k = choose|k: int| 0 <= k < short.len() && (#[trigger] short[k]).0 == t;
                    assert(long[k] == short[k]);
                }
                if t == c {
                    assert(long[i as int].0 == c);
                }
            }
            if c.spec_is_upward() {
                assert(!before.contains(c)) by {
                    if before.contains(c) {
                        assert(has_tile(short, c));
                        let k = choose|k: int| 0 <= k < short.len() && (#[trigger] short[k]).0 == c;
                        assert(tiles@[k].0 == tiles@[i as int].0);
                    }
                }
                assert forall|t: TriCoord| sites@.contains(t) <==> (before.contains(t) || t == c) by {
                    if sites@.contains(t) {
                        let k = choose|k: int| 0 <= k < sites.len() && sites@[k] == t;
                        if k < before.len() {
                            assert(before[k] == t);
                        }
                    }
                    if before.contains(t) {
                        let k = choose|k: int| 0 <= k < before.len() && before[k] == t;
                        assert(sites@[k] == t);
                    }
                    if t == c {
                        assert(sites@[before.len() as int] == c);
                    }
                }
            }
            assert forall|t: TriCoord|
                sites@.contains(t) <==> (has_tile(long, t) && t.spec_is_upward()) by {
                if c.spec_is_upward() {
                    assert(sites@.contains(t) <==> (before.contains(t) || t == c));
                } else {
                    assert(sites@ == before);
                }
                assert(before.contains(t) <==> (has_tile(short, t) && t.spec_is_upward()));
            }
        }
        i += 1;
    }
    assert(tiles@.take(tiles.len() as int) =~= tiles@);
    assert forall|t: TriCoord| sites@.contains(t) <==> (has_tile(tiles@, t) && t.spec_is_upward()) by {
        assert(sites@.contains(t) <==> (has_tile(tiles@.take(tiles.len() as int), t)
            && t.spec_is_upward()));
    }
    sites
}

/// Whether `num_players` is a player count a match supports.
pub open spec fn valid_player_count(num_players: u8) -> bool {
    MIN_PLAYERS <= num_players <= MAX_PLAYERS
}

/// The board of a match: every tile of the hexagon sized for `num_players` on `map_type`,
/// in lexicographic order, once the player count has been checked.
pub fn board_coords(map_type: MapType, num_players: u8) -> (r: Result<Vec<TriCoord>, MapGenError>)
    ensures
        !valid_player_count(num_players) ==> r == Err::<Vec<TriCoord>, MapGenError>(
            MapGenError::InvalidPlayerCount(num_players),
        ),
        valid_player_count(num_players) ==> r is Ok,
        r matches Ok(coords) ==> {
            let m = half_edge(spec_edge_tiles_for(num_players, map_type));
            &&& strictly_sorted(coords@)
            &&& forall|t: TriCoord| coords@.contains(t) <==> in_hexagon(m, t)
            &&& coords.len() == 6 * m * m
        },
{
    if num_players < MIN_PLAYERS || num_players > MAX_PLAYERS {
        return Err(MapGenError::InvalidPlayerCount(num_players));
    }
    let edge_tiles = edge_tiles_for(num_players, map_type);
    proof {
        let m = half_edge(edge_tiles as int);
        assert(m <= 480);
        assert(6 * m * m <= 6 * 480 * 480) by (nonlinear_arith)
            requires
                0 <= m <= 480,
        ;
    }
    match hexagon_tiles(edge_tiles) {
        Ok(coords) => Ok(coords),
        Err(e) => Err(MapGenError::from(e)),
    }
}

} // verus!

verus! {

/// Two tables with the same coordinates in the same order have the same upward sites.
pub proof fn lemma_upward_sites_same_coords(a: Seq<(TriCoord, TileData)>, b: Seq<(TriCoord, TileData)>)
    requires
        a.len() == b.len(),
        forall|i: int| 0 <= i < a.len() ==> (#[trigger] a[i]).0 == b[i].0,
    ensures
        upward_sites(a) == upward_sites(b),
    decreases a.len(),
{
    if a.len() > 0 {
        lemma_upward_sites_same_coords(a.drop_last(), b.drop_last());
        assert(a.last().0 == b.last().0) by {
            assert(a[a.len() - 1].0 == b[a.len() - 1].0);
        }
    }
}

/// A generated map: the terrain table, the placed Biome Towns, each player's starting tower
/// (index `i` is `PlayerSlot(i)`'s), and the generation-time ownership of every land tile.
/// Water tiles are absent from the ownership table.
pub struct TileMap {
    pub tiles: Vec<(TriCoord, TileData)>,
    pub towns: Vec<TriCoord>,
    pub starting_towers: Vec<TriCoord>,
    pub initial_texture_owners: Vec<(TriCoord, PlayerSlot)>,
}

impl TileMap {
    /// An empty map.
    pub fn empty() -> (map: TileMap)
        ensures
            map.tiles.len() == 0,
            map.towns.len() == 0,
            map.starting_towers.len() == 0,
            map.initial_texture_owners.len() == 0,
    {
        TileMap {
            tiles: Vec::new(),
            towns: Vec::new(),
            starting_towers: Vec::new(),
            initial_texture_owners: Vec::new(),
        }
    }
}

/// Whether the terrain table is one the pipeline can take: real tiles with no coordinate
/// twice, whose lane sums, edge neighbors and pairwise lane distances stay in `i32`.
pub fn tiles_are_well_formed(tiles: &Vec<(TriCoord, TileData)>) -> (ok: bool)
    ensures
        ok == tiles_well_formed(tiles@),
{
    let mut i: usize = 0;
    while i < tiles.len()
        invariant
            i <= tiles.len(),
            forall|a: int, b: int|
                0 <= a < i && 0 <= b < tiles.len() && a != b ==> (#[trigger] tiles@[a]).0 != (
                #[trigger] tiles@[b]).0,
            forall|a: int|
                0 <= a < i ==> (#[trigger] tiles@[a]).0.is_valid() && steppable(tiles@[a].0),
            forall|a: int, b: int|
                #![trigger tiles@[a], tiles@[b]]
                0 <= a < i && 0 <= b < tiles.len() ==> lane_distance(tiles@[a].0, tiles@[b].0)
                    <= i32::MAX,
        decreases tiles.len() - i,
    {
        let c = tiles[i].0;
        let ab = c.a as i64 + c.b as i64;
        let s = ab + c.c as i64;
        if ab < i32::MIN as i64 || ab > i32::MAX as i64 || (s != 1 && s != 2) {
            return false;
        }
        if s == 1 {
            if c.a == i32::MAX || c.b == i32::MAX || c.c == i32::MAX || ab >= i32::MAX as i64 {
                return false;
            }
        } else if c.a == i32::MIN || c.b == i32::MIN || c.c == i32::MIN || ab <= i32::MIN as i64 {
            return false;
        }
        proof {
            assert(c.is_valid() && steppable(c));
        }
        let mut j: usize = 0;
        while j < tiles.len()
            invariant
                i < tiles.len(),
                j <= tiles.len(),
                c == tiles@[i as int].0,
                forall|b: int| 0 <= b < j && b != i ==> (#[trigger] tiles@[b]).0 != c,
                forall|b: int| 0 <= b < j ==> lane_distance(c, (#[trigger] tiles@[b]).0) <= i32::MAX,
            decreases tiles.len() - j,
        {
            let o = tiles[j].0;
            if j != i && o == c {
                return false;
            }
            proof {
                reveal(table_distances_fit);
            }
            let da = c.a as i64 - o.a as i64;
            let db = c.b as i64 - o.b as i64;
            let dc = c.c as i64 - o.c as i64;
            let da = if da < 0 { -da } else { da };
            let db = if db < 0 { -db } else { db };
            let dc = if dc < 0 { -dc } else { dc };
            if da + db + dc > i32::MAX as i64 {
                proof {
                    assert(lane_distance(tiles@[i as int].0, tiles@[j as int].0) > i32::MAX);
                }
                return false;
            }
            j += 1;
        }
        proof {
            assert forall|a: int, b: int|
                0 <= a < i + 1 && 0 <= b < tiles.len() && a != b implies (#[trigger] tiles@[a]).0
                != (#[trigger] tiles@[b]).0 by {
                if a == i {
                    assert(tiles@[b].0 != c);
                }
            }
            assert forall|a: int, b: int|
                #![trigger tiles@[a], tiles@[b]]
                0 <= a < i + 1 && 0 <= b < tiles.len() implies lane_distance(tiles@[a].0, tiles@[b].0)
                    <= i32::MAX by {
                if a == i {
                    assert(lane_distance(c, tiles@[b].0) <= i32::MAX);
                }
            }
        }
        i += 1;
    }
    proof {
        reveal(table_distances_fit);
    }
    true
}

} // verus!

verus! {

/// The effect of [`paint_owned_tiles`] as its contract states it.
pub open spec fn paint_result(
    before: Seq<(TriCoord, TileData)>,
    after: Seq<(TriCoord, TileData)>,
    owners: Seq<(TriCoord, PlayerSlot)>,
    palette: Seq<usize>,
) -> bool {
    &&& after.len() == before.len()
    &&& forall|i: int, s: u8|
        0 <= i < after.len() && owned_by(owners, before[i].0, s) ==> #[trigger] after[i] == painted(
            before[i],
            palette,
            s,
        ) && #[trigger] owned_by(owners, before[i].0, s)
    &&& forall|i: int|
        0 <= i < after.len() && !is_owned(owners, before[i].0) ==> #[trigger] after[i] == before[i]
}

/// Painting keeps coordinates and terrain, so it keeps which tiles are land and keeps lone
/// land away; water tiles, never owned, are untouched.
proof fn lemma_paint_keeps_land(
    before: Seq<(TriCoord, TileData)>,
    after: Seq<(TriCoord, TileData)>,
    owners: Seq<(TriCoord, PlayerSlot)>,
    palette: Seq<usize>,
)
    requires
        paint_result(before, after, owners, palette),
        forall|c: TriCoord| #[trigger] is_owned(owners, c) <==> is_land(before, c),
        coords_distinct(before),
    ensures
        forall|i: int|
            #![trigger after[i]]
            0 <= i < after.len() ==> after[i].0 == before[i].0 && after[i].1.terrain
                == before[i].1.terrain,
        forall|i: int|
            #![trigger after[i]]
            0 <= i < after.len() && after[i].1.terrain == Terrain::Water ==> after[i] == before[i],
        forall|c: TriCoord| #[trigger] is_land(after, c) <==> is_land(before, c),
        no_isolated_land(before) ==> no_isolated_land(after),
{
    assert forall|i: int|
        #![trigger after[i]]
        0 <= i < after.len() implies after[i].0 == before[i].0 && after[i].1.terrain
            == before[i].1.terrain && (after[i].1.terrain == Terrain::Water ==> after[i]
            == before[i]) by {
        if is_owned(owners, before[i].0) {
            let k = choose|k: int| 0 <= k < owners.len() && (#[trigger] owners[k]).0 == before[i].0;
            assert(owned_by(owners, before[i].0, owners[k].1.0));
            assert(after[i] == painted(before[i], palette, owners[k].1.0));
            if before[i].1.terrain == Terrain::Water {
                assert(is_land(before, before[i].0));
                let t = choose|t: int|
                    0 <= t < before.len() && (#[trigger] before[t]).0 == before[i].0
                        && before[t].1.terrain != Terrain::Water;
                assert(t == i);
            }
        } else {
            assert(after[i] == before[i]);
        }
    }
    assert forall|c: TriCoord| #[trigger] is_land(after, c) <==> is_land(before, c) by {
        if is_land(after, c) {
            let t = choose|t: int|
                0 <= t < after.len() && (#[trigger] after[t]).0 == c && after[t].1.terrain
                    != Terrain::Water;
            assert(before[t].0 == c);
        }
        if is_land(before, c) {
            let t = choose|t: int|
                0 <= t < before.len() && (#[trigger] before[t]).0 == c && before[t].1.terrain
                    != Terrain::Water;
            assert(after[t].0 == c);
        }
    }
    if no_isolated_land(before) {
        reveal(has_land_neighbor);
        assert forall|i: int|
            #![trigger after[i]]
            0 <= i < after.len() && after[i].1.terrain != Terrain::Water implies has_land_neighbor(
            after,
            after[i].0,
        ) by {
            assert(has_land_neighbor(before, before[i].0));
            let n = choose|n: TriCoord|
                #[trigger] crate::grid::neighbors::spec_edge_neighbors(before[i].0).contains(n)
                    && is_land(before, n);
            assert(is_land(after, n));
        }
    }
}

/// With a palette of distinct dry-land biomes, painting by owner gives two owned tiles the
/// same biome exactly when they have the same owner.
proof fn lemma_paint_is_by_owner(
    before: Seq<(TriCoord, TileData)>,
    after: Seq<(TriCoord, TileData)>,
    owners: Seq<(TriCoord, PlayerSlot)>,
    palette: Seq<usize>,
)
    requires
        paint_result(before, after, owners, palette),
        coords_distinct(owners),
        palette.no_duplicates(),
        forall|p: int| 0 <= p < palette.len() ==> #[trigger] palette[p] < LAND_TERRAIN_TYPE_COUNT,
        forall|k: int| 0 <= k < owners.len() ==> ((#[trigger] owners[k]).1.0 as int) < palette.len(),
    ensures
        painted_by_owner(after, owners),
{
    assert forall|i: int, j: int, si: u8, sj: u8|
        #![trigger owned_by(owners, after[i].0, si), owned_by(owners, after[j].0, sj)]
        0 <= i < after.len() && 0 <= j < after.len() && owned_by(owners, after[i].0, si)
            && owned_by(owners, after[j].0, sj) implies (after[i].1.terrain_type
        == after[j].1.terrain_type <==> si == sj) by {
        if is_owned(owners, before[i].0) {
            let k = choose|k: int| 0 <= k < owners.len() && (#[trigger] owners[k]).0 == before[i].0;
            assert(owned_by(owners, before[i].0, owners[k].1.0));
            assert(after[i] == painted(before[i], palette, owners[k].1.0));
        } else {
            assert(after[i] == before[i]);
        }
        if is_owned(owners, before[j].0) {
            let k = choose|k: int| 0 <= k < owners.len() && (#[trigger] owners[k]).0 == before[j].0;
            assert(owned_by(owners, before[j].0, owners[k].1.0));
            assert(after[j] == painted(before[j], palette, owners[k].1.0));
        } else {
            assert(after[j] == before[j]);
        }
        assert(after[i].0 == before[i].0 && after[j].0 == before[j].0);
        let ki = choose|k: int|
            0 <= k < owners.len() && (#[trigger] owners[k]).0 == after[i].0 && owners[k].1.0 == si;
        let kj = choose|k: int|
            0 <= k < owners.len() && (#[trigger] owners[k]).0 == after[j].0 && owners[k].1.0 == sj;
        assert(after[i] == painted(before[i], palette, si));
        assert(after[j] == painted(before[j], palette, sj));
        if si != sj {
            assert(palette[si as int] != palette[sj as int]);
            crate::components::terrain_type::lemma_land_terrain_types_distinct(
                palette[si as int] as int,
                palette[sj as int] as int,
            );
        }
    }
}

} // verus!

verus! {

/// The ownership and biome painting of a generated map, as the generation contract states
/// it.
pub open spec fn painted_by_owner(
    tiles: Seq<(TriCoord, TileData)>,
    owners: Seq<(TriCoord, PlayerSlot)>,
) -> bool {
    forall|i: int, j: int, si: u8, sj: u8|
        #![trigger owned_by(owners, tiles[i].0, si), owned_by(owners, tiles[j].0, sj)]
        0 <= i < tiles.len() && 0 <= j < tiles.len() && owned_by(owners, tiles[i].0, si)
            && owned_by(owners, tiles[j].0, sj) ==> (tiles[i].1.terrain_type
            == tiles[j].1.terrain_type <==> si == sj)
}

/// On a hexagonal board (edge length at least 3) every tile has an edge neighbor on the
/// board, so the generation contract's "no land tile stands alone" holds there.
pub proof fn lemma_board_tiles_have_neighbors(m: int, tiles: Seq<(TriCoord, TileData)>)
    requires
        m >= 1,
        tiles_well_formed(tiles),
        forall|t: TriCoord| #[trigger] has_tile(tiles, t) <==> in_hexagon(m, t),
    ensures
        every_tile_has_neighbor(tiles),
{
    reveal(crate::map::terrain_edit::has_neighbor_in);
    assert forall|i: int| 0 <= i < tiles.len() implies crate::map::terrain_edit::has_neighbor_in(
        tiles,
        (#[trigger] tiles[i]).0,
    ) by {
        let t = tiles[i].0;
        assert(has_tile(tiles, t));
        let n = crate::grid::hexagon::lemma_hexagon_tile_has_inside_neighbor(m, t);
        assert(has_tile(tiles, n));
    }
}

/// Reaching a tile over land depends only on which tiles are land.
proof fn lemma_reach_same_land(
    t1: Seq<(TriCoord, TileData)>,
    t2: Seq<(TriCoord, TileData)>,
    starting: Seq<TriCoord>,
    t: TriCoord,
    n: nat,
)
    requires
        forall|c: TriCoord| #[trigger] is_land(t1, c) <==> is_land(t2, c),
    ensures
        reachable_over_land(t1, starting, t, n) == reachable_over_land(t2, starting, t, n),
    decreases n,
{
    if n > 0 {
        assert forall|p: TriCoord| #[trigger] spec_edge_neighbors(p).contains(t) implies reachable_over_land(
            t1,
            starting,
            p,
            (n - 1) as nat,
        ) == reachable_over_land(t2, starting, p, (n - 1) as nat) by {
            lemma_reach_same_land(t1, t2, starting, p, (n - 1) as nat);
        }
    }
}

/// The territories of a generated map: the spread's claims keep their nearest-over-land
/// tower, and the tiles the spread could not reach went to their nearest tower.
proof fn lemma_territories(
    forced: Seq<(TriCoord, TileData)>,
    painted_tiles: Seq<(TriCoord, TileData)>,
    spread: Seq<(TriCoord, PlayerSlot)>,
    owners: Seq<(TriCoord, PlayerSlot)>,
    starting: Seq<TriCoord>,
)
    requires
        forall|c: TriCoord| #[trigger] is_land(painted_tiles, c) <==> is_land(forced, c),
        coords_distinct(owners),
        owners.len() >= spread.len(),
        forall|k: int| 0 <= k < spread.len() ==> owners[k] == spread[k],
        forall|k: int|
            spread.len() <= k < owners.len() ==> !is_owned(spread, (#[trigger] owners[k]).0)
                && is_nearest_slot(starting, owners[k].0, owners[k].1.0 as int),
        forall|t: TriCoord|
            #[trigger] is_owned(spread, t) ==> exists|n: nat| reachable_over_land(forced, starting, t, n),
        forall|t: TriCoord, n: nat|
            #[trigger] reachable_over_land(forced, starting, t, n) ==> is_owned(spread, t),
        forall|t: TriCoord, s: u8, n: nat|
            #[trigger] owned_by(spread, t, s) && #[trigger] reachable_over_land(forced, starting, t, n)
                ==> reachable_over_land(forced, seq![starting[s as int]], t, n),
    ensures
        forall|c: TriCoord, s: u8, n: nat|
            #[trigger] owned_by(owners, c, s) && #[trigger] reachable_over_land(painted_tiles, starting, c, n)
                ==> reachable_over_land(painted_tiles, seq![starting[s as int]], c, n),
        forall|c: TriCoord, s: u8|
            #[trigger] owned_by(owners, c, s) && !(exists|n: nat|
                reachable_over_land(painted_tiles, starting, c, n)) ==> is_nearest_slot(
                starting,
                c,
                s as int,
            ),
{
    assert forall|c: TriCoord, s: u8, n: nat|
        #[trigger] owned_by(owners, c, s) && #[trigger] reachable_over_land(painted_tiles, starting, c, n)
            implies reachable_over_land(painted_tiles, seq![starting[s as int]], c, n) by {
        lemma_reach_same_land(painted_tiles, forced, starting, c, n);
        lemma_reach_same_land(painted_tiles, forced, seq![starting[s as int]], c, n);
        assert(is_owned(spread, c));
        let k = choose|k: int| 0 <= k < owners.len() && (#[trigger] owners[k]).0 == c && owners[k].1.0 == s;
        let q = choose|q: int| 0 <= q < spread.len() && (#[trigger] spread[q]).0 == c;
        assert(owners[q] == spread[q]);
        assert(k == q);
        assert(owned_by(spread, c, s));
    }
    assert forall|c: TriCoord, s: u8|
        #[trigger] owned_by(owners, c, s) && !(exists|n: nat|
            reachable_over_land(painted_tiles, starting, c, n)) implies is_nearest_slot(
            starting,
            c,
            s as int,
        ) by {
        let k = choose|k: int| 0 <= k < owners.len() && (#[trigger] owners[k]).0 == c && owners[k].1.0 == s;
        if k < spread.len() {
            assert(owners[k] == spread[k]);
            assert(is_owned(spread, c));
            let n = choose|n: nat| reachable_over_land(forced, starting, c, n);
            lemma_reach_same_land(painted_tiles, forced, starting, c, n);
            assert(reachable_over_land(painted_tiles, starting, c, n));
        }
    }
}

/// The biomes the land tiles of the table are painted in.
pub open spec fn land_biomes(tiles: Seq<(TriCoord, TileData)>) -> Set<TerrainType> {
    Set::new(
        |b: TerrainType|
            exists|i: int|
                0 <= i < tiles.len() && (#[trigger] tiles[i]).1.terrain != Terrain::Water
                    && tiles[i].1.terrain_type == b,
    )
}

/// Terrain and biome agree on water: a tile is water exactly when its biome is `Ocean`.
pub open spec fn water_is_ocean(tiles: Seq<(TriCoord, TileData)>) -> bool {
    forall|i: int|
        #![trigger tiles[i]]
        0 <= i < tiles.len() ==> (tiles[i].1.terrain == Terrain::Water <==> tiles[i].1.terrain_type
            == TerrainType::Ocean)
}

/// The index of a land tile of the table at `c`, when there is one.
spec fn land_index(tiles: Seq<(TriCoord, TileData)>, c: TriCoord) -> int {
    choose|t: int| 0 <= t < tiles.len() && (#[trigger] tiles[t]).0 == c && tiles[t].1.terrain != Terrain::Water
}

/// One biome per player: when every land tile is owned by one of `n` slots, each slot owns
/// its starting tower, and two owned tiles share a biome exactly when they share an owner,
/// the land shows exactly `n` biomes.
pub proof fn lemma_one_biome_per_player(
    tiles: Seq<(TriCoord, TileData)>,
    owners: Seq<(TriCoord, PlayerSlot)>,
    starting: Seq<TriCoord>,
    n: u8,
)
    requires
        forall|c: TriCoord| #[trigger] is_owned(owners, c) <==> is_land(tiles, c),
        forall|k: int| 0 <= k < owners.len() ==> (#[trigger] owners[k]).1.0 < n,
        starting.len() == n,
        forall|k: int| 0 <= k < n ==> owned_by(owners, #[trigger] starting[k], k as u8),
        painted_by_owner(tiles, owners),
    ensures
        land_biomes(tiles).finite(),
        land_biomes(tiles).len() == n,
{
    let f = |k: int| tiles[land_index(tiles, starting[k])].1.terrain_type;
    let slots = vstd::set_lib::set_int_range(0, n as int);
    assert forall|k: int| 0 <= k < n implies {
        let t = #[trigger] land_index(tiles, starting[k]);
        &&& 0 <= t < tiles.len()
        &&& tiles[t].0 == starting[k]
        &&& tiles[t].1.terrain != Terrain::Water
        &&& owned_by(owners, tiles[t].0, k as u8)
    } by {
        assert(owned_by(owners, starting[k], k as u8));
        let q = choose|q: int| 0 <= q < owners.len() && (#[trigger] owners[q]).0 == starting[k] && owners[q].1.0 == k as u8;
        assert(is_owned(owners, starting[k]));
        assert(is_land(tiles, starting[k]));
    }
    assert(slots.map(f) =~= land_biomes(tiles)) by {
        assert forall|b: TerrainType| land_biomes(tiles).contains(b) implies slots.map(f).contains(b) by {
            let i = choose|i: int|
                0 <= i < tiles.len() && (#[trigger] tiles[i]).1.terrain != Terrain::Water
                    && tiles[i].1.terrain_type == b;
            assert(is_land(tiles, tiles[i].0));
            assert(is_owned(owners, tiles[i].0));
            let q = choose|q: int| 0 <= q < owners.len() && (#[trigger] owners[q]).0 == tiles[i].0;
            let s = owners[q].1.0;
            assert(owned_by(owners, tiles[i].0, s));
            let t = land_index(tiles, starting[s as int]);
            assert(owned_by(owners, tiles[t].0, s));
            assert(tiles[i].1.terrain_type == tiles[t].1.terrain_type);
            assert(slots.contains(s as int));
            assert(f(s as int) == b);
        }
        assert forall|b: TerrainType| slots.map(f).contains(b) implies land_biomes(tiles).contains(b) by {
            let k = choose|k: int| slots.contains(k) && b == f(k);
            let t = land_index(tiles, starting[k]);
            assert(tiles[t].1.terrain != Terrain::Water);
        }
    }
    assert(vstd::relations::injective_on(f, slots)) by {
        assert forall|k1: int, k2: int|
            slots.contains(k1) && slots.contains(k2) && #[trigger] f(k1) == #[trigger] f(k2) implies k1 == k2 by {
            let t1 = land_index(tiles, starting[k1]);
            let t2 = land_index(tiles, starting[k2]);
            assert(owned_by(owners, tiles[t1].0, k1 as u8));
            assert(owned_by(owners, tiles[t2].0, k2 as u8));
            assert(k1 as u8 == k2 as u8);
        }
    }
    vstd::set_lib::lemma_int_range(0, n as int);
    vstd::set_lib::lemma_map_size(slots, land_biomes(tiles), f);
}

/// Painting owned tiles with dry-land biomes, when exactly the land is owned, leaves every
/// land tile off `Ocean` and every water tile as it was.
proof fn lemma_paint_keeps_water_ocean(
    before: Seq<(TriCoord, TileData)>,
    after: Seq<(TriCoord, TileData)>,
    owners: Seq<(TriCoord, PlayerSlot)>,
    palette: Seq<usize>,
)
    requires
        paint_result(before, after, owners, palette),
        forall|c: TriCoord| #[trigger] is_owned(owners, c) <==> is_land(before, c),
        coords_distinct(before),
        forall|p: int| 0 <= p < palette.len() ==> #[trigger] palette[p] < LAND_TERRAIN_TYPE_COUNT,
        forall|k: int| 0 <= k < owners.len() ==> ((#[trigger] owners[k]).1.0 as int) < palette.len(),
    ensures
        forall|i: int|
            #![trigger after[i]]
            0 <= i < after.len() && after[i].1.terrain != Terrain::Water ==> after[i].1.terrain_type
                != TerrainType::Ocean,
        (forall|i: int|
            #![trigger before[i]]
            0 <= i < before.len() && before[i].1.terrain == Terrain::Water ==> before[i].1.terrain_type
                == TerrainType::Ocean) ==> water_is_ocean(after),
{
    lemma_paint_keeps_land(before, after, owners, palette);
    assert forall|i: int|
        #![trigger after[i]]
        0 <= i < after.len() && after[i].1.terrain != Terrain::Water implies after[i].1.terrain_type
            != TerrainType::Ocean by {
        assert(before[i].1.terrain != Terrain::Water);
        assert(is_land(before, before[i].0));
        assert(is_owned(owners, before[i].0));
        let k = choose|k: int| 0 <= k < owners.len() && (#[trigger] owners[k]).0 == before[i].0;
        assert(owned_by(owners, before[i].0, owners[k].1.0));
        assert(after[i] == painted(before[i], palette, owners[k].1.0));
    }
}

/// The upward sites of the table in coordinate order: the candidates for Biome Towns.
pub open spec fn sorted_upward_sites(tiles: Seq<(TriCoord, TileData)>) -> Seq<TriCoord> {
    choose|s: Seq<TriCoord>|
        strictly_sorted(s) && forall|x: TriCoord| s.contains(x) <==> upward_sites(tiles).contains(x)
}

/// Entry `i` of the table once lone land has been given a neighbor.
pub open spec fn eliminated_entry(tiles: Seq<(TriCoord, TileData)>, i: int) -> (TriCoord, TileData) {
    if forced_by_elimination(tiles, tiles[i].0) && tiles[i].1.terrain == Terrain::Water {
        (tiles[i].0, forced_land())
    } else {
        tiles[i]
    }
}

/// The table once lone land has been given a neighbor and land stands under and around
/// every town: the board that ownership spreads over.
pub open spec fn land_table(tiles: Seq<(TriCoord, TileData)>, towns: Seq<TriCoord>) -> Seq<
    (TriCoord, TileData),
> {
    Seq::new(tiles.len(), |i: int| towns_forced_entry(eliminated_entry(tiles, i), towns))
}

/// The initial territory claims: the spread from the starting towers over the land table,
/// its ties drawn from the spread's stream, then each land tile it left unclaimed, in table
/// order, to its nearest starting tower.
pub open spec fn initial_claims(
    tiles: Seq<(TriCoord, TileData)>,
    towns: Seq<TriCoord>,
    starting: Seq<TriCoord>,
    seed: u32,
) -> Seq<(TriCoord, PlayerSlot)> {
    let land = land_table(tiles, towns);
    let spread = spec_spread_textures(land, starting, stage_rng(seed, Stage::TextureSpread)).0;
    spread + nearest_claims(land, spread, starting)
}

/// The biome palette of a match: the dry-land biomes `0..14` shuffled by the biome stage's
/// stream; slot `s` is painted `palette[s]`.
pub open spec fn stage_palette(seed: u32) -> Seq<usize> {
    chacha8_shuffle(stage_rng(seed, Stage::PlayerBiomeAssignment), palette_in_order()).0
}

/// The map generated from a player count, a seed, a town count and a terrain table: every
/// random choice drawn from its stage's stream of `seed`, so that nothing else goes in.
pub open spec fn generated_from(
    num_players: u8,
    seed: u32,
    town_count: u32,
    tiles: Seq<(TriCoord, TileData)>,
    map: TileMap,
) -> bool {
    &&& map.towns@ == spec_farthest_point_sample(
        sorted_upward_sites(tiles),
        town_count as int,
        stage_rng(seed, Stage::TownPlacement),
    ).0
    &&& map.starting_towers@ == spec_farthest_point_sample(
        map.towns@,
        num_players as int,
        stage_rng(seed, Stage::StartingTowers),
    ).0
    &&& map.initial_texture_owners@ == initial_claims(
        tiles,
        map.towns@,
        map.starting_towers@,
        seed,
    )
    &&& paint_result(
        land_table(tiles, map.towns@),
        map.tiles@,
        map.initial_texture_owners@,
        stage_palette(seed),
    )
}

/// Generation is a function of its inputs: two maps generated from the same player count,
/// seed, town count and terrain have the same tiles, towns, starting towers and owners.
pub proof fn lemma_generation_is_deterministic(
    num_players: u8,
    seed: u32,
    town_count: u32,
    tiles: Seq<(TriCoord, TileData)>,
    a: TileMap,
    b: TileMap,
)
    requires
        generated_from(num_players, seed, town_count, tiles, a),
        generated_from(num_players, seed, town_count, tiles, b),
    ensures
        a.tiles@ == b.tiles@,
        a.towns@ == b.towns@,
        a.starting_towers@ == b.starting_towers@,
        a.initial_texture_owners@ == b.initial_texture_owners@,
{
    let land = land_table(tiles, a.towns@);
    let owners = a.initial_texture_owners@;
    assert forall|i: int| 0 <= i < a.tiles.len() implies a.tiles@[i] == b.tiles@[i] by {
        if is_owned(owners, land[i].0) {
            let k = choose|k: int| 0 <= k < owners.len() && (#[trigger] owners[k]).0 == land[i].0;
            assert(owned_by(owners, land[i].0, owners[k].1.0));
        }
    }
    assert(a.tiles@ =~= b.tiles@);
}

/// Each stage draws from a stream of its own, so the draws an earlier stage makes never
/// shift a later stage's: two maps generated with one seed and player count that placed the
/// same towns pick the same starting towers, whatever their town counts and terrain, and
/// any two maps generated with one seed paint a slot's land in the same biome.
pub proof fn lemma_stages_draw_independently(
    num_players: u8,
    seed: u32,
    town_count_a: u32,
    town_count_b: u32,
    tiles_a: Seq<(TriCoord, TileData)>,
    tiles_b: Seq<(TriCoord, TileData)>,
    a: TileMap,
    b: TileMap,
)
    requires
        generated_from(num_players, seed, town_count_a, tiles_a, a),
        generated_from(num_players, seed, town_count_b, tiles_b, b),
    ensures
        a.towns@ == b.towns@ ==> a.starting_towers@ == b.starting_towers@,
        forall|i: int, j: int, s: u8|
            #![trigger owned_by(a.initial_texture_owners@, a.tiles@[i].0, s), owned_by(b.initial_texture_owners@, b.tiles@[j].0, s)]
            0 <= i < a.tiles.len() && 0 <= j < b.tiles.len() && owned_by(
                a.initial_texture_owners@,
                a.tiles@[i].0,
                s,
            ) && owned_by(b.initial_texture_owners@, b.tiles@[j].0, s) ==> a.tiles@[i].1.terrain_type
                == b.tiles@[j].1.terrain_type,
{
    assert forall|i: int, j: int, s: u8|
        #![trigger owned_by(a.initial_texture_owners@, a.tiles@[i].0, s), owned_by(b.initial_texture_owners@, b.tiles@[j].0, s)]
        0 <= i < a.tiles.len() && 0 <= j < b.tiles.len() && owned_by(
            a.initial_texture_owners@,
            a.tiles@[i].0,
            s,
        ) && owned_by(b.initial_texture_owners@, b.tiles@[j].0, s) implies a.tiles@[i].1.terrain_type
        == b.tiles@[j].1.terrain_type by {
        let la = land_table(tiles_a, a.towns@);
        let lb = land_table(tiles_b, b.towns@);
        let oa = a.initial_texture_owners@;
        let ob = b.initial_texture_owners@;
        // Painting keeps each tile's coordinate, so the tile is painted for slot `s`.
        if is_owned(oa, la[i].0) {
            let k = choose|k: int| 0 <= k < oa.len() && (#[trigger] oa[k]).0 == la[i].0;
            assert(owned_by(oa, la[i].0, oa[k].1.0));
        }
        if is_owned(ob, lb[j].0) {
            let k = choose|k: int| 0 <= k < ob.len() && (#[trigger] ob[k]).0 == lb[j].0;
            assert(owned_by(ob, lb[j].0, ob[k].1.0));
        }
        assert(a.tiles@[i].0 == la[i].0);
        assert(b.tiles@[j].0 == lb[j].0);
        assert(a.tiles@[i] == painted(la[i], stage_palette(seed), s));
        assert(b.tiles@[j] == painted(lb[j], stage_palette(seed), s));
    }
}

/// Completes a map from its terrain: places up to `town_count` Biome Towns spread over every
/// upward tile (water included), forces land under them and their neighbors, picks one
/// starting tower per player, spreads ownership from the starting towers over land (the
/// nearest tower takes whatever the spread cannot reach), and paints each player's land in
/// one biome of its own. Every random choice is drawn from the stage's stream of `seed`.
#[verifier::spinoff_prover]
#[verifier::rlimit(80)]
pub fn populate(num_players: u8, seed: u32, town_count: u32, tiles: Vec<(TriCoord, TileData)>) -> (r:
    Result<TileMap, MapGenError>)
    requires
        tiles_well_formed(tiles@),
    ensures
        !valid_player_count(num_players) ==> r == Err::<TileMap, MapGenError>(
            MapGenError::InvalidPlayerCount(num_players),
        ),
        valid_player_count(num_players) ==> {
            let placed = min_int(town_count as int, upward_sites(tiles@).len() as int);
            &&& r is Err <==> placed < num_players
            &&& r is Err ==> r == Err::<TileMap, MapGenError>(
                MapGenError::NotEnoughTowns { needed: num_players, placed: placed as usize },
            )
        },
        r matches Ok(map) ==> {
            // The board: same coordinates; water turns into field exactly under the towns and
            // their neighbors, and where it gives a lone land tile a neighbor.
            &&& map.tiles.len() == tiles.len()
            &&& forall|i: int|
                #![trigger map.tiles@[i]]
                0 <= i < map.tiles.len() ==> map.tiles@[i].0 == tiles@[i].0 && map.tiles@[i].1.terrain
                    == (if tiles@[i].1.terrain == Terrain::Water && (forced_by_elimination(
                    tiles@,
                    tiles@[i].0,
                ) || near_a_town(map.towns@, tiles@[i].0)) {
                    Terrain::Field
                } else {
                    tiles@[i].1.terrain
                })
            &&& forall|i: int|
                #![trigger map.tiles@[i]]
                0 <= i < map.tiles.len() && map.tiles@[i].1.terrain == Terrain::Water
                    ==> map.tiles@[i] == tiles@[i]
            // Towns: a greedy farthest-point spread over the upward tiles, all on land.
            &&& map.towns.len() == min_int(town_count as int, upward_sites(tiles@).len() as int)
            &&& map.towns@.no_duplicates()
            &&& forall|k: int|
                0 <= k < map.towns.len() ==> upward_sites(tiles@).contains(#[trigger] map.towns@[k])
                    && is_land(map.tiles@, map.towns@[k])
            &&& greedy_spread(upward_sites(tiles@), map.towns@)
            // Starting towers: one per player, a greedy spread over the towns.
            &&& map.starting_towers.len() == num_players
            &&& map.starting_towers@.no_duplicates()
            &&& forall|k: int|
                0 <= k < map.starting_towers.len() ==> map.towns@.contains(
                    #[trigger] map.starting_towers@[k],
                )
            &&& greedy_spread(map.towns@, map.starting_towers@)
            // Ownership: exactly the land tiles, each by one slot; each starting tower by its
            // own slot.
            &&& coords_distinct(map.initial_texture_owners@)
            &&& forall|c: TriCoord|
                #[trigger] is_owned(map.initial_texture_owners@, c) <==> is_land(map.tiles@, c)
            &&& forall|k: int|
                0 <= k < map.initial_texture_owners.len()
                    ==> (#[trigger] map.initial_texture_owners@[k]).1.0 < num_players
            &&& forall|k: int|
                0 <= k < map.starting_towers.len() ==> owned_by(
                    map.initial_texture_owners@,
                    #[trigger] map.starting_towers@[k],
                    k as u8,
                )
            // One biome per player: two owned tiles share a biome exactly when they share an
            // owner.
            &&& painted_by_owner(map.tiles@, map.initial_texture_owners@)
            // No land tile stands alone, on a board where every tile has a neighbor.
            &&& every_tile_has_neighbor(tiles@) ==> no_isolated_land(map.tiles@)
            // Territories: a tile reachable over land from the starting towers goes to a
            // tower reaching it in as few land steps as any does; any other land tile goes to
            // its nearest starting tower by lane distance, the first on ties.
            &&& forall|c: TriCoord, s: u8, n: nat|
                #[trigger] owned_by(map.initial_texture_owners@, c, s) && #[trigger] reachable_over_land(
                    map.tiles@,
                    map.starting_towers@,
                    c,
                    n,
                ) ==> reachable_over_land(map.tiles@, seq![map.starting_towers@[s as int]], c, n)
            &&& forall|c: TriCoord, s: u8|
                #[trigger] owned_by(map.initial_texture_owners@, c, s) && !(exists|n: nat|
                    reachable_over_land(map.tiles@, map.starting_towers@, c, n)) ==> is_nearest_slot(
                    map.starting_towers@,
                    c,
                    s as int,
                )
            // The land shows exactly one biome per player.
            &&& land_biomes(map.tiles@).finite()
            &&& land_biomes(map.tiles@).len() == num_players
            // Land is painted in dry-land biomes; terrain and biome still agree on water when
            // they did on entry.
            &&& forall|i: int|
                #![trigger map.tiles@[i]]
                0 <= i < map.tiles.len() && map.tiles@[i].1.terrain != Terrain::Water
                    ==> map.tiles@[i].1.terrain_type != TerrainType::Ocean
            &&& water_is_ocean(tiles@) ==> water_is_ocean(map.tiles@)
            // The draws: each stage's choices come from that stage's stream of `seed`.
            &&& generated_from(num_players, seed, town_count, tiles@, map)
        },
{
    if num_players < MIN_PLAYERS || num_players > MAX_PLAYERS {
        return Err(MapGenError::InvalidPlayerCount(num_players));
    }
    let ghost input = tiles@;
    let mut tiles = tiles;
    eliminate_isolated_land(&mut tiles);
    let ghost elim = tiles@;
    proof {
        assert(only_water_changed(input, elim)) by {
            assert forall|i: int| #![trigger elim[i]] 0 <= i < elim.len() implies elim[i].0 == input[i].0 && (
            elim[i] == input[i] || (input[i].1.terrain == Terrain::Water && elim[i].1
                == forced_land())) by {
                assert(elim[i] == elim[i]);
            }
        }
        lemma_well_formed_kept(input, elim);
        lemma_upward_sites_same_coords(input, elim);
    }
    let sites = collect_upward_sites(&tiles);
    let sorted = sort_coords(&sites);
    proof {
        assert forall|a: int, b: int| 0 <= a < sorted.len() && 0 <= b < sorted.len() implies lane_distance(
            #[trigger] sorted@[a],
            #[trigger] sorted@[b],
        ) <= i32::MAX by {
            assert(sorted@.contains(sorted@[a]) && sites@.contains(sorted@[a]));
            assert(sorted@.contains(sorted@[b]) && sites@.contains(sorted@[b]));
            lemma_table_coords(elim, sorted@[a], sorted@[b]);
        }
        assert(sorted@.no_duplicates()) by {
            assert forall|a: int, b: int| 0 <= a < sorted.len() && 0 <= b < sorted.len() && a != b implies sorted@[a] != sorted@[b] by {
                if a < b {
                    assert(crate::grid::coords::lex_lt(sorted@[a], sorted@[b]));
                } else {
                    assert(crate::grid::coords::lex_lt(sorted@[b], sorted@[a]));
                }
            }
        }
        sorted@.unique_seq_to_set();
    }
    let mut town_rng = rng_for(seed, Stage::TownPlacement);
    let towns = place_towns(&sorted, town_count, &mut town_rng);
    if towns.len() < num_players as usize {
        return Err(MapGenError::NotEnoughTowns { needed: num_players, placed: towns.len() });
    }
    proof {
        assert forall|k: int|
            0 <= k < towns.len() implies has_tile(elim, #[trigger] towns@[k]) && towns@[k].is_valid()
                && steppable(towns@[k]) by {
            assert(sorted@.contains(towns@[k]));
            assert(sites@.contains(towns@[k]));
            lemma_table_coords(elim, towns@[k], towns@[k]);
        }
        lemma_greedy_spread_same_points(sorted@, upward_sites(input), towns@);
        // The candidates are the upward sites in coordinate order.
        assert forall|x: TriCoord| sorted@.contains(x) <==> upward_sites(input).contains(x) by {
            assert(sorted@.contains(x) <==> sites@.contains(x));
        }
        assert(strictly_sorted(sorted@));
        lemma_sorted_unique(sorted@, sorted_upward_sites(input));
    }
    force_towns_land(&mut tiles, &towns);
    let ghost forced = tiles@;
    proof {
        lemma_only_water_changed_trans(input, elim, forced);
        towns@.unique_seq_to_set();
        assert(towns.len() >= num_players);
        lemma_distances_fit_within(sorted@, towns@);
    }
    let mut start_rng = rng_for(seed, Stage::StartingTowers);
    let starting = select_starting_towers(&towns, num_players, &mut start_rng);
    proof {
        assert forall|k: int|
            0 <= k < starting.len() implies (#[trigger] starting@[k]).is_valid() && steppable(
                starting@[k],
            ) && has_tile(forced, starting@[k]) by {
            let q = choose|q: int| 0 <= q < towns.len() && towns@[q] == starting@[k];
            assert(is_land(forced, towns@[q]));
            lemma_table_coords(forced, starting@[k], starting@[k]);
        }
        assert forall|i: int, j: int|
            #![trigger forced[i], starting@[j]]
            0 <= i < forced.len() && 0 <= j < starting.len() implies lane_distance(forced[i].0, starting@[j])
                <= i32::MAX by {
            assert(has_tile(forced, forced[i].0));
            lemma_table_coords(forced, forced[i].0, starting@[j]);
        }
    }
    let mut spread_rng = rng_for(seed, Stage::TextureSpread);
    let mut owners = spread_textures(&tiles, &starting, &mut spread_rng);
    let ghost spread = owners@;
    hand_unclaimed_to_nearest(&tiles, &mut owners, &starting);
    let mut palette_rng = rng_for(seed, Stage::PlayerBiomeAssignment);
    let palette = shuffled_palette(&mut palette_rng);
    proof {
        // Every owned coordinate is land: the spread claims only towers and land, and every
        // starting tower is a town, which is land.
        assert forall|c: TriCoord| #[trigger] is_owned(owners@, c) <==> is_land(forced, c) by {
            if is_owned(spread, c) {
                let k = choose|k: int| 0 <= k < spread.len() && (#[trigger] spread[k]).0 == c;
                if starting@.contains(c) {
                    let q = choose|q: int| 0 <= q < starting.len() && starting@[q] == c;
                    let w = choose|w: int| 0 <= w < towns.len() && towns@[w] == starting@[q];
                    assert(is_land(forced, towns@[w]));
                }
            }
        }
        assert forall|k: int| 0 <= k < owners.len() implies ((#[trigger] owners@[k]).1.0 as int)
            < palette.len() by {
            if k < spread.len() {
                assert(owners@[k] == spread[k]);
            }
        }
    }
    paint_owned_tiles(&mut tiles, &owners, &palette);
    let ghost painted_tiles = tiles@;
    proof {
        lemma_paint_keeps_land(forced, painted_tiles, owners@, palette@);
        lemma_paint_is_by_owner(forced, painted_tiles, owners@, palette@);
        if every_tile_has_neighbor(input) {
            lemma_neighbor_structure_kept(input, elim);
        }
        assert forall|k: int|
            0 <= k < owners.len() implies (#[trigger] owners@[k]).1.0 < num_players by {
            if k < spread.len() {
                assert(owners@[k] == spread[k]);
            }
        }
        assert forall|k: int|
            0 <= k < starting.len() implies owned_by(owners@, #[trigger] starting@[k], k as u8) by {
            let q = choose|q: int|
                0 <= q < spread.len() && (#[trigger] spread[q]).0 == starting@[k] && spread[q].1.0
                    == k as u8;
            assert(owners@[q] == spread[q]);
        }
        assert forall|k: int|
            0 <= k < towns.len() implies upward_sites(input).contains(#[trigger] towns@[k])
                && is_land(painted_tiles, towns@[k]) by {
            assert(sorted@.contains(towns@[k]));
            assert(sites@.contains(towns@[k]));
        }
        lemma_one_biome_per_player(painted_tiles, owners@, starting@, num_players);
        lemma_territories(forced, painted_tiles, spread, owners@, starting@);
        assert forall|i: int|
            #![trigger painted_tiles[i]]
            0 <= i < painted_tiles.len() implies painted_tiles[i].0 == input[i].0
                && painted_tiles[i].1.terrain == (if input[i].1.terrain == Terrain::Water && (
            forced_by_elimination(input, input[i].0) || near_a_town(towns@, input[i].0)) {
                Terrain::Field
            } else {
                input[i].1.terrain
            }) by {
            assert(forced[i] == towns_forced_entry(elim[i], towns@));
            assert(elim[i].0 == input[i].0);
        }
        if water_is_ocean(input) {
            assert forall|i: int|
                #![trigger forced[i]]
                0 <= i < forced.len() && forced[i].1.terrain == Terrain::Water implies forced[i].1.terrain_type
                    == TerrainType::Ocean by {
                assert(input[i].1.terrain_type == TerrainType::Ocean || input[i].1.terrain != Terrain::Water);
            }
        }
        lemma_paint_keeps_water_ocean(forced, painted_tiles, owners@, palette@);
        assert forall|i: int| 0 <= i < forced.len() implies forced[i] == land_table(input, towns@)[i] by {
            assert(forced[i] == towns_forced_entry(elim[i], towns@));
            assert(elim[i] == eliminated_entry(input, i));
        }
        assert(forced =~= land_table(input, towns@));
    }
    Ok(TileMap { tiles, towns, starting_towers: starting, initial_texture_owners: owners })
}

} // verus!

verus! {

/// Which map to generate for a match.
#[derive(Debug, Clone, Copy, PartialEq, Eq, Structural)]
pub struct MapGenConfig {
    pub map_type: MapType,
    pub num_players: u8,
    pub seed: u32,
}

impl MapGenConfig {
    /// The default match settings (`Continents`, the minimum player count) with the given
    /// seed.
    pub fn default_with_seed(seed: u32) -> (c: MapGenConfig)
        ensures
            c.map_type == MapType::Continents,
            c.num_players == MIN_PLAYERS,
            c.seed == seed,
    {
        MapGenConfig { map_type: MapType::Continents, num_players: MIN_PLAYERS, seed }
    }

    /// Takes a client's `SetMapConfig` request: its map type and player count are used from
    /// now on; the seed is left as it was.
    pub fn apply_request(&mut self, request: &SetMapConfig)
        ensures
            final(self).map_type == request.map_type,
            final(self).num_players == request.num_players,
            final(self).seed == old(self).seed,
    {
        self.map_type = request.map_type;
        self.num_players = request.num_players;
    }
}

} // verus!
