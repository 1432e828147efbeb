//! Edits to a generated tile table that turn water into land: forcing land under Biome
//! Towns, and giving every lone land tile a land neighbor.

use vstd::prelude::*;

use crate::components::terrain_type::TerrainType;
use crate::components::tile::{Terrain, TileData};
use crate::grid::coords::TriCoord;
use crate::grid::neighbors::{
    lane_distance, lemma_neighbor_iff_adjacent, spec_edge_neighbors, steppable,
};
use crate::map::tile_table::{
    coords_distinct, find_entry, has_tile, is_land, table_distances_fit, tiles_well_formed,
};

verus! {

/// What forcing land makes of a water tile: a plain `Field` in the lowest dry band,
/// `Beach`, which is what the biome table gives at exactly sea level.
pub open spec fn forced_land() -> TileData {
    TileData { terrain: Terrain::Field, terrain_type: TerrainType::Beach }
}

/// The entry after forcing land at `coord`: water at `coord` becomes [`forced_land`],
/// anything else is left alone.
pub open spec fn force_entry(e: (TriCoord, TileData), coord: TriCoord) -> (TriCoord, TileData) {
    if e.0 == coord && e.1.terrain == Terrain::Water {
        (coord, forced_land())
    } else {
        e
    }
}

/// Forces `coord` to land if it is currently water; no-op for tiles that are already land
/// or absent from `tiles`.
pub fn force_land(tiles: &mut Vec<(TriCoord, TileData)>, coord: TriCoord)
    requires
        coords_distinct(old(tiles)@),
    ensures
        final(tiles).len() == old(tiles).len(),
        forall|i: int|
            0 <= i < final(tiles).len() ==> #[trigger] final(tiles)@[i] == force_entry(
                old(tiles)@[i],
                coord,
            ),
{
    match find_entry(tiles, &coord) {
        Some(k) => {
            let is_water = match tiles[k].1.terrain {
                Terrain::Water => true,
                _ => false,
            };
            if is_water {
                let ghost before = tiles@;
                tiles[k] = (
                    coord,
                    TileData { terrain: Terrain::Field, terrain_type: TerrainType::Beach },
                );
                proof {
                    assert forall|i: int| 0 <= i < tiles.len() implies #[trigger] tiles@[i]
                        == force_entry(before[i], coord) by {
                        if i != k {
                            assert(before[i].0 != before[k as int].0);
                        }
                    }
                }
            }
        },
        None => {},
    }
}

/// `c` is a land tile none of whose edge neighbors is a land tile.
pub open spec fn isolated_land(tiles: Seq<(TriCoord, TileData)>, c: TriCoord) -> bool {
    &&& is_land(tiles, c)
    &&& forall|n: TriCoord| #[trigger] spec_edge_neighbors(c).contains(n) ==> !is_land(tiles, n)
}

/// `c` has at least one edge neighbor present in the table.
#[verifier::opaque]
pub open spec fn has_neighbor_in(tiles: Seq<(TriCoord, TileData)>, c: TriCoord) -> bool {
    exists|n: TriCoord| #[trigger] spec_edge_neighbors(c).contains(n) && has_tile(tiles, n)
}

/// Every tile of the table has an edge neighbor in the table.
pub open spec fn every_tile_has_neighbor(tiles: Seq<(TriCoord, TileData)>) -> bool {
    forall|i: int| 0 <= i < tiles.len() ==> has_neighbor_in(tiles, (#[trigger] tiles[i]).0)
}

/// `c` has an edge neighbor that is a land tile of the table.
#[verifier::opaque]
pub open spec fn has_land_neighbor(tiles: Seq<(TriCoord, TileData)>, c: TriCoord) -> bool {
    exists|n: TriCoord| #[trigger] spec_edge_neighbors(c).contains(n) && is_land(tiles, n)
}

/// Every land tile has an edge neighbor that is land: no land tile stands alone.
pub open spec fn no_isolated_land(tiles: Seq<(TriCoord, TileData)>) -> bool {
    forall|i: int|
        #![trigger tiles[i]]
        0 <= i < tiles.len() && tiles[i].1.terrain != Terrain::Water ==> has_land_neighbor(
            tiles,
            tiles[i].0,
        )
}

/// The first of `c`'s edge neighbors (in `edge_neighbors` order) that has a table entry.
pub open spec fn first_neighbor_in(tiles: Seq<(TriCoord, TileData)>, c: TriCoord) -> Option<TriCoord> {
    let ns = spec_edge_neighbors(c);
    if has_tile(tiles, ns[0]) {
        Some(ns[0])
    } else if has_tile(tiles, ns[1]) {
        Some(ns[1])
    } else if has_tile(tiles, ns[2]) {
        Some(ns[2])
    } else {
        None
    }
}

/// `n` gets forced to land by [`eliminate_isolated_land`]: it is the first table
/// neighbor of some isolated land tile.
pub open spec fn forced_by_elimination(tiles: Seq<(TriCoord, TileData)>, n: TriCoord) -> bool {
    exists|c: TriCoord| isolated_land(tiles, c) && #[trigger] first_neighbor_in(tiles, c) == Some(n)
}

/// Whether the table has an entry for `t`.
fn has_entry(tiles: &Vec<(TriCoord, TileData)>, t: &TriCoord) -> (found: bool)
    ensures
        found == has_tile(tiles@, *t),
{
    match find_entry(tiles, t) {
        Some(k) => {
            assert(tiles@[k as int].0 == *t);
            true
        },
        None => false,
    }
}

/// Whether the table has a non-water entry for `t`.
pub fn land_at(tiles: &Vec<(TriCoord, TileData)>, t: &TriCoord) -> (land: bool)
    requires
        coords_distinct(tiles@),
    ensures
        land == is_land(tiles@, *t),
{
    match find_entry(tiles, t) {
        Some(k) => {
            let water = match tiles[k].1.terrain {
                Terrain::Water => true,
                _ => false,
            };
            proof {
                if !water {
                    assert(tiles@[k as int].0 == *t);
                } else {
                    assert forall|i: int| 0 <= i < tiles.len() && (#[trigger] tiles@[i]).0 == *t
                        implies tiles@[i].1.terrain == Terrain::Water by {
                        if i != k {
                            assert(tiles@[i].0 != tiles@[k as int].0);
                        }
                    }
                }
            }
            !water
        },
        None => false,
    }
}

/// Forcing land at some coordinates keeps the table's coordinates, turns no land into
/// water, and keeps every land tile land.
pub open spec fn only_water_changed(
    before: Seq<(TriCoord, TileData)>,
    after: Seq<(TriCoord, TileData)>,
) -> bool {
    &&& after.len() == before.len()
    &&& forall|i: int|
        #![trigger after[i]]
        0 <= i < after.len() ==> after[i].0 == before[i].0 && (after[i] == before[i] || (
        before[i].1.terrain == Terrain::Water && after[i].1 == forced_land()))
}

/// Land in `before` is land in `after` when only water was changed.
pub proof fn lemma_land_stays_land(
    before: Seq<(TriCoord, TileData)>,
    after: Seq<(TriCoord, TileData)>,
    c: TriCoord,
)
    requires
        only_water_changed(before, after),
        is_land(before, c),
    ensures
        is_land(after, c),
{
    let i = choose|i: int|
        0 <= i < before.len() && (#[trigger] before[i]).0 == c && before[i].1.terrain
            != Terrain::Water;
    assert(after[i] == before[i]);
}

/// Tables related by forced land have the same entries.
pub proof fn lemma_same_entries(
    before: Seq<(TriCoord, TileData)>,
    after: Seq<(TriCoord, TileData)>,
    c: TriCoord,
)
    requires
        only_water_changed(before, after),
    ensures
        has_tile(before, c) <==> has_tile(after, c),
{
    if has_tile(before, c) {
        let i = choose|i: int| 0 <= i < before.len() && (#[trigger] before[i]).0 == c;
        assert(after[i].0 == c);
    }
    if has_tile(after, c) {
        let i = choose|i: int| 0 <= i < after.len() && (#[trigger] after[i]).0 == c;
        assert(before[i].0 == c);
    }
}

/// Forcing land only changes water, and is transitive.
pub proof fn lemma_only_water_changed_trans(
    a: Seq<(TriCoord, TileData)>,
    b: Seq<(TriCoord, TileData)>,
    c: Seq<(TriCoord, TileData)>,
)
    requires
        only_water_changed(a, b),
        only_water_changed(b, c),
    ensures
        only_water_changed(a, c),
{
    assert forall|i: int| #![trigger c[i]] 0 <= i < c.len() implies c[i].0 == a[i].0 && (c[i] == a[i] || (
    a[i].1.terrain == Terrain::Water && c[i].1 == forced_land())) by {
        assert(b[i].0 == a[i].0);
    }
}

/// Forcing land at one coordinate only changes water.
pub proof fn lemma_force_only_water(
    before: Seq<(TriCoord, TileData)>,
    after: Seq<(TriCoord, TileData)>,
    coord: TriCoord,
)
    requires
        after.len() == before.len(),
        forall|i: int| 0 <= i < after.len() ==> #[trigger] after[i] == force_entry(before[i], coord),
    ensures
        only_water_changed(before, after),
{
    assert forall|i: int| #![trigger after[i]] 0 <= i < after.len() implies after[i].0 == before[i].0 && (after[i] == before[i] || (
    before[i].1.terrain == Terrain::Water && after[i].1 == forced_land())) by {
        assert(after[i] == force_entry(before[i], coord));
    }
}

/// Forces one edge neighbor of every lone land tile (every neighbor present in the table is
/// water) to become land too: the first neighbor, in `edge_neighbors` order, that the table
/// holds. Which tiles are lone, and which neighbor gets forced, depend only on the table as it
/// was on entry.
pub fn eliminate_isolated_land(tiles: &mut Vec<(TriCoord, TileData)>)
    requires
        tiles_well_formed(old(tiles)@),
    ensures
        final(tiles).len() == old(tiles).len(),
        forall|i: int|
            0 <= i < final(tiles).len() ==> #[trigger] final(tiles)@[i] == (if forced_by_elimination(
                old(tiles)@,
                old(tiles)@[i].0,
            ) && old(tiles)@[i].1.terrain == Terrain::Water {
                (old(tiles)@[i].0, forced_land())
            } else {
                old(tiles)@[i]
            }),
        every_tile_has_neighbor(old(tiles)@) ==> no_isolated_land(final(tiles)@),
{
    let ghost orig = tiles@;
    // Collect the lone land tiles first, against the table as it is on entry.
    let mut isolated: Vec<TriCoord> = Vec::new();
    let mut i: usize = 0;
    while i < tiles.len()
        invariant
            i <= tiles.len(),
            tiles@ == orig,
            tiles_well_formed(orig),
            forall|k: int| 0 <= k < isolated.len() ==> isolated_land(orig, #[trigger] isolated@[k]),
            forall|k: int|
                0 <= k < i && isolated_land(orig, #[trigger] orig[k].0) ==> isolated@.contains(
                    orig[k].0,
                ),
            forall|k: int|
                0 <= k < isolated.len() ==> steppable(#[trigger] isolated@[k])
                    && isolated@[k].is_valid(),
        decreases tiles.len() - i,
    {
        let c = tiles[i].0;
        let land = match tiles[i].1.terrain {
            Terrain::Water => false,
            _ => true,
        };
        if land {
            let ns = c.edge_neighbors();
            let l0 = land_at(tiles, &ns[0]);
            let l1 = land_at(tiles, &ns[1]);
            let l2 = land_at(tiles, &ns[2]);
            proof {
                assert(is_land(orig, c)) by {
                    assert(orig[i as int].0 == c);
                }
            }
            if !l0 && !l1 && !l2 {
                let ghost prev = isolated@;
                isolated.push(c);
                proof {
                    assert forall|x: TriCoord| prev.contains(x) implies #[trigger] isolated@.contains(x) by {
                        let q = choose|q: int| 0 <= q < prev.len() && prev[q] == x;
                        assert(isolated@[q] == x);
                    }
                    assert forall|n: TriCoord| #[trigger] spec_edge_neighbors(c).contains(n)
                        implies !is_land(orig, n) by {
                        let p = choose|p: int| 0 <= p < 3 && spec_edge_neighbors(c)[p] == n;
                        assert(ns@[p] == n);
                    }
                    assert(isolated@[isolated.len() - 1] == c);
                }
            } else {
                proof {
                    if l0 {
                        assert(spec_edge_neighbors(c).contains(ns@[0]));
                    } else if l1 {
                        assert(spec_edge_neighbors(c).contains(ns@[1]));
                    } else {
                        assert(spec_edge_neighbors(c).contains(ns@[2]));
                    }
                }
            }
        } else {
            proof {
                if is_land(orig, orig[i as int].0) {
                    let k = choose|k: int|
                        0 <= k < orig.len() && (#[trigger] orig[k]).0 == orig[i as int].0
                            && orig[k].1.terrain != Terrain::Water;
                    assert(k == i);
                }
            }
        }
        i += 1;
    }
    // Force the first table neighbor of each lone land tile.
    let mut j: usize = 0;
    while j < isolated.len()
        invariant
            j <= isolated.len(),
            tiles_well_formed(orig),
            tiles.len() == orig.len(),
            forall|k: int| 0 <= k < isolated.len() ==> isolated_land(orig, #[trigger] isolated@[k]),
            forall|k: int|
                0 <= k < isolated.len() ==> steppable(#[trigger] isolated@[k])
                    && isolated@[k].is_valid(),
            forall|k: int|
                0 <= k < orig.len() && isolated_land(orig, #[trigger] orig[k].0) ==> isolated@.contains(
                    orig[k].0,
                ),
            forall|k: int|
                0 <= k < tiles.len() ==> #[trigger] tiles@[k] == (if (exists|q: int|
                    0 <= q < j && first_neighbor_in(orig, #[trigger] isolated@[q]) == Some(
                        orig[k].0,
                    )) && orig[k].1.terrain == Terrain::Water {
                    (orig[k].0, forced_land())
                } else {
                    orig[k]
                }),
        decreases isolated.len() - j,
    {
        let c = isolated[j];
        let ns = c.edge_neighbors();
        let ghost before = tiles@;
        proof {
            assert(coords_distinct(before)) by {
                assert forall|a: int, b: int|
                    0 <= a < before.len() && 0 <= b < before.len() && a != b implies (
                    #[trigger] before[a]).0 != (#[trigger] before[b]).0 by {
                    assert(before[a].0 == orig[a].0 && before[b].0 == orig[b].0);
                }
            }
            assert forall|t: TriCoord| has_tile(before, t) <==> has_tile(orig, t) by {
                if has_tile(before, t) {
                    let k = choose|k: int| 0 <= k < before.len() && (#[trigger] before[k]).0 == t;
                    assert(orig[k].0 == t);
                }
                if has_tile(orig, t) {
                    let k = choose|k: int| 0 <= k < orig.len() && (#[trigger] orig[k]).0 == t;
                    assert(before[k].0 == t);
                }
            }
        }
        let target: Option<TriCoord> = if has_entry(tiles, &ns[0]) {
            Some(ns[0])
        } else if has_entry(tiles, &ns[1]) {
            Some(ns[1])
        } else if has_entry(tiles, &ns[2]) {
            Some(ns[2])
        } else {
            None
        };
        assert(target == first_neighbor_in(orig, c));
        match target {
            Some(n) => {
                force_land(tiles, n);
            },
            None => {},
        }
        proof {
            assert forall|k: int| 0 <= k < tiles.len() implies #[trigger] tiles@[k] == (if (exists|q: int|
                0 <= q < j + 1 && first_neighbor_in(orig, #[trigger] isolated@[q]) == Some(
                    orig[k].0,
                )) && orig[k].1.terrain == Terrain::Water {
                (orig[k].0, forced_land())
            } else {
                orig[k]
            }) by {
                let old_hit = exists|q: int|
                    0 <= q < j && first_neighbor_in(orig, #[trigger] isolated@[q]) == Some(
                        orig[k].0,
                    );
                assert(before[k] == (if old_hit && orig[k].1.terrain == Terrain::Water {
                    (orig[k].0, forced_land())
                } else {
                    orig[k]
                }));
                if target == Some(orig[k].0) {
                    assert(first_neighbor_in(orig, isolated@[j as int]) == Some(orig[k].0));
                }
                if exists|q: int|
                    0 <= q < j + 1 && first_neighbor_in(orig, #[trigger] isolated@[q]) == Some(
                        orig[k].0,
                    ) {
                    if !old_hit {
                        let q = choose|q: int|
                            0 <= q < j + 1 && first_neighbor_in(orig, #[trigger] isolated@[q])
                                == Some(orig[k].0);
                        assert(q == j);
                    }
                }
            }
        }
        j += 1;
    }
    proof {
        let after = tiles@;
        assert forall|k: int| 0 <= k < after.len() implies #[trigger] after[k] == (if forced_by_elimination(
            orig,
            orig[k].0,
        ) && orig[k].1.terrain == Terrain::Water {
            (orig[k].0, forced_land())
        } else {
            orig[k]
        }) by {
            let hit = exists|q: int|
                0 <= q < isolated.len() && first_neighbor_in(orig, #[trigger] isolated@[q]) == Some(
                    orig[k].0,
                );
            if hit {
                let q = choose|q: int|
                    0 <= q < isolated.len() && first_neighbor_in(orig, #[trigger] isolated@[q])
                        == Some(orig[k].0);
                assert(isolated_land(orig, isolated@[q]));
            }
            if forced_by_elimination(orig, orig[k].0) {
                let c = choose|c: TriCoord|
                    isolated_land(orig, c) && #[trigger] first_neighbor_in(orig, c) == Some(
                        orig[k].0,
                    );
                let ci = choose|ci: int|
                    0 <= ci < orig.len() && (#[trigger] orig[ci]).0 == c && orig[ci].1.terrain
                        != Terrain::Water;
                assert(isolated@.contains(orig[ci].0));
                let q = choose|q: int| 0 <= q < isolated.len() && isolated@[q] == c;
                assert(first_neighbor_in(orig, isolated@[q]) == Some(orig[k].0));
            }
        }
        if every_tile_has_neighbor(orig) {
            assert forall|k: int| 0 <= k < after.len() implies #[trigger] after[k] == eliminated_entry(orig, k) by {
                assert(after[k] == after[k]);
            }
            lemma_elimination_leaves_no_isolated_land(orig, after);
        }
    }
}

/// What elimination leaves in a table's entry.
pub open spec fn eliminated_entry(orig: Seq<(TriCoord, TileData)>, i: int) -> (TriCoord, TileData) {
    if forced_by_elimination(orig, orig[i].0) && orig[i].1.terrain == Terrain::Water {
        (orig[i].0, forced_land())
    } else {
        orig[i]
    }
}

/// A tile that was land on entry still has a land neighbor after elimination.
proof fn lemma_land_tile_after_elimination(
    orig: Seq<(TriCoord, TileData)>,
    after: Seq<(TriCoord, TileData)>,
    i: int,
)
    requires
        tiles_well_formed(orig),
        every_tile_has_neighbor(orig),
        only_water_changed(orig, after),
        after.len() == orig.len(),
        forall|k: int| 0 <= k < after.len() ==> #[trigger] after[k] == eliminated_entry(orig, k),
        0 <= i < orig.len(),
        orig[i].1.terrain != Terrain::Water,
    ensures
        has_land_neighbor(after, orig[i].0),
{
    reveal(has_land_neighbor);
    reveal(has_neighbor_in);
    let c = orig[i].0;
    assert(is_land(orig, c));
    if isolated_land(orig, c) {
        assert(has_neighbor_in(orig, orig[i].0));
        let n0 = choose|n: TriCoord| #[trigger] spec_edge_neighbors(c).contains(n) && has_tile(orig, n);
        let ns = spec_edge_neighbors(c);
        let first = first_neighbor_in(orig, c);
        assert(first is Some) by {
            let p = choose|p: int| 0 <= p < 3 && ns[p] == n0;
        }
        let n = first->Some_0;
        assert(forced_by_elimination(orig, n));
        assert(spec_edge_neighbors(c).contains(n)) by {
            if has_tile(orig, ns[0]) {
                assert(ns[0] == n);
            } else if has_tile(orig, ns[1]) {
                assert(ns[1] == n);
            } else {
                assert(ns[2] == n);
            }
        }
        let k = choose|k: int| 0 <= k < orig.len() && (#[trigger] orig[k]).0 == n;
        assert(after[k] == eliminated_entry(orig, k));
        assert(after[k].0 == n);
        assert(after[k].1.terrain != Terrain::Water);
        assert(is_land(after, n));
    } else {
        let n = choose|n: TriCoord| #[trigger] spec_edge_neighbors(c).contains(n) && is_land(orig, n);
        lemma_land_stays_land(orig, after, n);
    }
}

/// A tile forced to land by elimination has a land neighbor afterwards: the lone tile it
/// was forced for.
proof fn lemma_forced_tile_after_elimination(
    orig: Seq<(TriCoord, TileData)>,
    after: Seq<(TriCoord, TileData)>,
    i: int,
)
    requires
        tiles_well_formed(orig),
        only_water_changed(orig, after),
        0 <= i < orig.len(),
        forced_by_elimination(orig, orig[i].0),
    ensures
        has_land_neighbor(after, orig[i].0),
{
    reveal(has_land_neighbor);
    reveal(has_neighbor_in);
    let c = orig[i].0;
    let c0 = choose|c0: TriCoord|
        isolated_land(orig, c0) && #[trigger] first_neighbor_in(orig, c0) == Some(c);
    let k = choose|k: int|
        0 <= k < orig.len() && (#[trigger] orig[k]).0 == c0 && orig[k].1.terrain
            != Terrain::Water;
    let ns = spec_edge_neighbors(c0);
    assert(ns.contains(c)) by {
        if has_tile(orig, ns[0]) {
            assert(ns[0] == c);
        } else if has_tile(orig, ns[1]) {
            assert(ns[1] == c);
        } else {
            assert(ns[2] == c);
        }
    }
    lemma_neighbor_iff_adjacent(c0, c);
    lemma_neighbor_iff_adjacent(c, c0);
    lemma_land_stays_land(orig, after, c0);
}

/// After elimination, a table in which every tile has a table neighbor has no lone land.
proof fn lemma_elimination_leaves_no_isolated_land(
    orig: Seq<(TriCoord, TileData)>,
    after: Seq<(TriCoord, TileData)>,
)
    requires
        tiles_well_formed(orig),
        every_tile_has_neighbor(orig),
        after.len() == orig.len(),
        forall|k: int| 0 <= k < after.len() ==> #[trigger] after[k] == eliminated_entry(orig, k),
    ensures
        no_isolated_land(after),
{
    assert(only_water_changed(orig, after)) by {
        assert forall|k: int| #![trigger after[k]] 0 <= k < after.len() implies after[k].0 == orig[k].0 && (after[k] == orig[k] || (
        orig[k].1.terrain == Terrain::Water && after[k].1 == forced_land())) by {
            assert(after[k] == eliminated_entry(orig, k));
        }
    }
    assert forall|k: int|
        #![trigger after[k]]
        0 <= k < after.len() && after[k].1.terrain != Terrain::Water implies has_land_neighbor(
        after,
        after[k].0,
    ) by {
        assert(after[k] == eliminated_entry(orig, k));
        assert(after[k].0 == orig[k].0);
        if orig[k].1.terrain != Terrain::Water {
            lemma_land_tile_after_elimination(orig, after, k);
        } else {
            lemma_forced_tile_after_elimination(orig, after, k);
        }
    }
}

} // verus!

verus! {

/// `x` is `town` or one of its three edge neighbors.
pub open spec fn town_or_neighbor(town: TriCoord, x: TriCoord) -> bool {
    let ns = spec_edge_neighbors(town);
    x == town || x == ns[0] || x == ns[1] || x == ns[2]
}

/// The entry after forcing land under `town` and its edge neighbors.
pub open spec fn town_forced_entry(e: (TriCoord, TileData), town: TriCoord) -> (TriCoord, TileData) {
    if town_or_neighbor(town, e.0) && e.1.terrain == Terrain::Water {
        (e.0, forced_land())
    } else {
        e
    }
}

/// Four successive single-tile forcings under a town and its neighbors make one town
/// forcing.
proof fn lemma_compose_town_forcing(
    orig: Seq<(TriCoord, TileData)>,
    t1: Seq<(TriCoord, TileData)>,
    t2: Seq<(TriCoord, TileData)>,
    t3: Seq<(TriCoord, TileData)>,
    after: Seq<(TriCoord, TileData)>,
    town: TriCoord,
)
    requires
        t1.len() == orig.len(),
        t2.len() == orig.len(),
        t3.len() == orig.len(),
        after.len() == orig.len(),
        forall|i: int| 0 <= i < t1.len() ==> #[trigger] t1[i] == force_entry(orig[i], town),
        forall|i: int|
            0 <= i < t2.len() ==> #[trigger] t2[i] == force_entry(t1[i], spec_edge_neighbors(town)[0]),
        forall|i: int|
            0 <= i < t3.len() ==> #[trigger] t3[i] == force_entry(t2[i], spec_edge_neighbors(town)[1]),
        forall|i: int|
            0 <= i < after.len() ==> #[trigger] after[i] == force_entry(
                t3[i],
                spec_edge_neighbors(town)[2],
            ),
    ensures
        forall|i: int| 0 <= i < after.len() ==> #[trigger] after[i] == town_forced_entry(orig[i], town),
{
    assert forall|i: int| 0 <= i < after.len() implies #[trigger] after[i] == town_forced_entry(
        orig[i],
        town,
    ) by {
        assert(t1[i] == force_entry(orig[i], town));
        assert(t2[i] == force_entry(t1[i], spec_edge_neighbors(town)[0]));
        assert(t3[i] == force_entry(t2[i], spec_edge_neighbors(town)[1]));
        assert(after[i] == force_entry(t3[i], spec_edge_neighbors(town)[2]));
    }
}

/// Forces land under a Biome Town and under each of its edge neighbors that the table
/// holds, so that the town stands on land and a lone forced tile never stands alone.
pub fn force_town_land(tiles: &mut Vec<(TriCoord, TileData)>, town: TriCoord)
    requires
        tiles_well_formed(old(tiles)@),
        town.is_valid(),
        steppable(town),
    ensures
        final(tiles).len() == old(tiles).len(),
        forall|i: int|
            0 <= i < final(tiles).len() ==> #[trigger] final(tiles)@[i] == town_forced_entry(
                old(tiles)@[i],
                town,
            ),
        only_water_changed(old(tiles)@, final(tiles)@),
        tiles_well_formed(final(tiles)@),
        has_tile(old(tiles)@, town) ==> is_land(final(tiles)@, town),
        forall|n: TriCoord|
            #[trigger] spec_edge_neighbors(town).contains(n) && has_tile(old(tiles)@, n) ==> is_land(
                final(tiles)@,
                n,
            ),
        no_isolated_land(old(tiles)@) && every_tile_has_neighbor(old(tiles)@) && has_tile(
            old(tiles)@,
            town,
        ) ==> no_isolated_land(final(tiles)@),
{
    let ghost orig = tiles@;
    let ns = town.edge_neighbors();
    force_land(tiles, town);
    let ghost t1 = tiles@;
    proof {
        lemma_force_only_water(orig, t1, town);
        lemma_well_formed_kept(orig, t1);
    }
    force_land(tiles, ns[0]);
    let ghost t2 = tiles@;
    proof {
        lemma_force_only_water(t1, t2, ns@[0]);
        lemma_well_formed_kept(t1, t2);
    }
    force_land(tiles, ns[1]);
    let ghost t3 = tiles@;
    proof {
        lemma_force_only_water(t2, t3, ns@[1]);
        lemma_well_formed_kept(t2, t3);
    }
    force_land(tiles, ns[2]);
    proof {
        let after = tiles@;
        lemma_force_only_water(t3, after, ns@[2]);
        lemma_well_formed_kept(t3, after);
        lemma_only_water_changed_trans(orig, t1, t2);
        lemma_only_water_changed_trans(orig, t2, t3);
        lemma_only_water_changed_trans(orig, t3, after);
        lemma_compose_town_forcing(orig, t1, t2, t3, after, town);
        lemma_town_forcing_lands(orig, after, town);
        if no_isolated_land(orig) && every_tile_has_neighbor(orig) && has_tile(orig, town) {
            lemma_town_forcing_keeps_no_isolated_land(orig, after, town);
        }
    }
}

/// After a town forcing, the town and its neighbors that the table holds are land.
proof fn lemma_town_forcing_lands(
    orig: Seq<(TriCoord, TileData)>,
    after: Seq<(TriCoord, TileData)>,
    town: TriCoord,
)
    requires
        steppable(town),
        after.len() == orig.len(),
        forall|i: int| 0 <= i < after.len() ==> #[trigger] after[i] == town_forced_entry(orig[i], town),
    ensures
        has_tile(orig, town) ==> is_land(after, town),
        forall|n: TriCoord|
            #[trigger] spec_edge_neighbors(town).contains(n) && has_tile(orig, n) ==> is_land(
                after,
                n,
            ),
{
    if has_tile(orig, town) {
        let k = choose|k: int| 0 <= k < orig.len() && (#[trigger] orig[k]).0 == town;
        assert(after[k] == town_forced_entry(orig[k], town));
    }
    assert forall|n: TriCoord|
        #[trigger] spec_edge_neighbors(town).contains(n) && has_tile(orig, n) implies is_land(
        after,
        n,
    ) by {
        let k = choose|k: int| 0 <= k < orig.len() && (#[trigger] orig[k]).0 == n;
        let p = choose|p: int| 0 <= p < 3 && spec_edge_neighbors(town)[p] == n;
        assert(after[k] == town_forced_entry(orig[k], town));
    }
}

/// One land entry of a town-forced table has a land neighbor.
proof fn lemma_town_forced_index_has_land_neighbor(
    orig: Seq<(TriCoord, TileData)>,
    after: Seq<(TriCoord, TileData)>,
    town: TriCoord,
    k: int,
)
    requires
        town.is_valid(),
        steppable(town),
        orig[k].0.is_valid(),
        steppable(orig[k].0),
        only_water_changed(orig, after),
        0 <= k < after.len(),
        after[k] == town_forced_entry(orig[k], town),
        after[k].1.terrain != Terrain::Water,
        orig[k].1.terrain != Terrain::Water ==> has_land_neighbor(orig, orig[k].0),
        orig[k].0 == town ==> has_neighbor_in(orig, town),
        has_tile(orig, town) ==> is_land(after, town),
        forall|n: TriCoord|
            #[trigger] spec_edge_neighbors(town).contains(n) && has_tile(orig, n) ==> is_land(
                after,
                n,
            ),
        has_tile(orig, town),
    ensures
        has_land_neighbor(after, after[k].0),
{
    reveal(has_land_neighbor);
    reveal(has_neighbor_in);
    let c = orig[k].0;
    if orig[k].1.terrain != Terrain::Water {
        let n = choose|n: TriCoord|
            #[trigger] spec_edge_neighbors(orig[k].0).contains(n) && is_land(orig, n);
        lemma_land_stays_land(orig, after, n);
    } else if c == town {
        let n = choose|n: TriCoord| #[trigger] spec_edge_neighbors(c).contains(n) && has_tile(orig, n);
        assert(is_land(after, n));
    } else {
        let ns = spec_edge_neighbors(town);
        assert(ns.contains(c)) by {
            if c == ns[0] {
                assert(ns[0] == c);
            } else if c == ns[1] {
                assert(ns[1] == c);
            } else {
                assert(ns[2] == c);
            }
        }
        lemma_neighbor_iff_adjacent(town, c);
        lemma_neighbor_iff_adjacent(c, town);
    }
}

/// Forcing land under a town that the table holds, and under its neighbors, leaves no lone
/// land in a table where every tile has a table neighbor and no land stood alone before.
proof fn lemma_town_forcing_keeps_no_isolated_land(
    orig: Seq<(TriCoord, TileData)>,
    after: Seq<(TriCoord, TileData)>,
    town: TriCoord,
)
    requires
        tiles_well_formed(orig),
        town.is_valid(),
        steppable(town),
        no_isolated_land(orig),
        every_tile_has_neighbor(orig),
        has_tile(orig, town),
        only_water_changed(orig, after),
        after.len() == orig.len(),
        forall|i: int| 0 <= i < after.len() ==> #[trigger] after[i] == town_forced_entry(orig[i], town),
    ensures
        no_isolated_land(after),
{
    lemma_town_forcing_lands(orig, after, town);
    assert forall|k: int|
        #![trigger after[k]]
        0 <= k < after.len() && after[k].1.terrain != Terrain::Water implies has_land_neighbor(
        after,
        after[k].0,
    ) by {
        assert(after[k] == town_forced_entry(orig[k], town));
        assert(orig[k].0.is_valid() && steppable(orig[k].0));
        if orig[k].0 == town {
            assert(has_neighbor_in(orig, orig[k].0));
        }
        lemma_town_forced_index_has_land_neighbor(orig, after, town, k);
    }
}

/// Forcing land keeps a table well formed: coordinates are untouched.
pub proof fn lemma_well_formed_kept(
    before: Seq<(TriCoord, TileData)>,
    after: Seq<(TriCoord, TileData)>,
)
    requires
        tiles_well_formed(before),
        after.len() == before.len(),
        forall|i: int| 0 <= i < after.len() ==> (#[trigger] after[i]).0 == before[i].0,
    ensures
        tiles_well_formed(after),
{
    assert forall|a: int, b: int|
        0 <= a < after.len() && 0 <= b < after.len() && a != b implies (#[trigger] after[a]).0
        != (#[trigger] after[b]).0 by {
        assert(before[a].0 != before[b].0);
    }
    reveal(table_distances_fit);
    assert forall|a: int, b: int|
        #![trigger after[a], after[b]]
        0 <= a < after.len() && 0 <= b < after.len() implies lane_distance(after[a].0, after[b].0)
            <= i32::MAX by {
        assert(lane_distance(before[a].0, before[b].0) <= i32::MAX);
    }
}

} // verus!

verus! {

/// Forcing land keeps which coordinates have a table neighbor.
pub proof fn lemma_neighbor_structure_kept(
    before: Seq<(TriCoord, TileData)>,
    after: Seq<(TriCoord, TileData)>,
)
    requires
        only_water_changed(before, after),
        every_tile_has_neighbor(before),
    ensures
        every_tile_has_neighbor(after),
{
    reveal(has_neighbor_in);
    assert forall|i: int| 0 <= i < after.len() implies has_neighbor_in(after, (#[trigger] after[i]).0) by {
        assert(after[i].0 == before[i].0);
        assert(has_neighbor_in(before, before[i].0));
        let n = choose|n: TriCoord|
            #[trigger] spec_edge_neighbors(before[i].0).contains(n) && has_tile(before, n);
        lemma_same_entries(before, after, n);
    }
}

/// `x` is one of the Biome Towns or an edge neighbor of one.
pub open spec fn near_a_town(towns: Seq<TriCoord>, x: TriCoord) -> bool {
    exists|k: int| 0 <= k < towns.len() && #[trigger] town_or_neighbor(towns[k], x)
}

/// The entry after forcing land under every town of `towns` and its neighbors.
pub open spec fn towns_forced_entry(e: (TriCoord, TileData), towns: Seq<TriCoord>) -> (TriCoord, TileData) {
    if near_a_town(towns, e.0) && e.1.terrain == Terrain::Water {
        (e.0, forced_land())
    } else {
        e
    }
}

/// Forces land under every Biome Town of `towns` (all of them table tiles) and under their
/// table neighbors.
pub fn force_towns_land(tiles: &mut Vec<(TriCoord, TileData)>, towns: &Vec<TriCoord>)
    requires
        tiles_well_formed(old(tiles)@),
        forall|k: int|
            0 <= k < towns.len() ==> has_tile(old(tiles)@, #[trigger] towns@[k]) && towns@[k].is_valid()
                && steppable(towns@[k]),
    ensures
        final(tiles).len() == old(tiles).len(),
        forall|i: int|
            0 <= i < final(tiles).len() ==> #[trigger] final(tiles)@[i] == towns_forced_entry(
                old(tiles)@[i],
                towns@,
            ),
        only_water_changed(old(tiles)@, final(tiles)@),
        tiles_well_formed(final(tiles)@),
        forall|k: int| 0 <= k < towns.len() ==> is_land(final(tiles)@, #[trigger] towns@[k]),
        every_tile_has_neighbor(old(tiles)@) && no_isolated_land(old(tiles)@) ==> no_isolated_land(
            final(tiles)@,
        ),
{
    let ghost orig = tiles@;
    let mut k: usize = 0;
    assert(only_water_changed(orig, tiles@)) by {
        assert forall|i: int| #![trigger tiles@[i]] 0 <= i < tiles.len() implies tiles@[i].0 == orig[i].0 && (
        tiles@[i] == orig[i] || (orig[i].1.terrain == Terrain::Water && tiles@[i].1 == forced_land())) by {}
    }
    while k < towns.len()
        invariant
            k <= towns.len(),
            tiles_well_formed(orig),
            tiles_well_formed(tiles@),
            only_water_changed(orig, tiles@),
            forall|q: int|
                0 <= q < towns.len() ==> has_tile(orig, #[trigger] towns@[q]) && towns@[q].is_valid()
                    && steppable(towns@[q]),
            forall|q: int| 0 <= q < k ==> is_land(tiles@, #[trigger] towns@[q]),
            every_tile_has_neighbor(orig) && no_isolated_land(orig) ==> no_isolated_land(tiles@),
            tiles.len() == orig.len(),
            forall|i: int|
                0 <= i < tiles.len() ==> #[trigger] tiles@[i] == towns_forced_entry(
                    orig[i],
                    towns@.take(k as int),
                ),
        decreases towns.len() - k,
    {
        let ghost before = tiles@;
        let town = towns[k];
        proof {
            lemma_same_entries(orig, before, town);
            if every_tile_has_neighbor(orig) {
                lemma_neighbor_structure_kept(orig, before);
            }
        }
        force_town_land(tiles, town);
        proof {
            assert forall|i: int| 0 <= i < tiles.len() implies #[trigger] tiles@[i]
                == towns_forced_entry(orig[i], towns@.take(k + 1)) by {
                let x = orig[i].0;
                assert(before[i] == towns_forced_entry(orig[i], towns@.take(k as int)));
                assert(tiles@[i] == town_forced_entry(before[i], town));
                if near_a_town(towns@.take(k as int), x) {
                    let j = choose|j: int|
                        0 <= j < towns@.take(k as int).len() && #[trigger] town_or_neighbor(
                            towns@.take(k as int)[j],
                            x,
                        );
                    assert(towns@.take(k + 1)[j] == towns@.take(k as int)[j]);
                    assert(near_a_town(towns@.take(k + 1), x));
                }
                if town_or_neighbor(town, x) {
                    assert(towns@.take(k + 1)[k as int] == town);
                    assert(near_a_town(towns@.take(k + 1), x));
                }
                if near_a_town(towns@.take(k + 1), x) && !town_or_neighbor(town, x) {
                    let j = choose|j: int|
                        0 <= j < towns@.take(k + 1).len() && #[trigger] town_or_neighbor(
                            towns@.take(k + 1)[j],
                            x,
                        );
                    assert(j != k);
                    assert(towns@.take(k as int)[j] == towns@.take(k + 1)[j]);
                    assert(near_a_town(towns@.take(k as int), x));
                }
            }
            lemma_only_water_changed_trans(orig, before, tiles@);
            assert forall|q: int| 0 <= q < k + 1 implies is_land(tiles@, #[trigger] towns@[q]) by {
                if q < k {
                    lemma_land_stays_land(before, tiles@, towns@[q]);
                }
            }
        }
        k += 1;
    }
    proof {
        assert(towns@.take(towns.len() as int) =~= towns@);
    }
}

} // verus!
