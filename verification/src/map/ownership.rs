//! Completing and painting the initial territory partition: land the spread never reached
//! goes to the nearest starting tower, and every owned tile is painted its owner's biome.

use vstd::prelude::*;

use crate::components::terrain_type::{
    land_terrain_type, spec_land_terrain_type, LAND_TERRAIN_TYPE_COUNT,
};
use crate::components::tile::{Terrain, TileData};
use crate::game::map::generation::PlayerSlot;
use crate::grid::coords::TriCoord;
use crate::grid::neighbors::lane_distance;
use crate::map::tile_table::{
    coords_distinct, find_entry, is_land, is_owned, owned_by, tiles_well_formed,
};

verus! {

/// `s` indexes the starting tower nearest to `c` by lane distance, the first such on ties.
pub open spec fn is_nearest_slot(starting: Seq<TriCoord>, c: TriCoord, s: int) -> bool {
    &&& 0 <= s < starting.len()
    &&& forall|j: int|
        0 <= j < starting.len() ==> lane_distance(c, starting[s]) <= lane_distance(
            c,
            #[trigger] starting[j],
        )
    &&& forall|j: int|
        0 <= j < s ==> lane_distance(c, starting[s]) < lane_distance(c, #[trigger] starting[j])
}

/// Only one slot is nearest to `c`: the first on ties.
pub proof fn lemma_nearest_slot_unique(starting: Seq<TriCoord>, c: TriCoord, s1: int, s2: int)
    requires
        is_nearest_slot(starting, c, s1),
        is_nearest_slot(starting, c, s2),
    ensures
        s1 == s2,
{
    if s1 < s2 {
        assert(lane_distance(c, starting[s2]) < lane_distance(c, starting[s1]));
    }
    if s2 < s1 {
        assert(lane_distance(c, starting[s1]) < lane_distance(c, starting[s2]));
    }
}

/// The slot of the starting tower nearest to `c`, the first one on ties.
pub open spec fn spec_nearest_slot(starting: Seq<TriCoord>, c: TriCoord) -> int {
    choose|s: int| is_nearest_slot(starting, c, s)
}

/// The claims that the nearest-tower fallback adds to `owned`, in table order: every land
/// tile that `owned` leaves unclaimed goes to its nearest starting tower.
pub open spec fn nearest_claims(
    tiles: Seq<(TriCoord, TileData)>,
    owned: Seq<(TriCoord, PlayerSlot)>,
    starting: Seq<TriCoord>,
) -> Seq<(TriCoord, PlayerSlot)>
    decreases tiles.len(),
{
    if tiles.len() == 0 {
        Seq::empty()
    } else {
        let rest = nearest_claims(tiles.drop_last(), owned, starting);
        let c = tiles.last().0;
        if tiles.last().1.terrain != Terrain::Water && !is_owned(owned, c) {
            rest.push((c, PlayerSlot(spec_nearest_slot(starting, c) as u8)))
        } else {
            rest
        }
    }
}

/// Index of the starting tower nearest to `c`, the first one on ties.
pub fn nearest_slot(c: &TriCoord, starting: &Vec<TriCoord>) -> (s: usize)
    requires
        starting.len() > 0,
        forall|j: int| 0 <= j < starting.len() ==> lane_distance(*c, #[trigger] starting@[j]) <= i32::MAX,
    ensures
        is_nearest_slot(starting@, *c, s as int),
{
    let mut best: usize = 0;
    let mut best_d = c.distance(&starting[0]);
    let mut j: usize = 1;
    while j < starting.len()
        invariant
            1 <= j <= starting.len(),
            best < j,
            forall|k: int| 0 <= k < starting.len() ==> lane_distance(*c, #[trigger] starting@[k]) <= i32::MAX,
            best_d == lane_distance(*c, starting@[best as int]),
            forall|k: int|
                0 <= k < j ==> best_d <= lane_distance(*c, #[trigger] starting@[k]),
            forall|k: int| 0 <= k < best ==> best_d < lane_distance(*c, #[trigger] starting@[k]),
        decreases starting.len() - j,
    {
        let d = c.distance(&starting[j]);
        if d < best_d {
            best = j;
            best_d = d;
        }
        j += 1;
    }
    best
}

/// Hands every land tile of the table that `owners` does not hold yet to its nearest
/// starting tower by lane distance, so that every land tile ends up owned.
pub fn hand_unclaimed_to_nearest(
    tiles: &Vec<(TriCoord, TileData)>,
    owners: &mut Vec<(TriCoord, PlayerSlot)>,
    starting: &Vec<TriCoord>,
)
    requires
        tiles_well_formed(tiles@),
        coords_distinct(old(owners)@),
        0 < starting.len() <= 256,
        forall|i: int, j: int|
            #![trigger tiles@[i], starting@[j]]
            0 <= i < tiles.len() && 0 <= j < starting.len() ==> lane_distance(tiles@[i].0, starting@[j])
                <= i32::MAX,
    ensures
        coords_distinct(final(owners)@),
        final(owners).len() >= old(owners).len(),
        forall|k: int| 0 <= k < old(owners).len() ==> final(owners)@[k] == old(owners)@[k],
        forall|k: int|
            old(owners).len() <= k < final(owners).len() ==> is_land(
                tiles@,
                (#[trigger] final(owners)@[k]).0,
            ) && !is_owned(old(owners)@, final(owners)@[k].0) && is_nearest_slot(
                starting@,
                final(owners)@[k].0,
                final(owners)@[k].1.0 as int,
            ),
        forall|c: TriCoord|
            is_owned(final(owners)@, c) <==> (is_owned(old(owners)@, c) || is_land(tiles@, c)),
        final(owners)@ == old(owners)@ + nearest_claims(tiles@, old(owners)@, starting@),
{
    let ghost orig = owners@;
    let mut i: usize = 0;
    while i < tiles.len()
        invariant
            i <= tiles.len(),
            tiles_well_formed(tiles@),
            0 < starting.len() <= 256,
            forall|i: int, j: int|
                #![trigger tiles@[i], starting@[j]]
                0 <= i < tiles.len() && 0 <= j < starting.len() ==> lane_distance(tiles@[i].0, starting@[j])
                    <= i32::MAX,
            coords_distinct(owners@),
            owners.len() >= orig.len(),
            forall|k: int| 0 <= k < orig.len() ==> owners@[k] == orig[k],
            forall|k: int|
                orig.len() <= k < owners.len() ==> is_land(tiles@, (#[trigger] owners@[k]).0)
                    && !is_owned(orig, owners@[k].0) && is_nearest_slot(
                    starting@,
                    owners@[k].0,
                    owners@[k].1.0 as int,
                ) && exists|t: int| 0 <= t < i && tiles@[t].0 == owners@[k].0,
            forall|c: TriCoord|
                #[trigger] is_owned(owners@, c) <==> (is_owned(orig, c) || is_land(
                    tiles@.take(i as int),
                    c,
                )),
            owners@ == orig + nearest_claims(tiles@.take(i as int), orig, starting@),
        decreases tiles.len() - i,
    {
        let c = tiles[i].0;
        let water = match tiles[i].1.terrain {
            Terrain::Water => true,
            _ => false,
        };
        let ghost before = owners@;
        let owned = find_entry(owners, &c).is_some();
        proof {
            assert(tiles@.take(i + 1).drop_last() =~= tiles@.take(i as int));
            assert(tiles@.take(i + 1).last() == tiles@[i as int]);
            // The claims added so far come from earlier tiles, so `c` is owned now exactly
            // when it was owned on entry.
            if is_owned(before, c) {
                let k = choose|k: int| 0 <= k < before.len() && (#[trigger] before[k]).0 == c;
                if k >= orig.len() {
                    let t = choose|t: int| 0 <= t < i && tiles@[t].0 == before[k].0;
                    assert(tiles@[t].0 == tiles@[i as int].0);
                } else {
                    assert(orig[k].0 == c);
                }
            }
            if is_owned(orig, c) {
                let k = choose|k: int| 0 <= k < orig.len() && (#[trigger] orig[k]).0 == c;
                assert(before[k].0 == c);
            }
        }
        if !water && !owned {
            proof {
                assert forall|j: int| 0 <= j < starting.len() implies lane_distance(
                    c,
                    #[trigger] starting@[j],
                ) <= i32::MAX by {
                    assert(lane_distance(tiles@[i as int].0, starting@[j]) <= i32::MAX);
                }
            }
            let s = nearest_slot(&c, starting);
            owners.push((c, PlayerSlot(s as u8)));
            proof {
                lemma_nearest_slot_unique(starting@, c, s as int, spec_nearest_slot(starting@, c));
                assert(owners@ == orig + nearest_claims(tiles@.take(i + 1), orig, starting@));
                assert(owners@[before.len() as int] == (c, PlayerSlot(s as u8)));
                assert(is_land(tiles@, c)) by {
                    assert(tiles@[i as int].0 == c);
                }
                assert(!is_owned(orig, c)) by {
                    if is_owned(orig, c) {
                        let k = choose|k: int| 0 <= k < orig.len() && (#[trigger] orig[k]).0 == c;
                        assert(before[k].0 == c);
                    }
                }
            }
        }
        proof {
            assert forall|a: int, b: int|
                0 <= a < owners.len() && 0 <= b < owners.len() && a != b implies (
                #[trigger] owners@[a]).0 != (#[trigger] owners@[b]).0 by {
                if a < before.len() && b < before.len() {
                    assert(owners@[a] == before[a] && owners@[b] == before[b]);
                } else if a < before.len() {
                    assert(owners@[a] == before[a]);
                } else if b < before.len() {
                    assert(owners@[b] == before[b]);
                }
            }
            assert forall|k: int|
                orig.len() <= k < owners.len() implies is_land(tiles@, (#[trigger] owners@[k]).0)
                    && !is_owned(orig, owners@[k].0) && is_nearest_slot(
                    starting@,
                    owners@[k].0,
                    owners@[k].1.0 as int,
                ) && exists|t: int| 0 <= t < i + 1 && tiles@[t].0 == owners@[k].0 by {
                if k < before.len() {
                    assert(owners@[k] == before[k]);
                    let t = choose|t: int| 0 <= t < i && tiles@[t].0 == before[k].0;
                    assert(tiles@[t].0 == owners@[k].0);
                } else {
                    assert(tiles@[i as int].0 == owners@[k].0);
                }
            }
            assert forall|x: TriCoord|
                #[trigger] is_owned(owners@, x) <==> (is_owned(orig, x) || is_land(
                    tiles@.take(i + 1),
                    x,
                )) by {
                lemma_land_in_longer_prefix(tiles@, i as int, x);
                if is_owned(owners@, x) {
                    let k = choose|k: int| 0 <= k < owners.len() && (#[trigger] owners@[k]).0 == x;
                    if k < before.len() {
                        assert(before[k].0 == x);
                        assert(is_owned(before, x));
                    } else {
                        assert(tiles@[i as int].0 == x);
                    }
                }
                if is_owned(before, x) {
                    let k = choose|k: int| 0 <= k < before.len() && (#[trigger] before[k]).0 == x;
                    assert(owners@[k].0 == x);
                }
                if x == c && !water {
                    if owned {
                        let k = choose|k: int| 0 <= k < before.len() && (#[trigger] before[k]).0 == x;
                        assert(owners@[k].0 == x);
                    } else {
                        assert(owners@[before.len() as int].0 == x);
                    }
                }
            }
        }
        i += 1;
    }
    proof {
        assert(tiles@.take(tiles.len() as int) =~= tiles@);
    }
}

/// Land in the first `i + 1` entries is land in the first `i` or the `i`-th entry itself.
proof fn lemma_land_in_longer_prefix(tiles: Seq<(TriCoord, TileData)>, i: int, x: TriCoord)
    requires
        0 <= i < tiles.len(),
    ensures
        is_land(tiles.take(i + 1), x) <==> (is_land(tiles.take(i), x) || (tiles[i].0 == x
            && tiles[i].1.terrain != Terrain::Water)),
{
    let long = tiles.take(i + 1);
    let short = tiles.take(i);
    if is_land(long, x) {
        let t = choose|t: int|
            0 <= t < long.len() && (#[trigger] long[t]).0 == x && long[t].1.terrain
                != Terrain::Water;
        if t < i {
            assert(short[t] == long[t]);
        }
    }
    if is_land(short, x) {
        let t = choose|t: int|
            0 <= t < short.len() && (#[trigger] short[t]).0 == x && short[t].1.terrain
                != Terrain::Water;
        assert(long[t] == short[t]);
    }
    if tiles[i].0 == x && tiles[i].1.terrain != Terrain::Water {
        assert(long[i] == tiles[i]);
    }
}

} // verus!

verus! {

/// `e` repainted in the biome `palette` gives slot `s`.
pub open spec fn painted(e: (TriCoord, TileData), palette: Seq<usize>, s: u8) -> (TriCoord, TileData) {
    (e.0, TileData { terrain: e.1.terrain, terrain_type: spec_land_terrain_type(palette[s as int] as int) })
}

/// Paints every owned table tile in its owner's biome: slot `s` gets the dry-land biome
/// `palette[s]`. Terrain is left untouched; unowned tiles are left alone.
pub fn paint_owned_tiles(
    tiles: &mut Vec<(TriCoord, TileData)>,
    owners: &Vec<(TriCoord, PlayerSlot)>,
    palette: &Vec<usize>,
)
    requires
        coords_distinct(old(tiles)@),
        coords_distinct(owners@),
        forall|k: int| 0 <= k < owners.len() ==> ((#[trigger] owners@[k]).1.0 as int) < palette.len(),
        forall|p: int| 0 <= p < palette.len() ==> #[trigger] palette@[p] < LAND_TERRAIN_TYPE_COUNT,
    ensures
        final(tiles).len() == old(tiles).len(),
        forall|i: int, s: u8|
            0 <= i < final(tiles).len() && owned_by(owners@, old(tiles)@[i].0, s) ==> #[trigger] final(tiles)@[i] == painted(old(tiles)@[i], palette@, s) && #[trigger] owned_by(owners@, old(tiles)@[i].0, s),
        forall|i: int|
            0 <= i < final(tiles).len() && !is_owned(owners@, old(tiles)@[i].0) ==> #[trigger] final(tiles)@[i] == old(tiles)@[i],
{
    let ghost orig = tiles@;
    let mut k: usize = 0;
    while k < owners.len()
        invariant
            k <= owners.len(),
            tiles.len() == orig.len(),
            coords_distinct(orig),
            coords_distinct(owners@),
            forall|q: int| 0 <= q < owners.len() ==> ((#[trigger] owners@[q]).1.0 as int) < palette.len(),
            forall|p: int| 0 <= p < palette.len() ==> #[trigger] palette@[p] < LAND_TERRAIN_TYPE_COUNT,
            forall|i: int| 0 <= i < tiles.len() ==> (#[trigger] tiles@[i]).0 == orig[i].0,
            forall|i: int, q: int|
                0 <= i < tiles.len() && 0 <= q < k && (#[trigger] owners@[q]).0 == orig[i].0
                    ==> #[trigger] tiles@[i] == painted(orig[i], palette@, owners@[q].1.0),
            forall|i: int|
                0 <= i < tiles.len() && !is_owned(owners@.take(k as int), orig[i].0)
                    ==> #[trigger] tiles@[i] == orig[i],
        decreases owners.len() - k,
    {
        let c = owners[k].0;
        let s = owners[k].1.0;
        let ghost before = tiles@;
        proof {
            assert(coords_distinct(before)) by {
                assert forall|a: int, b: int|
                    0 <= a < before.len() && 0 <= b < before.len() && a != b implies (
                    #[trigger] before[a]).0 != (#[trigger] before[b]).0 by {
                    assert(orig[a].0 != orig[b].0);
                }
            }
        }
        match find_entry(tiles, &c) {
            Some(idx) => {
                let d = tiles[idx].1;
                let pick = palette[s as usize];
                let t = land_terrain_type(pick);
                tiles[idx] = (c, TileData { terrain: d.terrain, terrain_type: t });
                proof {
                    assert(before[idx as int] == orig[idx as int]) by {
                        if before[idx as int] != orig[idx as int] {
                            assert(is_owned(owners@.take(k as int), orig[idx as int].0));
                            let q = choose|q: int|
                                0 <= q < owners@.take(k as int).len() && (
                                #[trigger] owners@.take(k as int)[q]).0 == orig[idx as int].0;
                            assert(owners@[q].0 == owners@[k as int].0);
                        }
                    }
                }
            },
            None => {},
        }
        proof {
            assert forall|i: int, q: int|
                0 <= i < tiles.len() && 0 <= q < k + 1 && (#[trigger] owners@[q]).0 == orig[i].0
                    implies #[trigger] tiles@[i] == painted(orig[i], palette@, owners@[q].1.0) by {
                if q == k {
                    assert(tiles@[i].0 == c);
                } else {
                    assert(owners@[q].0 != owners@[k as int].0);
                    assert(before[i] == tiles@[i]);
                }
            }
            assert forall|i: int|
                0 <= i < tiles.len() && !is_owned(owners@.take(k + 1), orig[i].0)
                    implies #[trigger] tiles@[i] == orig[i] by {
                assert(owners@.take(k + 1)[k as int] == owners@[k as int]);
                if is_owned(owners@.take(k as int), orig[i].0) {
                    let q = choose|q: int|
                        0 <= q < owners@.take(k as int).len() && (#[trigger] owners@.take(
                            k as int,
                        )[q]).0 == orig[i].0;
                    assert(owners@.take(k + 1)[q] == owners@.take(k as int)[q]);
                }
                assert(before[i] == orig[i]);
            }
        }
        k += 1;
    }
    proof {
        assert(owners@.take(owners.len() as int) =~= owners@);
        assert forall|i: int, s: u8|
            0 <= i < tiles.len() && owned_by(owners@, orig[i].0, s) implies #[trigger] tiles@[i]
                == painted(orig[i], palette@, s) && #[trigger] owned_by(owners@, orig[i].0, s) by {
            let q = choose|q: int|
                0 <= q < owners.len() && (#[trigger] owners@[q]).0 == orig[i].0 && owners@[q].1.0 == s;
            assert(tiles@[i] == painted(orig[i], palette@, owners@[q].1.0));
        }
    }
}

/// A rearrangement of a sequence without duplicates has none either, and the same elements.
pub proof fn lemma_permutation_distinct(a: Seq<usize>, b: Seq<usize>)
    requires
        a.no_duplicates(),
        a.to_multiset() == b.to_multiset(),
    ensures
        b.no_duplicates(),
        forall|x: usize| b.contains(x) <==> a.contains(x),
{
    a.lemma_multiset_has_no_duplicates();
    a.to_multiset_ensures();
    b.to_multiset_ensures();
    b.lemma_multiset_has_no_duplicates_conv();
    assert forall|x: usize| b.contains(x) <==> a.contains(x) by {
        a.to_multiset_ensures();
        b.to_multiset_ensures();
        assert(a.to_multiset().count(x) == b.to_multiset().count(x));
        assert(a.contains(x) <==> a.to_multiset().count(x) > 0);
        assert(b.contains(x) <==> b.to_multiset().count(x) > 0);
    }
}

/// The dry-land biome indices `0..14` in order, before shuffling.
pub open spec fn palette_in_order() -> Seq<usize> {
    Seq::new(LAND_TERRAIN_TYPE_COUNT as nat, |p: int| p as usize)
}

/// The dry-land biome palette `0..14`, shuffled by `rng`: slot `s` of a match is painted
/// with biome `palette[s]`.
pub fn shuffled_palette(rng: &mut rand_chacha::ChaCha8Rng) -> (palette: Vec<usize>)
    ensures
        palette.len() == LAND_TERRAIN_TYPE_COUNT,
        palette@.no_duplicates(),
        forall|p: int| 0 <= p < palette.len() ==> #[trigger] palette@[p] < LAND_TERRAIN_TYPE_COUNT,
        (palette@, *final(rng)) == crate::map::generation::rng::chacha8_shuffle(
            *old(rng),
            palette_in_order(),
        ),
{
    let mut palette: Vec<usize> = Vec::new();
    let mut i: usize = 0;
    while i < LAND_TERRAIN_TYPE_COUNT
        invariant
            i <= LAND_TERRAIN_TYPE_COUNT,
            palette.len() == i,
            forall|p: int| 0 <= p < i ==> #[trigger] palette@[p] == p,
        decreases LAND_TERRAIN_TYPE_COUNT - i,
    {
        palette.push(i);
        i += 1;
    }
    let ghost before = palette@;
    assert(before =~= palette_in_order());
    crate::map::generation::rng::shuffle_indices(&mut palette, rng);
    proof {
        lemma_permutation_distinct(before, palette@);
        assert forall|p: int| 0 <= p < palette.len() implies #[trigger] palette@[p]
            < LAND_TERRAIN_TYPE_COUNT by {
            assert(palette@.contains(palette@[p]));
            assert(before.contains(palette@[p]));
        }
    }
    palette
}

} // verus!
