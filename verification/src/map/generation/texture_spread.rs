//! Multi-source breadth-first spread from every starting tower simultaneously, over
//! non-water tiles only. Round-synchronized (one full ring at a time) so that a tile
//! equidistant from two starting towers gets a fair, seeded coin flip instead of a bias
//! toward whichever tower comes first.
//!
//! Water tiles are never claimed. The spread only reaches land connected to a starting
//! tower through non-water edges; the map pipeline hands any land left unclaimed to its
//! nearest starting tower afterwards.

use vstd::prelude::*;
use vstd::set_lib::*;

use rand_chacha::ChaCha8Rng;

use crate::components::tile::{Terrain, TileData};
use crate::game::map::generation::PlayerSlot;
use crate::grid::coords::TriCoord;
use crate::grid::neighbors::{
    lemma_neighbor_iff_adjacent, spec_edge_neighbors, steppable,
};
use crate::map::tile_table::{
    coords_distinct, coords_of, find_entry, has_tile, is_land, is_owned, owned_by,
    tiles_well_formed, sort_coords,
};

use super::rng::{chacha8_draw_index, random_index};
use crate::grid::coords::lex_lt;
use crate::grid::hexagon::{lemma_sorted_unique, strictly_sorted};

verus! {

/// Every entry of `owners` is one of the starting towers or a map tile.
pub open spec fn owners_within(
    owners: Seq<(TriCoord, PlayerSlot)>,
    tiles: Seq<(TriCoord, TileData)>,
    starting: Seq<TriCoord>,
) -> bool {
    forall|i: int|
        0 <= i < owners.len() ==> starting.contains((#[trigger] owners[i]).0) || is_land(
            tiles,
            owners[i].0,
        )
}

/// A table with distinct coordinates, each a map tile or a starting tower, has at most as
/// many entries as the two together.
proof fn lemma_owner_count_bound(
    owners: Seq<(TriCoord, PlayerSlot)>,
    tiles: Seq<(TriCoord, TileData)>,
    starting: Seq<TriCoord>,
)
    requires
        coords_distinct(owners),
        owners_within(owners, tiles, starting),
    ensures
        owners.len() <= tiles.len() + starting.len(),
{
    let c = coords_of(owners);
    let t = coords_of(tiles);
    assert(c.no_duplicates()) by {
        assert forall|i: int, j: int| 0 <= i < c.len() && 0 <= j < c.len() && i != j implies c[i]
            != c[j] by {
            assert(c[i] == owners[i].0 && c[j] == owners[j].0);
        }
    }
    c.unique_seq_to_set();
    vstd::seq_lib::seq_to_set_is_finite(t);
    vstd::seq_lib::seq_to_set_is_finite(starting);
    assert(c.to_set().subset_of(t.to_set().union(starting.to_set()))) by {
        assert forall|x: TriCoord| c.to_set().contains(x) implies t.to_set().union(
            starting.to_set(),
        ).contains(x) by {
            let i = choose|i: int| 0 <= i < c.len() && c[i] == x;
            assert(owners[i].0 == x);
            if !starting.contains(x) {
                let j = choose|j: int|
                    0 <= j < tiles.len() && (#[trigger] tiles[j]).0 == x && tiles[j].1.terrain
                        != Terrain::Water;
                assert(t[j] == x);
            }
        }
    }
    lemma_len_union(t.to_set(), starting.to_set());
    lemma_len_subset(c.to_set(), t.to_set().union(starting.to_set()));
    t.lemma_cardinality_of_set();
    starting.lemma_cardinality_of_set();
}

/// Some `(tile, slot)` pair of `reach` is for tile `t`.
pub open spec fn reaches_key(reach: Seq<(TriCoord, u8)>, t: TriCoord) -> bool {
    exists|p: int| 0 <= p < reach.len() && (#[trigger] reach[p]).0 == t
}

/// The slot that owns `t`, if any.
fn owner_slot(owners: &Vec<(TriCoord, PlayerSlot)>, t: &TriCoord) -> (r: Option<u8>)
    requires
        coords_distinct(owners@),
    ensures
        r matches Some(s) ==> owned_by(owners@, *t, s),
        r is None ==> !is_owned(owners@, *t),
{
    match find_entry(owners, t) {
        Some(k) => {
            assert(owners@[k as int].0 == *t);
            Some(owners[k].1.0)
        },
        None => None,
    }
}

/// Whether `t` is a map tile whose terrain is not water.
fn land_at(tiles: &Vec<(TriCoord, TileData)>, t: &TriCoord) -> (land: bool)
    requires
        coords_distinct(tiles@),
    ensures
        land == is_land(tiles@, *t),
{
    match find_entry(tiles, t) {
        Some(k) => {
            let water = match tiles[k].1.terrain {
                Terrain::Water => true,
                _ => false,
            };
            proof {
                if !water {
                    assert(tiles@[k as int].0 == *t);
                } else {
                    assert forall|i: int| 0 <= i < tiles.len() && (#[trigger] tiles@[i]).0 == *t
                        implies tiles@[i].1.terrain == Terrain::Water by {
                        if i != k {
                            assert(tiles@[i].0 != tiles@[k as int].0);
                        }
                    }
                }
            }
            !water
        },
        None => false,
    }
}

/// The tiles one ring out from `frontier`: every map tile that is land, not yet owned, and
/// an edge neighbor of some frontier tile, each once (`keys`), together with every
/// `(tile, slot)` pair through which a frontier tile owned by `slot` reaches it (`reach`).
fn gather_candidates(
    tiles: &Vec<(TriCoord, TileData)>,
    owners: &Vec<(TriCoord, PlayerSlot)>,
    frontier: &Vec<TriCoord>,
    num_slots: usize,
) -> (r: (Vec<TriCoord>, Vec<(TriCoord, u8)>))
    requires
        tiles_well_formed(tiles@),
        coords_distinct(owners@),
        forall|i: int| 0 <= i < owners.len() ==> (#[trigger] owners@[i]).1.0 < num_slots,
        forall|i: int|
            0 <= i < frontier.len() ==> is_owned(owners@, #[trigger] frontier@[i])
                && frontier@[i].is_valid() && steppable(frontier@[i]),
    ensures
        r.0@.no_duplicates(),
        forall|i: int|
            0 <= i < r.0.len() ==> is_land(tiles@, #[trigger] r.0@[i]) && !is_owned(
                owners@,
                r.0@[i],
            ),
        forall|i: int|
            0 <= i < r.0.len() ==> reaches_key(r.1@, #[trigger] r.0@[i]),
        forall|p: int|
            0 <= p < r.1.len() ==> {
                &&& r.0@.contains((#[trigger] r.1@[p]).0)
                &&& r.1@[p].1 < num_slots
                &&& exists|f: TriCoord|
                    #![trigger spec_edge_neighbors(f).contains(r.1@[p].0)]
                    frontier@.contains(f) && spec_edge_neighbors(f).contains(r.1@[p].0) && owned_by(
                        owners@,
                        f,
                        r.1@[p].1,
                    )
            },
        forall|f: TriCoord, n: TriCoord|
            frontier@.contains(f) && #[trigger] spec_edge_neighbors(f).contains(n) && is_land(
                tiles@,
                n,
            ) && !is_owned(owners@, n) ==> #[trigger] r.0@.contains(n),
        forall|f: TriCoord, n: TriCoord, s: u8|
            frontier@.contains(f) && #[trigger] spec_edge_neighbors(f).contains(n) && is_land(
                tiles@,
                n,
            ) && !is_owned(owners@, n) && #[trigger] owned_by(owners@, f, s) ==> r.1@.contains((n, s)),
{
    let mut keys: Vec<TriCoord> = Vec::new();
    let mut reach: Vec<(TriCoord, u8)> = Vec::new();
    let mut q: usize = 0;
    while q < frontier.len()
        invariant
            q <= frontier.len(),
            tiles_well_formed(tiles@),
            coords_distinct(owners@),
            forall|i: int| 0 <= i < owners.len() ==> (#[trigger] owners@[i]).1.0 < num_slots,
            forall|i: int|
                0 <= i < frontier.len() ==> is_owned(owners@, #[trigger] frontier@[i])
                    && frontier@[i].is_valid() && steppable(frontier@[i]),
            keys@.no_duplicates(),
            forall|i: int|
                0 <= i < keys.len() ==> is_land(tiles@, #[trigger] keys@[i]) && !is_owned(
                    owners@,
                    keys@[i],
                ),
            forall|i: int|
                0 <= i < keys.len() ==> reaches_key(reach@, #[trigger] keys@[i]),
            forall|p: int|
                0 <= p < reach.len() ==> {
                    &&& keys@.contains((#[trigger] reach@[p]).0)
                    &&& reach@[p].1 < num_slots
                    &&& exists|f: TriCoord|
                        #![trigger spec_edge_neighbors(f).contains(reach@[p].0)]
                        frontier@.contains(f) && spec_edge_neighbors(f).contains(reach@[p].0)
                            && owned_by(owners@, f, reach@[p].1)
                },
            forall|j: int, n: TriCoord|
                0 <= j < q && #[trigger] spec_edge_neighbors(frontier@[j]).contains(n) && is_land(
                    tiles@,
                    n,
                ) && !is_owned(owners@, n) ==> #[trigger] keys@.contains(n),
            forall|j: int, n: TriCoord, s: u8|
                0 <= j < q && #[trigger] spec_edge_neighbors(frontier@[j]).contains(n) && is_land(
                    tiles@,
                    n,
                ) && !is_owned(owners@, n) && #[trigger] owned_by(owners@, frontier@[j], s)
                    ==> reach@.contains((n, s)),
        decreases frontier.len() - q,
    {
        let f = frontier[q];
        proof {
            assert(frontier@.contains(f)) by {
                assert(frontier@[q as int] == f);
            }
        }
        match owner_slot(owners, &f) {
            None => {
                proof {
                    assert(is_owned(owners@, frontier@[q as int]));
                    assert(false);
                }
            },
            Some(slot) => {
                let ns = f.edge_neighbors();
                let mut e: usize = 0;
                while e < 3
                    invariant
                        e <= 3,
                        q < frontier.len(),
                        f == frontier@[q as int],
                        frontier@.contains(f),
                        ns@ == spec_edge_neighbors(f),
                        owned_by(owners@, f, slot),
                        slot < num_slots,
                        tiles_well_formed(tiles@),
                        coords_distinct(owners@),
                        keys@.no_duplicates(),
                        forall|i: int|
                            0 <= i < keys.len() ==> is_land(tiles@, #[trigger] keys@[i])
                                && !is_owned(owners@, keys@[i]),
                        forall|i: int|
                            0 <= i < keys.len() ==> reaches_key(reach@, #[trigger] keys@[i]),
                        forall|p: int|
                            0 <= p < reach.len() ==> {
                                &&& keys@.contains((#[trigger] reach@[p]).0)
                                &&& reach@[p].1 < num_slots
                                &&& exists|g: TriCoord|
                                    #![trigger spec_edge_neighbors(g).contains(reach@[p].0)]
                                    frontier@.contains(g) && spec_edge_neighbors(g).contains(
                                        reach@[p].0,
                                    ) && owned_by(owners@, g, reach@[p].1)
                            },
                        forall|j: int, n: TriCoord|
                            0 <= j < q && #[trigger] spec_edge_neighbors(frontier@[j]).contains(n)
                                && is_land(tiles@, n) && !is_owned(owners@, n)
                                ==> #[trigger] keys@.contains(n),
                        forall|p: int|
                            0 <= p < e && is_land(tiles@, #[trigger] ns@[p]) && !is_owned(
                                owners@,
                                ns@[p],
                            ) ==> keys@.contains(ns@[p]),
                        forall|j: int, n: TriCoord, s: u8|
                            0 <= j < q && #[trigger] spec_edge_neighbors(frontier@[j]).contains(n)
                                && is_land(tiles@, n) && !is_owned(owners@, n) && #[trigger] owned_by(
                                owners@,
                                frontier@[j],
                                s,
                            ) ==> reach@.contains((n, s)),
                        forall|p: int|
                            0 <= p < e && is_land(tiles@, #[trigger] ns@[p]) && !is_owned(
                                owners@,
                                ns@[p],
                            ) ==> reach@.contains((ns@[p], slot)),
                    decreases 3 - e,
                {
                    let n = ns[e];
                    proof {
                        assert(spec_edge_neighbors(f).contains(n)) by {
                            assert(spec_edge_neighbors(f)[e as int] == n);
                        }
                    }
                    if land_at(tiles, &n) && owner_slot(owners, &n).is_none() {
                        let ghost old_keys = keys@;
                        let ghost old_reach = reach@;
                        let known = find_entry(&reach, &n).is_some();
                        if !known {
                            keys.push(n);
                        }
                        reach.push((n, slot));
                        proof {
                            assert forall|x: (TriCoord, u8)| old_reach.contains(x) implies reach@.contains(x) by {
                                let i = choose|i: int| 0 <= i < old_reach.len() && old_reach[i] == x;
                                assert(reach@[i] == x);
                            }
                            assert(reach@[reach.len() - 1] == (n, slot));
                            if known {
                                let p = choose|p: int|
                                    0 <= p < old_reach.len() && old_reach[p].0 == n;
                                assert(old_keys.contains(old_reach[p].0));
                            }
                            assert(keys@.contains(n)) by {
                                if !known {
                                    assert(keys@[keys.len() - 1] == n);
                                }
                            }
                            assert forall|k: TriCoord|
                                old_keys.contains(k) implies #[trigger] keys@.contains(k) by {
                                let i = choose|i: int| 0 <= i < old_keys.len() && old_keys[i] == k;
                                assert(keys@[i] == k);
                            }
                            assert forall|i: int|
                                0 <= i < keys.len() implies reaches_key(reach@, #[trigger] keys@[i]) by {
                                if i < old_keys.len() {
                                    assert(keys@[i] == old_keys[i]);
                                    let p = choose|p: int|
                                        0 <= p < old_reach.len() && old_reach[p].0 == old_keys[i];
                                    assert(reach@[p] == old_reach[p]);
                                } else {
                                    assert(reach@[reach.len() - 1].0 == n);
                                }
                            }
                            assert forall|p: int| 0 <= p < reach.len() implies {
                                &&& keys@.contains((#[trigger] reach@[p]).0)
                                &&& reach@[p].1 < num_slots
                                &&& exists|g: TriCoord|
                                    #![trigger spec_edge_neighbors(g).contains(reach@[p].0)]
                                    frontier@.contains(g) && spec_edge_neighbors(g).contains(
                                        reach@[p].0,
                                    ) && owned_by(owners@, g, reach@[p].1)
                            } by {
                                if p < old_reach.len() {
                                    assert(reach@[p] == old_reach[p]);
                                } else {
                                    assert(reach@[p] == (n, slot));
                                    assert(spec_edge_neighbors(f).contains(reach@[p].0));
                                }
                            }
                        }
                    }
                    e += 1;
                }
                proof {
                    assert forall|j: int, n: TriCoord, s: u8|
                        0 <= j < q + 1 && #[trigger] spec_edge_neighbors(frontier@[j]).contains(n)
                            && is_land(tiles@, n) && !is_owned(owners@, n) && #[trigger] owned_by(
                            owners@,
                            frontier@[j],
                            s,
                        ) implies reach@.contains((n, s)) by {
                        if j == q {
                            let p = choose|p: int| 0 <= p < 3 && spec_edge_neighbors(f)[p] == n;
                            assert(ns@[p] == n);
                            let a = choose|a: int|
                                0 <= a < owners.len() && (#[trigger] owners@[a]).0 == f && owners@[a].1.0 == s;
                            let b = choose|b: int|
                                0 <= b < owners.len() && (#[trigger] owners@[b]).0 == f && owners@[b].1.0 == slot;
                            assert(a == b);
                        }
                    }
                    assert forall|j: int, n: TriCoord|
                        0 <= j < q + 1 && #[trigger] spec_edge_neighbors(frontier@[j]).contains(n)
                            && is_land(tiles@, n) && !is_owned(owners@, n)
                            implies #[trigger] keys@.contains(n) by {
                        if j == q {
                            let p = choose|p: int| 0 <= p < 3 && spec_edge_neighbors(f)[p] == n;
                            assert(ns@[p] == n);
                        }
                    }
                }
            },
        }
        q += 1;
    }
    proof {
        assert forall|f: TriCoord, n: TriCoord|
            frontier@.contains(f) && #[trigger] spec_edge_neighbors(f).contains(n) && is_land(
                tiles@,
                n,
            ) && !is_owned(owners@, n) implies #[trigger] keys@.contains(n) by {
            let j = choose|j: int| 0 <= j < frontier.len() && frontier@[j] == f;
            assert(spec_edge_neighbors(frontier@[j]).contains(n));
        }
        assert forall|f: TriCoord, n: TriCoord, s: u8|
            frontier@.contains(f) && #[trigger] spec_edge_neighbors(f).contains(n) && is_land(
                tiles@,
                n,
            ) && !is_owned(owners@, n) && #[trigger] owned_by(owners@, f, s) implies reach@.contains(
            (n, s),
        ) by {
            let j = choose|j: int| 0 <= j < frontier.len() && frontier@[j] == f;
            assert(spec_edge_neighbors(frontier@[j]).contains(n));
        }
    }
    (keys, reach)
}

} // verus!

verus! {

/// The elements of `s` strictly increase.
pub open spec fn strictly_increasing(s: Seq<u8>) -> bool {
    forall|i: int, j: int| 0 <= i < j < s.len() ==> #[trigger] s[i] < #[trigger] s[j]
}

/// Every slot through which `key` is reached, each once, in increasing order.
fn slots_reaching(reach: &Vec<(TriCoord, u8)>, key: &TriCoord) -> (slots: Vec<u8>)
    ensures
        strictly_increasing(slots@),
        forall|s: u8|
            slots@.contains(s) <==> exists|p: int|
                0 <= p < reach.len() && #[trigger] reach@[p] == (*key, s),
{
    let mut slots: Vec<u8> = Vec::new();
    let mut p: usize = 0;
    while p < reach.len()
        invariant
            p <= reach.len(),
            strictly_increasing(slots@),
            forall|s: u8|
                slots@.contains(s) <==> exists|q: int|
                    0 <= q < p && #[trigger] reach@[q] == (*key, s),
        decreases reach.len() - p,
    {
        let ghost before = slots@;
        if reach[p].0 == *key {
            let s = reach[p].1;
            let mut pos: usize = 0;
            while pos < slots.len() && slots[pos] < s
                invariant
                    pos <= slots.len(),
                    slots@ == before,
                    forall|j: int| 0 <= j < pos ==> #[trigger] slots@[j] < s,
                decreases slots.len() - pos,
            {
                pos += 1;
            }
            if pos == slots.len() || slots[pos] != s {
                slots.insert(pos, s);
                proof {
                    assert(slots@ == before.insert(pos as int, s));
                    assert forall|i: int, j: int| 0 <= i < j < slots.len() implies #[trigger] slots@[i]
                        < #[trigger] slots@[j] by {
                        if j < pos {
                        } else if j == pos {
                        } else if i < pos {
                            assert(slots@[j] == before[j - 1]);
                            assert(before[i] < before[pos as int] || i == pos);
                        } else if i == pos {
                            assert(slots@[j] == before[j - 1]);
                            assert(before[pos as int] < before[j - 1] || j - 1 == pos);
                        } else {
                            assert(slots@[i] == before[i - 1]);
                            assert(slots@[j] == before[j - 1]);
                        }
                    }
                }
            }
            proof {
                assert forall|x: u8|
                    slots@.contains(x) <==> exists|q: int|
                        0 <= q < p + 1 && #[trigger] reach@[q] == (*key, x) by {
                    if slots@.contains(x) && x != s {
                        let i = choose|i: int| 0 <= i < slots.len() && slots@[i] == x;
                        if slots@ == before {
                            assert(before[i] == x);
                        } else if i < pos {
                            assert(before[i] == x);
                        } else {
                            assert(i != pos);
                            assert(before[i - 1] == x);
                        }
                        assert(before.contains(x));
                    }
                    if exists|q: int| 0 <= q < p + 1 && #[trigger] reach@[q] == (*key, x) {
                        if x == s {
                            if pos < slots.len() && slots@[pos as int] == s {
                            } else {
                                assert(slots@[pos as int] == s);
                            }
                        } else {
                            let q = choose|q: int| 0 <= q < p + 1 && #[trigger] reach@[q] == (*key, x);
                            assert(q < p);
                            assert(before.contains(x));
                            let i = choose|i: int| 0 <= i < before.len() && before[i] == x;
                            if slots@ != before {
                                if i < pos {
                                    assert(slots@[i] == x);
                                } else {
                                    assert(slots@[i + 1] == x);
                                }
                            }
                        }
                    }
                }
            }
        }
        p += 1;
    }
    slots
}

} // verus!

verus! {

/// Every owned tile that is not on `frontier` has all of its land edge neighbors owned.
pub open spec fn closed_outside(
    owners: Seq<(TriCoord, PlayerSlot)>,
    tiles: Seq<(TriCoord, TileData)>,
    frontier: Seq<TriCoord>,
) -> bool {
    forall|t: TriCoord, n: TriCoord|
        #![trigger is_owned(owners, t), spec_edge_neighbors(t).contains(n)]
        is_owned(owners, t) && !frontier.contains(t) && spec_edge_neighbors(t).contains(n)
            && is_land(tiles, n) ==> is_owned(owners, n)
}

/// Every owned tile other than a starting tower has an edge neighbor owned by the same slot:
/// territories only grow outward from their own tiles.
pub open spec fn grows_from_neighbors(
    owners: Seq<(TriCoord, PlayerSlot)>,
    starting: Seq<TriCoord>,
) -> bool {
    forall|i: int|
        #![trigger owners[i]]
        0 <= i < owners.len() && !starting.contains(owners[i].0) ==> exists|n: TriCoord|
            #[trigger] spec_edge_neighbors(owners[i].0).contains(n) && owned_by(
                owners,
                n,
                owners[i].1.0,
            )
}

/// `t` is reached from a starting tower in at most `steps` edge crossings, every tile
/// after the tower being a land map tile.
pub open spec fn reachable_over_land(
    tiles: Seq<(TriCoord, TileData)>,
    starting: Seq<TriCoord>,
    t: TriCoord,
    steps: nat,
) -> bool
    decreases steps,
{
    ||| starting.contains(t)
    ||| (steps > 0 && is_land(tiles, t) && exists|p: TriCoord|
        #[trigger] spec_edge_neighbors(p).contains(t) && reachable_over_land(
            tiles,
            starting,
            p,
            (steps - 1) as nat,
        ))
}

/// A tile within `n` land steps of the towers is within `n + 1` of them.
proof fn lemma_reach_step(
    tiles: Seq<(TriCoord, TileData)>,
    starting: Seq<TriCoord>,
    t: TriCoord,
    n: nat,
)
    requires
        reachable_over_land(tiles, starting, t, n),
    ensures
        reachable_over_land(tiles, starting, t, n + 1),
    decreases n,
{
    if !starting.contains(t) {
        let p = choose|p: TriCoord|
            #[trigger] spec_edge_neighbors(p).contains(t) && reachable_over_land(
                tiles,
                starting,
                p,
                (n - 1) as nat,
            );
        lemma_reach_step(tiles, starting, p, (n - 1) as nat);
        assert(spec_edge_neighbors(p).contains(t) && reachable_over_land(tiles, starting, p, n));
    }
}

/// Reaching a tile within `n` land steps means reaching it within any larger number.
pub proof fn lemma_reach_monotone(
    tiles: Seq<(TriCoord, TileData)>,
    starting: Seq<TriCoord>,
    t: TriCoord,
    n: nat,
    m: nat,
)
    requires
        n <= m,
        reachable_over_land(tiles, starting, t, n),
    ensures
        reachable_over_land(tiles, starting, t, m),
    decreases m - n,
{
    if n < m {
        lemma_reach_monotone(tiles, starting, t, n, (m - 1) as nat);
        lemma_reach_step(tiles, starting, t, (m - 1) as nat);
    }
}

/// The spread after `ring` rings: exactly the tiles within `ring` land steps of a tower are
/// claimed, the frontier holds every tile first reached in the last ring, and every claim
/// is for a tower that reaches the tile as soon as any tower does.
spec fn ring_state(
    owners: Seq<(TriCoord, PlayerSlot)>,
    tiles: Seq<(TriCoord, TileData)>,
    towers: Seq<TriCoord>,
    frontier: Seq<TriCoord>,
    ring: nat,
) -> bool {
    &&& forall|t: TriCoord|
        #![trigger is_owned(owners, t)]
        #![trigger reachable_over_land(tiles, towers, t, ring)]
        is_owned(owners, t) <==> reachable_over_land(tiles, towers, t, ring)
    &&& forall|t: TriCoord|
        #![trigger frontier.contains(t)]
        #![trigger reachable_over_land(tiles, towers, t, ring)]
        reachable_over_land(tiles, towers, t, ring) && !(ring > 0 && reachable_over_land(
            tiles,
            towers,
            t,
            (ring - 1) as nat,
        )) ==> frontier.contains(t)
    &&& forall|t: TriCoord, s: u8, n: nat|
        #[trigger] owned_by(owners, t, s) && #[trigger] reachable_over_land(tiles, towers, t, n)
            ==> s < towers.len() && reachable_over_land(tiles, seq![towers[s as int]], t, n)
}

/// One ring of the spread keeps the ring state: the next frontier is every unclaimed land
/// neighbor of the old frontier, each claimed for a slot owning such a frontier neighbor.
proof fn lemma_ring_step(
    tiles: Seq<(TriCoord, TileData)>,
    towers: Seq<TriCoord>,
    old_owners: Seq<(TriCoord, PlayerSlot)>,
    new_owners: Seq<(TriCoord, PlayerSlot)>,
    old_frontier: Seq<TriCoord>,
    next: Seq<TriCoord>,
    ring: nat,
)
    requires
        ring_state(old_owners, tiles, towers, old_frontier, ring),
        forall|k: int| 0 <= k < old_frontier.len() ==> is_owned(old_owners, #[trigger] old_frontier[k]),
        forall|x: TriCoord|
            #[trigger] next.contains(x) ==> is_land(tiles, x) && !is_owned(old_owners, x),
        forall|x: TriCoord|
            #[trigger] next.contains(x) ==> exists|f: TriCoord|
                #[trigger] spec_edge_neighbors(f).contains(x) && old_frontier.contains(f),
        forall|f: TriCoord, x: TriCoord|
            old_frontier.contains(f) && #[trigger] spec_edge_neighbors(f).contains(x) && is_land(
                tiles,
                x,
            ) && !is_owned(old_owners, x) ==> next.contains(x),
        forall|x: TriCoord|
            #[trigger] is_owned(new_owners, x) <==> (is_owned(old_owners, x) || next.contains(x)),
        forall|x: TriCoord, s: u8|
            #[trigger] owned_by(new_owners, x, s) ==> owned_by(old_owners, x, s) || (next.contains(
                x,
            ) && exists|f: TriCoord|
                #[trigger] spec_edge_neighbors(f).contains(x) && old_frontier.contains(f) && owned_by(
                    old_owners,
                    f,
                    s,
                )),
    ensures
        ring_state(new_owners, tiles, towers, next, ring + 1),
{
    let r1 = (ring + 1) as nat;
    // Claimed after the ring: exactly the tiles within `ring + 1` steps.
    assert forall|t: TriCoord| #[trigger] is_owned(new_owners, t) <==> reachable_over_land(
        tiles,
        towers,
        t,
        r1,
    ) by {
        if is_owned(new_owners, t) {
            if is_owned(old_owners, t) {
                lemma_reach_step(tiles, towers, t, ring);
            } else {
                assert(next.contains(t));
                let f = choose|f: TriCoord|
                    #[trigger] spec_edge_neighbors(f).contains(t) && old_frontier.contains(f);
                let k = choose|k: int| 0 <= k < old_frontier.len() && old_frontier[k] == f;
                assert(is_owned(old_owners, old_frontier[k]));
                assert(reachable_over_land(tiles, towers, f, ring));
                assert(spec_edge_neighbors(f).contains(t) && reachable_over_land(tiles, towers, f, ring));
            }
        }
        if reachable_over_land(tiles, towers, t, r1) && !is_owned(old_owners, t) {
            assert(!reachable_over_land(tiles, towers, t, ring));
            assert(!towers.contains(t));
            let p = choose|p: TriCoord|
                #[trigger] spec_edge_neighbors(p).contains(t) && reachable_over_land(
                    tiles,
                    towers,
                    p,
                    ring,
                );
            if ring > 0 && reachable_over_land(tiles, towers, p, (ring - 1) as nat) {
                assert(spec_edge_neighbors(p).contains(t) && reachable_over_land(
                    tiles,
                    towers,
                    p,
                    (ring - 1) as nat,
                ));
                assert(reachable_over_land(tiles, towers, t, ring));
            }
            assert(old_frontier.contains(p));
            assert(next.contains(t));
        }
    }
    // The next frontier holds every tile first reached in this ring.
    assert forall|t: TriCoord|
        reachable_over_land(tiles, towers, t, r1) && !(r1 > 0 && reachable_over_land(
            tiles,
            towers,
            t,
            (r1 - 1) as nat,
        )) implies #[trigger] next.contains(t) by {
        assert(!reachable_over_land(tiles, towers, t, ring));
        assert(!is_owned(old_owners, t));
        assert(is_owned(new_owners, t));
    }
    // Every claim is for a tower that reaches the tile as soon as any tower does.
    assert forall|t: TriCoord, s: u8, n: nat|
        #[trigger] owned_by(new_owners, t, s) && #[trigger] reachable_over_land(tiles, towers, t, n)
            implies s < towers.len() && reachable_over_land(tiles, seq![towers[s as int]], t, n) by {
        if !owned_by(old_owners, t, s) {
            let f = choose|f: TriCoord|
                #[trigger] spec_edge_neighbors(f).contains(t) && old_frontier.contains(f)
                    && owned_by(old_owners, f, s);
            let k = choose|k: int| 0 <= k < old_frontier.len() && old_frontier[k] == f;
            assert(is_owned(old_owners, old_frontier[k]));
            assert(reachable_over_land(tiles, towers, f, ring));
            assert(s < towers.len() && reachable_over_land(tiles, seq![towers[s as int]], f, ring));
            assert(!is_owned(old_owners, t));
            assert(is_land(tiles, t));
            assert(spec_edge_neighbors(f).contains(t) && reachable_over_land(
                tiles,
                seq![towers[s as int]],
                f,
                ring,
            ));
            assert(reachable_over_land(tiles, seq![towers[s as int]], t, r1));
            if n < r1 {
                lemma_reach_monotone(tiles, towers, t, n, ring);
            }
            lemma_reach_monotone(tiles, seq![towers[s as int]], t, r1, n);
        }
    }
}

/// With every tile within `ring + 1` steps already within `ring`, no number of steps
/// reaches beyond `ring`.
proof fn lemma_reach_saturates(
    tiles: Seq<(TriCoord, TileData)>,
    towers: Seq<TriCoord>,
    ring: nat,
    t: TriCoord,
    n: nat,
)
    requires
        forall|x: TriCoord|
            #[trigger] reachable_over_land(tiles, towers, x, ring + 1) ==> reachable_over_land(
                tiles,
                towers,
                x,
                ring,
            ),
        reachable_over_land(tiles, towers, t, n),
    ensures
        reachable_over_land(tiles, towers, t, ring),
    decreases n,
{
    if n <= ring {
        lemma_reach_monotone(tiles, towers, t, n, ring);
    } else if towers.contains(t) {
    } else {
        let p = choose|p: TriCoord|
            #[trigger] spec_edge_neighbors(p).contains(t) && reachable_over_land(
                tiles,
                towers,
                p,
                (n - 1) as nat,
            );
        lemma_reach_saturates(tiles, towers, ring, p, (n - 1) as nat);
        assert(spec_edge_neighbors(p).contains(t) && reachable_over_land(tiles, towers, p, ring));
        assert(reachable_over_land(tiles, towers, t, (ring + 1) as nat));
    }
}

/// Once the frontier runs dry, every tile any number of land steps from a tower is claimed.
proof fn lemma_spread_done(
    owners: Seq<(TriCoord, PlayerSlot)>,
    tiles: Seq<(TriCoord, TileData)>,
    towers: Seq<TriCoord>,
    ring: nat,
)
    requires
        ring_state(owners, tiles, towers, Seq::empty(), ring),
    ensures
        forall|t: TriCoord, n: nat|
            #[trigger] reachable_over_land(tiles, towers, t, n) ==> is_owned(owners, t),
{
    assert forall|x: TriCoord| #[trigger] reachable_over_land(tiles, towers, x, ring + 1)
        implies reachable_over_land(tiles, towers, x, ring) by {
        if !reachable_over_land(tiles, towers, x, ring) {
            if towers.contains(x) {
                assert(reachable_over_land(tiles, towers, x, 0));
                lemma_reach_monotone(tiles, towers, x, 0, ring);
            }
            let p = choose|p: TriCoord|
                #[trigger] spec_edge_neighbors(p).contains(x) && reachable_over_land(
                    tiles,
                    towers,
                    p,
                    ring,
                );
            if ring > 0 && reachable_over_land(tiles, towers, p, (ring - 1) as nat) {
                assert(spec_edge_neighbors(p).contains(x) && reachable_over_land(
                    tiles,
                    towers,
                    p,
                    (ring - 1) as nat,
                ));
            } else {
                assert(Seq::<TriCoord>::empty().contains(p));
            }
        }
    }
    assert forall|t: TriCoord, n: nat| #[trigger] reachable_over_land(tiles, towers, t, n)
        implies is_owned(owners, t) by {
        lemma_reach_saturates(tiles, towers, ring, t, n);
    }
}

/// Slot `v` owns a frontier tile next to `key`: the spread can claim `key` for `v`.
pub open spec fn reaching_slot(
    owners: Seq<(TriCoord, PlayerSlot)>,
    frontier: Seq<TriCoord>,
    key: TriCoord,
    v: u8,
) -> bool {
    exists|f: TriCoord|
        #![trigger spec_edge_neighbors(f).contains(key)]
        frontier.contains(f) && spec_edge_neighbors(f).contains(key) && owned_by(owners, f, v)
}

/// `x` belongs to the next ring: an unclaimed land tile next to the frontier.
pub open spec fn next_ring_tile(
    tiles: Seq<(TriCoord, TileData)>,
    owners: Seq<(TriCoord, PlayerSlot)>,
    frontier: Seq<TriCoord>,
    x: TriCoord,
) -> bool {
    &&& is_land(tiles, x)
    &&& !is_owned(owners, x)
    &&& exists|f: TriCoord| #[trigger] spec_edge_neighbors(f).contains(x) && frontier.contains(f)
}

/// The next ring, in lexicographic order.
pub open spec fn ring_keys(
    tiles: Seq<(TriCoord, TileData)>,
    owners: Seq<(TriCoord, PlayerSlot)>,
    frontier: Seq<TriCoord>,
) -> Seq<TriCoord> {
    choose|k: Seq<TriCoord>|
        strictly_sorted(k) && forall|x: TriCoord|
            #[trigger] k.contains(x) <==> next_ring_tile(tiles, owners, frontier, x)
}

/// The slots that can claim `key`, in increasing order.
pub open spec fn ring_slots(
    owners: Seq<(TriCoord, PlayerSlot)>,
    frontier: Seq<TriCoord>,
    key: TriCoord,
) -> Seq<u8> {
    choose|sl: Seq<u8>|
        strictly_increasing(sl) && forall|v: u8|
            #[trigger] sl.contains(v) <==> reaching_slot(owners, frontier, key, v)
}

/// The claims of one ring for `keys`, in order, with the generator's state after them: a
/// key reachable by one slot goes to it without a draw; among several, the generator draws
/// the winner.
pub open spec fn ring_claims(
    owners: Seq<(TriCoord, PlayerSlot)>,
    frontier: Seq<TriCoord>,
    keys: Seq<TriCoord>,
    rng: ChaCha8Rng,
) -> (Seq<(TriCoord, PlayerSlot)>, ChaCha8Rng)
    decreases keys.len(),
{
    if keys.len() == 0 {
        (Seq::empty(), rng)
    } else {
        let prev = ring_claims(owners, frontier, keys.drop_last(), rng);
        let key = keys.last();
        let slots = ring_slots(owners, frontier, key);
        if slots.len() == 1 {
            (prev.0.push((key, PlayerSlot(slots[0]))), prev.1)
        } else {
            let d = chacha8_draw_index(prev.1, slots.len() as usize);
            (prev.0.push((key, PlayerSlot(slots[d.0 as int]))), d.1)
        }
    }
}

/// The claims of the starting towers: tower `i` is claimed for slot `i`, a repeated tower
/// for its last slot.
pub open spec fn tower_claims(towers: Seq<TriCoord>) -> Seq<(TriCoord, PlayerSlot)>
    decreases towers.len(),
{
    if towers.len() == 0 {
        Seq::empty()
    } else {
        let prev = tower_claims(towers.drop_last());
        let t = towers.last();
        let claim = (t, PlayerSlot((towers.len() - 1) as u8));
        if exists|k: int| 0 <= k < prev.len() && (#[trigger] prev[k]).0 == t {
            prev.update(choose|k: int| 0 <= k < prev.len() && (#[trigger] prev[k]).0 == t, claim)
        } else {
            prev.push(claim)
        }
    }
}

/// The claims, frontier and generator after `n` rings of the spread.
pub open spec fn spread_after(
    tiles: Seq<(TriCoord, TileData)>,
    towers: Seq<TriCoord>,
    rng: ChaCha8Rng,
    n: nat,
) -> (Seq<(TriCoord, PlayerSlot)>, Seq<TriCoord>, ChaCha8Rng)
    decreases n,
{
    if n == 0 {
        (tower_claims(towers), towers, rng)
    } else {
        let prev = spread_after(tiles, towers, rng, (n - 1) as nat);
        let keys = ring_keys(tiles, prev.0, prev.1);
        let claims = ring_claims(prev.0, prev.1, keys, prev.2);
        (prev.0 + claims.0, keys, claims.1)
    }
}

/// The number of rings after which the frontier first runs dry.
pub open spec fn rings_needed(tiles: Seq<(TriCoord, TileData)>, towers: Seq<TriCoord>, rng: ChaCha8Rng) -> nat {
    choose|n: nat|
        spread_after(tiles, towers, rng, n).1.len() == 0 && forall|m: nat|
            m < n ==> #[trigger] spread_after(tiles, towers, rng, m).1.len() > 0
}

/// What the spread returns from `rng`, with the generator's state after it: the claims once
/// the frontier has run dry.
pub open spec fn spec_spread_textures(
    tiles: Seq<(TriCoord, TileData)>,
    towers: Seq<TriCoord>,
    rng: ChaCha8Rng,
) -> (Seq<(TriCoord, PlayerSlot)>, ChaCha8Rng) {
    let st = spread_after(tiles, towers, rng, rings_needed(tiles, towers, rng));
    (st.0, st.2)
}

/// The slots listed by `ring_slots` for `key` are `tied`, given as the reaching slots of
/// `key` in increasing order.
proof fn lemma_ring_slots_are(
    owners: Seq<(TriCoord, PlayerSlot)>,
    frontier: Seq<TriCoord>,
    key: TriCoord,
    tied: Seq<u8>,
)
    requires
        strictly_increasing(tied),
        forall|v: u8| tied.contains(v) <==> reaching_slot(owners, frontier, key, v),
    ensures
        ring_slots(owners, frontier, key) == tied,
{
    let sl = ring_slots(owners, frontier, key);
    assert(strictly_increasing(tied) && forall|v: u8|
        #[trigger] tied.contains(v) <==> reaching_slot(owners, frontier, key, v));
    lemma_increasing_unique(sl, tied);
}

/// How a ring settles each tile, given the slots `tied` that reach it (every slot owning a
/// frontier tile next to it, in increasing slot order): a tile reached by one slot goes to
/// it and the generator is not drawn from; a tile reached by several goes to the slot at
/// the position the generator draws among them, and the generator moves on to that draw's
/// state. Which tower a tie goes to is the draw's doing, never the order of the towers.
pub proof fn lemma_ring_tile_claim(
    owners: Seq<(TriCoord, PlayerSlot)>,
    frontier: Seq<TriCoord>,
    keys: Seq<TriCoord>,
    rng: ChaCha8Rng,
    k: int,
    tied: Seq<u8>,
)
    requires
        0 <= k < keys.len(),
        strictly_increasing(tied),
        forall|v: u8| tied.contains(v) <==> reaching_slot(owners, frontier, keys[k], v),
    ensures
        ({
            let before = ring_claims(owners, frontier, keys.take(k), rng);
            let after = ring_claims(owners, frontier, keys.take(k + 1), rng);
            let draw = chacha8_draw_index(before.1, tied.len() as usize);
            &&& tied.len() == 1 ==> after == (before.0.push((keys[k], PlayerSlot(tied[0]))), before.1)
            &&& tied.len() >= 2 ==> after == (
                before.0.push((keys[k], PlayerSlot(tied[draw.0 as int]))),
                draw.1,
            )
        }),
{
    lemma_ring_slots_are(owners, frontier, keys[k], tied);
    assert(keys.take(k + 1).drop_last() =~= keys.take(k));
    assert(keys.take(k + 1).last() == keys[k]);
}

/// Two generators whose draws at a tied tile pick different positions give that tile to
/// different slots: a tie is not settled in favour of any one tower.
pub proof fn lemma_ring_tie_follows_draw(
    owners: Seq<(TriCoord, PlayerSlot)>,
    frontier: Seq<TriCoord>,
    keys: Seq<TriCoord>,
    rng1: ChaCha8Rng,
    rng2: ChaCha8Rng,
    k: int,
    tied: Seq<u8>,
)
    requires
        0 <= k < keys.len(),
        strictly_increasing(tied),
        tied.len() >= 2,
        forall|v: u8| tied.contains(v) <==> reaching_slot(owners, frontier, keys[k], v),
        ({
            let d1 = chacha8_draw_index(
                ring_claims(owners, frontier, keys.take(k), rng1).1,
                tied.len() as usize,
            ).0;
            let d2 = chacha8_draw_index(
                ring_claims(owners, frontier, keys.take(k), rng2).1,
                tied.len() as usize,
            ).0;
            d1 < tied.len() && d2 < tied.len() && d1 != d2
        }),
    ensures
        ring_claims(owners, frontier, keys.take(k + 1), rng1).0.last() != ring_claims(
            owners,
            frontier,
            keys.take(k + 1),
            rng2,
        ).0.last(),
{
    lemma_ring_tile_claim(owners, frontier, keys, rng1, k, tied);
    lemma_ring_tile_claim(owners, frontier, keys, rng2, k, tied);
    let d1 = chacha8_draw_index(ring_claims(owners, frontier, keys.take(k), rng1).1, tied.len() as usize).0;
    let d2 = chacha8_draw_index(ring_claims(owners, frontier, keys.take(k), rng2).1, tied.len() as usize).0;
    if d1 < d2 {
        assert(tied[d1 as int] < tied[d2 as int]);
    } else {
        assert(tied[d2 as int] < tied[d1 as int]);
    }
}

/// Two strictly increasing sequences of slots with the same elements are equal.
proof fn lemma_increasing_unique(a: Seq<u8>, b: Seq<u8>)
    requires
        strictly_increasing(a),
        strictly_increasing(b),
        forall|x: u8| a.contains(x) <==> b.contains(x),
    ensures
        a == b,
    decreases a.len(),
{
    if a.len() == 0 {
        if b.len() > 0 {
            assert(b.contains(b[0]));
        }
        assert(a =~= b);
    } else {
        assert(a.contains(a.last()));
        assert(b.len() > 0);
        assert(b.contains(b.last()));
        let la = a.last();
        let lb = b.last();
        if la != lb {
            let i = choose|i: int| 0 <= i < b.len() && b[i] == la;
            let j = choose|j: int| 0 <= j < a.len() && a[j] == lb;
            assert(b[i] < b[b.len() - 1]);
            assert(a[j] < a[a.len() - 1]);
        }
        let a2 = a.drop_last();
        let b2 = b.drop_last();
        assert forall|x: u8| a2.contains(x) <==> b2.contains(x) by {
            if a2.contains(x) {
                let i = choose|i: int| 0 <= i < a2.len() && a2[i] == x;
                assert(a[i] == x && a[i] < a[a.len() - 1]);
                assert(b.contains(x));
                let j = choose|j: int| 0 <= j < b.len() && b[j] == x;
                assert(j != b.len() - 1);
                assert(b2[j] == x);
            }
            if b2.contains(x) {
                let i = choose|i: int| 0 <= i < b2.len() && b2[i] == x;
                assert(b[i] == x && b[i] < b[b.len() - 1]);
                assert(a.contains(x));
                let j = choose|j: int| 0 <= j < a.len() && a[j] == x;
                assert(j != a.len() - 1);
                assert(a2[j] == x);
            }
        }
        lemma_increasing_unique(a2, b2);
        assert(a =~= a2.push(la));
        assert(b =~= b2.push(lb));
    }
}

/// Multi-source, ring-by-ring spread of player ownership from every starting tower over
/// land tiles; ties between slots reaching a tile in the same ring are broken by a seeded
/// random choice among them.
#[verifier::spinoff_prover]
#[verifier::rlimit(60)]
pub fn spread_textures(
    tiles: &Vec<(TriCoord, TileData)>,
    starting_towers: &Vec<TriCoord>,
    rng: &mut ChaCha8Rng,
) -> (owners: Vec<(TriCoord, PlayerSlot)>)
    requires
        tiles_well_formed(tiles@),
        starting_towers.len() <= 256,
        forall|i: int|
            0 <= i < starting_towers.len() ==> (#[trigger] starting_towers@[i]).is_valid()
                && steppable(starting_towers@[i]),
    ensures
        coords_distinct(owners@),
        owners_within(owners@, tiles@, starting_towers@),
        forall|i: int| 0 <= i < owners.len() ==> (#[trigger] owners@[i]).1.0 < starting_towers.len(),
        forall|i: int|
            0 <= i < starting_towers.len() ==> is_owned(owners@, #[trigger] starting_towers@[i]),
        starting_towers@.no_duplicates() ==> forall|i: int|
            0 <= i < starting_towers.len() ==> owned_by(
                owners@,
                #[trigger] starting_towers@[i],
                i as u8,
            ),
        closed_outside(owners@, tiles@, Seq::empty()),
        grows_from_neighbors(owners@, starting_towers@),
        // Exactly the tiles reachable from a tower over land are claimed.
        forall|t: TriCoord|
            #[trigger] is_owned(owners@, t) ==> exists|n: nat|
                reachable_over_land(tiles@, starting_towers@, t, n),
        forall|t: TriCoord, n: nat|
            #[trigger] reachable_over_land(tiles@, starting_towers@, t, n) ==> is_owned(owners@, t),
        // With at most one tower there is never a tie, and the generator is not drawn from.
        starting_towers.len() <= 1 ==> *final(rng) == *old(rng),
        // Each tile goes to a tower that reaches it over land in as few steps as any tower.
        forall|t: TriCoord, s: u8, n: nat|
            #[trigger] owned_by(owners@, t, s) && #[trigger] reachable_over_land(
                tiles@,
                starting_towers@,
                t,
                n,
            ) ==> reachable_over_land(tiles@, seq![starting_towers@[s as int]], t, n),
        // The claims and the generator's draws, ring by ring.
        (owners@, *final(rng)) == spec_spread_textures(tiles@, starting_towers@, *old(rng)),
{
    let ghost towers = starting_towers@;
    let mut owners: Vec<(TriCoord, PlayerSlot)> = Vec::new();
    let mut frontier: Vec<TriCoord> = Vec::new();
    let mut i: usize = 0;
    while i < starting_towers.len()
        invariant
            i <= starting_towers.len() <= 256,
            towers == starting_towers@,
            frontier@ == towers.take(i as int),
            coords_distinct(owners@),
            forall|k: int| 0 <= k < owners.len() ==> towers.take(i as int).contains(
                (#[trigger] owners@[k]).0,
            ),
            forall|k: int| 0 <= k < owners.len() ==> (#[trigger] owners@[k]).1.0 < i,
            forall|k: int|
                0 <= k < owners.len() ==> towers[(#[trigger] owners@[k]).1.0 as int] == owners@[k].0,
            forall|j: int| 0 <= j < i ==> is_owned(owners@, #[trigger] towers[j]),
            towers.no_duplicates() ==> forall|j: int|
                0 <= j < i ==> owned_by(owners@, #[trigger] towers[j], j as u8),
            owners@ == tower_claims(towers.take(i as int)),
            *rng == *old(rng),
        decreases starting_towers.len() - i,
    {
        let t = starting_towers[i];
        let ghost before = owners@;
        proof {
            assert(towers.take(i + 1).drop_last() == towers.take(i as int));
            assert(towers.take(i + 1).last() == t);
        }
        let slot = PlayerSlot(i as u8);
        let ghost mut pos: int = 0;
        match find_entry(&owners, &t) {
            Some(k) => {
                owners[k] = (t, slot);
                proof {
                    pos = k as int;
                    let kk = choose|kk: int| 0 <= kk < before.len() && (#[trigger] before[kk]).0 == t;
                    if kk != k as int {
                        assert(before[kk].0 != before[k as int].0);
                    }
                    assert(owners@ == tower_claims(towers.take(i + 1)));
                    assert(owners@ == before.update(k as int, (t, slot)));
                    assert forall|a: int, b: int|
                        0 <= a < owners.len() && 0 <= b < owners.len() && a != b implies (
                        #[trigger] owners@[a]).0 != (#[trigger] owners@[b]).0 by {
                        assert(before[a].0 != before[b].0);
                    }
                    assert(towers.take(i as int).contains(t)) by {
                        assert(towers.take(i as int).contains(before[k as int].0));
                    }
                    assert(!towers.no_duplicates()) by {
                        let j = choose|j: int|
                            0 <= j < towers.take(i as int).len() && towers.take(i as int)[j] == t;
                        assert(towers[j] == towers[i as int]);
                    }
                }
            },
            None => {
                owners.push((t, slot));
                proof {
                    pos = before.len() as int;
                    assert(!exists|kk: int| 0 <= kk < before.len() && (#[trigger] before[kk]).0 == t);
                    assert(owners@ == tower_claims(towers.take(i + 1)));
                }
            },
        }
        assert(0 <= pos < owners.len() && owners@[pos] == (t, slot));
        assert(forall|k: int| 0 <= k < before.len() && k != pos ==> owners@[k] == before[k]);
        frontier.push(t);
        proof {
            assert(towers.take(i + 1) =~= towers.take(i as int).push(t));
            assert(owners@.len() > 0);
            assert forall|k: int| 0 <= k < owners.len() implies towers.take(i + 1).contains(
                (#[trigger] owners@[k]).0,
            ) by {
                if owners@[k].0 != t {
                    assert(owners@[k] == before[k]);
                    let j = choose|j: int|
                        0 <= j < towers.take(i as int).len() && towers.take(i as int)[j]
                            == before[k].0;
                    assert(towers.take(i + 1)[j] == before[k].0);
                } else {
                    assert(towers.take(i + 1)[i as int] == t);
                }
            }
            assert forall|k: int| 0 <= k < owners.len() implies (#[trigger] owners@[k]).1.0 < i + 1 by {
                if k < before.len() && owners@[k] == before[k] {
                }
            }
            assert forall|j: int| 0 <= j < i + 1 implies is_owned(owners@, #[trigger] towers[j]) by {
                if towers[j] == t {
                    assert(owners@[pos].0 == towers[j]);
                } else {
                    let k = choose|k: int| 0 <= k < before.len() && (#[trigger] before[k]).0
                        == towers[j];
                    assert(owners@[k] == before[k]);
                }
            }
            if towers.no_duplicates() {
                assert forall|j: int| 0 <= j < i + 1 implies owned_by(
                    owners@,
                    #[trigger] towers[j],
                    j as u8,
                ) by {
                    if j == i {
                        assert(owners@[before.len() as int] == (t, slot));
                    } else {
                        let k = choose|k: int|
                            0 <= k < before.len() && (#[trigger] before[k]).0 == towers[j]
                                && before[k].1.0 == j as u8;
                        assert(owners@[k] == before[k]);
                    }
                }
            }
        }
        i += 1;
    }
    proof {
        assert(towers.take(towers.len() as int) =~= towers);
        assert forall|t: TriCoord| #[trigger] is_owned(owners@, t) <==> reachable_over_land(
            tiles@,
            towers,
            t,
            0,
        ) by {
            if towers.contains(t) {
                let j = choose|j: int| 0 <= j < towers.len() && towers[j] == t;
                assert(is_owned(owners@, towers[j]));
            }
        }
        assert forall|t: TriCoord, s: u8, n: nat|
            #[trigger] owned_by(owners@, t, s) && #[trigger] reachable_over_land(tiles@, towers, t, n)
                implies s < towers.len() && reachable_over_land(tiles@, seq![towers[s as int]], t, n) by {
            let k = choose|k: int| 0 <= k < owners.len() && (#[trigger] owners@[k]).0 == t && owners@[k].1.0 == s;
            assert(seq![towers[s as int]][0] == t);
        }
    }
    let ghost mut ring: nat = 0;
    assert(towers.take(towers.len() as int) == towers);
    assert((owners@, frontier@, *rng) == spread_after(tiles@, towers, *old(rng), 0));
    while frontier.len() > 0
        invariant
            towers == starting_towers@,
            towers.len() <= 256,
            tiles_well_formed(tiles@),
            forall|j: int|
                0 <= j < towers.len() ==> (#[trigger] towers[j]).is_valid() && steppable(
                    towers[j],
                ),
            coords_distinct(owners@),
            owners_within(owners@, tiles@, towers),
            forall|k: int| 0 <= k < owners.len() ==> (#[trigger] owners@[k]).1.0 < towers.len(),
            forall|j: int| 0 <= j < towers.len() ==> is_owned(owners@, #[trigger] towers[j]),
            towers.no_duplicates() ==> forall|j: int|
                0 <= j < towers.len() ==> owned_by(owners@, #[trigger] towers[j], j as u8),
            forall|k: int|
                0 <= k < frontier.len() ==> is_owned(owners@, #[trigger] frontier@[k])
                    && frontier@[k].is_valid() && steppable(frontier@[k]),
            closed_outside(owners@, tiles@, frontier@),
            grows_from_neighbors(owners@, towers),
            ring_state(owners@, tiles@, towers, frontier@, ring),
            towers.len() <= 1 ==> *rng == *old(rng),
            (owners@, frontier@, *rng) == spread_after(tiles@, towers, *old(rng), ring),
            forall|m: nat| m < ring ==> #[trigger] spread_after(tiles@, towers, *old(rng), m).1.len() > 0,
        decreases 2 * (tiles.len() + towers.len() - owners.len()) + (if frontier.len() > 0 {
            1int
        } else {
            0int
        }),
    {
        proof {
            lemma_owner_count_bound(owners@, tiles@, towers);
        }
        let ghost old_owners = owners@;
        let ghost old_frontier = frontier@;
        let ghost ring_rng = *rng;
        let (keys, reach) = gather_candidates(tiles, &owners, &frontier, starting_towers.len());
        let sorted = sort_coords(&keys);
        proof {
            // The reaching slots that the candidates record are exactly the slots able to
            // claim each key.
            assert forall|x: TriCoord, v: u8| sorted@.contains(x) && #[trigger] reaching_slot(old_owners, old_frontier, x, v)
                implies reach@.contains((x, v)) by {
                assert(keys@.contains(x));
                let k = choose|k: int| 0 <= k < keys.len() && keys@[k] == x;
                let f = choose|f: TriCoord|
                    #![trigger spec_edge_neighbors(f).contains(x)]
                    old_frontier.contains(f) && spec_edge_neighbors(f).contains(x) && owned_by(old_owners, f, v);
            }
            // The sorted keys are the next ring.
            assert forall|x: TriCoord| #[trigger] sorted@.contains(x) <==> next_ring_tile(tiles@, old_owners, old_frontier, x) by {
                if sorted@.contains(x) {
                    assert(keys@.contains(x));
                    let k = choose|k: int| 0 <= k < keys.len() && keys@[k] == x;
                    assert(reaches_key(reach@, keys@[k]));
                    let p = choose|p: int| 0 <= p < reach.len() && (#[trigger] reach@[p]).0 == x;
                    let f = choose|f: TriCoord|
                        #![trigger spec_edge_neighbors(f).contains(reach@[p].0)]
                        old_frontier.contains(f) && spec_edge_neighbors(f).contains(reach@[p].0) && owned_by(
                            old_owners,
                            f,
                            reach@[p].1,
                        );
                    assert(spec_edge_neighbors(f).contains(x) && old_frontier.contains(f));
                }
                if next_ring_tile(tiles@, old_owners, old_frontier, x) {
                    let f = choose|f: TriCoord| #[trigger] spec_edge_neighbors(f).contains(x) && old_frontier.contains(f);
                    assert(keys@.contains(x));
                }
            }
            assert(strictly_sorted(sorted@) && forall|x: TriCoord|
                #[trigger] sorted@.contains(x) <==> next_ring_tile(tiles@, old_owners, old_frontier, x));
            lemma_sorted_unique(sorted@, ring_keys(tiles@, old_owners, old_frontier));
            assert(sorted@.take(0) == Seq::<TriCoord>::empty());
            assert(owners@ == old_owners + Seq::<(TriCoord, PlayerSlot)>::empty());
        }
        let mut next: Vec<TriCoord> = Vec::new();
        let mut r: usize = 0;
        let ghost mut wit: Seq<TriCoord> = Seq::empty();
        while r < sorted.len()
            invariant
                towers == starting_towers@,
                r <= sorted.len(),
                sorted.len() == keys.len(),
                crate::grid::hexagon::strictly_sorted(sorted@),
                forall|x: TriCoord| sorted@.contains(x) <==> keys@.contains(x),
                tiles_well_formed(tiles@),
                forall|k: int|
                    0 <= k < keys.len() ==> is_land(tiles@, #[trigger] keys@[k]) && !is_owned(
                        old_owners,
                        keys@[k],
                    ),
                forall|k: int| 0 <= k < keys.len() ==> reaches_key(reach@, #[trigger] keys@[k]),
                forall|p: int|
                    0 <= p < reach.len() ==> {
                        &&& keys@.contains((#[trigger] reach@[p]).0)
                        &&& reach@[p].1 < towers.len()
                        &&& exists|f: TriCoord|
                            #![trigger spec_edge_neighbors(f).contains(reach@[p].0)]
                            old_frontier.contains(f) && spec_edge_neighbors(f).contains(
                                reach@[p].0,
                            ) && owned_by(old_owners, f, reach@[p].1)
                    },
                forall|k: int|
                    0 <= k < old_frontier.len() ==> is_owned(old_owners, #[trigger] old_frontier[k])
                        && old_frontier[k].is_valid() && steppable(old_frontier[k]),
                owners.len() == old_owners.len() + r,
                forall|k: int| 0 <= k < old_owners.len() ==> owners@[k] == old_owners[k],
                forall|k: int|
                    0 <= k < r ==> (#[trigger] owners@[old_owners.len() + k]).0 == sorted@[k],
                wit.len() == r,
                forall|k: int|
                    0 <= k < r ==> old_frontier.contains(#[trigger] wit[k])
                        && spec_edge_neighbors(wit[k]).contains(sorted@[k]) && owned_by(
                        old_owners,
                        wit[k],
                        owners@[old_owners.len() + k].1.0,
                    ),
                forall|k: int|
                    0 <= k < r ==> (#[trigger] owners@[old_owners.len() + k]).1.0 < towers.len(),
                next@ == sorted@.take(r as int),
                coords_distinct(old_owners),
                towers.len() <= 1 ==> *rng == *old(rng),
                owners@ == old_owners + ring_claims(old_owners, old_frontier, sorted@.take(r as int), ring_rng).0,
                *rng == ring_claims(old_owners, old_frontier, sorted@.take(r as int), ring_rng).1,
                forall|x: TriCoord, v: u8|
                    sorted@.contains(x) && #[trigger] reaching_slot(old_owners, old_frontier, x, v)
                        ==> reach@.contains((x, v)),
            decreases sorted.len() - r,
        {
            let key = sorted[r];
            let ghost claims_before = ring_claims(old_owners, old_frontier, sorted@.take(r as int), ring_rng);
            proof {
                assert(sorted@.take(r + 1).drop_last() == sorted@.take(r as int));
                assert(sorted@.take(r + 1).last() == key);
                assert(sorted@.contains(key)) by {
                    assert(sorted@[r as int] == key);
                }
                let k = choose|k: int| 0 <= k < keys.len() && keys@[k] == key;
                assert(reaches_key(reach@, keys@[k]));
            }
            let slots = slots_reaching(&reach, &key);
            proof {
                let p = choose|p: int| 0 <= p < reach.len() && (#[trigger] reach@[p]).0 == key;
                assert(reach@[p] == (key, reach@[p].1));
                assert(slots@.contains(reach@[p].1));
                // With at most one tower every reaching slot is 0: no tie, no draw.
                if towers.len() <= 1 && slots.len() >= 2 {
                    assert(slots@.contains(slots@[1]));
                    let q = choose|q: int| 0 <= q < reach.len() && #[trigger] reach@[q] == (key, slots@[1]);
                    assert(reach@[q].1 < towers.len());
                    assert(slots@[0] < slots@[1]);
                }
                // The recorded slots are exactly the slots that can claim the key.
                assert forall|v: u8| #[trigger] slots@.contains(v) <==> reaching_slot(old_owners, old_frontier, key, v) by {
                    if slots@.contains(v) {
                        let q = choose|q: int| 0 <= q < reach.len() && #[trigger] reach@[q] == (key, v);
                        let f = choose|f: TriCoord|
                            #![trigger spec_edge_neighbors(f).contains(reach@[q].0)]
                            old_frontier.contains(f) && spec_edge_neighbors(f).contains(reach@[q].0)
                                && owned_by(old_owners, f, reach@[q].1);
                        assert(spec_edge_neighbors(f).contains(key));
                    }
                    if reaching_slot(old_owners, old_frontier, key, v) {
                        assert(reach@.contains((key, v)));
                        let q = choose|q: int| 0 <= q < reach.len() && reach@[q] == (key, v);
                        assert(exists|q: int| 0 <= q < reach.len() && #[trigger] reach@[q] == (key, v));
                    }
                }
                assert(strictly_increasing(slots@) && forall|v: u8|
                    #[trigger] slots@.contains(v) <==> reaching_slot(old_owners, old_frontier, key, v));
                lemma_increasing_unique(slots@, ring_slots(old_owners, old_frontier, key));
            }
            let ghost rng_before = *rng;
            let winner = if slots.len() == 1 {
                slots[0]
            } else {
                let pick = random_index(rng, slots.len());
                slots[pick]
            };
            let ghost mid = owners@;
            proof {
                assert(slots@.contains(winner));
                let p = choose|p: int| 0 <= p < reach.len() && #[trigger] reach@[p] == (key, winner);
                assert(reach@[p].0 == key && reach@[p].1 == winner);
                let f = choose|f: TriCoord|
                    #![trigger spec_edge_neighbors(f).contains(reach@[p].0)]
                    old_frontier.contains(f) && spec_edge_neighbors(f).contains(reach@[p].0)
                        && owned_by(old_owners, f, reach@[p].1);
                assert(old_frontier.contains(f) && spec_edge_neighbors(f).contains(sorted@[r as int])
                    && owned_by(old_owners, f, winner));
                wit = wit.push(f);
            }
            owners.push((key, PlayerSlot(winner)));
            next.push(key);
            proof {
                let claims_after = ring_claims(old_owners, old_frontier, sorted@.take(r + 1), ring_rng);
                assert(claims_after.0 == claims_before.0.push((key, PlayerSlot(winner))));
                assert(*rng == claims_after.1);
                assert(owners@ == mid.push((key, PlayerSlot(winner))));
                assert(owners@ =~= old_owners + claims_after.0);
                assert(forall|k: int| 0 <= k < mid.len() ==> owners@[k] == mid[k]);
                assert forall|k: int|
                    0 <= k < r + 1 implies old_frontier.contains(#[trigger] wit[k])
                        && spec_edge_neighbors(wit[k]).contains(sorted@[k]) && owned_by(
                        old_owners,
                        wit[k],
                        owners@[old_owners.len() + k].1.0,
                    ) by {
                    if k < r {
                        assert(owners@[old_owners.len() + k] == mid[old_owners.len() + k]);
                    } else {
                        assert(owners@[old_owners.len() + k] == (key, PlayerSlot(winner)));
                    }
                }
                assert(next@ =~= sorted@.take(r + 1));
                assert(owners@[old_owners.len() + r as int] == (key, PlayerSlot(winner)));
            }
            r += 1;
        }
        proof {
            assert(next@ =~= sorted@);
            let n_old = old_owners.len();
            // New entries are exactly the sorted keys, none of them owned before.
            assert forall|k: int| n_old <= k < owners.len() implies (#[trigger] owners@[k]).0
                == sorted@[k - n_old] by {
                assert(owners@[n_old + (k - n_old)] == owners@[k]);
            }
            assert forall|x: TriCoord| #[trigger] is_owned(owners@, x) <==> (is_owned(old_owners, x)
                || sorted@.contains(x)) by {
                if is_owned(owners@, x) {
                    let k = choose|k: int| 0 <= k < owners.len() && (#[trigger] owners@[k]).0 == x;
                    if k < n_old {
                        assert(old_owners[k].0 == x);
                    } else {
                        assert(sorted@[k - n_old] == x);
                    }
                }
                if is_owned(old_owners, x) {
                    let k = choose|k: int| 0 <= k < n_old && (#[trigger] old_owners[k]).0 == x;
                    assert(owners@[k].0 == x);
                }
                if sorted@.contains(x) {
                    let k = choose|k: int| 0 <= k < sorted.len() && sorted@[k] == x;
                    assert(owners@[n_old + k].0 == x);
                }
            }
            assert forall|x: TriCoord, s: u8| #[trigger] owned_by(old_owners, x, s) implies owned_by(
                owners@,
                x,
                s,
            ) by {
                let k = choose|k: int|
                    0 <= k < n_old && (#[trigger] old_owners[k]).0 == x && old_owners[k].1.0 == s;
                assert(owners@[k] == old_owners[k]);
            }
            // Distinct coordinates.
            assert forall|a: int, b: int|
                0 <= a < owners.len() && 0 <= b < owners.len() && a != b implies (
                #[trigger] owners@[a]).0 != (#[trigger] owners@[b]).0 by {
                if a < n_old && b < n_old {
                    assert(old_owners[a].0 != old_owners[b].0);
                } else if a >= n_old && b >= n_old {
                    assert(crate::grid::coords::lex_lt(sorted@[a - n_old], sorted@[b - n_old])
                        || crate::grid::coords::lex_lt(sorted@[b - n_old], sorted@[a - n_old]));
                } else if a < n_old {
                    assert(keys@.contains(sorted@[b - n_old]));
                    let k = choose|k: int| 0 <= k < keys.len() && keys@[k] == sorted@[b - n_old];
                    assert(!is_owned(old_owners, keys@[k]));
                    assert(old_owners[a].0 == owners@[a].0);
                } else {
                    assert(keys@.contains(sorted@[a - n_old]));
                    let k = choose|k: int| 0 <= k < keys.len() && keys@[k] == sorted@[a - n_old];
                    assert(!is_owned(old_owners, keys@[k]));
                    assert(old_owners[b].0 == owners@[b].0);
                }
            }
            // Entries are towers or land tiles; slots are in range.
            assert forall|k: int| 0 <= k < owners.len() implies towers.contains(
                (#[trigger] owners@[k]).0,
            ) || is_land(tiles@, owners@[k].0) by {
                if k < n_old {
                    assert(owners@[k] == old_owners[k]);
                } else {
                    let x = sorted@[k - n_old];
                    assert(keys@.contains(x));
                    let j = choose|j: int| 0 <= j < keys.len() && keys@[j] == x;
                    assert(is_land(tiles@, keys@[j]));
                }
            }
            assert forall|k: int| 0 <= k < owners.len() implies (#[trigger] owners@[k]).1.0
                < towers.len() by {
                if k < n_old {
                    assert(owners@[k] == old_owners[k]);
                } else {
                    assert(owners@[n_old + (k - n_old)] == owners@[k]);
                }
            }
            assert forall|j: int| 0 <= j < towers.len() implies is_owned(owners@, #[trigger] towers[j]) by {
                assert(is_owned(old_owners, towers[j]));
            }
            if towers.no_duplicates() {
                assert forall|j: int| 0 <= j < towers.len() implies owned_by(
                    owners@,
                    #[trigger] towers[j],
                    j as u8,
                ) by {
                    assert(owned_by(old_owners, towers[j], j as u8));
                }
            }
            // The new frontier is the newly claimed ring.
            assert forall|k: int| 0 <= k < next.len() implies is_owned(owners@, #[trigger] next@[k])
                && next@[k].is_valid() && steppable(next@[k]) by {
                let x = next@[k];
                assert(sorted@.contains(x)) by {
                    assert(sorted@[k] == x);
                }
                assert(keys@.contains(x));
                let j = choose|j: int| 0 <= j < keys.len() && keys@[j] == x;
                assert(is_land(tiles@, keys@[j]));
                let t = choose|t: int|
                    0 <= t < tiles.len() && (#[trigger] tiles@[t]).0 == x && tiles@[t].1.terrain
                        != Terrain::Water;
            }
            // Closure: the old frontier's land neighbors are now all owned.
            assert forall|t: TriCoord, n: TriCoord|
                #![trigger is_owned(owners@, t), spec_edge_neighbors(t).contains(n)]
                is_owned(owners@, t) && !next@.contains(t) && spec_edge_neighbors(t).contains(n)
                    && is_land(tiles@, n) implies is_owned(owners@, n) by {
                assert(is_owned(old_owners, t));
                if old_frontier.contains(t) {
                    if !is_owned(old_owners, n) {
                        assert(keys@.contains(n));
                        assert(sorted@.contains(n));
                    }
                } else {
                    assert(is_owned(old_owners, n));
                }
            }
            // Growth: every newly claimed tile's winner owns a neighbor of it.
            assert forall|k: int|
                #![trigger owners@[k]]
                0 <= k < owners.len() && !towers.contains(owners@[k].0) implies exists|n: TriCoord|
                #[trigger] spec_edge_neighbors(owners@[k].0).contains(n) && owned_by(
                    owners@,
                    n,
                    owners@[k].1.0,
                ) by {
                if k < n_old {
                    assert(owners@[k] == old_owners[k]);
                    let n = choose|n: TriCoord|
                        #[trigger] spec_edge_neighbors(old_owners[k].0).contains(n) && owned_by(
                            old_owners,
                            n,
                            old_owners[k].1.0,
                        );
                    assert(owned_by(owners@, n, old_owners[k].1.0));
                } else {
                    let kk = k - n_old;
                    assert(owners@[n_old + kk] == owners@[k]);
                    let x = sorted@[kk];
                    let f = wit[kk];
                    let fi = choose|fi: int| 0 <= fi < old_frontier.len() && old_frontier[fi] == f;
                    assert(is_owned(old_owners, old_frontier[fi]) && f.is_valid() && steppable(f));
                    assert(keys@.contains(x));
                    let j = choose|j: int| 0 <= j < keys.len() && keys@[j] == x;
                    assert(is_land(tiles@, keys@[j]));
                    let t = choose|t: int|
                        0 <= t < tiles.len() && (#[trigger] tiles@[t]).0 == x
                            && tiles@[t].1.terrain != Terrain::Water;
                    lemma_neighbor_iff_adjacent(f, x);
                    lemma_neighbor_iff_adjacent(x, f);
                    assert(spec_edge_neighbors(owners@[k].0).contains(f));
                    assert(owned_by(owners@, f, owners@[k].1.0));
                }
            }
            lemma_owner_count_bound(owners@, tiles@, towers);
            if sorted.len() > 0 {
                assert(owners.len() > old_owners.len());
            }
            // The ring state moves on by one ring.
            assert forall|x: TriCoord| #[trigger] next@.contains(x) implies exists|f: TriCoord|
                #[trigger] spec_edge_neighbors(f).contains(x) && old_frontier.contains(f) by {
                let k = choose|k: int| 0 <= k < next.len() && next@[k] == x;
                assert(old_frontier.contains(wit[k]) && spec_edge_neighbors(wit[k]).contains(
                    sorted@[k],
                ));
            }
            assert forall|x: TriCoord| #[trigger] next@.contains(x) implies is_land(tiles@, x)
                && !is_owned(old_owners, x) by {
                assert(sorted@.contains(x));
                let j = choose|j: int| 0 <= j < keys.len() && keys@[j] == x;
            }
            assert forall|x: TriCoord, s: u8| #[trigger] owned_by(owners@, x, s) implies owned_by(
                old_owners,
                x,
                s,
            ) || (next@.contains(x) && exists|f: TriCoord|
                #[trigger] spec_edge_neighbors(f).contains(x) && old_frontier.contains(f) && owned_by(
                    old_owners,
                    f,
                    s,
                )) by {
                let k = choose|k: int|
                    0 <= k < owners.len() && (#[trigger] owners@[k]).0 == x && owners@[k].1.0 == s;
                if k < n_old {
                    assert(owners@[k] == old_owners[k]);
                } else {
                    let kk = k - n_old;
                    assert(owners@[n_old + kk] == owners@[k]);
                    assert(next@[kk] == x);
                    assert(old_frontier.contains(wit[kk]) && spec_edge_neighbors(wit[kk]).contains(x)
                        && owned_by(old_owners, wit[kk], s));
                }
            }
            assert forall|f: TriCoord, x: TriCoord|
                old_frontier.contains(f) && #[trigger] spec_edge_neighbors(f).contains(x) && is_land(
                    tiles@,
                    x,
                ) && !is_owned(old_owners, x) implies next@.contains(x) by {
                assert(keys@.contains(x));
                assert(sorted@.contains(x));
            }
            assert forall|x: TriCoord| #[trigger] is_owned(owners@, x) <==> (is_owned(old_owners, x)
                || next@.contains(x)) by {
                assert(is_owned(owners@, x) <==> (is_owned(old_owners, x) || sorted@.contains(x)));
            }
            lemma_ring_step(tiles@, towers, old_owners, owners@, old_frontier, next@, ring);
            ring = ring + 1;
        }
        frontier = next;
    }
    proof {
        assert forall|t: TriCoord, n: TriCoord|
            #![trigger is_owned(owners@, t), spec_edge_neighbors(t).contains(n)]
            is_owned(owners@, t) && !Seq::<TriCoord>::empty().contains(t) && spec_edge_neighbors(
                t,
            ).contains(n) && is_land(tiles@, n) implies is_owned(owners@, n) by {
            assert(!frontier@.contains(t));
        }
        assert(frontier@ =~= Seq::<TriCoord>::empty());
        lemma_spread_done(owners@, tiles@, towers, ring);
        // The frontier runs dry first after exactly `ring` rings.
        let st = spread_after(tiles@, towers, *old(rng), ring);
        assert(st.1.len() == 0);
        let n = rings_needed(tiles@, towers, *old(rng));
        assert(spread_after(tiles@, towers, *old(rng), n).1.len() == 0 && forall|m: nat|
            m < n ==> #[trigger] spread_after(tiles@, towers, *old(rng), m).1.len() > 0);
        if n < ring {
            assert(spread_after(tiles@, towers, *old(rng), n).1.len() > 0);
        }
        if ring < n {
            assert(spread_after(tiles@, towers, *old(rng), ring).1.len() > 0);
        }
        assert(n == ring);
        assert forall|t: TriCoord| #[trigger] is_owned(owners@, t) implies exists|n: nat|
            reachable_over_land(tiles@, starting_towers@, t, n) by {
            assert(reachable_over_land(tiles@, towers, t, ring));
        }
    }
    owners
}

} // verus!
