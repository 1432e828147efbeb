//! The tile table a generated map is held in: one `(coordinate, data)` entry per tile, no
//! coordinate twice, looked up by coordinate.

use vstd::prelude::*;

use crate::components::tile::{Terrain, TileData};
use crate::game::map::generation::PlayerSlot;
use crate::grid::coords::{coord_lt, lex_lt, TriCoord};
use crate::grid::hexagon::strictly_sorted;
use crate::grid::neighbors::{lane_distance, steppable};

verus! {

/// `t` has an entry in the table.
pub open spec fn has_tile(tiles: Seq<(TriCoord, TileData)>, t: TriCoord) -> bool {
    exists|i: int| 0 <= i < tiles.len() && (#[trigger] tiles[i]).0 == t
}

/// `t` has an entry in the table whose terrain is not water.
pub open spec fn is_land(tiles: Seq<(TriCoord, TileData)>, t: TriCoord) -> bool {
    exists|i: int|
        0 <= i < tiles.len() && (#[trigger] tiles[i]).0 == t && tiles[i].1.terrain
            != Terrain::Water
}

/// `t` has an entry in the table whose terrain is water.
pub open spec fn is_water(tiles: Seq<(TriCoord, TileData)>, t: TriCoord) -> bool {
    exists|i: int|
        0 <= i < tiles.len() && (#[trigger] tiles[i]).0 == t && tiles[i].1.terrain
            == Terrain::Water
}

/// No coordinate has two entries.
pub open spec fn coords_distinct<V>(entries: Seq<(TriCoord, V)>) -> bool {
    forall|i: int, j: int|
        0 <= i < entries.len() && 0 <= j < entries.len() && i != j ==> (#[trigger] entries[i]).0
            != (#[trigger] entries[j]).0
}

/// A table of real tiles with no coordinate twice, on which the grid arithmetic stays in
/// `i32`: every tile's lane sum and edge neighbors can be computed, and so can the lane
/// distance between any two tiles.
pub open spec fn tiles_well_formed(tiles: Seq<(TriCoord, TileData)>) -> bool {
    &&& coords_distinct(tiles)
    &&& forall|i: int|
        0 <= i < tiles.len() ==> (#[trigger] tiles[i]).0.is_valid() && steppable(tiles[i].0)
    &&& table_distances_fit(tiles)
}

/// The lane distance between any two tiles of the table fits in `i32`.
#[verifier::opaque]
pub open spec fn table_distances_fit(tiles: Seq<(TriCoord, TileData)>) -> bool {
    forall|i: int, j: int|
        #![trigger tiles[i], tiles[j]]
        0 <= i < tiles.len() && 0 <= j < tiles.len() ==> lane_distance(tiles[i].0, tiles[j].0)
            <= i32::MAX
}

/// The coordinates of a well-formed table are real and steppable, and the lane distance
/// between any two of them fits in `i32`.
pub proof fn lemma_table_coords(tiles: Seq<(TriCoord, TileData)>, x: TriCoord, y: TriCoord)
    requires
        tiles_well_formed(tiles),
        has_tile(tiles, x),
        has_tile(tiles, y),
    ensures
        x.is_valid(),
        steppable(x),
        lane_distance(x, y) <= i32::MAX,
{
    reveal(table_distances_fit);
    let i = choose|i: int| 0 <= i < tiles.len() && (#[trigger] tiles[i]).0 == x;
    let j = choose|j: int| 0 <= j < tiles.len() && (#[trigger] tiles[j]).0 == y;
    assert(lane_distance(tiles[i].0, tiles[j].0) <= i32::MAX);
}

/// The coordinates of the table, in table order.
pub open spec fn coords_of<V>(entries: Seq<(TriCoord, V)>) -> Seq<TriCoord> {
    entries.map_values(|e: (TriCoord, V)| e.0)
}

/// `t` is owned by `slot`.
pub open spec fn owned_by(owners: Seq<(TriCoord, PlayerSlot)>, t: TriCoord, slot: u8) -> bool {
    exists|i: int| 0 <= i < owners.len() && (#[trigger] owners[i]).0 == t && owners[i].1.0 == slot
}

/// `t` has an owner.
pub open spec fn is_owned(owners: Seq<(TriCoord, PlayerSlot)>, t: TriCoord) -> bool {
    exists|i: int| 0 <= i < owners.len() && (#[trigger] owners[i]).0 == t
}

/// The index of `t`'s entry in `entries`, if it has one.
pub fn find_entry<V>(entries: &Vec<(TriCoord, V)>, t: &TriCoord) -> (r: Option<usize>)
    ensures
        r matches Some(i) ==> i < entries.len() && entries@[i as int].0 == *t,
        r is None ==> forall|i: int| 0 <= i < entries.len() ==> (#[trigger] entries@[i]).0 != *t,
{
    let mut i: usize = 0;
    while i < entries.len()
        invariant
            i <= entries.len(),
            forall|j: int| 0 <= j < i ==> (#[trigger] entries@[j]).0 != *t,
        decreases entries.len() - i,
    {
        if entries[i].0 == *t {
            return Some(i);
        }
        i += 1;
    }
    None
}

/// Inserts `t` into the strictly sorted `v` at its place in lexicographic order.
fn insert_sorted(v: &mut Vec<TriCoord>, t: TriCoord)
    requires
        strictly_sorted(old(v)@),
        !old(v)@.contains(t),
    ensures
        strictly_sorted(final(v)@),
        final(v).len() == old(v).len() + 1,
        forall|x: TriCoord| final(v)@.contains(x) <==> (old(v)@.contains(x) || x == t),
{
    let mut pos: usize = 0;
    while pos < v.len() && coord_lt(&v[pos], &t)
        invariant
            pos <= v.len(),
            forall|j: int| 0 <= j < pos ==> lex_lt(#[trigger] v@[j], t),
        decreases v.len() - pos,
    {
        pos += 1;
    }
    let ghost before = v@;
    proof {
        if pos < v.len() {
            assert(!lex_lt(v@[pos as int], t));
            assert(v@[pos as int] != t) by {
                assert(before.contains(before[pos as int]));
            }
        }
    }
    v.insert(pos, t);
    proof {
        assert(v@ == before.insert(pos as int, t));
        assert forall|i: int, j: int| 0 <= i < j < v.len() implies lex_lt(
            #[trigger] v@[i],
            #[trigger] v@[j],
        ) by {
            if j < pos {
            } else if j == pos {
            } else if i < pos {
                assert(v@[j] == before[j - 1]);
                assert(lex_lt(before[i], before[pos as int]) || i == pos);
            } else if i == pos {
                assert(v@[j] == before[j - 1]);
                assert(lex_lt(before[pos as int], before[j - 1]) || j - 1 == pos);
            } else {
                assert(v@[i] == before[i - 1]);
                assert(v@[j] == before[j - 1]);
            }
        }
        assert forall|x: TriCoord| v@.contains(x) <==> (before.contains(x) || x == t) by {
            if v@.contains(x) {
                let i = choose|i: int| 0 <= i < v.len() && v@[i] == x;
                if i < pos {
                    assert(before[i] == x);
                } else if i > pos {
                    assert(before[i - 1] == x);
                }
            }
            if before.contains(x) {
                let i = choose|i: int| 0 <= i < before.len() && before[i] == x;
                if i < pos {
                    assert(v@[i] == x);
                } else {
                    assert(v@[i + 1] == x);
                }
            }
            if x == t {
                assert(v@[pos as int] == t);
            }
        }
    }
}

/// The distinct coordinates `v`, sorted into strictly increasing lexicographic order.
pub fn sort_coords(v: &Vec<TriCoord>) -> (sorted: Vec<TriCoord>)
    requires
        v@.no_duplicates(),
    ensures
        strictly_sorted(sorted@),
        sorted.len() == v.len(),
        forall|x: TriCoord| sorted@.contains(x) <==> v@.contains(x),
{
    let mut sorted: Vec<TriCoord> = Vec::new();
    let mut i: usize = 0;
    while i < v.len()
        invariant
            i <= v.len(),
            v@.no_duplicates(),
            strictly_sorted(sorted@),
            sorted.len() == i,
            forall|x: TriCoord| sorted@.contains(x) <==> v@.take(i as int).contains(x),
        decreases v.len() - i,
    {
        proof {
            let prev = v@.take(i as int);
            if sorted@.contains(v@[i as int]) {
                let j = choose|j: int| 0 <= j < prev.len() && prev[j] == v@[i as int];
                assert(v@[j] == v@[i as int]);
            }
        }
        insert_sorted(&mut sorted, v[i]);
        proof {
            assert forall|x: TriCoord| sorted@.contains(x) <==> v@.take(i + 1).contains(x) by {
                let next = v@.take(i + 1);
                if next.contains(x) {
                    let j = choose|j: int| 0 <= j < next.len() && next[j] == x;
                    if j < i {
                        assert(v@.take(i as int)[j] == x);
                    }
                }
                let prev = v@.take(i as int);
                if prev.contains(x) {
                    let j = choose|j: int| 0 <= j < prev.len() && prev[j] == x;
                    assert(next[j] == x);
                }
                if x == v@[i as int] {
                    assert(next[i as int] == x);
                }
            }
        }
        i += 1;
    }
    assert(v@.take(v.len() as int) =~= v@);
    sorted
}

} // verus!
