//! The client's memory of the map: the tiles revealed so far, fed by `TilesRevealed`
//! messages, and the Biome Towns, fed by `BiomeTowersRevealed` messages.
//!
//! Revealed tiles accumulate: a later message adds to, and overrides, what earlier ones
//! said. The towns are replaced wholesale on every message, since the server always sends
//! its complete current list.

use vstd::prelude::*;

use crate::components::tile::TileData;
use crate::grid::coords::TriCoord;
use crate::map::tile_table::{coords_distinct, find_entry};
use crate::protocol::{BiomeTowersRevealed, TilesRevealed};

verus! {

/// The data the table holds for `c`: that of its last entry for `c`, if it has one.
pub open spec fn entry_for(entries: Seq<(TriCoord, TileData)>, c: TriCoord) -> Option<TileData>
    decreases entries.len(),
{
    if entries.len() == 0 {
        None
    } else if entries.last().0 == c {
        Some(entries.last().1)
    } else {
        entry_for(entries.drop_last(), c)
    }
}

/// What is known of `c` after a message `msg` is absorbed into a memory that said `known`:
/// the message's word on `c` if it has one, else what was known before.
pub open spec fn after_reveal(
    known: Seq<(TriCoord, TileData)>,
    msg: Seq<(TriCoord, TileData)>,
    c: TriCoord,
) -> Option<TileData> {
    match entry_for(msg, c) {
        Some(d) => Some(d),
        None => entry_for(known, c),
    }
}

/// `entry_for` reads the entry for `c` wherever it stands, when no coordinate is repeated.
proof fn lemma_entry_for_distinct(entries: Seq<(TriCoord, TileData)>, k: int)
    requires
        coords_distinct(entries),
        0 <= k < entries.len(),
    ensures
        entry_for(entries, entries[k].0) == Some(entries[k].1),
    decreases entries.len(),
{
    if k < entries.len() - 1 {
        let rest = entries.drop_last();
        assert(rest[k] == entries[k]);
        assert(entries.last().0 != entries[k].0);
        lemma_entry_for_distinct(rest, k);
    }
}

/// No entry for `c` means `entry_for` finds nothing.
proof fn lemma_entry_for_absent(entries: Seq<(TriCoord, TileData)>, c: TriCoord)
    requires
        forall|i: int| 0 <= i < entries.len() ==> (#[trigger] entries[i]).0 != c,
    ensures
        entry_for(entries, c) is None,
    decreases entries.len(),
{
    if entries.len() > 0 {
        let rest = entries.drop_last();
        assert forall|i: int| 0 <= i < rest.len() implies (#[trigger] rest[i]).0 != c by {
            assert(rest[i] == entries[i]);
        }
        assert(entries[entries.len() - 1].0 != c);
        lemma_entry_for_absent(rest, c);
    }
}

/// Overwriting the entry at `k` changes what the table says of that entry's coordinate only.
proof fn lemma_entry_for_update(entries: Seq<(TriCoord, TileData)>, k: int, d: TileData, x: TriCoord)
    requires
        coords_distinct(entries),
        0 <= k < entries.len(),
    ensures
        entry_for(entries.update(k, (entries[k].0, d)), x) == (if x == entries[k].0 {
            Some(d)
        } else {
            entry_for(entries, x)
        }),
    decreases entries.len(),
{
    let upd = entries.update(k, (entries[k].0, d));
    if k == entries.len() - 1 {
        assert(upd.drop_last() =~= entries.drop_last());
        if x != entries[k].0 {
        } else {
        }
    } else {
        let rest = entries.drop_last();
        assert(upd.drop_last() =~= rest.update(k, (rest[k].0, d)));
        assert(upd.last() == entries.last());
        assert(rest[k] == entries[k]);
        assert(coords_distinct(rest)) by {
            assert forall|i: int, j: int|
                0 <= i < rest.len() && 0 <= j < rest.len() && i != j implies (#[trigger] rest[i]).0
                != (#[trigger] rest[j]).0 by {
                assert(rest[i] == entries[i] && rest[j] == entries[j]);
            }
        }
        lemma_entry_for_update(rest, k, d, x);
        assert(entries.last().0 != entries[k].0);
    }
}

/// The tiles the server has revealed so far, one entry per coordinate.
#[derive(Debug)]
pub struct RevealedTiles {
    pub tiles: Vec<(TriCoord, TileData)>,
}

impl RevealedTiles {
    /// No coordinate is listed twice.
    pub open spec fn wf(&self) -> bool {
        coords_distinct(self.tiles@)
    }

    /// Nothing revealed yet.
    pub fn new() -> (r: RevealedTiles)
        ensures
            r.wf(),
            forall|c: TriCoord| entry_for(r.tiles@, c) is None,
    {
        RevealedTiles { tiles: Vec::new() }
    }

    /// What the client knows of `c`, if anything.
    pub fn get(&self, c: &TriCoord) -> (d: Option<TileData>)
        requires
            self.wf(),
        ensures
            d == entry_for(self.tiles@, *c),
    {
        match find_entry(&self.tiles, c) {
            Some(k) => {
                proof {
                    lemma_entry_for_distinct(self.tiles@, k as int);
                }
                Some(self.tiles[k].1)
            },
            None => {
                proof {
                    lemma_entry_for_absent(self.tiles@, *c);
                }
                None
            },
        }
    }

    /// Takes in a `TilesRevealed` message: every tile it lists is added, or overwritten with
    /// the message's data (the message's last word on a tile counts); every other tile keeps
    /// what was known of it.
    pub fn absorb(&mut self, msg: &TilesRevealed)
        requires
            old(self).wf(),
        ensures
            final(self).wf(),
            forall|c: TriCoord|
                #[trigger] entry_for(final(self).tiles@, c) == after_reveal(
                    old(self).tiles@,
                    msg.0@,
                    c,
                ),
    {
        let ghost known = self.tiles@;
        let mut i: usize = 0;
        while i < msg.0.len()
            invariant
                i <= msg.0.len(),
                coords_distinct(self.tiles@),
                forall|c: TriCoord|
                    #[trigger] entry_for(self.tiles@, c) == after_reveal(
                        known,
                        msg.0@.take(i as int),
                        c,
                    ),
            decreases msg.0.len() - i,
        {
            let (c, d) = msg.0[i];
            let ghost before = self.tiles@;
            proof {
                assert(msg.0@.take(i + 1).drop_last() == msg.0@.take(i as int));
                assert(msg.0@.take(i + 1).last() == (c, d));
            }
            match find_entry(&self.tiles, &c) {
                Some(k) => {
                    self.tiles.set(k, (c, d));
                    proof {
                        assert(self.tiles@ == before.update(k as int, (before[k as int].0, d)));
                        assert forall|x: TriCoord|
                            #[trigger] entry_for(self.tiles@, x) == after_reveal(
                                known,
                                msg.0@.take(i + 1),
                                x,
                            ) by {
                            lemma_entry_for_update(before, k as int, d, x);
                        }
                        assert forall|a: int, b: int|
                            0 <= a < self.tiles.len() && 0 <= b < self.tiles.len() && a != b implies (
                            #[trigger] self.tiles@[a]).0 != (#[trigger] self.tiles@[b]).0 by {
                            assert(self.tiles@[a].0 == before[a].0);
                            assert(self.tiles@[b].0 == before[b].0);
                        }
                    }
                },
                None => {
                    self.tiles.push((c, d));
                    proof {
                        assert(self.tiles@.drop_last() == before);
                        assert forall|x: TriCoord|
                            #[trigger] entry_for(self.tiles@, x) == after_reveal(
                                known,
                                msg.0@.take(i + 1),
                                x,
                            ) by {
                            assert(entry_for(before, x) == after_reveal(
                                known,
                                msg.0@.take(i as int),
                                x,
                            ));
                        }
                        assert forall|a: int, b: int|
                            0 <= a < self.tiles.len() && 0 <= b < self.tiles.len() && a != b implies (
                            #[trigger] self.tiles@[a]).0 != (#[trigger] self.tiles@[b]).0 by {
                            if a < before.len() {
                                assert(self.tiles@[a] == before[a]);
                            }
                            if b < before.len() {
                                assert(self.tiles@[b] == before[b]);
                            }
                        }
                    }
                },
            }
            i += 1;
        }
        proof {
            assert(msg.0@.take(msg.0.len() as int) == msg.0@);
        }
    }
}

impl Default for RevealedTiles {
    /// Nothing revealed yet.
    fn default() -> (r: RevealedTiles)
        ensures
            r.tiles.len() == 0,
    {
        RevealedTiles { tiles: Vec::new() }
    }
}

/// Every placed Biome Town the server has told the client about, plus each player's
/// starting town (index `i` is `PlayerSlot(i)`'s).
#[derive(Debug)]
pub struct BiomeTowers {
    pub towns: Vec<TriCoord>,
    pub starting_towers: Vec<TriCoord>,
}

impl BiomeTowers {
    /// No towns known yet.
    pub fn new() -> (t: BiomeTowers)
        ensures
            t.towns.len() == 0,
            t.starting_towers.len() == 0,
    {
        BiomeTowers { towns: Vec::new(), starting_towers: Vec::new() }
    }

    /// Takes in a `BiomeTowersRevealed` message: its lists replace what was known.
    pub fn replace(&mut self, msg: BiomeTowersRevealed)
        ensures
            final(self).towns@ == msg.towns@,
            final(self).starting_towers@ == msg.starting_towers@,
    {
        self.towns = msg.towns;
        self.starting_towers = msg.starting_towers;
    }
}

impl Default for BiomeTowers {
    /// No towns known yet.
    fn default() -> (t: BiomeTowers)
        ensures
            t.towns.len() == 0,
            t.starting_towers.len() == 0,
    {
        BiomeTowers { towns: Vec::new(), starting_towers: Vec::new() }
    }
}

/// The player slot whose starting town `town` is: the last index at which it stands among
/// the starting towers, if it stands there at all.
pub open spec fn slot_of(starting: Seq<TriCoord>, town: TriCoord) -> Option<usize>
    decreases starting.len(),
{
    if starting.len() == 0 {
        None
    } else if starting.last() == town {
        Some((starting.len() - 1) as usize)
    } else {
        slot_of(starting.drop_last(), town)
    }
}

/// The labels of the Biome Towns, in town order, for every town whose tile is known: the
/// town with its player slot if it is a starting town (shown as "BT<slot>"), or with none
/// (shown as "BT").
pub open spec fn spec_tower_labels(
    towns: Seq<TriCoord>,
    starting: Seq<TriCoord>,
    known: Seq<(TriCoord, TileData)>,
) -> Seq<(TriCoord, Option<usize>)>
    decreases towns.len(),
{
    if towns.len() == 0 {
        Seq::empty()
    } else {
        let rest = spec_tower_labels(towns.drop_last(), starting, known);
        let t = towns.last();
        if entry_for(known, t) is Some {
            rest.push((t, slot_of(starting, t)))
        } else {
            rest
        }
    }
}

/// A town's slot is the last index at which it stands among the starting towers, and it
/// has none exactly when it is no starting tower: a town standing at index `i` and at no
/// later index is labeled with slot `i`.
pub proof fn lemma_slot_of_is_last_index(starting: Seq<TriCoord>, town: TriCoord)
    ensures
        slot_of(starting, town) is None <==> !starting.contains(town),
        forall|i: int|
            0 <= i < starting.len() && starting[i] == town && (forall|j: int|
                i < j < starting.len() ==> starting[j] != town) ==> slot_of(starting, town) == Some(
                i as usize,
            ),
    decreases starting.len(),
{
    if starting.len() > 0 {
        let rest = starting.drop_last();
        lemma_slot_of_is_last_index(rest, town);
        if starting.last() != town {
            assert forall|x: TriCoord| starting.contains(x) && x == town implies rest.contains(x) by {
                let k = choose|k: int| 0 <= k < starting.len() && starting[k] == x;
                assert(k != starting.len() - 1);
                assert(rest[k] == x);
            }
            assert forall|x: TriCoord| rest.contains(x) implies starting.contains(x) by {
                let k = choose|k: int| 0 <= k < rest.len() && rest[k] == x;
                assert(starting[k] == x);
            }
            assert forall|i: int|
                0 <= i < starting.len() && starting[i] == town && (forall|j: int|
                    i < j < starting.len() ==> starting[j] != town) implies slot_of(starting, town)
                == Some(i as usize) by {
                assert(i != starting.len() - 1);
                assert(rest[i] == town);
                assert forall|j: int| i < j < rest.len() implies rest[j] != town by {
                    assert(starting[j] != town);
                }
            }
        } else {
            assert(starting.contains(starting[starting.len() - 1]));
        }
    }
}

/// Every label names a known Biome Town, in town order, with its player slot: the last index
/// at which the town stands among the starting towers, or none when it is no starting
/// tower.
pub proof fn lemma_tower_labels_name_slots(
    towns: Seq<TriCoord>,
    starting: Seq<TriCoord>,
    known: Seq<(TriCoord, TileData)>,
)
    requires
        starting.len() <= usize::MAX,
    ensures
        forall|k: int|
            0 <= k < spec_tower_labels(towns, starting, known).len() ==> {
                let (t, label) = #[trigger] spec_tower_labels(towns, starting, known)[k];
                &&& towns.contains(t)
                &&& entry_for(known, t) is Some
                &&& label is None <==> !starting.contains(t)
                &&& label matches Some(i) ==> i < starting.len() && starting[i as int] == t
                    && forall|j: int| i < j < starting.len() ==> starting[j] != t
            },
    decreases towns.len(),
{
    if towns.len() > 0 {
        let rest = towns.drop_last();
        lemma_tower_labels_name_slots(rest, starting, known);
        let t = towns.last();
        lemma_slot_of_is_last_index(starting, t);
        lemma_slot_of_in_range(starting, t);
        let labels = spec_tower_labels(towns, starting, known);
        let prev = spec_tower_labels(rest, starting, known);
        assert forall|k: int| 0 <= k < labels.len() implies {
            let (x, label) = #[trigger] labels[k];
            &&& towns.contains(x)
            &&& entry_for(known, x) is Some
            &&& label is None <==> !starting.contains(x)
            &&& label matches Some(i) ==> i < starting.len() && starting[i as int] == x
                && forall|j: int| i < j < starting.len() ==> starting[j] != x
        } by {
            if k < prev.len() {
                assert(labels[k] == prev[k]);
                let x = prev[k].0;
                let j = choose|j: int| 0 <= j < rest.len() && rest[j] == x;
                assert(towns[j] == x);
                lemma_slot_of_in_range(starting, x);
            } else {
                assert(towns[towns.len() - 1] == t);
            }
        }
    }
}

/// A town's slot, when it has one, indexes that town among the starting towers, with no
/// later index holding it.
proof fn lemma_slot_of_in_range(starting: Seq<TriCoord>, town: TriCoord)
    requires
        starting.len() <= usize::MAX,
    ensures
        slot_of(starting, town) matches Some(i) ==> i < starting.len() && starting[i as int] == town
            && forall|j: int| i < j < starting.len() ==> starting[j] != town,
    decreases starting.len(),
{
    if starting.len() > 0 {
        let rest = starting.drop_last();
        lemma_slot_of_in_range(rest, town);
        if starting.last() != town {
            if let Some(i) = slot_of(rest, town) {
                assert(starting[i as int] == rest[i as int]);
                assert forall|j: int| i < j < starting.len() implies starting[j] != town by {
                    if j < rest.len() {
                        assert(starting[j] == rest[j]);
                    }
                }
            }
        }
    }
}

/// The player slot whose starting town `town` is, if any: the last index it stands at.
fn starting_slot(starting: &Vec<TriCoord>, town: &TriCoord) -> (slot: Option<usize>)
    ensures
        slot == slot_of(starting@, *town),
{
    let mut i: usize = starting.len();
    assert(starting@.take(i as int) =~= starting@);
    while i > 0
        invariant
            i <= starting.len(),
            slot_of(starting@, *town) == slot_of(starting@.take(i as int), *town),
        decreases i,
    {
        proof {
            assert(starting@.take(i as int).drop_last() == starting@.take(i - 1));
            assert(starting@.take(i as int).last() == starting@[i - 1]);
        }
        if starting[i - 1] == *town {
            return Some(i - 1);
        }
        i -= 1;
    }
    None
}

/// The labels of the Biome Towns whose tile the client knows, in town order: each town
/// with its player slot when it is a starting town.
pub fn tower_labels(towers: &BiomeTowers, revealed: &RevealedTiles) -> (labels: Vec<(TriCoord, Option<usize>)>)
    requires
        revealed.wf(),
    ensures
        labels@ == spec_tower_labels(towers.towns@, towers.starting_towers@, revealed.tiles@),
{
    let mut labels: Vec<(TriCoord, Option<usize>)> = Vec::new();
    let mut i: usize = 0;
    assert(towers.towns@.take(0) =~= Seq::<TriCoord>::empty());
    while i < towers.towns.len()
        invariant
            i <= towers.towns.len(),
            revealed.wf(),
            labels@ == spec_tower_labels(
                towers.towns@.take(i as int),
                towers.starting_towers@,
                revealed.tiles@,
            ),
        decreases towers.towns.len() - i,
    {
        let town = towers.towns[i];
        proof {
            assert(towers.towns@.take(i + 1).drop_last() == towers.towns@.take(i as int));
            assert(towers.towns@.take(i + 1).last() == town);
        }
        if revealed.get(&town).is_some() {
            let slot = starting_slot(&towers.starting_towers, &town);
            labels.push((town, slot));
        }
        i += 1;
    }
    proof {
        assert(towers.towns@.take(towers.towns.len() as int) == towers.towns@);
    }
    labels
}

} // verus!
