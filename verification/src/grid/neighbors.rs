//! Adjacency and distance for [`TriCoord`].

use vstd::prelude::*;

use super::coords::TriCoord;

verus! {

/// Absolute value of a mathematical integer.
pub open spec fn abs_int(x: int) -> int {
    if x < 0 { -x } else { x }
}

/// Lane distance: `|Δa| + |Δb| + |Δc|`.
pub open spec fn lane_distance(x: TriCoord, y: TriCoord) -> int {
    abs_int(x.a - y.a) + abs_int(x.b - y.b) + abs_int(x.c - y.c)
}

/// `t`'s lane sum can be computed in `i32`, and each lane can be stepped by one in the
/// direction `t`'s edge neighbors lie (up for an upward tile, down for a downward one)
/// without leaving `i32`.
pub open spec fn steppable(t: TriCoord) -> bool {
    &&& t.sum_fits()
    &&& if t.spec_is_upward() {
        &&& t.a < i32::MAX
        &&& t.b < i32::MAX
        &&& t.c < i32::MAX
        &&& t.a + t.b < i32::MAX
    } else {
        &&& i32::MIN < t.a
        &&& i32::MIN < t.b
        &&& i32::MIN < t.c
        &&& i32::MIN < t.a + t.b
    }
}

/// The three triangles sharing an edge with `t`, in the order [`TriCoord::edge_neighbors`]
/// returns them: an upward triangle steps one lane up, a downward one steps one lane down.
pub open spec fn spec_edge_neighbors(t: TriCoord) -> Seq<TriCoord> {
    if t.spec_is_upward() {
        seq![
            TriCoord { a: (t.a + 1) as i32, b: t.b, c: t.c },
            TriCoord { a: t.a, b: (t.b + 1) as i32, c: t.c },
            TriCoord { a: t.a, b: t.b, c: (t.c + 1) as i32 },
        ]
    } else {
        seq![
            TriCoord { a: (t.a - 1) as i32, b: t.b, c: t.c },
            TriCoord { a: t.a, b: (t.b - 1) as i32, c: t.c },
            TriCoord { a: t.a, b: t.b, c: (t.c - 1) as i32 },
        ]
    }
}

/// Two tiles share an edge: both are real tiles one lane step apart.
pub open spec fn adjacent(x: TriCoord, y: TriCoord) -> bool {
    x.is_valid() && y.is_valid() && lane_distance(x, y) == 1
}

impl TriCoord {
    /// The 3 triangles sharing an edge with this one. Always the opposite orientation.
    pub fn edge_neighbors(&self) -> (ns: [TriCoord; 3])
        requires
            self.is_valid(),
            steppable(*self),
        ensures
            ns@ == spec_edge_neighbors(*self),
            ns@.no_duplicates(),
            !ns@.contains(*self),
            forall|u: TriCoord|
                #![trigger ns@.contains(u)]
                u.is_valid() ==> (ns@.contains(u) <==> lane_distance(*self, u) == 1),
    {
        let ns = if self.is_upward() {
            [
                TriCoord::new(self.a + 1, self.b, self.c),
                TriCoord::new(self.a, self.b + 1, self.c),
                TriCoord::new(self.a, self.b, self.c + 1),
            ]
        } else {
            [
                TriCoord::new(self.a - 1, self.b, self.c),
                TriCoord::new(self.a, self.b - 1, self.c),
                TriCoord::new(self.a, self.b, self.c - 1),
            ]
        };
        proof {
            assert(ns@ == spec_edge_neighbors(*self));
            lemma_edge_neighbors_distinct(*self);
            assert forall|u: TriCoord| #![trigger ns@.contains(u)] u.is_valid() implies (ns@.contains(u)
                <==> lane_distance(*self, u) == 1) by {
                lemma_neighbor_iff_adjacent(*self, u);
            }
        }
        ns
    }

    /// Lane distance: the minimum number of edge crossings between two triangles.
    pub fn distance(&self, other: &TriCoord) -> (d: i32)
        requires
            lane_distance(*self, *other) <= i32::MAX,
        ensures
            d == lane_distance(*self, *other),
    {
        let da = self.a as i64 - other.a as i64;
        let db = self.b as i64 - other.b as i64;
        let dc = self.c as i64 - other.c as i64;
        let da = if da < 0 { -da } else { da };
        let db = if db < 0 { -db } else { db };
        let dc = if dc < 0 { -dc } else { dc };
        (da + db + dc) as i32
    }
}

// ---------------------------------------------------------------------------------------
// Laws of adjacency and distance
// ---------------------------------------------------------------------------------------

/// Lane distance is a metric on coordinates: zero exactly on equal coordinates,
/// symmetric, and obeying the triangle inequality.
pub proof fn lemma_distance_is_metric(x: TriCoord, y: TriCoord, z: TriCoord)
    ensures
        lane_distance(x, y) >= 0,
        lane_distance(x, y) == 0 <==> x == y,
        lane_distance(x, y) == lane_distance(y, x),
        lane_distance(x, z) <= lane_distance(x, y) + lane_distance(y, z),
{
}

/// Every edge neighbor of a real tile is a real tile of the opposite orientation, exactly
/// one lane step away.
pub proof fn lemma_edge_neighbors_flip_orientation(t: TriCoord)
    requires
        t.is_valid(),
        steppable(t),
    ensures
        spec_edge_neighbors(t).len() == 3,
        forall|i: int|
            0 <= i < 3 ==> {
                let n = #[trigger] spec_edge_neighbors(t)[i];
                &&& n.is_valid()
                &&& n.lane_sum() == 3 - t.lane_sum()
                &&& lane_distance(t, n) == 1
                &&& adjacent(t, n)
            },
{
}

/// The three edge neighbors are pairwise distinct, and none of them is the tile itself.
pub proof fn lemma_edge_neighbors_distinct(t: TriCoord)
    requires
        steppable(t),
    ensures
        spec_edge_neighbors(t).no_duplicates(),
        !spec_edge_neighbors(t).contains(t),
{
    let ns = spec_edge_neighbors(t);
    if ns.contains(t) {
        let i = choose|i: int| 0 <= i < ns.len() && ns[i] == t;
        assert(ns[i] == t);
    }
}

/// A tile is an edge neighbor of a real tile exactly when it is a real tile one lane step
/// away.
pub proof fn lemma_neighbor_iff_adjacent(t: TriCoord, y: TriCoord)
    requires
        t.is_valid(),
        steppable(t),
    ensures
        spec_edge_neighbors(t).contains(y) <==> adjacent(t, y),
{
    let ns = spec_edge_neighbors(t);
    if adjacent(t, y) {
        if t.spec_is_upward() {
            if y.a != t.a {
                assert(ns[0] == y);
            } else if y.b != t.b {
                assert(ns[1] == y);
            } else {
                assert(ns[2] == y);
            }
        } else {
            if y.a != t.a {
                assert(ns[0] == y);
            } else if y.b != t.b {
                assert(ns[1] == y);
            } else {
                assert(ns[2] == y);
            }
        }
    }
    if ns.contains(y) {
        let i = choose|i: int| 0 <= i < ns.len() && ns[i] == y;
        lemma_edge_neighbors_flip_orientation(t);
        assert(ns[i] == y);
    }
}

/// Adjacency is symmetric: each neighbor lists the tile back as one of its neighbors.
pub proof fn lemma_edge_neighbors_symmetric(t: TriCoord, n: TriCoord)
    requires
        t.is_valid(),
        steppable(t),
        steppable(n),
        spec_edge_neighbors(t).contains(n),
    ensures
        spec_edge_neighbors(n).contains(t),
{
    lemma_neighbor_iff_adjacent(t, n);
    lemma_neighbor_iff_adjacent(n, t);
}

/// Crossing one edge changes the lane distance to any fixed tile by exactly one.
pub proof fn lemma_step_changes_distance_by_one(t: TriCoord, n: TriCoord, u: TriCoord)
    requires
        t.is_valid(),
        steppable(t),
        spec_edge_neighbors(t).contains(n),
    ensures
        lane_distance(n, u) == lane_distance(t, u) + 1 || lane_distance(n, u) == lane_distance(t, u) - 1,
{
    lemma_neighbor_iff_adjacent(t, n);
}

/// From any real tile other than `u` some edge neighbor is one step closer to `u`: lane
/// distance is reachable by edge crossings, so it is the minimum number of them.
pub proof fn lemma_step_toward(t: TriCoord, u: TriCoord) -> (n: TriCoord)
    requires
        t.is_valid(),
        u.is_valid(),
        t != u,
    ensures
        spec_edge_neighbors(t).contains(n),
        adjacent(t, n),
        lane_distance(n, u) == lane_distance(t, u) - 1,
{
    let ns = spec_edge_neighbors(t);
    if t.spec_is_upward() {
        if u.a > t.a {
            ns[0]
        } else if u.b > t.b {
            ns[1]
        } else {
            ns[2]
        }
    } else {
        if u.a < t.a {
            ns[0]
        } else if u.b < t.b {
            ns[1]
        } else {
            ns[2]
        }
    }
}

/// `x` lies between `p` and `q`, whichever of them is larger.
pub open spec fn between(p: int, q: int, x: int) -> bool {
    (p <= x <= q) || (q <= x <= p)
}

/// `x` lies in the lane box spanned by `t` and `u`: each of its lanes between theirs.
pub open spec fn in_lane_box(t: TriCoord, u: TriCoord, x: TriCoord) -> bool {
    &&& between(t.a as int, u.a as int, x.a as int)
    &&& between(t.b as int, u.b as int, x.b as int)
    &&& between(t.c as int, u.c as int, x.c as int)
}

/// Every real tile of the lane box spanned by `t` and `u` can be stepped, so that the
/// edge neighbors of every tile on a shortest path between them can be computed.
pub open spec fn box_steppable(t: TriCoord, u: TriCoord) -> bool {
    forall|x: TriCoord| #[trigger] in_lane_box(t, u, x) && x.is_valid() ==> steppable(x)
}

/// `u` is reached from `t` in at most `k` edge crossings, each made from a real tile whose
/// edge neighbors can be computed.
pub open spec fn reaches_in(t: TriCoord, u: TriCoord, k: nat) -> bool
    decreases k,
{
    t == u || (k > 0 && t.is_valid() && steppable(t) && exists|n: TriCoord|
        #[trigger] spec_edge_neighbors(t).contains(n) && reaches_in(n, u, (k - 1) as nat))
}

/// No path of edge crossings is shorter than the lane distance.
pub proof fn lemma_crossings_at_least_distance(t: TriCoord, u: TriCoord, k: nat)
    requires
        reaches_in(t, u, k),
    ensures
        lane_distance(t, u) <= k,
    decreases k,
{
    if t != u {
        let n = choose|n: TriCoord|
            #[trigger] spec_edge_neighbors(t).contains(n) && reaches_in(n, u, (k - 1) as nat);
        lemma_crossings_at_least_distance(n, u, (k - 1) as nat);
        lemma_neighbor_iff_adjacent(t, n);
        lemma_distance_is_metric(t, n, u);
    }
}

/// Lane distance is the fewest edge crossings: a path of exactly that many crossings
/// joins two real tiles (whenever the tiles between them can be stepped), and no path is
/// shorter.
pub proof fn lemma_distance_is_fewest_crossings(t: TriCoord, u: TriCoord)
    requires
        t.is_valid(),
        u.is_valid(),
        box_steppable(t, u),
    ensures
        reaches_in(t, u, lane_distance(t, u) as nat),
        forall|k: nat| #[trigger] reaches_in(t, u, k) ==> lane_distance(t, u) <= k,
    decreases lane_distance(t, u),
{
    lemma_distance_is_metric(t, u, u);
    if t != u {
        assert(in_lane_box(t, u, t));
        let n = lemma_step_toward(t, u);
        // The step moves one lane toward `u`, so `n` and its own box lie in `t`'s box.
        assert(in_lane_box(t, u, n));
        assert forall|x: TriCoord| #[trigger] in_lane_box(n, u, x) && x.is_valid() implies steppable(x) by {
            assert(in_lane_box(t, u, x));
        }
        lemma_distance_is_fewest_crossings(n, u);
        let d = lane_distance(t, u) as nat;
        assert(spec_edge_neighbors(t).contains(n) && reaches_in(n, u, (d - 1) as nat));
    }
    assert forall|k: nat| #[trigger] reaches_in(t, u, k) implies lane_distance(t, u) <= k by {
        lemma_crossings_at_least_distance(t, u, k);
    }
}

} // verus!

verus! {

/// Whether `t` occurs in `tiles`.
pub fn contains_coord(tiles: &Vec<TriCoord>, t: &TriCoord) -> (found: bool)
    ensures
        found == tiles@.contains(*t),
{
    let mut i: usize = 0;
    while i < tiles.len()
        invariant
            i <= tiles.len(),
            forall|j: int| 0 <= j < i ==> tiles@[j] != *t,
        decreases tiles.len() - i,
    {
        if tiles[i] == *t {
            return true;
        }
        i += 1;
    }
    false
}

/// Every lane (and the partial sum `a + b`) of `center` stays at least `range` away from
/// the ends of `i32`, so every tile within `range` of it can be stepped without overflow.
pub open spec fn within_lane_bounds(center: TriCoord, range: int) -> bool {
    &&& i32::MIN + range <= center.a <= i32::MAX - range
    &&& i32::MIN + range <= center.b <= i32::MAX - range
    &&& i32::MIN + range <= center.c <= i32::MAX - range
    &&& i32::MIN + range <= center.a + center.b <= i32::MAX - range
}

/// Every tile whose lane distance from `center` is strictly below `range` can be stepped.
proof fn lemma_near_tiles_steppable(center: TriCoord, range: int, t: TriCoord)
    requires
        within_lane_bounds(center, range),
        lane_distance(center, t) < range,
    ensures
        t.is_valid() ==> steppable(t),
        t.sum_fits() || !t.is_valid(),
{
}

/// All triangles within `range` edge-crossings of `center` (inclusive), including
/// `center`. Explored ring by ring, breadth first, from `center`.
pub fn tiles_within(center: TriCoord, range: i32) -> (tiles: Vec<TriCoord>)
    requires
        range > 0 ==> center.is_valid(),
        range > 0 ==> within_lane_bounds(center, range as int),
    ensures
        tiles@.no_duplicates(),
        tiles@.contains(center),
        forall|t: TriCoord|
            tiles@.contains(t) <==> (t == center || (t.is_valid() && lane_distance(center, t)
                <= range)),
{
    let mut seen: Vec<TriCoord> = Vec::new();
    seen.push(center);
    let mut layer_start: usize = 0;
    let mut k: i32 = 0;
    assert(seen@[0] == center);
    while k < range
        invariant
            0 <= k,
            k < range ==> center.is_valid() && within_lane_bounds(center, range as int),
            k > 0 ==> k <= range,
            layer_start <= seen.len(),
            seen.len() > 0,
            seen@.no_duplicates(),
            seen@[0] == center,
            forall|i: int|
                0 <= i < seen.len() ==> (#[trigger] seen@[i]).is_valid() || seen@[i] == center,
            forall|i: int|
                0 <= i < seen.len() ==> lane_distance(center, #[trigger] seen@[i]) <= k,
            forall|i: int|
                0 <= i < seen.len() ==> (i < layer_start <==> lane_distance(
                    center,
                    #[trigger] seen@[i],
                ) < k),
            forall|t: TriCoord|
                t.is_valid() && lane_distance(center, t) <= k ==> #[trigger] seen@.contains(t),
        decreases range - k,
    {
        let layer_end = seen.len();
        let ghost prefix = seen@;
        let mut j: usize = layer_start;
        while j < layer_end
            invariant
                center.is_valid(),
                within_lane_bounds(center, range as int),
                0 <= k < range,
                layer_start <= j <= layer_end,
                layer_end <= seen.len(),
                seen@.subrange(0, layer_end as int) == prefix,
                prefix.len() == layer_end,
                layer_end > 0,
                prefix[0] == center,
                seen@.no_duplicates(),
                forall|i: int| 0 <= i < seen.len() ==> (#[trigger] seen@[i]).is_valid(),
                forall|i: int|
                    0 <= i < layer_end ==> lane_distance(center, #[trigger] seen@[i]) <= k,
                forall|i: int|
                    0 <= i < layer_end ==> (i < layer_start <==> lane_distance(
                        center,
                        #[trigger] seen@[i],
                    ) < k),
                forall|i: int|
                    layer_end <= i < seen.len() ==> lane_distance(center, #[trigger] seen@[i])
                        == k + 1,
                forall|t: TriCoord|
                    t.is_valid() && lane_distance(center, t) <= k ==> #[trigger] seen@.contains(
                        t,
                    ),
                forall|i: int, n: TriCoord|
                    layer_start <= i < j && #[trigger] spec_edge_neighbors(seen@[i]).contains(n)
                        ==> #[trigger] seen@.contains(n),
            decreases layer_end - j,
        {
            let tile = seen[j];
            assert(tile == seen@[j as int]);
            assert(tile == prefix[j as int]);
            proof {
                lemma_near_tiles_steppable(center, range as int, tile);
            }
            let ns = tile.edge_neighbors();
            let ghost before = seen@;
            let mut q: usize = 0;
            while q < 3
                invariant
                    center.is_valid(),
                    within_lane_bounds(center, range as int),
                    0 <= k < range,
                    layer_start <= j < layer_end,
                    layer_end <= seen.len(),
                    q <= 3,
                    tile == seen@[j as int],
                    tile.is_valid(),
                    steppable(tile),
                    lane_distance(center, tile) == k,
                    ns@ == spec_edge_neighbors(tile),
                    seen@.subrange(0, layer_end as int) == prefix,
                    prefix.len() == layer_end,
                    before.subrange(0, layer_end as int) == prefix,
                    before.len() <= seen.len(),
                    forall|i: int| 0 <= i < before.len() ==> seen@[i] == before[i],
                    seen@.no_duplicates(),
                    forall|i: int| 0 <= i < seen.len() ==> (#[trigger] seen@[i]).is_valid(),
                    forall|i: int|
                        0 <= i < layer_end ==> lane_distance(center, #[trigger] seen@[i]) <= k,
                    forall|i: int|
                        0 <= i < layer_end ==> (i < layer_start <==> lane_distance(
                            center,
                            #[trigger] seen@[i],
                        ) < k),
                    forall|i: int|
                        layer_end <= i < seen.len() ==> lane_distance(
                            center,
                            #[trigger] seen@[i],
                        ) == k + 1,
                    forall|t: TriCoord|
                        t.is_valid() && lane_distance(center, t) <= k ==> #[trigger] seen@.contains(
                            t,
                        ),
                    forall|i: int, n: TriCoord|
                        layer_start <= i < j && #[trigger] spec_edge_neighbors(
                            before[i],
                        ).contains(n) ==> #[trigger] before.contains(n),
                    forall|p: int| 0 <= p < q ==> #[trigger] seen@.contains(ns@[p]),
                decreases 3 - q,
            {
                let n = ns[q];
                assert(n == spec_edge_neighbors(tile)[q as int]);
                proof {
                    lemma_edge_neighbors_flip_orientation(tile);
                    assert(spec_edge_neighbors(tile).contains(n));
                    lemma_step_changes_distance_by_one(tile, n, center);
                    lemma_distance_is_metric(center, n, tile);
                    lemma_distance_is_metric(n, center, tile);
                }
                if !contains_coord(&seen, &n) {
                    let ghost old_seen = seen@;
                    seen.push(n);
                    proof {
                        assert(seen@ == old_seen.push(n));
                        assert(seen@[old_seen.len() as int] == n);
                        // The neighbor was not yet seen, so it is not within k of center.
                        if lane_distance(center, n) <= k {
                            assert(old_seen.contains(n));
                        }
                        assert(lane_distance(center, n) == k + 1);
                        assert forall|t: TriCoord|
                            old_seen.contains(t) implies #[trigger] seen@.contains(t) by {
                            let i = choose|i: int| 0 <= i < old_seen.len() && old_seen[i] == t;
                            assert(seen@[i] == t);
                        }
                        assert forall|p: int| 0 <= p <= q implies #[trigger] seen@.contains(
                            ns@[p],
                        ) by {
                            if p < q {
                                assert(old_seen.contains(ns@[p]));
                            }
                        }
                        assert(seen@.subrange(0, layer_end as int) =~= prefix);
                    }
                }
                q += 1;
            }
            proof {
                assert forall|i: int, n: TriCoord|
                    layer_start <= i < j + 1 && #[trigger] spec_edge_neighbors(
                        seen@[i],
                    ).contains(n) implies #[trigger] seen@.contains(n) by {
                    if i < j {
                        assert(seen@[i] == before[i]);
                        assert(before.contains(n));
                        let w = choose|w: int| 0 <= w < before.len() && before[w] == n;
                        assert(seen@[w] == n);
                    } else {
                        let p = choose|p: int|
                            0 <= p < spec_edge_neighbors(tile).len() && spec_edge_neighbors(
                                tile,
                            )[p] == n;
                        assert(seen@.contains(ns@[p]));
                    }
                }
            }
            j += 1;
        }
        proof {
            assert(seen@[0] == seen@.subrange(0, layer_end as int)[0]);
            // Every tile at distance k + 1 has a neighbor at distance k in the layer just
            // processed, and is that neighbor's neighbor in turn.
            assert forall|t: TriCoord|
                t.is_valid() && lane_distance(center, t) <= k + 1 implies #[trigger] seen@.contains(
                t,
            ) by {
                if lane_distance(center, t) == k + 1 {
                    lemma_distance_is_metric(center, t, t);
                    let n = lemma_step_toward(t, center);
                    lemma_distance_is_metric(n, center, t);
                    lemma_distance_is_metric(center, n, center);
                    lemma_distance_is_metric(t, n, center);
                    assert(n.is_valid());
                    assert(seen@.contains(n));
                    let i = choose|i: int| 0 <= i < seen.len() && seen@[i] == n;
                    assert(i < layer_end);
                    assert(layer_start <= i);
                    lemma_near_tiles_steppable(center, range as int, n);
                    lemma_neighbor_iff_adjacent(n, t);
                    assert(spec_edge_neighbors(seen@[i]).contains(t));
                }
            }
            assert forall|i: int|
                0 <= i < seen.len() implies (i < layer_end <==> lane_distance(
                center,
                #[trigger] seen@[i],
            ) < k + 1) by {
                if i < layer_end {
                    assert(seen@[i] == prefix[i]);
                }
            }
        }
        layer_start = layer_end;
        k += 1;
    }
    proof {
        assert(seen@.contains(center)) by {
            assert(seen@[0] == center);
        }
        assert forall|t: TriCoord|
            seen@.contains(t) implies (t == center || (t.is_valid() && lane_distance(center, t)
                <= range)) by {
            let i = choose|i: int| 0 <= i < seen.len() && seen@[i] == t;
            assert(lane_distance(center, seen@[i]) <= k);
        }
        assert forall|t: TriCoord|
            (t == center || (t.is_valid() && lane_distance(center, t) <= range)) implies seen@.contains(t) by {
            if t != center {
                lemma_distance_is_metric(center, t, t);
            }
        }
    }
    seen
}

} // verus!

