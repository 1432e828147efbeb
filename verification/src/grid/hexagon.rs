//! Generates the tile set for a hexagonal map made of triangles.
//!
//! `edge_tiles` is the number of triangles along one of the hexagon's 6 sides. With
//! `m = (edge_tiles - 1) / 2`, the hexagon is every tile with `a ∈ [-m, m-1]`,
//! `b ∈ [1-m, m]`, `c ∈ [2-m, m+1]`: a box in lane coordinates. Row `a` holds
//! `edge_tiles + 2 * min(a - lo_a, hi_a - a)` triangles, so the total is `6 * m^2`.

use vstd::prelude::*;

use super::coords::{TriCoord, lex_lt};
use super::neighbors::{adjacent, spec_edge_neighbors, steppable, lemma_neighbor_iff_adjacent};

verus! {

/// Why [`hexagon_tiles`] refused an edge length.
#[derive(Debug, Clone, Copy, PartialEq, Eq, Structural)]
pub enum HexMapError {
    /// A hexagonal triangle grid needs an odd edge length so it has a well-defined center
    /// vertex; an even `edge_tiles` was given.
    MustBeOdd(i32),
    /// `edge_tiles` was too small to form a hexagon (minimum is 3: the single ring of 6
    /// triangles around one vertex).
    TooSmall(i32),
}

/// Half the hexagon's edge length, rounded down: `(edge_tiles - 1) / 2`.
pub open spec fn half_edge(edge_tiles: int) -> int {
    (edge_tiles - 1) / 2
}

/// `t` is a tile of the hexagon with half-edge `m`.
pub open spec fn in_hexagon(m: int, t: TriCoord) -> bool {
    &&& t.is_valid()
    &&& -m <= t.a <= m - 1
    &&& 1 - m <= t.b <= m
    &&& 2 - m <= t.c <= m + 1
}

/// The elements of `s` strictly increase in lexicographic `(a, b, c)` order.
pub open spec fn strictly_sorted(s: Seq<TriCoord>) -> bool {
    forall|i: int, j: int| 0 <= i < j < s.len() ==> lex_lt(#[trigger] s[i], #[trigger] s[j])
}

/// Two strictly sorted sequences with the same elements are equal.
pub proof fn lemma_sorted_unique(a: Seq<TriCoord>, b: Seq<TriCoord>)
    requires
        strictly_sorted(a),
        strictly_sorted(b),
        forall|x: TriCoord| a.contains(x) <==> b.contains(x),
    ensures
        a == b,
    decreases a.len(),
{
    if a.len() == 0 {
        if b.len() > 0 {
            assert(b.contains(b[0]));
        }
        assert(a =~= b);
    } else {
        assert(a.contains(a.last()));
        assert(b.len() > 0);
        assert(b.contains(b.last()));
        let la = a.last();
        let lb = b.last();
        if la != lb {
            let i = choose|i: int| 0 <= i < b.len() && b[i] == la;
            let j = choose|j: int| 0 <= j < a.len() && a[j] == lb;
            assert(lex_lt(b[i], b[b.len() - 1]));
            assert(lex_lt(a[j], a[a.len() - 1]));
        }
        let a2 = a.drop_last();
        let b2 = b.drop_last();
        assert forall|x: TriCoord| a2.contains(x) <==> b2.contains(x) by {
            if a2.contains(x) {
                let i = choose|i: int| 0 <= i < a2.len() && a2[i] == x;
                assert(a[i] == x && lex_lt(a[i], a[a.len() - 1]));
                assert(b.contains(x));
                let j = choose|j: int| 0 <= j < b.len() && b[j] == x;
                assert(j != b.len() - 1);
                assert(b2[j] == x);
            }
            if b2.contains(x) {
                let i = choose|i: int| 0 <= i < b2.len() && b2[i] == x;
                assert(b[i] == x && lex_lt(b[i], b[b.len() - 1]));
                assert(a.contains(x));
                let j = choose|j: int| 0 <= j < a.len() && a[j] == x;
                assert(j != a.len() - 1);
                assert(a2[j] == x);
            }
        }
        lemma_sorted_unique(a2, b2);
        assert(a =~= a2.push(la));
        assert(b =~= b2.push(lb));
    }
}

/// The edge lengths [`hexagon_tiles`] can build without overflowing its `i32` arithmetic.
pub open spec fn edge_tiles_in_range(edge_tiles: int) -> bool {
    edge_tiles >= 3 && edge_tiles % 2 == 1 ==> 6 * half_edge(edge_tiles) * half_edge(edge_tiles)
        <= i32::MAX
}

/// How many tiles of the hexagon with half-edge `m` have `a + b < t`: rows of the box are
/// read as a running count over the diagonal `a + b`.
spec fn diagonal_prefix(m: int, t: int) -> int {
    if t <= -m {
        0
    } else if t <= m {
        2 * t + 2 * m - 1
    } else {
        4 * m
    }
}

/// How many tiles of the hexagon with half-edge `m` lie in the rows before row `a`.
spec fn rows_before(m: int, a: int) -> int {
    if a <= 0 {
        (a + m) * (3 * m + a)
    } else {
        3 * m * m + a * (4 * m - a)
    }
}

/// Closing one row: the tiles of row `a` (over `b ∈ [1-m, m]`) extend the count of the
/// rows before it to the rows before `a + 1`.
proof fn lemma_row_closes(m: int, a: int)
    requires
        m >= 1,
        -m <= a <= m - 1,
    ensures
        rows_before(m, a) + diagonal_prefix(m, a + m + 1) - diagonal_prefix(m, a + 1 - m)
            == rows_before(m, a + 1),
{
    if a < 0 {
        assert(diagonal_prefix(m, a + m + 1) == 2 * a + 4 * m + 1);
        assert(diagonal_prefix(m, a + 1 - m) == 0);
        assert(rows_before(m, a) == (a + m) * (3 * m + a));
        assert(rows_before(m, a + 1) == (a + 1 + m) * (3 * m + a + 1));
        assert((a + m) * (3 * m + a) + (4 * m + 2 * a + 1) == (a + 1 + m) * (3 * m + a + 1))
            by (nonlinear_arith);
    } else {
        assert(diagonal_prefix(m, a + m + 1) == 4 * m);
        assert(diagonal_prefix(m, a + 1 - m) == 2 * a + 1);
        if a == 0 {
            assert((0 + m) * (3 * m + 0) == 3 * m * m + 0 * (4 * m - 0)) by (nonlinear_arith);
        }
        assert(rows_before(m, a) == 3 * m * m + a * (4 * m - a));
        assert(rows_before(m, a + 1) == 3 * m * m + (a + 1) * (4 * m - (a + 1)));
        assert(3 * m * m + a * (4 * m - a) + (4 * m - 1 - 2 * a) == 3 * m * m + (a + 1) * (4
            * m - (a + 1))) by (nonlinear_arith);
    }
}

/// How many triangles row `a` of the hexagon with half-edge `m` holds: the edge length
/// `2m + 1`, plus 2 for every row between `a` and the nearer edge row.
pub open spec fn row_width(m: int, a: int) -> int {
    if a + m <= m - 1 - a {
        2 * m + 1 + 2 * (a + m)
    } else {
        2 * m + 1 + 2 * (m - 1 - a)
    }
}

/// Where row `a` starts in the hexagon's lexicographic tile list: the widths of the rows
/// before it, added up.
pub open spec fn row_start(m: int, a: int) -> int
    decreases a + m,
{
    if a <= -m {
        0
    } else {
        row_start(m, a - 1) + row_width(m, a - 1)
    }
}

/// The running row count agrees with the closed form used while laying the tiles out.
proof fn lemma_row_start_closed_form(m: int, a: int)
    requires
        m >= 1,
        -m <= a <= m,
    ensures
        row_start(m, a) == rows_before(m, a),
    decreases a + m,
{
    if a == -m {
        assert((a + m) * (3 * m + a) == 0) by (nonlinear_arith)
            requires
                a == -m,
        ;
    } else {
        lemma_row_start_closed_form(m, a - 1);
        lemma_row_closes(m, a - 1);
    }
}

/// Later rows start later.
proof fn lemma_row_start_monotone(m: int, x: int, y: int)
    requires
        m >= 1,
        -m <= x <= y <= m,
    ensures
        row_start(m, x) <= row_start(m, y),
    decreases y - x,
{
    if x < y {
        lemma_row_start_monotone(m, x, y - 1);
    }
}

/// Every tile of the hexagon with half-edge `m`, in lexicographic `(a, b, c)` order.
pub fn hexagon_tiles(edge_tiles: i32) -> (r: Result<Vec<TriCoord>, HexMapError>)
    requires
        edge_tiles_in_range(edge_tiles as int),
    ensures
        edge_tiles < 3 ==> r == Err::<Vec<TriCoord>, HexMapError>(HexMapError::TooSmall(edge_tiles)),
        edge_tiles >= 3 && edge_tiles % 2 == 0 ==> r == Err::<Vec<TriCoord>, HexMapError>(
            HexMapError::MustBeOdd(edge_tiles),
        ),
        edge_tiles >= 3 && edge_tiles % 2 == 1 ==> r is Ok,
        r matches Ok(tiles) ==> {
            let m = half_edge(edge_tiles as int);
            &&& strictly_sorted(tiles@)
            &&& forall|t: TriCoord| tiles@.contains(t) <==> in_hexagon(m, t)
            &&& tiles.len() == 6 * m * m
            &&& forall|i: int, a: int|
                #![trigger tiles@[i], row_start(m, a)]
                0 <= i < tiles.len() && -m <= a <= m - 1 ==> (tiles@[i].a == a <==> row_start(m, a)
                    <= i < row_start(m, a) + row_width(m, a))
        },
{
    if edge_tiles < 3 {
        return Err(HexMapError::TooSmall(edge_tiles));
    }
    if edge_tiles % 2 == 0 {
        return Err(HexMapError::MustBeOdd(edge_tiles));
    }
    let m: i32 = (edge_tiles - 1) / 2;
    assert(m == half_edge(edge_tiles as int));
    assert(m >= 1);
    assert(m <= 18919) by {
        if m > 18919 {
            assert(6 * m * m > 6 * 18919 * 18919) by (nonlinear_arith)
                requires
                    m > 18919,
            ;
        }
    }
    let lo_a: i32 = -m;
    let hi_a: i32 = m - 1;
    let lo_b: i32 = 1 - m;
    let hi_b: i32 = m;
    let lo_c: i32 = 2 - m;
    let hi_c: i32 = m + 1;

    let mut tiles: Vec<TriCoord> = Vec::new();
    let mut a: i32 = lo_a;
    assert(rows_before(m as int, -m) == 0) by {
        assert((-m + m) * (3 * m - m) == 0) by (nonlinear_arith);
    }
    while a <= hi_a
        invariant
            1 <= m <= 18919,
            lo_a == -m,
            hi_a == m - 1,
            lo_b == 1 - m,
            hi_b == m,
            lo_c == 2 - m,
            hi_c == m + 1,
            lo_a <= a <= hi_a + 1,
            strictly_sorted(tiles@),
            forall|i: int| 0 <= i < tiles.len() ==> (#[trigger] tiles@[i]).a < a,
            forall|t: TriCoord| tiles@.contains(t) <==> (in_hexagon(m as int, t) && t.a < a),
            tiles.len() == rows_before(m as int, a as int),
            forall|i: int|
                #![trigger tiles@[i]]
                0 <= i < tiles.len() ==> rows_before(m as int, tiles@[i].a as int) <= i < rows_before(
                    m as int,
                    tiles@[i].a + 1,
                ),
        decreases hi_a + 1 - a,
    {
        let mut b: i32 = lo_b;
        while b <= hi_b
            invariant
                1 <= m <= 18919,
                lo_a == -m,
                hi_a == m - 1,
                lo_b == 1 - m,
                hi_b == m,
                lo_c == 2 - m,
                hi_c == m + 1,
                lo_a <= a <= hi_a,
                lo_b <= b <= hi_b + 1,
                strictly_sorted(tiles@),
                forall|i: int|
                    0 <= i < tiles.len() ==> (#[trigger] tiles@[i]).a < a || (tiles@[i].a == a
                        && tiles@[i].b < b),
                forall|t: TriCoord|
                    tiles@.contains(t) <==> (in_hexagon(m as int, t) && (t.a < a || (t.a == a
                        && t.b < b))),
                tiles.len() == rows_before(m as int, a as int) + diagonal_prefix(m as int, a + b)
                    - diagonal_prefix(m as int, a + 1 - m),
                tiles.len() >= rows_before(m as int, a as int),
                forall|i: int|
                    #![trigger tiles@[i]]
                    0 <= i < tiles.len() ==> (tiles@[i].a < a ==> rows_before(
                        m as int,
                        tiles@[i].a as int,
                    ) <= i < rows_before(m as int, tiles@[i].a + 1)) && (tiles@[i].a == a
                        ==> rows_before(m as int, a as int) <= i),
            decreases hi_b + 1 - b,
        {
            let ghost start = tiles@;
            let mut sum: i32 = 1;
            while sum <= 2
                invariant
                    1 <= m <= 18919,
                    lo_c == 2 - m,
                    hi_c == m + 1,
                    -m <= a <= m - 1,
                    1 - m <= b <= m,
                    1 <= sum <= 3,
                    strictly_sorted(tiles@),
                    forall|i: int|
                        0 <= i < tiles.len() ==> (#[trigger] tiles@[i]).a < a || (tiles@[i].a
                            == a && tiles@[i].b < b) || (tiles@[i].a == a && tiles@[i].b == b
                            && tiles@[i].c < sum - a - b),
                    forall|t: TriCoord|
                        tiles@.contains(t) <==> (in_hexagon(m as int, t) && (t.a < a || (t.a
                            == a && t.b < b) || (t.a == a && t.b == b && t.lane_sum() < sum))),
                    tiles.len() == start.len() + (if sum >= 2 && lo_c <= 1 - a - b <= hi_c {
                        1int
                    } else {
                        0int
                    }) + (if sum >= 3 && lo_c <= 2 - a - b <= hi_c {
                        1int
                    } else {
                        0int
                    }),
                    tiles.len() >= rows_before(m as int, a as int),
                    forall|i: int|
                        #![trigger tiles@[i]]
                        0 <= i < tiles.len() ==> (tiles@[i].a < a ==> rows_before(
                            m as int,
                            tiles@[i].a as int,
                        ) <= i < rows_before(m as int, tiles@[i].a + 1)) && (tiles@[i].a == a
                            ==> rows_before(m as int, a as int) <= i),
                decreases 3 - sum,
            {
                let c = sum - a - b;
                if c >= lo_c && c <= hi_c {
                    let ghost before = tiles@;
                    let t = TriCoord::new(a, b, c);
                    tiles.push(t);
                    proof {
                        assert(tiles@ == before.push(t));
                        assert forall|i: int, j: int|
                            0 <= i < j < tiles.len() implies lex_lt(
                            #[trigger] tiles@[i],
                            #[trigger] tiles@[j],
                        ) by {
                            if j < before.len() {
                                assert(tiles@[i] == before[i] && tiles@[j] == before[j]);
                            } else {
                                assert(tiles@[i] == before[i]);
                            }
                        }
                        assert forall|x: TriCoord|
                            tiles@.contains(x) <==> (in_hexagon(m as int, x) && (x.a < a || (x.a
                                == a && x.b < b) || (x.a == a && x.b == b && x.lane_sum() < sum
                                + 1))) by {
                            if tiles@.contains(x) && x != t {
                                let i = choose|i: int| 0 <= i < tiles.len() && tiles@[i] == x;
                                assert(before[i] == x);
                                assert(before.contains(x));
                            }
                            if in_hexagon(m as int, x) && (x.a < a || (x.a == a && x.b < b) || (
                            x.a == a && x.b == b && x.lane_sum() < sum + 1)) {
                                if x.a == a && x.b == b && x.lane_sum() == sum {
                                    assert(x == t);
                                    assert(tiles@[before.len() as int] == t);
                                } else {
                                    assert(before.contains(x));
                                    let i = choose|i: int| 0 <= i < before.len() && before[i] == x;
                                    assert(tiles@[i] == x);
                                }
                            }
                        }
                    }
                } else {
                    proof {
                        assert forall|x: TriCoord|
                            tiles@.contains(x) <==> (in_hexagon(m as int, x) && (x.a < a || (x.a
                                == a && x.b < b) || (x.a == a && x.b == b && x.lane_sum() < sum
                                + 1))) by {
                            if in_hexagon(m as int, x) && x.a == a && x.b == b && x.lane_sum()
                                == sum {
                                assert(x.c == c);
                            }
                        }
                    }
                }
                sum += 1;
            }
            proof {
                assert forall|t: TriCoord|
                    tiles@.contains(t) <==> (in_hexagon(m as int, t) && (t.a < a || (t.a == a
                        && t.b < b + 1))) by {
                    if in_hexagon(m as int, t) && t.a == a && t.b == b {
                        assert(t.lane_sum() < 3);
                    }
                }
                assert(diagonal_prefix(m as int, a + b + 1) - diagonal_prefix(m as int, a + b)
                    == (if lo_c <= 1 - a - b <= hi_c {
                    1int
                } else {
                    0int
                }) + (if lo_c <= 2 - a - b <= hi_c {
                    1int
                } else {
                    0int
                }));
            }
            b += 1;
        }
        proof {
            lemma_row_closes(m as int, a as int);
            assert forall|t: TriCoord|
                tiles@.contains(t) <==> (in_hexagon(m as int, t) && t.a < a + 1) by {
                if in_hexagon(m as int, t) && t.a == a {
                    assert(t.b < b);
                }
            }
        }
        a += 1;
    }
    proof {
        assert(rows_before(m as int, m as int) == 6 * m * m) by (nonlinear_arith)
            requires
                m >= 1,
        ;
        assert forall|t: TriCoord| tiles@.contains(t) <==> in_hexagon(m as int, t) by {}
        assert forall|i: int, a2: int|
            #![trigger tiles@[i], row_start(m as int, a2)]
            0 <= i < tiles.len() && -m <= a2 <= m - 1 implies (tiles@[i].a == a2
            <==> row_start(m as int, a2) <= i < row_start(m as int, a2) + row_width(m as int, a2)) by {
            let a1 = tiles@[i].a as int;
            assert(tiles@.contains(tiles@[i]));
            assert(in_hexagon(m as int, tiles@[i]));
            lemma_row_start_closed_form(m as int, a1);
            lemma_row_start_closed_form(m as int, a1 + 1);
            if a1 < a2 {
                lemma_row_start_monotone(m as int, a1 + 1, a2);
            }
            if a2 < a1 {
                lemma_row_start_monotone(m as int, a2 + 1, a1);
            }
        }
    }
    Ok(tiles)
}

} // verus!

verus! {

/// `t` reaches `u` in at most `steps` edge crossings without leaving the hexagon with
/// half-edge `m`.
pub open spec fn reaches_within_hexagon(m: int, t: TriCoord, u: TriCoord, steps: nat) -> bool
    decreases steps,
{
    if t == u {
        true
    } else if steps == 0 {
        false
    } else {
        exists|n: TriCoord|
            #![trigger spec_edge_neighbors(t).contains(n)]
            spec_edge_neighbors(t).contains(n) && in_hexagon(m, n) && reaches_within_hexagon(
                m,
                n,
                u,
                (steps - 1) as nat,
            )
    }
}

/// Every tile of a hexagon (edge length at least 3) has at least one edge neighbor that is
/// also a tile of the hexagon: no tile of a fresh map stands alone.
pub proof fn lemma_hexagon_tile_has_inside_neighbor(m: int, t: TriCoord) -> (n: TriCoord)
    requires
        m >= 1,
        in_hexagon(m, t),
        steppable(t),
    ensures
        spec_edge_neighbors(t).contains(n),
        adjacent(t, n),
        in_hexagon(m, n),
{
    let ns = spec_edge_neighbors(t);
    if t.spec_is_upward() {
        if t.a + 1 <= m - 1 {
            ns[0]
        } else if t.b + 1 <= m {
            ns[1]
        } else {
            ns[2]
        }
    } else {
        if t.a - 1 >= -m {
            ns[0]
        } else if t.b - 1 >= 1 - m {
            ns[1]
        } else {
            ns[2]
        }
    }
}

/// The hexagon is connected through edges: any two of its tiles are joined by a path of
/// edge crossings that never leaves it and is exactly as long as their lane distance.
pub proof fn lemma_hexagon_connected(m: int, t: TriCoord, u: TriCoord)
    requires
        in_hexagon(m, t),
        in_hexagon(m, u),
    ensures
        reaches_within_hexagon(m, t, u, super::neighbors::lane_distance(t, u) as nat),
    decreases super::neighbors::lane_distance(t, u),
{
    if t != u {
        let n = super::neighbors::lemma_step_toward(t, u);
        // Stepping toward `u` moves one lane between its values at `t` and `u`, both inside
        // the box, so the step stays inside the hexagon.
        assert(in_hexagon(m, n));
        lemma_hexagon_connected(m, n, u);
        assert(spec_edge_neighbors(t).contains(n));
    }
}

} // verus!
