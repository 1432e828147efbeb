//! Places Biome Towns as close to equidistant as possible, via greedy farthest-point
//! sampling over every candidate tile.

use vstd::prelude::*;

use rand_chacha::ChaCha8Rng;

use crate::grid::coords::TriCoord;
use crate::grid::neighbors::contains_coord;

use super::farthest_point::{
    distances_fit, farthest_point_sample, lemma_distances_fit_within, greedy_spread, lemma_greedy_spread_same_points, min_int,
    spec_farthest_point_sample,
};

verus! {

/// `x` is listed at least twice in `v`.
pub open spec fn repeated_in(v: Seq<TriCoord>, x: TriCoord) -> bool {
    exists|j: int, k: int| 0 <= j < k < v.len() && #[trigger] v[j] == x && #[trigger] v[k] == x
}

/// The distinct points of `v`, in order of first occurrence.
pub open spec fn first_occurrences(v: Seq<TriCoord>) -> Seq<TriCoord>
    decreases v.len(),
{
    if v.len() == 0 {
        Seq::empty()
    } else {
        let r = first_occurrences(v.drop_last());
        if r.contains(v.last()) {
            r
        } else {
            r.push(v.last())
        }
    }
}

/// The occurrences of points of `v` seen earlier in `v`, in order.
pub open spec fn later_occurrences(v: Seq<TriCoord>) -> Seq<TriCoord>
    decreases v.len(),
{
    if v.len() == 0 {
        Seq::empty()
    } else {
        let r = later_occurrences(v.drop_last());
        if first_occurrences(v.drop_last()).contains(v.last()) {
            r.push(v.last())
        } else {
            r
        }
    }
}

/// Splits `v` into its distinct points, in order of first occurrence, and the later
/// occurrences of points already seen, in order.
fn split_repeats(v: &Vec<TriCoord>) -> (r: (Vec<TriCoord>, Vec<TriCoord>))
    ensures
        r.0@.no_duplicates(),
        forall|x: TriCoord| r.0@.contains(x) <==> v@.contains(x),
        forall|i: int| 0 <= i < r.1.len() ==> repeated_in(v@, #[trigger] r.1@[i]),
        r.0.len() + r.1.len() == v.len(),
        r.0@ == first_occurrences(v@),
        r.1@ == later_occurrences(v@),
{
    let mut distinct: Vec<TriCoord> = Vec::new();
    let mut repeats: Vec<TriCoord> = Vec::new();
    let mut j: usize = 0;
    while j < v.len()
        invariant
            j <= v.len(),
            distinct@.no_duplicates(),
            forall|x: TriCoord| distinct@.contains(x) <==> v@.take(j as int).contains(x),
            forall|i: int| 0 <= i < repeats.len() ==> repeated_in(v@, #[trigger] repeats@[i]),
            distinct.len() + repeats.len() == j,
            distinct@ == first_occurrences(v@.take(j as int)),
            repeats@ == later_occurrences(v@.take(j as int)),
        decreases v.len() - j,
    {
        let x = v[j];
        let ghost tj = v@.take(j as int);
        let ghost tk = v@.take(j + 1);
        proof {
            assert(tk == tj.push(x));
            assert(tk.drop_last() == tj);
        }
        if contains_coord(&distinct, &x) {
            proof {
                assert(tj.contains(x));
                let i = choose|i: int| 0 <= i < j && tj[i] == x;
                assert(v@[i] == x && v@[j as int] == x);
                assert(repeated_in(v@, x));
            }
            repeats.push(x);
            proof {
                assert forall|y: TriCoord| distinct@.contains(y) <==> tk.contains(y) by {
                    if tk.contains(y) {
                        let i = choose|i: int| 0 <= i < j + 1 && tk[i] == y;
                        if i < j {
                            assert(tj[i] == y);
                        }
                    }
                    if tj.contains(y) {
                        let i = choose|i: int| 0 <= i < j && tj[i] == y;
                        assert(tk[i] == y);
                    }
                }
            }
        } else {
            let ghost before = distinct@;
            distinct.push(x);
            proof {
                assert forall|y: TriCoord| distinct@.contains(y) <==> tk.contains(y) by {
                    if tk.contains(y) {
                        let i = choose|i: int| 0 <= i < j + 1 && tk[i] == y;
                        if i < j {
                            assert(tj[i] == y);
                            assert(before.contains(y));
                            let q = choose|q: int| 0 <= q < before.len() && before[q] == y;
                            assert(distinct@[q] == y);
                        } else {
                            assert(distinct@[before.len() as int] == y);
                        }
                    }
                    if distinct@.contains(y) {
                        let q = choose|q: int| 0 <= q < distinct.len() && distinct@[q] == y;
                        if q < before.len() {
                            assert(before[q] == y);
                            assert(before.contains(y));
                            assert(tj.contains(y));
                            let i = choose|i: int| 0 <= i < j && tj[i] == y;
                            assert(tk[i] == y);
                        } else {
                            assert(tk[j as int] == y);
                        }
                    }
                }
                assert forall|a: int, b: int| 0 <= a < b < distinct.len() implies distinct@[a] != distinct@[b] by {
                    if b == before.len() {
                        assert(before.contains(before[a]));
                    }
                }
            }
        }
        j += 1;
    }
    proof {
        assert(v@.take(v.len() as int) == v@);
    }
    (distinct, repeats)
}

/// Places up to `town_count` towns on tiles drawn from `land_tiles`, spread as evenly as a
/// greedy farthest-point algorithm can manage. Never panics: returns
/// `min(town_count, land_tiles.len())` towns. When `land_tiles` lists at least that many
/// distinct tiles (as the tiles of a map always do) the towns are distinct; otherwise every
/// distinct tile gets a town first, and the rest repeat tiles listed more than once.
pub fn place_towns(land_tiles: &Vec<TriCoord>, town_count: u32, rng: &mut ChaCha8Rng) -> (towns: Vec<TriCoord>)
    requires
        distances_fit(land_tiles@),
    ensures
        towns.len() == min_int(town_count as int, land_tiles.len() as int),
        forall|i: int| 0 <= i < towns.len() ==> land_tiles@.contains(#[trigger] towns@[i]),
        land_tiles@.to_set().len() >= min_int(town_count as int, land_tiles.len() as int) ==> {
            &&& towns@.no_duplicates()
            &&& greedy_spread(land_tiles@, towns@)
        },
        land_tiles@.to_set().len() < min_int(town_count as int, land_tiles.len() as int) ==> {
            let d = land_tiles@.to_set().len() as int;
            &&& towns@.take(d).no_duplicates()
            &&& greedy_spread(land_tiles@, towns@.take(d))
            &&& forall|x: TriCoord| land_tiles@.contains(x) ==> towns@.take(d).contains(x)
            &&& forall|i: int| d <= i < towns.len() ==> repeated_in(land_tiles@, #[trigger] towns@[i])
        },
        // The draws: with enough distinct tiles, farthest-point sampling over the tiles as
        // given; otherwise over the distinct tiles, followed by the repeated occurrences.
        land_tiles@.to_set().len() >= min_int(town_count as int, land_tiles.len() as int) ==> (
        towns@,
        *final(rng),
        ) == spec_farthest_point_sample(land_tiles@, town_count as int, *old(rng)),
        land_tiles@.to_set().len() < min_int(town_count as int, land_tiles.len() as int) ==> {
            let d = land_tiles@.to_set().len() as int;
            let sample = spec_farthest_point_sample(first_occurrences(land_tiles@), d, *old(rng));
            &&& towns@ == sample.0 + later_occurrences(land_tiles@).take(
                min_int(town_count as int, land_tiles.len() as int) - d,
            )
            &&& *final(rng) == sample.1
        },
{
    let target: usize = if (town_count as usize) < land_tiles.len() {
        town_count as usize
    } else {
        land_tiles.len()
    };
    let (distinct, repeats) = split_repeats(land_tiles);
    proof {
        distinct@.unique_seq_to_set();
        assert(distinct@.to_set() =~= land_tiles@.to_set());
        assert forall|i: int| 0 <= i < distinct.len() implies land_tiles@.contains(
            #[trigger] distinct@[i],
        ) by {
            assert(distinct@.contains(distinct@[i]));
        }
        lemma_distances_fit_within(land_tiles@, distinct@);
    }
    if distinct.len() >= target {
        farthest_point_sample(land_tiles, town_count as usize, rng)
    } else {
        let mut towns = farthest_point_sample(&distinct, distinct.len(), rng);
        let ghost spread = towns@;
        proof {
            lemma_greedy_spread_same_points(distinct@, land_tiles@, spread);
            // Every distinct point was chosen: a duplicate-free selection of as many of them.
            spread.unique_seq_to_set();
            vstd::seq_lib::seq_to_set_is_finite(spread);
            vstd::seq_lib::seq_to_set_is_finite(distinct@);
            assert forall|x: TriCoord| spread.to_set().contains(x) implies distinct@.to_set().contains(x) by {
                let i = choose|i: int| 0 <= i < spread.len() && spread[i] == x;
                assert(distinct@.contains(spread[i]));
            }
            vstd::set_lib::lemma_subset_equality(spread.to_set(), distinct@.to_set());
            assert forall|x: TriCoord| land_tiles@.contains(x) implies spread.contains(x) by {
                assert(distinct@.contains(x));
                assert(distinct@.to_set().contains(x));
                assert(spread.to_set().contains(x));
            }
            assert forall|i: int| 0 <= i < spread.len() implies land_tiles@.contains(#[trigger] spread[i]) by {
                assert(distinct@.contains(spread[i]));
            }
            assert(towns@.take(distinct.len() as int) =~= spread);
        }
        let mut j: usize = 0;
        while towns.len() < target
            invariant
                towns.len() == distinct.len() + j,
                towns.len() <= target,
                distinct.len() + repeats.len() == land_tiles.len(),
                target <= land_tiles.len(),
                towns@.take(distinct.len() as int) == spread,
                towns@ == spread + repeats@.take(j as int),
                j <= repeats.len(),
                forall|i: int| 0 <= i < repeats.len() ==> repeated_in(land_tiles@, #[trigger] repeats@[i]),
                forall|i: int| 0 <= i < spread.len() ==> land_tiles@.contains(#[trigger] spread[i]),
                forall|i: int|
                    distinct.len() <= i < towns.len() ==> repeated_in(land_tiles@, #[trigger] towns@[i]),
            decreases target - towns.len(),
        {
            let x = repeats[j];
            let ghost before = towns@;
            towns.push(x);
            proof {
                assert(towns@.take(distinct.len() as int) == before.take(distinct.len() as int));
                assert(repeats@.take(j + 1) == repeats@.take(j as int).push(x));
                assert(towns@ == spread + repeats@.take(j + 1));
                assert(towns@[towns.len() - 1] == x);
            }
            j += 1;
        }
        proof {
            assert forall|i: int| 0 <= i < towns.len() implies land_tiles@.contains(#[trigger] towns@[i]) by {
                if i < distinct.len() {
                    assert(towns@[i] == spread[i]);
                } else {
                    assert(repeated_in(land_tiles@, towns@[i]));
                    let (a, b) = choose|a: int, b: int|
                        0 <= a < b < land_tiles.len() && #[trigger] land_tiles@[a] == towns@[i] && #[trigger] land_tiles@[b]
                            == towns@[i];
                }
            }
        }
        towns
    }
}

} // verus!
