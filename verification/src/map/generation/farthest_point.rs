//! Greedy farthest-point sampling: picks a random first point from `candidates`, then
//! repeatedly adds whichever remaining candidate maximizes its minimum distance to the
//! already-chosen points. Shared by Biome Town placement and starting-town selection.

use vstd::prelude::*;
use vstd::set_lib::*;

use rand_chacha::ChaCha8Rng;

use crate::grid::coords::TriCoord;
use crate::grid::neighbors::{
    contains_coord, lane_distance,
};

use super::rng::{chacha8_draw_index, random_index};

verus! {

/// The smallest lane distance from `c` to any point of the non-empty `s`.
pub open spec fn min_lane_distance(s: Seq<TriCoord>, c: TriCoord) -> int
    decreases s.len(),
{
    if s.len() <= 1 {
        lane_distance(s[0], c)
    } else {
        let rest = min_lane_distance(s.drop_last(), c);
        let d = lane_distance(s.last(), c);
        if d < rest {
            d
        } else {
            rest
        }
    }
}

/// `pick` is a valid greedy step after `chosen`: a candidate not yet chosen whose minimum
/// distance to the chosen points is at least that of every other remaining candidate.
pub open spec fn is_farthest_choice(
    candidates: Seq<TriCoord>,
    chosen: Seq<TriCoord>,
    pick: TriCoord,
) -> bool {
    &&& candidates.contains(pick)
    &&& !chosen.contains(pick)
    &&& forall|c: TriCoord|
        candidates.contains(c) && !chosen.contains(c) ==> #[trigger] min_lane_distance(chosen, c)
            <= min_lane_distance(chosen, pick)
}

/// Every point after the first was a greedy farthest-point choice given the points before
/// it.
pub open spec fn greedy_spread(candidates: Seq<TriCoord>, chosen: Seq<TriCoord>) -> bool {
    forall|k: int|
        1 <= k < chosen.len() ==> is_farthest_choice(
            candidates,
            chosen.take(k),
            #[trigger] chosen[k],
        )
}

/// Whether greedy farthest-point spreading holds over `a` depends only on which points `a`
/// holds, not on their order.
pub proof fn lemma_greedy_spread_same_points(a: Seq<TriCoord>, b: Seq<TriCoord>, chosen: Seq<TriCoord>)
    requires
        forall|t: TriCoord| a.contains(t) <==> b.contains(t),
        greedy_spread(a, chosen),
    ensures
        greedy_spread(b, chosen),
{
    assert forall|k: int| 1 <= k < chosen.len() implies is_farthest_choice(
        b,
        chosen.take(k),
        #[trigger] chosen[k],
    ) by {
        assert(is_farthest_choice(a, chosen.take(k), chosen[k]));
    }
}

/// Every two points of `s` are within `i32` lane distance of each other, so that the
/// distance between any two of them can be computed.
pub open spec fn distances_fit(s: Seq<TriCoord>) -> bool {
    forall|i: int, j: int|
        0 <= i < s.len() && 0 <= j < s.len() ==> lane_distance(#[trigger] s[i], #[trigger] s[j])
            <= i32::MAX
}

/// Distances fit among the points of `s` that `t` lists: a subsequence, a reordering or a
/// sample of them.
pub proof fn lemma_distances_fit_within(s: Seq<TriCoord>, t: Seq<TriCoord>)
    requires
        distances_fit(s),
        forall|i: int| 0 <= i < t.len() ==> s.contains(#[trigger] t[i]),
    ensures
        distances_fit(t),
{
    assert forall|i: int, j: int| 0 <= i < t.len() && 0 <= j < t.len() implies lane_distance(
        #[trigger] t[i],
        #[trigger] t[j],
    ) <= i32::MAX by {
        assert(s.contains(t[i]));
        assert(s.contains(t[j]));
        let a = choose|a: int| 0 <= a < s.len() && s[a] == t[i];
        let b = choose|b: int| 0 <= b < s.len() && s[b] == t[j];
        assert(lane_distance(s[a], s[b]) <= i32::MAX);
    }
}

/// `min(a, b)` on mathematical integers.
pub open spec fn min_int(a: int, b: int) -> int {
    if a < b {
        a
    } else {
        b
    }
}

/// The minimum lane distance from `c` to the points of `s`.
fn min_distance_to(s: &Vec<TriCoord>, c: &TriCoord) -> (d: i32)
    requires
        s.len() > 0,
        forall|i: int| 0 <= i < s.len() ==> lane_distance(#[trigger] s@[i], *c) <= i32::MAX,
    ensures
        d == min_lane_distance(s@, *c),
{
    let mut best = s[0].distance(c);
    let mut i: usize = 1;
    assert(s@.take(1).len() == 1);
    assert(s@.take(1)[0] == s@[0]);
    while i < s.len()
        invariant
            1 <= i <= s.len(),
            forall|i: int| 0 <= i < s.len() ==> lane_distance(#[trigger] s@[i], *c) <= i32::MAX,
            best == min_lane_distance(s@.take(i as int), *c),
        decreases s.len() - i,
    {
        let d = s[i].distance(c);
        proof {
            assert(s@.take(i + 1).drop_last() =~= s@.take(i as int));
            assert(s@.take(i + 1).last() == s@[i as int]);
        }
        if d < best {
            best = d;
        }
        i += 1;
    }
    assert(s@.take(s.len() as int) =~= s@);
    best
}

/// A finite set that has more elements than one of its subsets has an element outside
/// that subset.
proof fn lemma_larger_set_has_extra<A>(small: Set<A>, big: Set<A>) -> (x: A)
    requires
        big.finite(),
        small.finite(),
        small.len() < big.len(),
    ensures
        big.contains(x),
        !small.contains(x),
{
    if forall|y: A| big.contains(y) ==> small.contains(y) {
        lemma_len_subset(big, small);
    }
    choose|y: A| big.contains(y) && !small.contains(y)
}

/// The highest greedy score (minimum lane distance to the chosen points) among the points
/// of `s` not yet chosen, or `i32::MIN` when none remain.
pub open spec fn top_score(s: Seq<TriCoord>, chosen: Seq<TriCoord>) -> int
    decreases s.len(),
{
    if s.len() == 0 {
        i32::MIN as int
    } else {
        let m = top_score(s.drop_last(), chosen);
        let c = s.last();
        if !chosen.contains(c) && min_lane_distance(chosen, c) > m {
            min_lane_distance(chosen, c)
        } else {
            m
        }
    }
}

/// The points of `s` not yet chosen whose greedy score is `score`, in the order of `s`.
pub open spec fn scoring(s: Seq<TriCoord>, chosen: Seq<TriCoord>, score: int) -> Seq<TriCoord>
    decreases s.len(),
{
    if s.len() == 0 {
        Seq::empty()
    } else {
        let rest = scoring(s.drop_last(), chosen, score);
        let c = s.last();
        if !chosen.contains(c) && min_lane_distance(chosen, c) == score {
            rest.push(c)
        } else {
            rest
        }
    }
}

/// The candidates tied for farthest from the chosen points, in candidate order: the ones a
/// greedy step draws from.
pub open spec fn farthest_ties(candidates: Seq<TriCoord>, chosen: Seq<TriCoord>) -> Seq<TriCoord> {
    scoring(candidates, chosen, top_score(candidates, chosen))
}

/// `steps` greedy steps after `chosen`: each draws one of the tied farthest candidates from
/// the generator. Gives the points and the generator's state after them.
pub open spec fn greedy_steps(
    candidates: Seq<TriCoord>,
    chosen: Seq<TriCoord>,
    rng: ChaCha8Rng,
    steps: nat,
) -> (Seq<TriCoord>, ChaCha8Rng)
    decreases steps,
{
    if steps == 0 {
        (chosen, rng)
    } else {
        let prev = greedy_steps(candidates, chosen, rng, (steps - 1) as nat);
        let ties = farthest_ties(candidates, prev.0);
        let draw = chacha8_draw_index(prev.1, ties.len() as usize);
        (prev.0.push(ties[draw.0 as int]), draw.1)
    }
}

/// What farthest-point sampling returns from `rng`, with the generator's state after it:
/// a first point drawn from all candidates, then `min(count, len) - 1` greedy steps.
pub open spec fn spec_farthest_point_sample(
    candidates: Seq<TriCoord>,
    count: int,
    rng: ChaCha8Rng,
) -> (Seq<TriCoord>, ChaCha8Rng) {
    let target = min_int(count, candidates.len() as int);
    if target <= 0 {
        (Seq::empty(), rng)
    } else {
        let first = chacha8_draw_index(rng, candidates.len() as usize);
        greedy_steps(candidates, seq![candidates[first.0 as int]], first.1, (target - 1) as nat)
    }
}

/// The sample is a function of the candidates, the count and the generator's state: two
/// generators in one state give the same points and are left in one state.
pub proof fn lemma_sample_is_deterministic(
    candidates: Seq<TriCoord>,
    count: int,
    rng1: ChaCha8Rng,
    rng2: ChaCha8Rng,
)
    requires
        rng1 == rng2,
    ensures
        spec_farthest_point_sample(candidates, count, rng1) == spec_farthest_point_sample(
            candidates,
            count,
            rng2,
        ),
{
}

/// Greedy steps only add points: after `m <= n` steps the points are a prefix of those
/// after `n`, and each step adds exactly one.
proof fn lemma_greedy_steps_prefix(
    candidates: Seq<TriCoord>,
    chosen: Seq<TriCoord>,
    rng: ChaCha8Rng,
    m: nat,
    n: nat,
)
    requires
        m <= n,
    ensures
        greedy_steps(candidates, chosen, rng, n).0.len() == chosen.len() + n,
        greedy_steps(candidates, chosen, rng, n).0.take((chosen.len() + m) as int) == greedy_steps(
            candidates,
            chosen,
            rng,
            m,
        ).0,
    decreases n,
{
    if n == 0 {
        assert(greedy_steps(candidates, chosen, rng, 0).0.take(chosen.len() as int) =~= chosen);
    } else {
        let nn = (n - 1) as nat;
        if m == n {
            lemma_greedy_steps_prefix(candidates, chosen, rng, nn, nn);
            assert(greedy_steps(candidates, chosen, rng, n).0.take((chosen.len() + m) as int) =~= greedy_steps(
                candidates,
                chosen,
                rng,
                n,
            ).0);
        } else {
            lemma_greedy_steps_prefix(candidates, chosen, rng, m, nn);
            let prev = greedy_steps(candidates, chosen, rng, nn).0;
            let full = greedy_steps(candidates, chosen, rng, n).0;
            assert(full.take((chosen.len() + m) as int) =~= prev.take((chosen.len() + m) as int));
        }
    }
}

/// The first point of the sample is the candidate that the generator draws first, and the
/// second is the candidate the generator, in the state that draw left it, draws among
/// those tied farthest from the first: the generator decides both, not the candidates'
/// order.
pub proof fn lemma_sample_starts_with_draws(candidates: Seq<TriCoord>, count: int, rng: ChaCha8Rng)
    requires
        count >= 1,
        candidates.len() > 0,
    ensures
        ({
            let first = chacha8_draw_index(rng, candidates.len() as usize);
            let sample = spec_farthest_point_sample(candidates, count, rng).0;
            &&& sample.len() == min_int(count, candidates.len() as int)
            &&& sample[0] == candidates[first.0 as int]
            &&& sample.len() >= 2 ==> {
                let ties = farthest_ties(candidates, seq![candidates[first.0 as int]]);
                sample[1] == ties[chacha8_draw_index(first.1, ties.len() as usize).0 as int]
            }
        }),
{
    let first = chacha8_draw_index(rng, candidates.len() as usize);
    let start = seq![candidates[first.0 as int]];
    let target = min_int(count, candidates.len() as int);
    let n = (target - 1) as nat;
    lemma_greedy_steps_prefix(candidates, start, first.1, 0, n);
    let sample = greedy_steps(candidates, start, first.1, n).0;
    assert(sample.take(1)[0] == sample[0]);
    if n >= 1 {
        lemma_greedy_steps_prefix(candidates, start, first.1, 1, n);
        assert(sample.take(2)[1] == sample[1]);
        let one = greedy_steps(candidates, start, first.1, 1);
        assert(greedy_steps(candidates, start, first.1, 0) == (start, first.1));
        assert(one.0[1] == farthest_ties(candidates, start)[chacha8_draw_index(
            first.1,
            farthest_ties(candidates, start).len() as usize,
        ).0 as int]);
    }
}

/// Two generators whose first draws pick different positions of duplicate-free candidates
/// start the sample at different points.
pub proof fn lemma_sample_first_point_follows_draw(
    candidates: Seq<TriCoord>,
    count: int,
    rng1: ChaCha8Rng,
    rng2: ChaCha8Rng,
)
    requires
        count >= 1,
        candidates.no_duplicates(),
        chacha8_draw_index(rng1, candidates.len() as usize).0 < candidates.len(),
        chacha8_draw_index(rng2, candidates.len() as usize).0 < candidates.len(),
        chacha8_draw_index(rng1, candidates.len() as usize).0 != chacha8_draw_index(
            rng2,
            candidates.len() as usize,
        ).0,
    ensures
        spec_farthest_point_sample(candidates, count, rng1).0[0] != spec_farthest_point_sample(
            candidates,
            count,
            rng2,
        ).0[0],
{
    lemma_sample_starts_with_draws(candidates, count, rng1);
    lemma_sample_starts_with_draws(candidates, count, rng2);
}

/// No remaining point of `s` scores above its best score.
proof fn lemma_scoring_above_best(s: Seq<TriCoord>, chosen: Seq<TriCoord>, score: int)
    requires
        score > top_score(s, chosen),
    ensures
        scoring(s, chosen, score) == Seq::<TriCoord>::empty(),
    decreases s.len(),
{
    if s.len() > 0 {
        lemma_scoring_above_best(s.drop_last(), chosen, score);
    }
}

/// Returns `min(count, candidates.len())` points from `candidates`, spread as evenly as a
/// greedy algorithm can manage. The first point is a seeded random choice; ties for
/// "farthest" are broken by another seeded random choice.
pub fn farthest_point_sample(candidates: &Vec<TriCoord>, count: usize, rng: &mut ChaCha8Rng) -> (chosen: Vec<TriCoord>)
    requires
        distances_fit(candidates@),
        candidates@.to_set().len() >= min_int(count as int, candidates.len() as int),
    ensures
        chosen.len() == min_int(count as int, candidates.len() as int),
        chosen@.no_duplicates(),
        forall|i: int| 0 <= i < chosen.len() ==> candidates@.contains(#[trigger] chosen@[i]),
        greedy_spread(candidates@, chosen@),
        (chosen@, *final(rng)) == spec_farthest_point_sample(candidates@, count as int, *old(rng)),
{
    let target = if count < candidates.len() { count } else { candidates.len() };
    if target == 0 {
        return Vec::new();
    }
    let mut chosen: Vec<TriCoord> = Vec::new();
    let first = random_index(rng, candidates.len());
    chosen.push(candidates[first]);
    let ghost start = chosen@;
    let ghost start_rng = *rng;
    proof {
        assert(start == seq![candidates@[first as int]]);
        assert(candidates@.contains(candidates@[first as int]));
        assert forall|k: int| 1 <= k < chosen.len() implies is_farthest_choice(
            candidates@,
            chosen@.take(k),
            #[trigger] chosen@[k],
        ) by {}
    }
    while chosen.len() < target
        invariant
            target == min_int(count as int, candidates.len() as int),
            0 < target <= candidates.len(),
            candidates@.to_set().len() >= target,
            distances_fit(candidates@),
            1 <= chosen.len() <= target,
            chosen@.no_duplicates(),
            forall|i: int| 0 <= i < chosen.len() ==> candidates@.contains(#[trigger] chosen@[i]),
            greedy_spread(candidates@, chosen@),
            (chosen@, *rng) == greedy_steps(candidates@, start, start_rng, (chosen.len() - 1) as nat),
        decreases target - chosen.len(),
    {
        proof {
            chosen@.unique_seq_to_set();
            assert(chosen@.to_set().len() < candidates@.to_set().len());
            vstd::seq_lib::seq_to_set_is_finite(candidates@);
        }
        let ghost extra = lemma_larger_set_has_extra(chosen@.to_set(), candidates@.to_set());
        assert(candidates@.contains(extra));
        assert(!chosen@.contains(extra));
        let mut best_score: i32 = i32::MIN;
        let mut best: Vec<TriCoord> = Vec::new();
        let mut j: usize = 0;
        while j < candidates.len()
            invariant
                1 <= chosen.len(),
                distances_fit(candidates@),
                forall|i: int| 0 <= i < chosen.len() ==> candidates@.contains(#[trigger] chosen@[i]),
                j <= candidates.len(),
                best_score > i32::MIN ==> best.len() > 0,
                forall|i: int|
                    0 <= i < best.len() ==> {
                        &&& candidates@.contains(#[trigger] best@[i])
                        &&& !chosen@.contains(best@[i])
                        &&& min_lane_distance(chosen@, best@[i]) == best_score
                    },
                forall|i: int|
                    0 <= i < j && !chosen@.contains(#[trigger] candidates@[i]) ==> min_lane_distance(
                        chosen@,
                        candidates@[i],
                    ) <= best_score && best.len() > 0,
                (chosen@, *rng) == greedy_steps(candidates@, start, start_rng, (chosen.len() - 1) as nat),
                best_score == top_score(candidates@.take(j as int), chosen@),
                best@ == scoring(candidates@.take(j as int), chosen@, best_score as int),
            decreases candidates.len() - j,
        {
            let candidate = candidates[j];
            let ghost tj = candidates@.take(j as int);
            let ghost tk = candidates@.take(j + 1);
            proof {
                assert(tk.drop_last() == tj);
                assert(tk.last() == candidate);
            }
            if !contains_coord(&chosen, &candidate) {
                proof {
                    assert forall|i: int| 0 <= i < chosen.len() implies lane_distance(
                        #[trigger] chosen@[i],
                        candidate,
                    ) <= i32::MAX by {
                        assert(candidates@.contains(chosen@[i]));
                        let k = choose|k: int| 0 <= k < candidates.len() && candidates@[k] == chosen@[i];
                        assert(lane_distance(candidates@[k], candidates@[j as int]) <= i32::MAX);
                    }
                }
                let score = min_distance_to(&chosen, &candidate);
                if score > best_score {
                    proof {
                        lemma_scoring_above_best(tj, chosen@, score as int);
                    }
                    best_score = score;
                    best = Vec::new();
                    best.push(candidate);
                    proof {
                        assert(best@ == Seq::<TriCoord>::empty().push(candidate));
                    }
                } else if score == best_score {
                    best.push(candidate);
                }
                proof {
                    assert(candidates@.contains(candidate)) by {
                        assert(candidates@[j as int] == candidate);
                    }
                }
            }
            j += 1;
        }
        proof {
            let e = candidates@.index_of(extra);
            assert(candidates@[e] == extra);
            assert(best.len() > 0);
            assert(candidates@.take(candidates.len() as int) == candidates@);
            assert(best@ == farthest_ties(candidates@, chosen@));
        }
        let ghost prev_rng = *rng;
        let pick_index = random_index(rng, best.len());
        let pick = best[pick_index];
        let ghost before = chosen@;
        chosen.push(pick);
        proof {
            assert((before, prev_rng) == greedy_steps(candidates@, start, start_rng, (before.len() - 1) as nat));
            assert(chosen@ == before.push(pick));
            assert(before.take(before.len() as int) =~= before);
            assert(chosen@.take(before.len() as int) =~= before);
            assert forall|c: TriCoord|
                candidates@.contains(c) && !before.contains(c) implies #[trigger] min_lane_distance(
                before,
                c,
            ) <= min_lane_distance(before, pick) by {
                let i = candidates@.index_of(c);
                assert(candidates@[i] == c);
            }
            assert(is_farthest_choice(candidates@, before, pick));
            assert forall|k: int| 1 <= k < chosen.len() implies is_farthest_choice(
                candidates@,
                chosen@.take(k),
                #[trigger] chosen@[k],
            ) by {
                if k < before.len() {
                    assert(chosen@.take(k) =~= before.take(k));
                    assert(chosen@[k] == before[k]);
                }
            }
            assert forall|i: int, l: int|
                0 <= i < chosen.len() && 0 <= l < chosen.len() && i != l implies chosen@[i]
                != chosen@[l] by {
                if i == before.len() && l < before.len() {
                    assert(before.contains(before[l]));
                } else if l == before.len() && i < before.len() {
                    assert(before.contains(before[i]));
                }
            }
        }
    }
    chosen
}

} // verus!
