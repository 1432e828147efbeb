//! Picks each player's starting town from the already-placed Biome Towns, spread apart via
//! the same greedy farthest-point sampling used for town placement itself.

use vstd::prelude::*;

use rand_chacha::ChaCha8Rng;

use crate::grid::coords::TriCoord;

use super::farthest_point::{
    distances_fit, farthest_point_sample, greedy_spread, spec_farthest_point_sample,
};

verus! {

/// Returns exactly `num_players` towns; index `i` is `PlayerSlot(i)`'s starting town.
pub fn select_starting_towers(towns: &Vec<TriCoord>, num_players: u8, rng: &mut ChaCha8Rng) -> (starting: Vec<TriCoord>)
    requires
        distances_fit(towns@),
        towns@.to_set().len() >= num_players,
    ensures
        starting.len() == num_players,
        starting@.no_duplicates(),
        forall|i: int| 0 <= i < starting.len() ==> towns@.contains(#[trigger] starting@[i]),
        greedy_spread(towns@, starting@),
        (starting@, *final(rng)) == spec_farthest_point_sample(towns@, num_players as int, *old(rng)),
{
    proof {
        vstd::seq_lib::seq_to_set_is_finite(towns@);
        towns@.lemma_cardinality_of_set();
    }
    farthest_point_sample(towns, num_players as usize, rng)
}

} // verus!
