//! One independently-seeded random stream per pipeline stage, so stage N's draws never shift
//! stage N+1's draws (adding a town doesn't change which starting towers get picked).

use rand::seq::SliceRandom;
use rand::Rng;
use rand::SeedableRng;
use rand_chacha::ChaCha8Rng;
use vstd::prelude::*;

verus! {

#[verifier::external_type_specification]
#[verifier::external_body]
pub struct ExChaCha8Rng(ChaCha8Rng);

/// A pipeline stage that draws its own random stream.
#[derive(Debug, Clone, Copy, PartialEq, Eq, Structural)]
pub enum Stage {
    TownCount,
    ShapeCenters,
    TownPlacement,
    StartingTowers,
    TextureSpread,
    PlayerBiomeAssignment,
}

/// The stage's tag, its position in declaration order.
pub open spec fn spec_stage_tag(stage: Stage) -> u64 {
    match stage {
        Stage::TownCount => 0,
        Stage::ShapeCenters => 1,
        Stage::TownPlacement => 2,
        Stage::StartingTowers => 3,
        Stage::TextureSpread => 4,
        Stage::PlayerBiomeAssignment => 5,
    }
}

/// The stage's tag, its position in declaration order.
pub fn stage_tag(stage: Stage) -> (tag: u64)
    ensures
        tag == spec_stage_tag(stage),
{
    match stage {
        Stage::TownCount => 0,
        Stage::ShapeCenters => 1,
        Stage::TownPlacement => 2,
        Stage::StartingTowers => 3,
        Stage::TextureSpread => 4,
        Stage::PlayerBiomeAssignment => 5,
    }
}

/// The 64-bit seed of a stage's stream: the map seed shifted left by 8 bits, with the
/// stage's tag in the low byte.
pub open spec fn spec_stage_seed(seed: u32, stage: Stage) -> int {
    seed * 256 + spec_stage_tag(stage)
}

/// The 64-bit seed of a stage's stream: `(seed << 8) | tag`.
pub fn stage_seed(seed: u32, stage: Stage) -> (s: u64)
    ensures
        s == spec_stage_seed(seed, stage),
{
    let tag = stage_tag(stage);
    (seed as u64) * 256 + tag
}

/// Different (map seed, stage) pairs never share a stream seed: every stage of every map
/// draws from its own stream.
pub proof fn lemma_stage_seeds_distinct(s1: u32, st1: Stage, s2: u32, st2: Stage)
    requires
        s1 != s2 || st1 != st2,
    ensures
        spec_stage_seed(s1, st1) != spec_stage_seed(s2, st2),
{
}

/// The ChaCha8 generator that `ChaCha8Rng::seed_from_u64` builds from `state`. It is a
/// function of `state` alone: the state is expanded into the 32 key bytes by a fixed PCG32
/// sequence, with nothing else read.
pub uninterp spec fn chacha8_seeded(state: u64) -> ChaCha8Rng;

/// `ChaCha8Rng::seed_from_u64`: the ChaCha8 generator seeded from one `u64`, named by
/// [`chacha8_seeded`]. What the generator will draw is not stated.
#[verifier::external_body]
fn seeded_rng(seed: u64) -> (r: ChaCha8Rng)
    ensures
        r == chacha8_seeded(seed),
{
    ChaCha8Rng::seed_from_u64(seed)
}

/// The generator that draws one stage's choices for the map seed `seed`: ChaCha8 seeded
/// from the stage's stream seed.
pub open spec fn stage_rng(seed: u32, stage: Stage) -> ChaCha8Rng {
    chacha8_seeded(spec_stage_seed(seed, stage) as u64)
}

/// The random stream for one stage of generating the map with the given seed: the ChaCha8
/// generator seeded from the stage's stream seed.
pub fn rng_for(seed: u32, stage: Stage) -> (r: ChaCha8Rng)
    ensures
        r == chacha8_seeded(spec_stage_seed(seed, stage) as u64),
        r == stage_rng(seed, stage),
{
    seeded_rng(stage_seed(seed, stage))
}

/// What `Rng::random_range(0..len)` draws from the ChaCha8 generator `rng`, and the state
/// the generator is left in. ChaCha8 is a deterministic stream cipher: both are functions
/// of the generator's state and `len` alone.
pub uninterp spec fn chacha8_draw_index(rng: ChaCha8Rng, len: usize) -> (usize, ChaCha8Rng);

/// What `SliceRandom::shuffle` makes of `v` with the ChaCha8 generator `rng`, and the
/// state the generator is left in: functions of the generator's state and `v` alone.
pub uninterp spec fn chacha8_shuffle(rng: ChaCha8Rng, v: Seq<usize>) -> (Seq<usize>, ChaCha8Rng);

/// `Rng::random_range(0..len)`: a uniformly drawn index below `len`, named by
/// [`chacha8_draw_index`] together with the generator's next state. The source asserts
/// that the range is non-empty and returns a value inside it.
#[verifier::external_body]
pub(crate) fn random_index(rng: &mut ChaCha8Rng, len: usize) -> (i: usize)
    requires
        len > 0,
    ensures
        i < len,
        (i, *final(rng)) == chacha8_draw_index(*old(rng), len),
{
    rng.random_range(0..len)
}

/// `SliceRandom::shuffle`: permutes the vector in place with a Fisher–Yates shuffle, named
/// by [`chacha8_shuffle`] together with the generator's next state. The result is a
/// rearrangement of the same elements; a vector of at most one element is left as it is,
/// without a draw.
#[verifier::external_body]
pub(crate) fn shuffle_indices(v: &mut Vec<usize>, rng: &mut ChaCha8Rng)
    ensures
        final(v)@.len() == old(v)@.len(),
        final(v)@.to_multiset() == old(v)@.to_multiset(),
        (final(v)@, *final(rng)) == chacha8_shuffle(*old(rng), old(v)@),
        old(v)@.len() <= 1 ==> final(v)@ == old(v)@ && *final(rng) == *old(rng),
{
    v.shuffle(rng)
}

} // verus!
