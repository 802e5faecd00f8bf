//! The seeded generator that samples and restarts draw from.
use rand::rngs::StdRng;
use rand::seq::SliceRandom;
use rand::{Rng, RngCore, SeedableRng};
use vstd::prelude::*;

verus! {

/// The generator of the `rand` crate, carried through as it is.
#[verifier::external_type_specification]
#[verifier::external_body]
pub struct ExStdRng(StdRng);

/// What a generator holds: the key, the stream number and the position in the
/// stream, which together decide everything that can be drawn from it.
pub uninterp spec fn generator_state(rng: StdRng) -> Seq<u64>;

/// What `SeedableRng::seed_from_u64` leaves in a new generator.
pub uninterp spec fn seeded_state(seed: u64) -> Seq<u64>;

/// What `SliceRandom::shuffle` makes of a list, and what it leaves in the
/// generator.
pub uninterp spec fn shuffle_outcome(state: Seq<u64>, items: Seq<usize>) -> (Seq<usize>, Seq<u64>);

/// What `Rng::gen_range` draws below a bound, and what it leaves in the
/// generator. The draw is made in words of the machine's width.
pub uninterp spec fn index_outcome(width: u32, state: Seq<u64>, bound: usize) -> (usize, Seq<u64>);

/// What `RngCore::next_u64` yields, and what it leaves in the generator.
pub uninterp spec fn word_outcome(state: Seq<u64>) -> (u64, Seq<u64>);

/// Calls `StdRng::seed_from_u64`. Claims that the new generator holds what the
/// seed alone decides.
#[verifier::external_body]
pub(crate) fn seed_generator(seed: u64) -> (rng: StdRng)
    ensures
        generator_state(rng) == seeded_state(seed),
{
    StdRng::seed_from_u64(seed)
}

/// Calls `SliceRandom::shuffle`. Claims that the list is reordered, that nothing
/// is lost or added, and that the order and the generator's new state follow
/// from its old state and the list alone.
#[verifier::external_body]
pub(crate) fn shuffle(items: &mut Vec<usize>, rng: &mut StdRng)
    ensures
        final(items)@ == shuffle_outcome(generator_state(*old(rng)), old(items)@).0,
        generator_state(*final(rng)) == shuffle_outcome(
            generator_state(*old(rng)),
            old(items)@,
        ).1,
        final(items)@.to_multiset() == old(items)@.to_multiset(),
{
    items.shuffle(rng);
}

/// Calls `Rng::gen_range` on `0..bound`, which panics on an empty range. Claims
/// that the draw lies below the bound, and that it and the generator's new state
/// follow from the machine's word width, the old state and the bound alone.
#[verifier::external_body]
pub(crate) fn draw_index(rng: &mut StdRng, bound: usize) -> (index: usize)
    requires
        bound > 0,
    ensures
        index == index_outcome(usize::BITS, generator_state(*old(rng)), bound).0,
        generator_state(*final(rng)) == index_outcome(
            usize::BITS,
            generator_state(*old(rng)),
            bound,
        ).1,
        index < bound,
{
    rng.gen_range(0..bound)
}

/// Calls `RngCore::next_u64`. Claims that the word and the generator's new state
/// follow from its old state alone.
#[verifier::external_body]
pub(crate) fn next_word(rng: &mut StdRng) -> (word: u64)
    ensures
        word == word_outcome(generator_state(*old(rng))).0,
        generator_state(*final(rng)) == word_outcome(generator_state(*old(rng))).1,
{
    rng.next_u64()
}

} // verus!
