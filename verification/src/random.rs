//! Seeded random numbers.
//!
//! A generator is seen as the endless stream of words that it has left to give. What the stream
//! is for a given seed is not stated, only that the seed fixes it.
use rand::distributions::{Distribution, Uniform};
use rand::rngs::StdRng;
use rand::{RngCore, SeedableRng};
use vstd::prelude::*;

verus! {

/// The generator of the `rand` crate.
#[verifier::external_type_specification]
#[verifier::external_body]
pub struct ExStdRng(StdRng);

/// The words that a generator has left, in the order in which `RngCore::next_u32` gives them.
pub uninterp spec fn words_left(rng: StdRng) -> Map<nat, u32>;

/// The words of a generator that `SeedableRng::seed_from_u64` has just made.
pub uninterp spec fn seeded_words(seed: u64) -> Map<nat, u32>;

/// What `Uniform::<u32>::sample` on `[low, high)` makes of a stream of words: the number drawn,
/// and how many words were used up.
pub uninterp spec fn uniform_u32(low: u32, high: u32, words: Map<nat, u32>) -> (u32, nat);

/// What `Uniform::<i32>::sample` on `[low, high)` makes of a stream of words: the number drawn,
/// and how many words were used up.
pub uninterp spec fn uniform_i32(low: i32, high: i32, words: Map<nat, u32>) -> (i32, nat);

/// `words` without its first `n`.
pub open spec fn skip_words(words: Map<nat, u32>, n: nat) -> Map<nat, u32> {
    Map::total(|i: nat| words[i + n])
}

/// Calls `rand::rngs::StdRng::seed_from_u64`: the words of the new generator depend on the seed
/// alone.
#[verifier::external_body]
pub(crate) fn seed_from_u64(seed: u64) -> (rng: StdRng)
    ensures
        words_left(rng) == seeded_words(seed),
{
    StdRng::seed_from_u64(seed)
}

/// Calls `rand::RngCore::next_u32` on a `StdRng`: takes the first of the words that are left.
#[verifier::external_body]
pub(crate) fn next_u32(rng: &mut StdRng) -> (word: u32)
    ensures
        word == words_left(*old(rng))[0],
        words_left(*final(rng)) == skip_words(words_left(*old(rng)), 1),
{
    rng.next_u32()
}

/// Calls `rand::distributions::Uniform::<u32>::from` and `sample`: a number of the half-open
/// range `[low, high)`, and one or more words less in the generator; both depend on the range and
/// the words that were left.
#[verifier::external_body]
pub(crate) fn sample_u32(low: u32, high: u32, rng: &mut StdRng) -> (drawn: u32)
    requires
        low < high,
    ensures
        low <= drawn < high,
        drawn == uniform_u32(low, high, words_left(*old(rng))).0,
        words_left(*final(rng)) == skip_words(
            words_left(*old(rng)),
            uniform_u32(low, high, words_left(*old(rng))).1,
        ),
{
    Uniform::from(low..high).sample(rng)
}

/// Calls `rand::distributions::Uniform::<i32>::from` and `sample`: a number of the half-open
/// range `[low, high)`, and one or more words less in the generator; both depend on the range and
/// the words that were left.
#[verifier::external_body]
pub(crate) fn sample_i32(low: i32, high: i32, rng: &mut StdRng) -> (drawn: i32)
    requires
        low < high,
    ensures
        low <= drawn < high,
        drawn == uniform_i32(low, high, words_left(*old(rng))).0,
        words_left(*final(rng)) == skip_words(
            words_left(*old(rng)),
            uniform_i32(low, high, words_left(*old(rng))).1,
        ),
{
    Uniform::from(low..high).sample(rng)
}

/// What comes after some words is the rest of the stream, and skipping twice is skipping both
/// numbers at once.
pub proof fn law_skip_words(words: Map<nat, u32>, first: nat, second: nat, i: nat)
    ensures
        skip_words(words, first)[i] == words[first + i],
        skip_words(skip_words(words, first), second) == skip_words(words, first + second),
{
    assert(skip_words(skip_words(words, first), second) =~= skip_words(words, first + second));
}

} // verus!
