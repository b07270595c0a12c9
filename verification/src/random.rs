//! Random boards from a seed, by the standard generator of the `rand` crate.

use rand::Rng;
use rand::SeedableRng;
use rand::rngs::StdRng;
use vstd::prelude::*;
use crate::bits::cells_of;
use crate::grid::Grid;

verus! {

/// Declares `rand::rngs::StdRng`, the standard generator of the `rand` crate.
/// A value of it is opaque here.
#[verifier::external_type_specification]
#[verifier::external_body]
pub struct ExStdRng(rand::rngs::StdRng);

/// The `u64` that a generator made from `seed` yields at its draw number
/// `index`, counted from 0.
pub uninterp spec fn seeded_word(seed: u64, index: int) -> u64;

/// The `u64` that the generator `rng` yields at its draw number `index` from
/// now on, counted from 0.
pub uninterp spec fn upcoming_word(rng: StdRng, index: int) -> u64;

/// The grid whose row `y` holds the first `width` bits of the word that a
/// generator made from `seed` yields at draw `y`.
pub open spec fn seeded_grid(width: nat, height: nat, seed: u64) -> Grid {
    Grid {
        width,
        height,
        cells: Seq::new(height, |y: int| cells_of(seeded_word(seed, y), width)),
    }
}

/// Makes a generator by `SeedableRng::seed_from_u64` of `StdRng`. Nothing is
/// proved of it. The contract says that the words to come are those that
/// `seeded_word` names for the seed: the generator is a function of the seed.
#[verifier::external_body]
pub(crate) fn seeded_generator(seed: u64) -> (rng: StdRng)
    ensures
        forall|i: int| 0 <= i ==> #[trigger] upcoming_word(rng, i) == seeded_word(seed, i),
{
    StdRng::seed_from_u64(seed)
}

/// Draws a `u64` by `Rng::gen` of `StdRng`. Nothing is proved of it. The
/// contract says that the word drawn is the first of the words to come, and
/// that the words to come after the draw are the rest of them: a draw
/// depends on the state of the generator alone, and moves it on by one word.
#[verifier::external_body]
pub(crate) fn next_word(rng: &mut StdRng) -> (word: u64)
    ensures
        word == upcoming_word(*old(rng), 0),
        forall|i: int|
            0 <= i ==> #[trigger] upcoming_word(*final(rng), i) == upcoming_word(*old(rng), i + 1),
{
    rng.gen::<u64>()
}

} // verus!
