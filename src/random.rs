//! Drawing numbers from the seeded generator that a build owns.
use vstd::prelude::*;
use rand::rngs::StdRng;

verus! {

#[verifier::external_type_specification]
#[verifier::external_body]
pub struct ExStdRng(StdRng);

/// Relies on rand's `RngCore::next_u32` for `StdRng`: the next 32 random
/// bits; any value may come back.
#[verifier::external_body]
pub(crate) fn next_u32(rng: &mut StdRng) -> u32 {
    rand::RngCore::next_u32(rng)
}

/// Relies on rand's `SeedableRng::seed_from_u64` for `StdRng`: a generator
/// whose state is fixed by the seed.
#[verifier::external_body]
pub(crate) fn seeded_rng(seed: u64) -> StdRng {
    <StdRng as rand::SeedableRng>::seed_from_u64(seed)
}

/// A number in `start..end`; `start` itself when the range is empty.
pub fn random_range(rng: &mut StdRng, start: usize, end: usize) -> (r: usize)
    requires
        start <= end,
        end <= u32::MAX,
    ensures
        end == start ==> r == start,
        end > start ==> start <= r < end,
{
    let max = (end - start) as u32;
    if max == 0 {
        start
    } else {
        ((next_u32(rng) % max) + start as u32) as usize
    }
}

/// A number in `min..=max`, as a die with faces `min` to `max` gives.
pub fn roll_dice(rng: &mut StdRng, min: usize, max: usize) -> (r: usize)
    requires
        min <= max,
        max < u32::MAX,
    ensures
        min <= r <= max,
{
    random_range(rng, min, max + 1)
}

} // verus!
