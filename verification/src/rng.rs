//! The pseudo-random generator that the heuristics draw from.
//!
//! Every item here calls `rand` (0.8) on a `SmallRng`.  Nothing is promised
//! about the values drawn beyond their range: callers are verified for every
//! value the generator could hand back.

use rand::rngs::SmallRng;
use rand::seq::SliceRandom;
use rand::{Rng, SeedableRng};
use vstd::prelude::*;

verus! {

/// `rand::rngs::SmallRng`, opaque to the verifier.
#[verifier::external_type_specification]
#[verifier::external_body]
pub struct ExSmallRng(SmallRng);

/// `SmallRng::from_seed`: a generator seeded by 32 bytes.  No claim is made
/// about its state.
#[verifier::external_body]
pub(crate) fn rng_from_seed(seed: [u8; 32]) -> SmallRng {
    SmallRng::from_seed(seed)
}

/// `SmallRng::seed_from_u64`: a generator seeded by one integer.  No claim is
/// made about its state.
#[verifier::external_body]
pub(crate) fn rng_seed_from_u64(seed: u64) -> SmallRng {
    SmallRng::seed_from_u64(seed)
}

/// `Rng::gen::<u64>()`: any 64-bit value.  In rand 0.8, `gen::<f64>()` draws
/// exactly this value and returns `(x >> 11) * 2^-53`, so callers that need
/// the float's order compare `x >> 11` instead.
#[verifier::external_body]
pub(crate) fn rng_next_u64(rng: &mut SmallRng) -> u64 {
    rng.gen::<u64>()
}

/// `Rng::gen_range(0..n)`: an index below `n` (the range must not be empty).
#[verifier::external_body]
pub(crate) fn rng_below(rng: &mut SmallRng, n: usize) -> (r: usize)
    requires
        n > 0,
    ensures
        r < n,
{
    rng.gen_range(0..n)
}

/// `Rng::gen::<bool>()`: either truth value.
#[verifier::external_body]
pub(crate) fn rng_next_bool(rng: &mut SmallRng) -> bool {
    rng.gen::<bool>()
}

/// `SliceRandom::shuffle`: claims that the vector afterwards holds the same
/// elements, each as often as before, in some order.
#[verifier::external_body]
pub(crate) fn rng_shuffle(v: &mut Vec<usize>, rng: &mut SmallRng)
    ensures
        final(v)@.to_multiset() == old(v)@.to_multiset(),
{
    v.shuffle(rng)
}

} // verus!
