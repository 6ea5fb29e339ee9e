//! Lion with a depth-aware schedule: deeper networks get a smaller learning
//! rate (one of five tiers) and a longer warmup.

use vstd::prelude::*;

verus! {

/// No tunable parameters.
pub struct Hyperparameters {}

/// The depth tier of a network with `num_hidden` hidden layers: 0 for up to
/// 4, 1 for 5 to 7, 2 for 8 to 10, 3 for 11 to 14, 4 beyond.  The learning
/// rates of the tiers are 1e-4, 5e-5, 3e-5, 2e-5 and 1e-5.
pub open spec fn tier_of(num_hidden: usize) -> usize {
    if num_hidden <= 4 {
        0
    } else if num_hidden <= 7 {
        1
    } else if num_hidden <= 10 {
        2
    } else if num_hidden <= 14 {
        3
    } else {
        4
    }
}

/// The warmup steps of each tier: 32, 48, 64, 96, 128.
pub open spec fn tier_warmup(tier: usize) -> usize {
    if tier == 0 {
        32
    } else if tier == 1 {
        48
    } else if tier == 2 {
        64
    } else if tier == 3 {
        96
    } else {
        128
    }
}

/// The depth tier of a network with `num_hidden` hidden layers.
pub fn depth_tier(num_hidden: usize) -> (t: usize)
    ensures
        t == tier_of(num_hidden),
{
    if num_hidden <= 4 {
        0
    } else if num_hidden <= 7 {
        1
    } else if num_hidden <= 10 {
        2
    } else if num_hidden <= 14 {
        3
    } else {
        4
    }
}

/// The warmup steps for a network with `num_hidden` hidden layers.
pub fn warmup_steps(num_hidden: usize) -> (w: usize)
    ensures
        w == tier_warmup(tier_of(num_hidden)),
{
    match depth_tier(num_hidden) {
        0 => 32,
        1 => 48,
        2 => 64,
        3 => 96,
        _ => 128,
    }
}

/// A deeper network is in the same or a later tier and warms up at least as
/// long.
pub proof fn lemma_deeper_warms_longer(a: usize, b: usize)
    requires
        a <= b,
    ensures
        tier_of(a) <= tier_of(b),
        tier_warmup(tier_of(a)) <= tier_warmup(tier_of(b)),
{
}

} // verus!
