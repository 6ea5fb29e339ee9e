//! probSAT with Luby restarts and clause-weight learning.  The search
//! loop weighs variables by floating-point probabilities and stays with the
//! caller; its integer machinery is `local_search`, and its restart lengths
//! are computed here.

use super::{luby_formula, restart_budget, restart_factor, saturating_product};
use vstd::prelude::*;

verus! {

/// The Luby factor of restart `k` (counted from 0): `1, 1, 2, 1, 1, 2, 4, ...`.
pub fn luby(k: u64) -> (r: u64)
    requires
        k < u64::MAX,
    ensures
        r == restart_factor(k),
{
    luby_formula(k)
}

/// The flips allowed in restart `restart_idx`: `luby_base * luby(restart_idx)`,
/// saturating at `u64::MAX`.
pub fn restart_flips(luby_base: u64, restart_idx: u64) -> (r: u64)
    requires
        restart_idx < u64::MAX,
    ensures
        r == saturating_product(luby_base, restart_factor(restart_idx)),
{
    restart_budget(luby_base, restart_idx)
}

} // verus!
