//! probSAT with Jeroslow-Wang initialization, random-walk steps, a tabu list
//! and Luby restarts.  The search loop weighs variables by
//! floating-point probabilities and stays with the caller; its integer
//! machinery is `local_search`, and the initial assignment and the restart
//! lengths are computed here.

use super::local_search::{occ_list, Formula};
use super::{luby_formula, restart_budget, restart_factor, saturating_product};
use crate::rng::rng_next_bool;
use rand::rngs::SmallRng;
use vstd::prelude::*;

verus! {

/// The Luby factor of restart `k` (counted from 0): `1, 1, 2, 1, 1, 2, 4, ...`.
pub fn luby(k: u64) -> (r: u64)
    requires
        k < u64::MAX,
    ensures
        r == restart_factor(k),
{
    luby_formula(k)
}

/// The flips allowed in restart `restart_idx`: `luby_base * luby(restart_idx)`,
/// saturating at `u64::MAX`.
pub fn restart_flips(luby_base: u64, restart_idx: u64) -> (r: u64)
    requires
        restart_idx < u64::MAX,
    ensures
        r == saturating_product(luby_base, restart_factor(restart_idx)),
{
    restart_budget(luby_base, restart_idx)
}

/// The Jeroslow-Wang initial assignment: each variable takes the sign with
/// which it occurs more often; on a tie a value is drawn from the generator
/// (variables in order, one draw per tie).
pub fn jw_init(f: &Formula, rng: &mut SmallRng) -> (a: Vec<bool>)
    requires
        f.well_formed(),
    ensures
        a.len() == f.num_variables,
        forall|v: int|
            0 <= v < f.num_variables ==> {
                let p = occ_list(f.cls(), v, true).len();
                let q = occ_list(f.cls(), v, false).len();
                &&& p > q ==> #[trigger] a@[v]
                &&& p < q ==> !a@[v]
            },
{
    let n = f.num_variables;
    let mut a: Vec<bool> = Vec::new();
    let mut v: usize = 0;
    while v < n
        invariant
            f.well_formed(),
            n == f.num_variables,
            v <= n,
            a.len() == v,
            forall|w: int|
                0 <= w < v ==> {
                    let p = occ_list(f.cls(), w, true).len();
                    let q = occ_list(f.cls(), w, false).len();
                    &&& p > q ==> #[trigger] a@[w]
                    &&& p < q ==> !a@[w]
                },
        decreases n - v,
    {
        let p = f.pos_clauses[v].len();
        let q = f.neg_clauses[v].len();
        let val = if p > q {
            true
        } else if p < q {
            false
        } else {
            rng_next_bool(rng)
        };
        a.push(val);
        v = v + 1;
    }
    a
}

} // verus!
