//! Boolean satisfiability of 3-CNF formulas: shared definitions, the Luby
//! restart schedule of the local-search solvers, and the solvers themselves.

use vstd::prelude::*;

pub mod local_search;
pub mod sat_cdcl_v1;
pub mod sat_probsat_v1;
pub mod sat_probsat_v2;

verus! {

/// A satisfiability instance: `num_variables` variables numbered `1..=n` and
/// clauses of DIMACS literals, of which only the first three are read.
pub struct Challenge {
    pub seed: [u8; 32],
    pub num_variables: usize,
    pub clauses: Vec<Vec<i32>>,
}

/// An assignment: `variables[v - 1]` is the value of variable `v`.
pub struct Solution {
    pub variables: Vec<bool>,
}

/// The variable index (`|lit| - 1`) that a nonzero literal speaks of.
pub open spec fn lit_var(lit: i32) -> int {
    if lit >= 0 { lit - 1 } else { -lit - 1 }
}

/// Whether a literal holds under an assignment.
pub open spec fn lit_holds(lit: i32, a: Seq<bool>) -> bool {
    if lit > 0 { a[lit_var(lit)] } else { !a[lit_var(lit)] }
}

/// The three literals that the solvers read from a clause.
pub open spec fn clause3(c: Seq<i32>) -> Seq<i32> {
    seq![c[0], c[1], c[2]]
}

/// A clause of three literals holds when one of them does.
pub open spec fn clause_holds(c: Seq<i32>, a: Seq<bool>) -> bool {
    exists|i: int| 0 <= i < 3 && lit_holds(#[trigger] c[i], a)
}

/// Every clause (its first three literals) holds.
pub open spec fn satisfies(clauses: Seq<Seq<i32>>, a: Seq<bool>) -> bool {
    forall|i: int| 0 <= i < clauses.len() ==> clause_holds(#[trigger] clauses[i], a)
}

/// A clause holding some literal and its negation among its first three; it
/// holds under every assignment.
pub open spec fn is_tautology(c: Seq<i32>) -> bool {
    c[0] == -c[1] || c[0] == -c[2] || c[1] == -c[2]
}

/// A literal names one of the variables `1..=n`.
pub open spec fn lit_in_range(lit: i32, n: int) -> bool {
    lit != 0 && 0 <= lit_var(lit) < n
}

/// Each clause has at least three literals, none of the first three is
/// `i32::MIN` (whose negation does not exist), and those of a clause that is
/// not a tautology name variables `1..=n`.
pub open spec fn well_formed_clauses(clauses: Seq<Seq<i32>>, n: int) -> bool {
    forall|i: int|
        0 <= i < clauses.len() ==> {
            &&& (#[trigger] clauses[i]).len() >= 3
            &&& forall|j: int| 0 <= j < 3 ==> #[trigger] clauses[i][j] != i32::MIN
            &&& !is_tautology(clauses[i]) ==> (forall|j: int|
                0 <= j < 3 ==> lit_in_range(#[trigger] clauses[i][j], n))
        }
}

/// Each clause has at least three literals and none of the first three is
/// `i32::MIN`.
pub open spec fn clauses_shaped(clauses: Seq<Seq<i32>>) -> bool {
    forall|i: int|
        0 <= i < clauses.len() ==> {
            &&& (#[trigger] clauses[i]).len() >= 3
            &&& forall|j: int| 0 <= j < 3 ==> #[trigger] clauses[i][j] != i32::MIN
        }
}

/// The clauses of an instance as sequences of literals.
pub open spec fn clause_view(ch: &Challenge) -> Seq<Seq<i32>> {
    ch.clauses@.map_values(|c: Vec<i32>| c@)
}

/// The variable index of a nonzero literal (`|lit| - 1`).
pub fn lit_index(lit: i32) -> (v: usize)
    requires
        lit != 0,
    ensures
        v == lit_var(lit),
{
    if lit > 0 {
        (lit - 1) as usize
    } else {
        let m: i64 = -(lit as i64);
        (m - 1) as usize
    }
}

/// Whether a literal names one of the variables `1..=n`.
fn check_lit_in_range(lit: i32, n: usize) -> (r: bool)
    requires
        lit != i32::MIN,
    ensures
        r == lit_in_range(lit, n as int),
{
    lit != 0 && lit_index(lit) < n
}

/// Whether every clause of an instance has at least three literals, none of
/// the first three `i32::MIN`, as `clauses_shaped` says.
pub fn check_clauses_shaped(challenge: &Challenge) -> (r: bool)
    ensures
        r == clauses_shaped(clause_view(challenge)),
{
    let ghost cv = clause_view(challenge);
    let mut i: usize = 0;
    while i < challenge.clauses.len()
        invariant
            cv == clause_view(challenge),
            i <= challenge.clauses.len(),
            forall|k: int|
                0 <= k < i ==> {
                    &&& (#[trigger] cv[k]).len() >= 3
                    &&& forall|j: int| 0 <= j < 3 ==> #[trigger] cv[k][j] != i32::MIN
                },
        decreases challenge.clauses.len() - i,
    {
        let c = &challenge.clauses[i];
        assert(c@ == cv[i as int]);
        if c.len() < 3 {
            return false;
        }
        if c[0] == i32::MIN || c[1] == i32::MIN || c[2] == i32::MIN {
            assert(cv[i as int][0] == i32::MIN || cv[i as int][1] == i32::MIN || cv[i as int][2] == i32::MIN);
            return false;
        }
        assert forall|j: int| 0 <= j < 3 implies #[trigger] cv[i as int][j] != i32::MIN by {}
        i = i + 1;
    }
    true
}

/// Whether the clauses of an instance are well-formed, as
/// `well_formed_clauses` says.
pub fn check_well_formed_clauses(challenge: &Challenge) -> (r: bool)
    ensures
        r == well_formed_clauses(clause_view(challenge), challenge.num_variables as int),
{
    let n = challenge.num_variables;
    let ghost cv = clause_view(challenge);
    let mut i: usize = 0;
    while i < challenge.clauses.len()
        invariant
            cv == clause_view(challenge),
            n == challenge.num_variables,
            i <= challenge.clauses.len(),
            forall|k: int|
                0 <= k < i ==> {
                    &&& (#[trigger] cv[k]).len() >= 3
                    &&& forall|j: int| 0 <= j < 3 ==> #[trigger] cv[k][j] != i32::MIN
                    &&& !is_tautology(cv[k]) ==> (forall|j: int|
                        0 <= j < 3 ==> lit_in_range(#[trigger] cv[k][j], n as int))
                },
        decreases challenge.clauses.len() - i,
    {
        let c = &challenge.clauses[i];
        assert(c@ == cv[i as int]);
        if c.len() < 3 {
            return false;
        }
        let a = c[0];
        let b = c[1];
        let d = c[2];
        if a == i32::MIN || b == i32::MIN || d == i32::MIN {
            assert(cv[i as int][0] == i32::MIN || cv[i as int][1] == i32::MIN || cv[i as int][2] == i32::MIN);
            return false;
        }
        assert forall|j: int| 0 <= j < 3 implies #[trigger] cv[i as int][j] != i32::MIN by {}
        if !(a == -b || a == -d || b == -d) {
            if !(check_lit_in_range(a, n) && check_lit_in_range(b, n) && check_lit_in_range(d, n)) {
                return false;
            }
            assert forall|j: int| 0 <= j < 3 implies lit_in_range(#[trigger] cv[i as int][j], n as int) by {}
        }
        i = i + 1;
    }
    true
}

/// The largest power of two not above `i` (1 when `i <= 1`).
pub open spec fn top_power(i: int) -> int
    decreases i,
{
    if i <= 1 {
        1
    } else {
        2 * top_power(i / 2)
    }
}

/// `top_power(i)` lies in `(i / 2, i]`, and is at least 2 from `i = 2` on.
pub proof fn lemma_top_power(i: int)
    requires
        i >= 1,
    ensures
        1 <= top_power(i) <= i,
        i < 2 * top_power(i),
        i >= 2 ==> top_power(i) >= 2,
    decreases i,
{
    if i >= 2 {
        lemma_top_power(i / 2);
    }
}

/// The Luby sequence, counted from 1: `1, 1, 2, 1, 1, 2, 4, 1, 1, 2, ...`.
/// Entry `i` is `2^(k-1)` when `i = 2^k - 1`; otherwise, with `2^(k-1)` the
/// largest power of two not above `i`, it repeats entry `i - 2^(k-1) + 1`.
pub open spec fn luby_seq(i: int) -> int
    decreases i,
{
    if i <= 1 {
        1
    } else {
        proof {
            lemma_top_power(i);
        }
        let h = top_power(i);
        if i + 1 == 2 * h {
            h
        } else {
            luby_seq(i - h + 1)
        }
    }
}

/// The restart length factor of restart number `k` (counted from 0): Luby
/// entry `k + 1`.
pub open spec fn restart_factor(k: u64) -> int {
    luby_seq(k + 1)
}

/// Every Luby entry lies in `1..=i`.
pub proof fn lemma_luby_bounds(i: int)
    requires
        i >= 1,
    ensures
        1 <= luby_seq(i) <= i,
    decreases i,
{
    if i >= 2 {
        lemma_top_power(i);
        let h = top_power(i);
        if i + 1 != 2 * h {
            lemma_luby_bounds(i - h + 1);
        }
    }
}

/// The largest power of two not above `i`.
fn top_power_of(i: u64) -> (r: u64)
    requires
        i >= 1,
    ensures
        r == top_power(i as int),
    decreases i,
{
    proof {
        lemma_top_power(i as int);
    }
    if i <= 1 {
        1
    } else {
        proof {
            lemma_top_power(i as int / 2);
        }
        2 * top_power_of(i / 2)
    }
}

/// Luby entry `k + 1`: the restart length factor of restart number `k`.
pub fn luby_formula(k: u64) -> (r: u64)
    requires
        k < u64::MAX,
    ensures
        r == restart_factor(k),
        r >= 1,
{
    let ghost target = luby_seq(k + 1);
    let mut i: u64 = k + 1;
    loop
        invariant
            i >= 1,
            luby_seq(i as int) == target,
            target == restart_factor(k),
        decreases i,
    {
        let h = top_power_of(i);
        proof {
            lemma_top_power(i as int);
        }
        if i - h == h - 1 {
            assert(luby_seq(i as int) == h as int);
            return h;
        }
        assert(luby_seq(i as int) == luby_seq(i - h + 1));
        i = i - h + 1;
    }
}

/// `a * b`, or `u64::MAX` when the product does not fit.
pub open spec fn saturating_product(a: u64, b: int) -> u64 {
    if a * b > u64::MAX { u64::MAX } else { (a * b) as u64 }
}

/// The number of flips allowed in restart number `restart_idx`:
/// `base * restart_factor(restart_idx)`, saturating at `u64::MAX`.
pub fn restart_budget(base: u64, restart_idx: u64) -> (r: u64)
    requires
        restart_idx < u64::MAX,
    ensures
        r == saturating_product(base, restart_factor(restart_idx)),
{
    let f = luby_formula(restart_idx);
    match base.checked_mul(f) {
        Some(p) => p,
        None => u64::MAX,
    }
}

} // verus!
