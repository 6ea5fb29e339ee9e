//! Satisfiability by the CDCL solver `splr`: the instance's clauses are handed
//! to the solver as they are (their first three literals each), and a model
//! it finds becomes the assignment.

use super::{clause3, clause_view, clauses_shaped, lit_in_range, lit_var, satisfies, Challenge, Solution};
use splr::{Certificate, SolverError};
use std::convert::TryFrom;
use vstd::prelude::*;

verus! {

/// `splr::SolverError`, opaque to the verifier.
#[verifier::external_type_specification]
#[verifier::external_body]
pub struct ExSolverError(SolverError);

/// No tunable parameters.
pub struct Hyperparameters {}

/// What the CDCL solver found: a model, listing variable `i + 1` as `i + 1`
/// (true) or `-(i + 1)` (false) at position `i`, or that there is none.
pub enum CdclAnswer {
    Sat(Vec<i32>),
    Unsat,
}

/// Why no answer was given.
pub enum CdclError {
    /// The solver reported an error (its description).
    Solver(String),
}

/// The magnitude of a literal.
pub open spec fn lit_abs(l: i32) -> int {
    if l >= 0 { l as int } else { -(l as int) }
}

/// The largest magnitude of a literal of a clause (0 for none).
pub open spec fn clause_max(c: Seq<i32>) -> int
    decreases c.len(),
{
    if c.len() == 0 {
        0
    } else {
        let m = clause_max(c.drop_last());
        if lit_abs(c.last()) > m { lit_abs(c.last()) } else { m }
    }
}

/// The number of variables the solver works with: the largest magnitude of
/// a literal in the clauses.
pub open spec fn max_var(cnf: Seq<Seq<i32>>) -> int
    decreases cnf.len(),
{
    if cnf.len() == 0 {
        0
    } else {
        let m = max_var(cnf.drop_last());
        if clause_max(cnf.last()) > m { clause_max(cnf.last()) } else { m }
    }
}

/// The assignment a model stands for: variable index `i` is true when the
/// model lists it positively.
pub open spec fn model_assignment(m: Seq<i32>) -> Seq<bool> {
    Seq::new(m.len(), |i: int| m[i] > 0)
}

/// Some assignment of `n` variables satisfies the clauses.
pub open spec fn satisfiable(clauses: Seq<Seq<i32>>, n: int) -> bool {
    exists|a: Seq<bool>| a.len() == n && #[trigger] satisfies(clauses, a)
}

/// Every clause has three literals, none of them `i32::MIN`.
pub open spec fn cnf_shape(cnf: Seq<Seq<i32>>) -> bool {
    forall|i: int|
        0 <= i < cnf.len() ==> (#[trigger] cnf[i]).len() == 3 && cnf[i][0] != i32::MIN && cnf[i][1]
            != i32::MIN && cnf[i][2] != i32::MIN
}

/// What the solver's answer claims of the clauses `cv` it was given: a model
/// has one entry per variable up to the largest literal magnitude, entry `i`
/// is `i + 1` or `-(i + 1)`, and it satisfies every clause; `Unsat` means that
/// no assignment of that many variables or more satisfies them.
pub open spec fn solver_claims(cv: Seq<Seq<i32>>, answer: CdclAnswer) -> bool {
    match answer {
        CdclAnswer::Sat(m) => {
            &&& m.len() == max_var(cv)
            &&& forall|i: int| 0 <= i < m.len() ==> #[trigger] m@[i] == i + 1 || m@[i] == -(i + 1)
            &&& satisfies(cv, model_assignment(m@))
        },
        CdclAnswer::Unsat => forall|a: Seq<bool>|
            a.len() >= max_var(cv) ==> !#[trigger] satisfies(cv, a),
    }
}

/// The assignment of `n` variables made from an answer: variable index `i` is
/// true when the model lists `i + 1` positively; all false when there is no
/// model.
pub open spec fn answer_assignment(n: nat, answer: CdclAnswer) -> Seq<bool> {
    Seq::new(
        n,
        |i: int|
            match answer {
                CdclAnswer::Sat(m) => i < m.len() && m@[i] > 0,
                CdclAnswer::Unsat => false,
            },
    )
}

/// The clauses as the solver gets them: the first three literals of each
/// clause of the instance.
pub open spec fn solver_cnf(challenge: &Challenge) -> Seq<Seq<i32>> {
    clause_view(challenge).map_values(|c: Seq<i32>| clause3(c))
}

/// Calls `splr`'s `Certificate::try_from` on the clauses (each of exactly
/// three literals) and tells its answer apart.  Claimed, as splr 0.17's
/// source and documentation give it: a model has one entry per variable up
/// to the largest literal magnitude, entry `i` is `i + 1` or `-(i + 1)`, and
/// it satisfies every clause (splr checks the model against its clauses
/// before returning it); `Unsat` means that no assignment satisfies the
/// clauses (the documented meaning, not checked at run time).  Which answer
/// comes, or whether an error (such as a timeout) comes instead, is not
/// claimed: it rests on the solver's run.
#[verifier::external_body]
fn splr_solve(cnf: Vec<Vec<i32>>) -> (r: Result<CdclAnswer, SolverError>)
    requires
        cnf_shape(cnf@.map_values(|c: Vec<i32>| c@)),
    ensures
        r matches Ok(answer) ==> solver_claims(cnf@.map_values(|c: Vec<i32>| c@), answer),
{
    match Certificate::try_from(cnf) {
        Ok(Certificate::SAT(m)) => Ok(CdclAnswer::Sat(m)),
        Ok(Certificate::UNSAT) => Ok(CdclAnswer::Unsat),
        Err(e) => Err(e),
    }
}

/// The `Debug` text of a `splr` error.  Nothing is claimed of the text.
#[verifier::external_body]
fn solver_error_text(e: &SolverError) -> String {
    format!("{:?}", e)
}

/// The clauses as the solver gets them: the first three literals of each.
pub fn cnf_of(challenge: &Challenge) -> (cnf: Vec<Vec<i32>>)
    requires
        clauses_shaped(clause_view(challenge)),
    ensures
        cnf@.map_values(|c: Vec<i32>| c@) == clause_view(challenge).map_values(|c: Seq<i32>| clause3(c)),
        cnf_shape(cnf@.map_values(|c: Vec<i32>| c@)),
{
    let ghost cv = clause_view(challenge);
    let mut cnf: Vec<Vec<i32>> = Vec::new();
    let mut i: usize = 0;
    while i < challenge.clauses.len()
        invariant
            cv == clause_view(challenge),
            clauses_shaped(cv),
            i <= challenge.clauses.len(),
            cnf.len() == i,
            forall|k: int| 0 <= k < i ==> (#[trigger] cnf@[k])@ == clause3(cv[k]),
        decreases challenge.clauses.len() - i,
    {
        let clause = &challenge.clauses[i];
        assert(clause@ == cv[i as int]);
        let c: Vec<i32> = vec![clause[0], clause[1], clause[2]];
        assert(c@ =~= clause3(cv[i as int]));
        cnf.push(c);
        i = i + 1;
    }
    proof {
        let v = cnf@.map_values(|c: Vec<i32>| c@);
        assert(v =~= cv.map_values(|c: Seq<i32>| clause3(c)));
        assert forall|k: int| 0 <= k < v.len() implies (#[trigger] v[k]).len() == 3 && v[k][0]
            != i32::MIN && v[k][1] != i32::MIN && v[k][2] != i32::MIN by {
            assert(v[k] == clause3(cv[k]));
            assert(cv[k][0] != i32::MIN && cv[k][1] != i32::MIN && cv[k][2] != i32::MIN);
        }
    }
    cnf
}

/// The assignment of `n` variables for an answer: variable index `i` is
/// true when the model lists `i + 1` positively; all false when there is no
/// model.
pub fn solution_from_answer(n: usize, answer: &CdclAnswer) -> (sol: Solution)
    requires
        answer matches CdclAnswer::Sat(m) ==> forall|i: int|
            0 <= i < m.len() ==> #[trigger] m@[i] == i + 1 || m@[i] == -(i + 1),
    ensures
        sol.variables@ == answer_assignment(n as nat, *answer),
{
    let mut variables: Vec<bool> = Vec::new();
    while variables.len() < n
        invariant
            variables.len() <= n,
            forall|i: int| 0 <= i < variables.len() ==> !#[trigger] variables@[i],
        decreases n - variables.len(),
    {
        variables.push(false);
    }
    if let CdclAnswer::Sat(m) = answer {
        let mut k: usize = 0;
        while k < m.len()
            invariant
                variables.len() == n,
                k <= m.len(),
                forall|i: int| 0 <= i < m.len() ==> #[trigger] m@[i] == i + 1 || m@[i] == -(i + 1),
                forall|i: int|
                    0 <= i < n ==> #[trigger] variables@[i] == (i < k && m@[i] > 0),
            decreases m.len() - k,
        {
            let v = m[k];
            assert(v == k + 1 || v == -(k + 1));
            let idx: usize = if v > 0 {
                (v - 1) as usize
            } else {
                (-(v as i64) - 1) as usize
            };
            assert(idx == k);
            if idx < n {
                variables.set(idx, v > 0);
            }
            k = k + 1;
        }
    }
    proof {
        assert(variables@ =~= Seq::new(
            n as nat,
            |i: int|
                match answer {
                    CdclAnswer::Sat(m) => i < m.len() && m@[i] > 0,
                    CdclAnswer::Unsat => false,
                },
        ));
    }
    Solution { variables }
}

/// Every one of the first three literals of every clause names a variable
/// `1..=n`.
pub open spec fn all_in_range(cs: Seq<Seq<i32>>, n: int) -> bool {
    forall|i: int, j: int| 0 <= i < cs.len() && 0 <= j < 3 ==> lit_in_range(#[trigger] cs[i][j], n)
}

/// Hands the clauses to `splr` and turns its answer into an assignment.
/// An `Ok` assignment is the one made from an answer that the solver may give
/// for the first three literals of each clause, with one value per variable; when the literals all name variables of the instance it either
/// satisfies the instance, or it is all false and the instance is not
/// satisfiable.  A solver error comes back as `CdclError::Solver`.
pub fn solve_challenge(challenge: &Challenge, hyperparameters: &Option<Hyperparameters>) -> (r: Result<
    Solution,
    CdclError,
>)
    requires
        clauses_shaped(clause_view(challenge)),
    ensures
        r matches Ok(sol) ==> exists|answer: CdclAnswer|
            #![trigger answer_assignment(challenge.num_variables as nat, answer)]
            solver_claims(solver_cnf(challenge), answer) && sol.variables@ == answer_assignment(
                challenge.num_variables as nat,
                answer,
            ),
        r matches Ok(sol) ==> {
            &&& sol.variables.len() == challenge.num_variables
            &&& all_in_range(clause_view(challenge), challenge.num_variables as int) ==> {
                ||| satisfies(clause_view(challenge), sol.variables@)
                ||| (forall|i: int| 0 <= i < sol.variables.len() ==> !#[trigger] sol.variables@[i])
                    && !satisfiable(clause_view(challenge), challenge.num_variables as int)
            }
        },
{
    let n = challenge.num_variables;
    let cnf = cnf_of(challenge);
    let ghost cv = cnf@.map_values(|c: Vec<i32>| c@);
    match splr_solve(cnf) {
        Ok(answer) => {
            let sol = solution_from_answer(n, &answer);
            proof {
                assert(cv == solver_cnf(challenge));
                assert(sol.variables@ == answer_assignment(n as nat, answer));
                lemma_answer_solves(challenge, cv, &answer, sol.variables@);
            }
            Ok(sol)
        },
        Err(e) => Err(CdclError::Solver(solver_error_text(&e))),
    }
}

/// Each literal's magnitude is at most the clause's largest, which is one of
/// them (or 0).
pub proof fn lemma_clause_max(c: Seq<i32>)
    ensures
        forall|j: int| 0 <= j < c.len() ==> lit_abs(#[trigger] c[j]) <= clause_max(c),
        clause_max(c) >= 0,
        c.len() == 0 || exists|j: int| 0 <= j < c.len() && clause_max(c) == lit_abs(#[trigger] c[j]),
    decreases c.len(),
{
    if c.len() > 0 {
        let d = c.drop_last();
        lemma_clause_max(d);
        assert forall|j: int| 0 <= j < c.len() implies lit_abs(#[trigger] c[j]) <= clause_max(c) by {
            if j < d.len() {
                assert(c[j] == d[j]);
            }
        }
        if lit_abs(c.last()) > clause_max(d) {
            assert(clause_max(c) == lit_abs(c[c.len() - 1]));
        } else if d.len() > 0 {
            let j = choose|j: int| 0 <= j < d.len() && clause_max(d) == lit_abs(#[trigger] d[j]);
            assert(c[j] == d[j]);
        } else {
            assert(clause_max(c) == lit_abs(c[0]) || clause_max(c) == 0);
            assert(lit_abs(c[0]) >= 0);
        }
    }
}

/// Each literal's magnitude is at most `max_var`; when all literals name
/// variables `1..=n`, `max_var` is at most `n`.
pub proof fn lemma_max_var(cnf: Seq<Seq<i32>>, n: int)
    requires
        cnf_shape(cnf),
    ensures
        forall|i: int, j: int|
            0 <= i < cnf.len() && 0 <= j < 3 ==> lit_abs(#[trigger] cnf[i][j]) <= max_var(cnf),
        all_in_range(cnf, n) && n >= 0 ==> max_var(cnf) <= n,
        max_var(cnf) >= 0,
    decreases cnf.len(),
{
    if cnf.len() > 0 {
        let d = cnf.drop_last();
        assert forall|i: int| 0 <= i < d.len() implies #[trigger] d[i] == cnf[i] by {}
        lemma_max_var(d, n);
        let c = cnf.last();
        assert(c == cnf[cnf.len() - 1]);
        lemma_clause_max(c);
        assert forall|i: int, j: int| 0 <= i < cnf.len() && 0 <= j < 3 implies lit_abs(
            #[trigger] cnf[i][j],
        ) <= max_var(cnf) by {
            if i < d.len() {
                assert(cnf[i][j] == d[i][j]);
            }
        }
        if all_in_range(cnf, n) && n >= 0 {
            assert forall|i: int, j: int| 0 <= i < d.len() && 0 <= j < 3 implies lit_in_range(
                #[trigger] d[i][j],
                n,
            ) by {
                assert(d[i][j] == cnf[i][j]);
            }
            assert(lit_in_range(cnf[cnf.len() - 1][0], n));
            assert(lit_in_range(cnf[cnf.len() - 1][1], n));
            assert(lit_in_range(cnf[cnf.len() - 1][2], n));
        }
    }
}

/// The assignment made from an answer of the solver satisfies the instance,
/// or it is all false and the instance is not satisfiable.
proof fn lemma_answer_solves(ch: &Challenge, cv: Seq<Seq<i32>>, answer: &CdclAnswer, vars: Seq<bool>)
    requires
        cv == clause_view(ch).map_values(|c: Seq<i32>| clause3(c)),
        cnf_shape(cv),
        clauses_shaped(clause_view(ch)),
        answer matches CdclAnswer::Sat(m) ==> {
            &&& m.len() == max_var(cv)
            &&& forall|i: int| 0 <= i < m.len() ==> #[trigger] m@[i] == i + 1 || m@[i] == -(i + 1)
            &&& satisfies(cv, model_assignment(m@))
        },
        answer matches CdclAnswer::Unsat ==> forall|a: Seq<bool>|
            a.len() >= max_var(cv) ==> !#[trigger] satisfies(cv, a),
        vars == Seq::new(
            ch.num_variables as nat,
            |i: int|
                match answer {
                    CdclAnswer::Sat(m) => i < m.len() && m@[i] > 0,
                    CdclAnswer::Unsat => false,
                },
        ),
    ensures
        all_in_range(clause_view(ch), ch.num_variables as int) ==> {
            ||| satisfies(clause_view(ch), vars)
            ||| (forall|i: int| 0 <= i < vars.len() ==> !#[trigger] vars[i]) && !satisfiable(
                clause_view(ch),
                ch.num_variables as int,
            )
        },
{
    let n = ch.num_variables as int;
    let v = clause_view(ch);
    if all_in_range(v, n) {
        assert(all_in_range(cv, n)) by {
            assert forall|i: int, j: int| 0 <= i < cv.len() && 0 <= j < 3 implies lit_in_range(
                #[trigger] cv[i][j],
                n,
            ) by {
                assert(cv[i] == clause3(v[i]));
                assert(v[i].len() >= 3);
                assert(lit_in_range(v[i][j], n));
            }
        }
        lemma_max_var(cv, n);
        // An assignment satisfies the instance exactly when it satisfies the
        // triples handed to the solver.
        assert forall|a: Seq<bool>| #[trigger] satisfies(v, a) == satisfies(cv, a) by {
            if satisfies(v, a) {
                assert forall|i: int| 0 <= i < cv.len() implies super::clause_holds(#[trigger] cv[i], a) by {
                    assert(super::clause_holds(v[i], a));
                    let k = choose|k: int| 0 <= k < 3 && super::lit_holds(#[trigger] v[i][k], a);
                    assert(cv[i][k] == v[i][k]);
                }
            }
            if satisfies(cv, a) {
                assert forall|i: int| 0 <= i < v.len() implies super::clause_holds(#[trigger] v[i], a) by {
                    assert(super::clause_holds(cv[i], a));
                    let k = choose|k: int| 0 <= k < 3 && super::lit_holds(#[trigger] cv[i][k], a);
                    assert(cv[i][k] == v[i][k]);
                }
            }
        }
        match answer {
            CdclAnswer::Sat(m) => {
                let ma = model_assignment(m@);
                assert forall|i: int| 0 <= i < cv.len() implies super::clause_holds(#[trigger] cv[i], vars) by {
                    assert(super::clause_holds(cv[i], ma));
                    let k = choose|k: int| 0 <= k < 3 && super::lit_holds(#[trigger] cv[i][k], ma);
                    let l = cv[i][k];
                    assert(lit_in_range(l, n));
                    assert(lit_abs(l) <= max_var(cv));
                    assert(lit_var(l) < m.len());
                    assert(vars[lit_var(l)] == ma[lit_var(l)]);
                    assert(super::lit_holds(cv[i][k], vars));
                }
            },
            CdclAnswer::Unsat => {
                if satisfiable(v, n) {
                    let a = choose|a: Seq<bool>| a.len() == n && #[trigger] satisfies(v, a);
                    assert(satisfies(cv, a));
                }
            },
        }
    }
}

} // verus!
