//! The local-search machinery of the probSAT solvers: the clause set without
//! tautologies and with occurrence lists, and the search state (assignment,
//! number of true literals per clause, list of unsatisfied clauses, tabu
//! marks) kept up to date under flips.

use super::{
    clause3, clause_holds, clause_view, is_tautology, lit_holds, lit_in_range, lit_index, lit_var,
    restart_budget, restart_factor, satisfies, saturating_product, well_formed_clauses, Challenge,
};
use crate::rng::{rng_below, rng_next_bool};
use rand::rngs::SmallRng;
use vstd::prelude::*;

verus! {

/// Whether `lit` is the literal of variable index `v` with the given sign.
pub open spec fn is_lit_of(lit: i32, v: int, positive: bool) -> bool {
    lit != 0 && lit_var(lit) == v && (lit > 0) == positive
}

/// The clauses kept by the solvers: the first three literals of each clause
/// that is not a tautology, in order.
pub open spec fn kept_clauses(cs: Seq<Seq<i32>>) -> Seq<Seq<i32>>
    decreases cs.len(),
{
    if cs.len() == 0 {
        seq![]
    } else {
        let rest = kept_clauses(cs.drop_last());
        if is_tautology(cs.last()) {
            rest
        } else {
            rest.push(clause3(cs.last()))
        }
    }
}

/// Clauses stored as triples, as sequences of literals.
pub open spec fn clause_seqs(v: Seq<[i32; 3]>) -> Seq<Seq<i32>> {
    v.map_values(|c: [i32; 3]| c@)
}

/// The index `ci` once for each of the first `j` literals of `cl` that is the
/// literal of `v` with the given sign.
pub open spec fn occ_in_clause(cl: Seq<i32>, ci: int, v: int, positive: bool, j: int) -> Seq<u32>
    decreases j,
{
    if j <= 0 {
        seq![]
    } else {
        let rest = occ_in_clause(cl, ci, v, positive, j - 1);
        if is_lit_of(cl[j - 1], v, positive) {
            rest.push(ci as u32)
        } else {
            rest
        }
    }
}

/// The occurrence list of variable index `v` with the given sign: the index
/// of each clause once per literal of that sign in it, in clause order.
pub open spec fn occ_list(cls: Seq<Seq<i32>>, v: int, positive: bool) -> Seq<u32>
    decreases cls.len(),
{
    if cls.len() == 0 {
        seq![]
    } else {
        occ_list(cls.drop_last(), v, positive) + occ_in_clause(
            cls.last(),
            cls.len() - 1,
            v,
            positive,
            3,
        )
    }
}

/// The clauses the local search works on, with their occurrence lists.
pub struct Formula {
    pub num_variables: usize,
    pub clauses: Vec<[i32; 3]>,
    /// For each variable index, the clauses where it occurs positively.
    pub pos_clauses: Vec<Vec<u32>>,
    /// For each variable index, the clauses where it occurs negatively.
    pub neg_clauses: Vec<Vec<u32>>,
}

impl Formula {
    /// The clauses as sequences of literals.
    pub open spec fn cls(&self) -> Seq<Seq<i32>> {
        clause_seqs(self.clauses@)
    }

    /// Every literal names a variable, the occurrence lists are exact, and
    /// clause indices and counts of occurrences fit in `u32`.
    pub open spec fn well_formed(&self) -> bool {
        let n = self.num_variables as int;
        &&& 3 * self.clauses.len() <= u32::MAX
        &&& forall|c: int, j: int|
            0 <= c < self.clauses.len() && 0 <= j < 3 ==> lit_in_range(
                #[trigger] self.cls()[c][j],
                n,
            )
        &&& self.pos_clauses.len() == n
        &&& self.neg_clauses.len() == n
        &&& forall|v: int|
            0 <= v < n ==> (#[trigger] self.pos_clauses@[v])@ == occ_list(self.cls(), v, true)
        &&& forall|v: int|
            0 <= v < n ==> (#[trigger] self.neg_clauses@[v])@ == occ_list(self.cls(), v, false)
    }

    /// Keeps the clauses that are not tautologies (as triples of their first
    /// three literals) and lists, for each variable, the clauses where it
    /// occurs with each sign.
    pub fn new(challenge: &Challenge) -> (f: Formula)
        requires
            well_formed_clauses(clause_view(challenge), challenge.num_variables as int),
            3 * challenge.clauses.len() <= u32::MAX,
        ensures
            f.well_formed(),
            f.num_variables == challenge.num_variables,
            f.cls() == kept_clauses(clause_view(challenge)),
    {
        let n = challenge.num_variables;
        let ghost cv = clause_view(challenge);
        let mut clauses: Vec<[i32; 3]> = Vec::new();
        let mut i: usize = 0;
        while i < challenge.clauses.len()
            invariant
                cv == clause_view(challenge),
                well_formed_clauses(cv, n as int),
                i <= challenge.clauses.len(),
                clauses.len() <= i,
                clause_seqs(clauses@) == kept_clauses(cv.take(i as int)),
            decreases challenge.clauses.len() - i,
        {
            let cl = &challenge.clauses[i];
            assert(cl@ == cv[i as int]);
            assert(cv[i as int][0] != i32::MIN && cv[i as int][1] != i32::MIN && cv[i as int][2]
                != i32::MIN);
            let a = cl[0];
            let b = cl[1];
            let c = cl[2];
            let ghost before = clauses@;
            assert(cv.take(i + 1).drop_last() =~= cv.take(i as int));
            if !(a == -b || a == -c || b == -c) {
                let t: [i32; 3] = [a, b, c];
                clauses.push(t);
                assert(t@ =~= clause3(cv[i as int]));
                assert(clause_seqs(clauses@) =~= clause_seqs(before).push(t@));
            }
            i = i + 1;
        }
        assert(cv.take(i as int) =~= cv);
        let ghost cls = clause_seqs(clauses@);
        proof {
            lemma_kept_in_range(cv, n as int);
        }
        let mut pos_clauses: Vec<Vec<u32>> = Vec::new();
        let mut neg_clauses: Vec<Vec<u32>> = Vec::new();
        while pos_clauses.len() < n
            invariant
                pos_clauses.len() == neg_clauses.len(),
                pos_clauses.len() <= n,
                forall|v: int| 0 <= v < pos_clauses.len() ==> (#[trigger] pos_clauses@[v])@ == Seq::<
                    u32,
                >::empty(),
                forall|v: int| 0 <= v < neg_clauses.len() ==> (#[trigger] neg_clauses@[v])@ == Seq::<
                    u32,
                >::empty(),
            decreases n - pos_clauses.len(),
        {
            pos_clauses.push(Vec::new());
            neg_clauses.push(Vec::new());
        }
        let mut ci: usize = 0;
        while ci < clauses.len()
            invariant
                cls == clause_seqs(clauses@),
                cls == kept_clauses(cv),
                3 * clauses.len() <= u32::MAX,
                forall|c: int, j: int|
                    0 <= c < clauses.len() && 0 <= j < 3 ==> lit_in_range(#[trigger] cls[c][j], n as int),
                ci <= clauses.len(),
                pos_clauses.len() == n,
                neg_clauses.len() == n,
                forall|v: int|
                    0 <= v < n ==> (#[trigger] pos_clauses@[v])@ == occ_list(cls.take(ci as int), v, true),
                forall|v: int|
                    0 <= v < n ==> (#[trigger] neg_clauses@[v])@ == occ_list(cls.take(ci as int), v, false),
            decreases clauses.len() - ci,
        {
            let mut j: usize = 0;
            let ghost base = cls.take(ci as int);
            while j < 3
                invariant
                    cls == clause_seqs(clauses@),
                    3 * clauses.len() <= u32::MAX,
                    forall|c: int, j: int|
                        0 <= c < clauses.len() && 0 <= j < 3 ==> lit_in_range(#[trigger] cls[c][j], n as int),
                    ci < clauses.len(),
                    base == cls.take(ci as int),
                    j <= 3,
                    pos_clauses.len() == n,
                    neg_clauses.len() == n,
                    forall|v: int|
                        0 <= v < n ==> (#[trigger] pos_clauses@[v])@ == occ_list(base, v, true)
                            + occ_in_clause(cls[ci as int], ci as int, v, true, j as int),
                    forall|v: int|
                        0 <= v < n ==> (#[trigger] neg_clauses@[v])@ == occ_list(base, v, false)
                            + occ_in_clause(cls[ci as int], ci as int, v, false, j as int),
                decreases 3 - j,
            {
                let lit = clauses[ci][j];
                assert(lit == cls[ci as int][j as int]);
                let v = lit_index(lit);
                let ghost p0 = pos_clauses@;
                let ghost n0 = neg_clauses@;
                if lit > 0 {
                    pos_clauses[v].push(ci as u32);
                } else {
                    neg_clauses[v].push(ci as u32);
                }
                proof {
                    assert forall|w: int| 0 <= w < n implies (#[trigger] pos_clauses@[w])@ == occ_list(
                        base,
                        w,
                        true,
                    ) + occ_in_clause(cls[ci as int], ci as int, w, true, j + 1) by {
                        if w == v && lit > 0 {
                            assert(pos_clauses@[w]@ =~= p0[w]@.push(ci as u32));
                        } else {
                            assert(pos_clauses@[w] == p0[w]);
                        }
                    }
                    assert forall|w: int| 0 <= w < n implies (#[trigger] neg_clauses@[w])@ == occ_list(
                        base,
                        w,
                        false,
                    ) + occ_in_clause(cls[ci as int], ci as int, w, false, j + 1) by {
                        if w == v && lit < 0 {
                            assert(neg_clauses@[w]@ =~= n0[w]@.push(ci as u32));
                        } else {
                            assert(neg_clauses@[w] == n0[w]);
                        }
                    }
                }
                j = j + 1;
            }
            proof {
                let next = cls.take(ci + 1);
                assert(next.drop_last() =~= base);
                assert(next.last() == cls[ci as int]);
            }
            ci = ci + 1;
        }
        assert(cls.take(ci as int) =~= cls);
        Formula { num_variables: n, clauses, pos_clauses, neg_clauses }
    }
}

/// The clauses kept from well-formed clauses name variables `1..=n`, and
/// there are no more of them than clauses.
pub proof fn lemma_kept_in_range(cs: Seq<Seq<i32>>, n: int)
    requires
        well_formed_clauses(cs, n),
    ensures
        kept_clauses(cs).len() <= cs.len(),
        forall|c: int, j: int|
            0 <= c < kept_clauses(cs).len() && 0 <= j < 3 ==> lit_in_range(
                #[trigger] kept_clauses(cs)[c][j],
                n,
            ),
    decreases cs.len(),
{
    if cs.len() > 0 {
        let d = cs.drop_last();
        assert forall|i: int| 0 <= i < d.len() implies (#[trigger] d[i]) == cs[i] by {}
        lemma_kept_in_range(d, n);
        let last = cs.last();
        assert(last == cs[cs.len() - 1]);
        if !is_tautology(last) {
            let k = kept_clauses(cs);
            assert forall|c: int, j: int| 0 <= c < k.len() && 0 <= j < 3 implies lit_in_range(
                #[trigger] k[c][j],
                n,
            ) by {
                if c == k.len() - 1 {
                    assert(k[c] == clause3(last));
                    assert(clause3(last)[j] == last[j]);
                } else {
                    assert(k[c] == kept_clauses(d)[c]);
                }
            }
        }
    }
}

/// The number of the three literals of a clause that hold.
pub open spec fn true_count(cl: Seq<i32>, a: Seq<bool>) -> int {
    (if lit_holds(cl[0], a) { 1int } else { 0 }) + (if lit_holds(cl[1], a) { 1int } else { 0 }) + (
    if lit_holds(cl[2], a) { 1int } else { 0 })
}

/// The number of the three literals of a clause that are the literal of `v`
/// with the given sign.
pub open spec fn lit_count(cl: Seq<i32>, v: int, positive: bool) -> int {
    (if is_lit_of(cl[0], v, positive) { 1int } else { 0 }) + (if is_lit_of(cl[1], v, positive) {
        1int
    } else {
        0
    }) + (if is_lit_of(cl[2], v, positive) { 1int } else { 0 })
}

/// How often `x` occurs in `s`.
pub open spec fn count_in(s: Seq<u32>, x: int) -> int
    decreases s.len(),
{
    if s.len() == 0 {
        0
    } else {
        count_in(s.drop_last(), x) + if s.last() == x { 1int } else { 0 }
    }
}

/// The number of zero counts among the first `c`.
pub open spec fn zero_count(sat: Seq<u8>, c: int) -> int
    decreases c,
{
    if c <= 0 {
        0
    } else {
        zero_count(sat, c - 1) + if sat[c - 1] == 0 { 1int } else { 0 }
    }
}

/// The list of unsatisfied clauses and the position map agree with the
/// counts of true literals: the list holds each clause with count zero
/// exactly once, and the map gives its position (`-1` for the others).
pub open spec fn list_ok(sat: Seq<u8>, unsat: Seq<u32>, pos: Seq<i32>) -> bool {
    let nc = sat.len();
    &&& pos.len() == nc
    &&& unsat.len() == zero_count(sat, nc as int)
    &&& forall|i: int|
        0 <= i < unsat.len() ==> (#[trigger] unsat[i]) < nc && sat[unsat[i] as int] == 0 && pos[unsat[i] as int]
            == i
    &&& forall|c: int|
        0 <= c < nc ==> if #[trigger] sat[c] == 0 {
            0 <= pos[c] < unsat.len() && unsat[pos[c] as int] == c
        } else {
            pos[c] == -1
        }
}

/// The indices of the clauses without a true literal among the first `c`,
/// in order.
pub open spec fn unsat_order(cls: Seq<Seq<i32>>, a: Seq<bool>, c: int) -> Seq<u32>
    decreases c,
{
    if c <= 0 {
        seq![]
    } else {
        let rest = unsat_order(cls, a, c - 1);
        if true_count(cls[c - 1], a) == 0 {
            rest.push((c - 1) as u32)
        } else {
            rest
        }
    }
}

/// Counts, list and positions after clause `cj` loses a true literal: the
/// count drops, and a clause left without one joins the end of the list.
pub open spec fn lose_one(t: (Seq<u8>, Seq<u32>, Seq<i32>), cj: u32) -> (Seq<u8>, Seq<u32>, Seq<i32>) {
    let c = cj as int;
    let k = (t.0[c] - 1) as u8;
    if k == 0 {
        (t.0.update(c, k), t.1.push(cj), t.2.update(c, t.1.len() as i32))
    } else {
        (t.0.update(c, k), t.1, t.2)
    }
}

/// Counts, list and positions after clause `cj` gains a true literal: the
/// count rises, and a clause that was without one leaves the list, its place
/// taken by the list's last entry.
pub open spec fn gain_one(t: (Seq<u8>, Seq<u32>, Seq<i32>), cj: u32) -> (Seq<u8>, Seq<u32>, Seq<i32>) {
    let c = cj as int;
    let k = (t.0[c] + 1) as u8;
    let sat = t.0.update(c, k);
    if k == 1 {
        let p = t.2[c] as int;
        let last = t.1.len() - 1;
        if p != last {
            let moved = t.1[last];
            (sat, t.1.update(p, moved).drop_last(), t.2.update(moved as int, p as i32).update(c, -1i32))
        } else {
            (sat, t.1.drop_last(), t.2.update(c, -1i32))
        }
    } else {
        (sat, t.1, t.2)
    }
}

/// `lose_one` for each entry of `l` in turn.
pub open spec fn lose_all(t: (Seq<u8>, Seq<u32>, Seq<i32>), l: Seq<u32>) -> (Seq<u8>, Seq<u32>, Seq<i32>)
    decreases l.len(),
{
    if l.len() == 0 {
        t
    } else {
        lose_one(lose_all(t, l.drop_last()), l.last())
    }
}

/// `gain_one` for each entry of `l` in turn.
pub open spec fn gain_all(t: (Seq<u8>, Seq<u32>, Seq<i32>), l: Seq<u32>) -> (Seq<u8>, Seq<u32>, Seq<i32>)
    decreases l.len(),
{
    if l.len() == 0 {
        t
    } else {
        gain_one(gain_all(t, l.drop_last()), l.last())
    }
}

/// The number of entries of `l` whose clause has exactly one true literal.
pub open spec fn break_count_of(l: Seq<u32>, sat: Seq<u8>) -> int
    decreases l.len(),
{
    if l.len() == 0 {
        0
    } else {
        break_count_of(l.drop_last(), sat) + if sat[l.last() as int] == 1 { 1int } else { 0 }
    }
}

/// The state of the local search.
pub struct SearchState {
    pub assignment: Vec<bool>,
    /// For each clause, the number of its literals that hold.
    pub clause_sat_lits: Vec<u8>,
    /// The clauses without a true literal.
    pub unsat_clauses: Vec<u32>,
    /// For each clause, its position in `unsat_clauses`, or `-1`.
    pub unsat_pos: Vec<i32>,
    /// For each variable, the step at which it was last flipped, or `-1`.
    pub tabu: Vec<i64>,
}

impl SearchState {
    /// Counts, list and positions together.
    pub open spec fn lists(&self) -> (Seq<u8>, Seq<u32>, Seq<i32>) {
        (self.clause_sat_lits@, self.unsat_clauses@, self.unsat_pos@)
    }

    /// The counts are those of the assignment, and the list and positions
    /// agree with them.
    pub open spec fn consistent(&self, f: &Formula) -> bool {
        &&& f.well_formed()
        &&& self.assignment.len() == f.num_variables
        &&& self.tabu.len() == f.num_variables
        &&& self.clause_sat_lits.len() == f.clauses.len()
        &&& forall|c: int|
            0 <= c < f.clauses.len() ==> #[trigger] self.clause_sat_lits@[c] == true_count(
                f.cls()[c],
                self.assignment@,
            )
        &&& list_ok(self.clause_sat_lits@, self.unsat_clauses@, self.unsat_pos@)
    }
}

pub proof fn lemma_zero_count_bounds(sat: Seq<u8>, c: int)
    requires
        0 <= c,
    ensures
        0 <= zero_count(sat, c) <= c,
    decreases c,
{
    if c > 0 {
        lemma_zero_count_bounds(sat, c - 1);
    }
}

/// Counting zeros looks only at the first `c` entries.
pub proof fn lemma_zero_count_prefix(sat: Seq<u8>, other: Seq<u8>, c: int)
    requires
        0 <= c <= sat.len(),
        c <= other.len(),
        forall|i: int| 0 <= i < c ==> sat[i] == other[i],
    ensures
        zero_count(sat, c) == zero_count(other, c),
    decreases c,
{
    if c > 0 {
        lemma_zero_count_prefix(sat, other, c - 1);
    }
}

/// Changing one count changes the number of zeros accordingly.
pub proof fn lemma_zero_count_update(sat: Seq<u8>, i: int, k: u8, c: int)
    requires
        0 <= i < sat.len(),
        0 <= c <= sat.len(),
    ensures
        zero_count(sat.update(i, k), c) == zero_count(sat, c) + if i < c {
            (if k == 0 { 1int } else { 0 }) - (if sat[i] == 0 { 1int } else { 0 })
        } else {
            0
        },
    decreases c,
{
    if c > 0 {
        lemma_zero_count_update(sat, i, k, c - 1);
    }
}

/// Clause `cj` losing one of its (at least one) true literals keeps list and
/// positions in agreement with the counts.
pub proof fn lemma_lose_one(t: (Seq<u8>, Seq<u32>, Seq<i32>), cj: u32)
    requires
        list_ok(t.0, t.1, t.2),
        cj < t.0.len(),
        t.0[cj as int] >= 1,
        t.0.len() < i32::MAX,
    ensures
        list_ok(lose_one(t, cj).0, lose_one(t, cj).1, lose_one(t, cj).2),
        lose_one(t, cj).0 == t.0.update(cj as int, (t.0[cj as int] - 1) as u8),
{
    let c = cj as int;
    let nc = t.0.len() as int;
    let k = (t.0[c] - 1) as u8;
    let r = lose_one(t, cj);
    lemma_zero_count_update(t.0, c, k, nc);
    lemma_zero_count_bounds(t.0, nc);
    assert(t.2[c] == -1);
    assert forall|i: int| 0 <= i < t.1.len() implies t.1[i] != cj by {}
    if k == 0 {
        assert forall|i: int| 0 <= i < r.1.len() implies (#[trigger] r.1[i]) < nc && r.0[r.1[i] as int]
            == 0 && r.2[r.1[i] as int] == i by {
            if i < t.1.len() {
                assert(r.1[i] == t.1[i]);
            }
        }
        assert forall|d: int| 0 <= d < nc implies if #[trigger] r.0[d] == 0 {
            0 <= r.2[d] < r.1.len() && r.1[r.2[d] as int] == d
        } else {
            r.2[d] == -1
        } by {
            if d != c {
                assert(r.0[d] == t.0[d]);
            }
        }
    }
}

/// Clause `cj` gaining a true literal keeps list and positions in agreement
/// with the counts.
pub proof fn lemma_gain_one(t: (Seq<u8>, Seq<u32>, Seq<i32>), cj: u32)
    requires
        list_ok(t.0, t.1, t.2),
        cj < t.0.len(),
        t.0[cj as int] < 255,
        t.0.len() < i32::MAX,
    ensures
        list_ok(gain_one(t, cj).0, gain_one(t, cj).1, gain_one(t, cj).2),
        gain_one(t, cj).0 == t.0.update(cj as int, (t.0[cj as int] + 1) as u8),
{
    let c = cj as int;
    let nc = t.0.len() as int;
    let k = (t.0[c] + 1) as u8;
    let r = gain_one(t, cj);
    lemma_zero_count_update(t.0, c, k, nc);
    lemma_zero_count_bounds(t.0, nc);
    if k == 1 {
        let p = t.2[c] as int;
        let last = t.1.len() - 1;
        assert(0 <= p < t.1.len() && t.1[p] == cj);
        if p != last {
            let moved = t.1[last];
            assert(moved != cj);
            assert(t.2[moved as int] == last);
            assert forall|i: int| 0 <= i < r.1.len() implies (#[trigger] r.1[i]) < nc && r.0[r.1[i]
                as int] == 0 && r.2[r.1[i] as int] == i by {
                if i == p {
                    assert(r.1[i] == moved);
                } else {
                    assert(r.1[i] == t.1[i]);
                    assert(t.1[i] != cj && t.1[i] != moved);
                }
            }
            assert forall|d: int| 0 <= d < nc implies if #[trigger] r.0[d] == 0 {
                0 <= r.2[d] < r.1.len() && r.1[r.2[d] as int] == d
            } else {
                r.2[d] == -1
            } by {
                if d != c && d != moved {
                    assert(r.0[d] == t.0[d]);
                    if t.0[d] == 0 {
                        assert(t.2[d] != last);
                        assert(t.2[d] != p);
                    }
                }
            }
        } else {
            assert forall|i: int| 0 <= i < r.1.len() implies (#[trigger] r.1[i]) < nc && r.0[r.1[i]
                as int] == 0 && r.2[r.1[i] as int] == i by {
                assert(r.1[i] == t.1[i]);
                assert(t.1[i] != cj);
            }
            assert forall|d: int| 0 <= d < nc implies if #[trigger] r.0[d] == 0 {
                0 <= r.2[d] < r.1.len() && r.1[r.2[d] as int] == d
            } else {
                r.2[d] == -1
            } by {
                if d != c {
                    assert(r.0[d] == t.0[d]);
                    if t.0[d] == 0 {
                        assert(t.2[d] != last);
                    }
                }
            }
        }
    } else {
        assert(t.2[c] == -1);
        assert forall|i: int| 0 <= i < t.1.len() implies t.1[i] != cj by {}
        assert forall|d: int| 0 <= d < nc implies if #[trigger] r.0[d] == 0 {
            0 <= r.2[d] < r.1.len() && r.1[r.2[d] as int] == d
        } else {
            r.2[d] == -1
        } by {
            if d != c {
                assert(r.0[d] == t.0[d]);
            }
        }
    }
}

pub proof fn lemma_count_in_add(a: Seq<u32>, b: Seq<u32>, x: int)
    ensures
        count_in(a + b, x) == count_in(a, x) + count_in(b, x),
    decreases b.len(),
{
    if b.len() > 0 {
        lemma_count_in_add(a, b.drop_last(), x);
        assert((a + b).drop_last() =~= a + b.drop_last());
    } else {
        assert(a + b =~= a);
    }
}


/// Counting in a longer prefix counts at least as much.
pub proof fn lemma_count_in_prefix(s: Seq<u32>, i: int, x: int)
    requires
        0 <= i < s.len(),
    ensures
        count_in(s.take(i + 1), x) == count_in(s.take(i), x) + if s[i] == x { 1int } else { 0 },
        count_in(s.take(i + 1), x) <= count_in(s, x),
    decreases s.len() - i,
{
    assert(s.take(i + 1).drop_last() =~= s.take(i));
    if i + 1 < s.len() {
        lemma_count_in_prefix(s, i + 1, x);
    } else {
        assert(s.take(i + 1) =~= s);
    }
}

proof fn lemma_occ_in_clause(cl: Seq<i32>, ci: int, v: int, positive: bool, j: int, x: int)
    requires
        0 <= j <= 3,
        0 <= ci <= u32::MAX,
    ensures
        count_in(occ_in_clause(cl, ci, v, positive, j), x) == if x == ci {
            (if j > 0 && is_lit_of(cl[0], v, positive) { 1int } else { 0 }) + (if j > 1
                && is_lit_of(cl[1], v, positive) { 1int } else { 0 }) + (if j > 2 && is_lit_of(
                cl[2],
                v,
                positive,
            ) { 1int } else { 0 })
        } else {
            0
        },
        occ_in_clause(cl, ci, v, positive, j).len() <= j,
        forall|i: int|
            0 <= i < occ_in_clause(cl, ci, v, positive, j).len() ==> #[trigger] occ_in_clause(
                cl,
                ci,
                v,
                positive,
                j,
            )[i] == ci,
    decreases j,
{
    if j > 0 {
        lemma_occ_in_clause(cl, ci, v, positive, j - 1, x);
        let rest = occ_in_clause(cl, ci, v, positive, j - 1);
        if is_lit_of(cl[j - 1], v, positive) {
            assert(rest.push(ci as u32).drop_last() =~= rest);
        }
    }
}

/// The occurrence list of `v` with a sign holds each clause as often as the
/// clause has that literal, and nothing else; it is at most three times as
/// long as the clause list.
pub proof fn lemma_occ_count(cls: Seq<Seq<i32>>, v: int, positive: bool, x: int)
    requires
        cls.len() <= u32::MAX,
    ensures
        count_in(occ_list(cls, v, positive), x) == if 0 <= x < cls.len() {
            lit_count(cls[x], v, positive)
        } else {
            0
        },
        occ_list(cls, v, positive).len() <= 3 * cls.len(),
        forall|i: int|
            0 <= i < occ_list(cls, v, positive).len() ==> (#[trigger] occ_list(cls, v, positive)[i])
                < cls.len(),
    decreases cls.len(),
{
    if cls.len() > 0 {
        let d = cls.drop_last();
        lemma_occ_count(d, v, positive, x);
        let ci = cls.len() - 1;
        lemma_occ_in_clause(cls.last(), ci, v, positive, 3, x);
        lemma_count_in_add(occ_list(d, v, positive), occ_in_clause(cls.last(), ci, v, positive, 3), x);
        if 0 <= x < d.len() {
            assert(d[x] == cls[x]);
        }
        let a = occ_list(d, v, positive);
        let b = occ_in_clause(cls.last(), ci, v, positive, 3);
        assert forall|i: int| 0 <= i < (a + b).len() implies (#[trigger] (a + b)[i]) < cls.len() by {
            if i < a.len() {
                assert((a + b)[i] == a[i]);
            } else {
                assert((a + b)[i] == b[i - a.len()]);
            }
        }
    }
}

/// Flipping variable `v` turns its literals of the old value's sign false and
/// those of the other sign true.
pub proof fn lemma_true_count_flip(cl: Seq<i32>, a: Seq<bool>, v: int)
    requires
        0 <= v < a.len(),
        cl.len() >= 3,
        forall|j: int| 0 <= j < 3 ==> #[trigger] cl[j] != 0 && 0 <= lit_var(cl[j]) < a.len(),
    ensures
        true_count(cl, a.update(v, !a[v])) == true_count(cl, a) - lit_count(cl, v, a[v])
            + lit_count(cl, v, !a[v]),
        lit_count(cl, v, a[v]) <= true_count(cl, a),
        0 <= true_count(cl, a) <= 3,
{
    let b = a.update(v, !a[v]);
    assert(cl[0] != 0 && cl[1] != 0 && cl[2] != 0);
    assert(lit_holds(cl[0], b) == if lit_var(cl[0]) == v { !lit_holds(cl[0], a) } else { lit_holds(cl[0], a) });
    assert(lit_holds(cl[1], b) == if lit_var(cl[1]) == v { !lit_holds(cl[1], a) } else { lit_holds(cl[1], a) });
    assert(lit_holds(cl[2], b) == if lit_var(cl[2]) == v { !lit_holds(cl[2], a) } else { lit_holds(cl[2], a) });
}

/// Appending the count of one more clause (and listing it when zero) keeps
/// list and positions in agreement with the counts.
pub proof fn lemma_list_push(sat: Seq<u8>, unsat: Seq<u32>, pos: Seq<i32>, x: u8)
    requires
        list_ok(sat, unsat, pos),
        sat.len() < i32::MAX,
    ensures
        x == 0 ==> list_ok(sat.push(x), unsat.push(sat.len() as u32), pos.push(unsat.len() as i32)),
        x != 0 ==> list_ok(sat.push(x), unsat, pos.push(-1i32)),
{
    let c = sat.len() as int;
    let s2 = sat.push(x);
    lemma_zero_count_prefix(sat, s2, c);
    lemma_zero_count_bounds(sat, c);
    if x == 0 {
        let u2 = unsat.push(c as u32);
        let p2 = pos.push(unsat.len() as i32);
        assert forall|i: int| 0 <= i < u2.len() implies (#[trigger] u2[i]) < s2.len() && s2[u2[i] as int]
            == 0 && p2[u2[i] as int] == i by {
            if i < unsat.len() {
                assert(u2[i] == unsat[i]);
            }
        }
        assert forall|d: int| 0 <= d < s2.len() implies if #[trigger] s2[d] == 0 {
            0 <= p2[d] < u2.len() && u2[p2[d] as int] == d
        } else {
            p2[d] == -1
        } by {
            if d < c {
                assert(s2[d] == sat[d]);
            }
        }
    } else {
        let p2 = pos.push(-1i32);
        assert forall|i: int| 0 <= i < unsat.len() implies (#[trigger] unsat[i]) < s2.len() && s2[unsat[i]
            as int] == 0 && p2[unsat[i] as int] == i by {}
        assert forall|d: int| 0 <= d < s2.len() implies if #[trigger] s2[d] == 0 {
            0 <= p2[d] < unsat.len() && unsat[p2[d] as int] == d
        } else {
            p2[d] == -1
        } by {
            if d < c {
                assert(s2[d] == sat[d]);
            }
        }
    }
}

/// Whether a (nonzero) literal holds under the assignment.
fn lit_true(lit: i32, assignment: &Vec<bool>) -> (r: bool)
    requires
        lit != 0,
        lit_var(lit) < assignment.len(),
    ensures
        r == lit_holds(lit, assignment@),
{
    let val = assignment[lit_index(lit)];
    (lit > 0 && val) || (lit < 0 && !val)
}

impl SearchState {
    /// The state for a fresh assignment: counts of true literals, the
    /// unsatisfied clauses in clause order, and no tabu marks.
    pub fn new(f: &Formula, assignment: Vec<bool>) -> (s: SearchState)
        requires
            f.well_formed(),
            assignment.len() == f.num_variables,
        ensures
            s.consistent(f),
            s.assignment@ == assignment@,
            s.unsat_clauses@ == unsat_order(f.cls(), assignment@, f.clauses.len() as int),
            forall|v: int| 0 <= v < s.tabu.len() ==> #[trigger] s.tabu@[v] == -1,
    {
        let nc = f.clauses.len();
        let ghost cls = f.cls();
        let ghost a = assignment@;
        let mut sat_lits: Vec<u8> = Vec::new();
        let mut unsat: Vec<u32> = Vec::new();
        let mut pos: Vec<i32> = Vec::new();
        let mut ci: usize = 0;
        while ci < nc
            invariant
                f.well_formed(),
                cls == f.cls(),
                a == assignment@,
                assignment.len() == f.num_variables,
                nc == f.clauses.len(),
                ci <= nc,
                sat_lits.len() == ci,
                forall|c: int| 0 <= c < ci ==> #[trigger] sat_lits@[c] == true_count(cls[c], a),
                list_ok(sat_lits@, unsat@, pos@),
                unsat@ == unsat_order(cls, a, ci as int),
            decreases nc - ci,
        {
            let cl = f.clauses[ci];
            assert(cl@ == cls[ci as int]);
            assert(lit_in_range(cls[ci as int][0], f.num_variables as int));
            assert(lit_in_range(cls[ci as int][1], f.num_variables as int));
            assert(lit_in_range(cls[ci as int][2], f.num_variables as int));
            let mut sat: u8 = 0;
            if lit_true(cl[0], &assignment) {
                sat = sat + 1;
            }
            if lit_true(cl[1], &assignment) {
                sat = sat + 1;
            }
            if lit_true(cl[2], &assignment) {
                sat = sat + 1;
            }
            assert(sat == true_count(cls[ci as int], a));
            proof {
                lemma_list_push(sat_lits@, unsat@, pos@, sat);
                lemma_zero_count_bounds(sat_lits@, ci as int);
            }
            if sat == 0 {
                pos.push(unsat.len() as i32);
                unsat.push(ci as u32);
            } else {
                pos.push(-1);
            }
            sat_lits.push(sat);
            ci = ci + 1;
        }
        let mut tabu: Vec<i64> = Vec::new();
        while tabu.len() < f.num_variables
            invariant
                tabu.len() <= f.num_variables,
                forall|v: int| 0 <= v < tabu.len() ==> #[trigger] tabu@[v] == -1,
            decreases f.num_variables - tabu.len(),
        {
            tabu.push(-1);
        }
        SearchState {
            assignment,
            clause_sat_lits: sat_lits,
            unsat_clauses: unsat,
            unsat_pos: pos,
            tabu,
        }
    }
}

impl SearchState {
    /// Flips variable index `v`: clauses where its old literal held lose a
    /// true literal (in the order of their occurrence list), then those where
    /// its new literal holds gain one, with the list of unsatisfied clauses
    /// kept up to date as `lose_one` and `gain_one` say.
    pub fn flip(&mut self, f: &Formula, v: usize)
        requires
            old(self).consistent(f),
            v < f.num_variables,
        ensures
            final(self).consistent(f),
            final(self).assignment@ == old(self).assignment@.update(
                v as int,
                !old(self).assignment@[v as int],
            ),
            final(self).tabu@ == old(self).tabu@,
            final(self).lists() == gain_all(
                lose_all(old(self).lists(), occ_list(f.cls(), v as int, old(self).assignment@[v as int])),
                occ_list(f.cls(), v as int, !old(self).assignment@[v as int]),
            ),
    {
        let ghost a0 = self.assignment@;
        let ghost t0 = self.lists();
        let ghost tabu0 = self.tabu@;
        let ghost cls = f.cls();
        let nc = f.clauses.len();
        let new_val = !self.assignment[v];
        self.assignment.set(v, new_val);
        let ghost a1 = self.assignment@;
        let lost: &Vec<u32> = if new_val {
            &f.neg_clauses[v]
        } else {
            &f.pos_clauses[v]
        };
        let gained: &Vec<u32> = if new_val {
            &f.pos_clauses[v]
        } else {
            &f.neg_clauses[v]
        };
        proof {
            assert(lost@ == occ_list(cls, v as int, a0[v as int]));
            assert(gained@ == occ_list(cls, v as int, !a0[v as int]));
            lemma_zero_count_bounds(t0.0, nc as int);
            assert forall|c: int| 0 <= c < nc implies count_in(lost@, c) <= t0.0[c] && t0.0[c] - count_in(
                lost@,
                c,
            ) + count_in(gained@, c) == true_count(cls[c], a1) && true_count(cls[c], a1) <= 3 by {
                lemma_occ_count(cls, v as int, a0[v as int], c);
                lemma_occ_count(cls, v as int, !a0[v as int], c);
                assert(lit_in_range(cls[c][0], f.num_variables as int));
                assert(lit_in_range(cls[c][1], f.num_variables as int));
                assert(lit_in_range(cls[c][2], f.num_variables as int));
                lemma_true_count_flip(cls[c], a0, v as int);
                lemma_true_count_flip(cls[c], a1, v as int);
                assert(a1.update(v as int, !a1[v as int]) =~= a0);
            }
            lemma_occ_count(cls, v as int, a0[v as int], 0);
            lemma_occ_count(cls, v as int, !a0[v as int], 0);
        }
        let mut i: usize = 0;
        while i < lost.len()
            invariant
                f.well_formed(),
                cls == f.cls(),
                nc == f.clauses.len(),
                3 * nc <= u32::MAX,
                forall|k: int| 0 <= k < lost.len() ==> (#[trigger] lost@[k]) < nc,
                self.assignment@ == a1,
                self.tabu@ == tabu0,
                i <= lost.len(),
                self.lists() == lose_all(t0, lost@.take(i as int)),
                list_ok(self.clause_sat_lits@, self.unsat_clauses@, self.unsat_pos@),
                self.clause_sat_lits.len() == nc,
                t0.0.len() == nc,
                forall|c: int|
                    0 <= c < nc ==> #[trigger] self.clause_sat_lits@[c] == t0.0[c] - count_in(
                        lost@.take(i as int),
                        c,
                    ),
                forall|c: int| 0 <= c < nc ==> count_in(lost@, c) <= #[trigger] t0.0[c],
            decreases lost.len() - i,
        {
            let cj_u = lost[i];
            let cj = cj_u as usize;
            let ghost prev = self.lists();
            proof {
                assert forall|c: int| 0 <= c < nc implies count_in(lost@.take(i + 1), c) == count_in(
                    lost@.take(i as int),
                    c,
                ) + (if lost@[i as int] == c { 1int } else { 0 }) && count_in(lost@.take(i + 1), c)
                    <= count_in(lost@, c) by {
                    lemma_count_in_prefix(lost@, i as int, c);
                }
                assert(t0.0[cj as int] >= count_in(lost@, cj as int));
                lemma_lose_one(prev, cj_u);
                lemma_zero_count_bounds(prev.0, nc as int);
            }
            let k = self.clause_sat_lits[cj] - 1;
            self.clause_sat_lits.set(cj, k);
            if k == 0 {
                let len = self.unsat_clauses.len();
                self.unsat_pos.set(cj, len as i32);
                self.unsat_clauses.push(cj_u);
            }
            proof {
                assert(self.lists() == lose_one(prev, cj_u));
                assert(lost@.take(i + 1).drop_last() =~= lost@.take(i as int));
            }
            i = i + 1;
        }
        assert(lost@.take(i as int) =~= lost@);
        let ghost t1 = self.lists();
        let mut j: usize = 0;
        while j < gained.len()
            invariant
                f.well_formed(),
                cls == f.cls(),
                nc == f.clauses.len(),
                3 * nc <= u32::MAX,
                forall|k: int| 0 <= k < gained.len() ==> (#[trigger] gained@[k]) < nc,
                self.assignment@ == a1,
                self.tabu@ == tabu0,
                j <= gained.len(),
                self.lists() == gain_all(t1, gained@.take(j as int)),
                list_ok(self.clause_sat_lits@, self.unsat_clauses@, self.unsat_pos@),
                self.clause_sat_lits.len() == nc,
                t0.0.len() == nc,
                forall|c: int|
                    0 <= c < nc ==> #[trigger] self.clause_sat_lits@[c] == t0.0[c] - count_in(lost@, c)
                        + count_in(gained@.take(j as int), c),
                forall|c: int|
                    0 <= c < nc ==> #[trigger] t0.0[c] - count_in(lost@, c) + count_in(gained@, c)
                        == true_count(cls[c], a1) && true_count(cls[c], a1) <= 3,
            decreases gained.len() - j,
        {
            let cj_u = gained[j];
            let cj = cj_u as usize;
            let ghost prev = self.lists();
            proof {
                assert forall|c: int| 0 <= c < nc implies count_in(gained@.take(j + 1), c) == count_in(
                    gained@.take(j as int),
                    c,
                ) + (if gained@[j as int] == c { 1int } else { 0 }) && count_in(gained@.take(j + 1), c)
                    <= count_in(gained@, c) by {
                    lemma_count_in_prefix(gained@, j as int, c);
                }
                assert(t0.0[cj as int] - count_in(lost@, cj as int) + count_in(gained@, cj as int) <= 3);
                lemma_gain_one(prev, cj_u);
            }
            let k = self.clause_sat_lits[cj] + 1;
            self.clause_sat_lits.set(cj, k);
            if k == 1 {
                let p = self.unsat_pos[cj] as usize;
                let last = self.unsat_clauses.len() - 1;
                if p != last {
                    let moved = self.unsat_clauses[last];
                    self.unsat_clauses.set(p, moved);
                    self.unsat_pos.set(moved as usize, p as i32);
                }
                self.unsat_clauses.pop();
                self.unsat_pos.set(cj, -1);
            }
            proof {
                assert(self.lists() == gain_one(prev, cj_u));
                assert(gained@.take(j + 1).drop_last() =~= gained@.take(j as int));
            }
            j = j + 1;
        }
        assert(gained@.take(j as int) =~= gained@);
    }

    /// The number of entries of the occurrence list of `v`'s currently true
    /// literal whose clause has exactly one true literal: the clauses that
    /// flipping `v` would leave unsatisfied, counted once per occurrence.
    pub fn break_count(&self, f: &Formula, v: usize) -> (r: u32)
        requires
            self.consistent(f),
            v < f.num_variables,
        ensures
            r == break_count_of(occ_list(f.cls(), v as int, self.assignment@[v as int]), self.clause_sat_lits@),
    {
        let candidates: &Vec<u32> = if self.assignment[v] {
            &f.pos_clauses[v]
        } else {
            &f.neg_clauses[v]
        };
        proof {
            lemma_occ_count(f.cls(), v as int, self.assignment@[v as int], 0);
        }
        let mut brk: u32 = 0;
        let mut i: usize = 0;
        while i < candidates.len()
            invariant
                self.consistent(f),
                candidates@ == occ_list(f.cls(), v as int, self.assignment@[v as int]),
                candidates.len() <= 3 * f.clauses.len(),
                3 * f.clauses.len() <= u32::MAX,
                forall|k: int| 0 <= k < candidates.len() ==> (#[trigger] candidates@[k]) < f.clauses.len(),
                i <= candidates.len(),
                brk == break_count_of(candidates@.take(i as int), self.clause_sat_lits@),
                brk <= i,
            decreases candidates.len() - i,
        {
            let cj = candidates[i] as usize;
            assert(candidates@.take(i + 1).drop_last() =~= candidates@.take(i as int));
            if self.clause_sat_lits[cj] == 1 {
                brk = brk + 1;
            }
            i = i + 1;
        }
        assert(candidates@.take(i as int) =~= candidates@);
        brk
    }

    /// Whether variable index `v` was flipped fewer than `tabu_size` steps
    /// before step `cur_step` (steps and the size taken as `i64`).
    pub fn is_tabu(&self, v: usize, cur_step: u64, tabu_size: usize) -> (r: bool)
        requires
            v < self.tabu.len(),
            cur_step <= i64::MAX,
        ensures
            r == (self.tabu@[v as int] >= 0 && cur_step - self.tabu@[v as int] < tabu_size as i64),
    {
        let t = self.tabu[v];
        t >= 0 && (cur_step as i64) - t < (tabu_size as i64)
    }

    /// Records that variable index `v` is flipped at step `step`.
    pub fn set_tabu(&mut self, v: usize, step: u64)
        requires
            v < old(self).tabu.len(),
        ensures
            final(self).tabu@ == old(self).tabu@.update(v as int, step as i64),
            final(self).assignment == old(self).assignment,
            final(self).clause_sat_lits == old(self).clause_sat_lits,
            final(self).unsat_clauses == old(self).unsat_clauses,
            final(self).unsat_pos == old(self).unsat_pos,
    {
        self.tabu.set(v, #[verifier::truncate] (step as i64));
    }

    /// The number of unsatisfied clauses.
    pub fn num_unsat(&self) -> (r: usize)
        ensures
            r == self.unsat_clauses.len(),
    {
        self.unsat_clauses.len()
    }

    /// The `i`-th entry of the list of unsatisfied clauses.
    pub fn unsat_clause(&self, i: usize) -> (r: usize)
        requires
            i < self.unsat_clauses.len(),
        ensures
            r == self.unsat_clauses@[i as int],
    {
        self.unsat_clauses[i] as usize
    }
}

/// No zero among the first `c` counts exactly when the zero count is 0.
pub proof fn lemma_zero_count_none(sat: Seq<u8>, c: int)
    requires
        0 <= c <= sat.len(),
    ensures
        (zero_count(sat, c) == 0) <==> (forall|d: int| 0 <= d < c ==> #[trigger] sat[d] != 0),
    decreases c,
{
    lemma_zero_count_bounds(sat, c);
    if c > 0 {
        lemma_zero_count_none(sat, c - 1);
        lemma_zero_count_bounds(sat, c - 1);
    }
}

/// A clause holds exactly when one of its three literals is true.
pub proof fn lemma_true_count_holds(cl: Seq<i32>, a: Seq<bool>)
    ensures
        (true_count(cl, a) >= 1) <==> clause_holds(cl, a),
{
    if clause_holds(cl, a) {
        let i = choose|i: int| 0 <= i < 3 && lit_holds(#[trigger] cl[i], a);
        assert(i == 0 || i == 1 || i == 2);
    }
    if true_count(cl, a) >= 1 {
        if lit_holds(cl[0], a) {
            assert(lit_holds(cl[0], a));
        } else if lit_holds(cl[1], a) {
            assert(lit_holds(cl[1], a));
        } else {
            assert(lit_holds(cl[2], a));
        }
    }
}

/// Every clause has at least three literals and none of the first three is
/// zero.
pub open spec fn nonzero_lits(cs: Seq<Seq<i32>>) -> bool {
    forall|i: int|
        0 <= i < cs.len() ==> (#[trigger] cs[i]).len() >= 3 && cs[i][0] != 0 && cs[i][1] != 0
            && cs[i][2] != 0
}

/// Dropping tautologies (whose literals are nonzero) does not change which
/// assignments satisfy the clauses.
pub proof fn lemma_kept_satisfies(cs: Seq<Seq<i32>>, a: Seq<bool>)
    requires
        nonzero_lits(cs),
    ensures
        satisfies(kept_clauses(cs), a) <==> satisfies(cs, a),
    decreases cs.len(),
{
    if cs.len() > 0 {
        let d = cs.drop_last();
        assert forall|i: int| 0 <= i < d.len() implies #[trigger] d[i] == cs[i] by {}
        lemma_kept_satisfies(d, a);
        let last = cs.last();
        let li = cs.len() - 1;
        assert(last == cs[li]);
        assert(last[0] != 0 && last[1] != 0 && last[2] != 0);
        // The last clause holds as a triple exactly when it holds.
        assert(clause_holds(clause3(last), a) == clause_holds(last, a)) by {
            if clause_holds(last, a) {
                let i = choose|i: int| 0 <= i < 3 && lit_holds(#[trigger] last[i], a);
                assert(clause3(last)[i] == last[i]);
            }
            if clause_holds(clause3(last), a) {
                let i = choose|i: int| 0 <= i < 3 && lit_holds(#[trigger] clause3(last)[i], a);
                assert(clause3(last)[i] == last[i]);
            }
        }
        if is_tautology(last) {
            // A literal and its negation: one of them holds.
            if last[0] == -last[1] {
                assert(lit_holds(last[0], a) || lit_holds(last[1], a));
            } else if last[0] == -last[2] {
                assert(lit_holds(last[0], a) || lit_holds(last[2], a));
            } else {
                assert(lit_holds(last[1], a) || lit_holds(last[2], a));
            }
            assert(clause_holds(last, a));
        }
        let k = kept_clauses(cs);
        let kd = kept_clauses(d);
        if satisfies(cs, a) {
            assert forall|i: int| 0 <= i < d.len() implies clause_holds(#[trigger] d[i], a) by {
                assert(d[i] == cs[i]);
            }
            assert(clause_holds(cs[li], a));
            assert forall|i: int| 0 <= i < k.len() implies clause_holds(#[trigger] k[i], a) by {
                if i < kd.len() {
                    assert(k[i] == kd[i]);
                }
            }
        }
        if satisfies(k, a) {
            assert forall|i: int| 0 <= i < kd.len() implies clause_holds(#[trigger] kd[i], a) by {
                assert(k[i] == kd[i]);
            }
            if !is_tautology(last) {
                assert(clause_holds(k[k.len() - 1], a));
            }
            assert forall|i: int| 0 <= i < cs.len() implies clause_holds(#[trigger] cs[i], a) by {
                if i < d.len() {
                    assert(cs[i] == d[i]);
                }
            }
        }
    }
}

/// With the state consistent, the list of unsatisfied clauses is empty
/// exactly when the assignment satisfies the instance the formula was built
/// from (literals of tautologies nonzero).
pub proof fn lemma_solved_iff_no_unsat(ch: &Challenge, f: &Formula, s: &SearchState)
    requires
        s.consistent(f),
        f.cls() == kept_clauses(clause_view(ch)),
        nonzero_lits(clause_view(ch)),
    ensures
        (s.unsat_clauses.len() == 0) <==> satisfies(clause_view(ch), s.assignment@),
{
    let nc = f.clauses.len() as int;
    let cls = f.cls();
    let a = s.assignment@;
    lemma_zero_count_none(s.clause_sat_lits@, nc);
    lemma_kept_satisfies(clause_view(ch), a);
    assert forall|c: int| 0 <= c < nc implies (#[trigger] s.clause_sat_lits@[c] != 0) == clause_holds(
        cls[c],
        a,
    ) by {
        lemma_true_count_holds(cls[c], a);
    }
    if s.unsat_clauses.len() == 0 {
        assert forall|c: int| 0 <= c < cls.len() implies clause_holds(#[trigger] cls[c], a) by {
            assert(s.clause_sat_lits@[c] != 0);
        }
    }
    if satisfies(cls, a) {
        assert forall|c: int| 0 <= c < nc implies #[trigger] s.clause_sat_lits@[c] != 0 by {
            assert(clause_holds(cls[c], a));
        }
    }
}

/// Two consistent states with the same assignment have the same counts of
/// true literals and list the same unsatisfied clauses (perhaps in another
/// order); so flipping a variable twice restores them.
pub proof fn lemma_state_determined_by_assignment(f: &Formula, s: &SearchState, t: &SearchState)
    requires
        s.consistent(f),
        t.consistent(f),
        s.assignment@ == t.assignment@,
    ensures
        s.clause_sat_lits@ == t.clause_sat_lits@,
        s.unsat_clauses.len() == t.unsat_clauses.len(),
        forall|c: u32| s.unsat_clauses@.contains(c) <==> t.unsat_clauses@.contains(c),
{
    assert(s.clause_sat_lits@ =~= t.clause_sat_lits@);
    assert forall|c: u32| s.unsat_clauses@.contains(c) implies t.unsat_clauses@.contains(c) by {
        let i = choose|i: int| 0 <= i < s.unsat_clauses@.len() && s.unsat_clauses@[i] == c;
        assert(s.clause_sat_lits@[c as int] == 0);
        let p = t.unsat_pos@[c as int] as int;
        assert(t.unsat_clauses@[p] == c);
    }
    assert forall|c: u32| t.unsat_clauses@.contains(c) implies s.unsat_clauses@.contains(c) by {
        let i = choose|i: int| 0 <= i < t.unsat_clauses@.len() && t.unsat_clauses@[i] == c;
        assert(t.clause_sat_lits@[c as int] == 0);
        let p = s.unsat_pos@[c as int] as int;
        assert(s.unsat_clauses@[p] == c);
    }
}

/// An assignment of `n` variables drawn from the generator, variable by
/// variable.
pub fn random_assignment(n: usize, rng: &mut SmallRng) -> (a: Vec<bool>)
    ensures
        a.len() == n,
{
    let mut a: Vec<bool> = Vec::new();
    while a.len() < n
        invariant
            a.len() <= n,
        decreases n - a.len(),
    {
        a.push(rng_next_bool(rng));
    }
    a
}

/// The bookkeeping of a search run: flips made in all and since the last
/// restart, the restart count and the flips the current restart allows, the
/// overall flip limit, and the restart lengths (`luby_base` times the
/// Luby sequence).
pub struct RunControl {
    pub total_flips: u64,
    pub restart_idx: u64,
    pub flips_in_restart: u64,
    pub budget: u64,
    pub max_total_flips: u64,
    pub luby_base: u64,
}

/// What the search does next.
pub enum Step {
    /// No clause is unsatisfied: the assignment is a solution.
    Solved,
    /// The overall flip limit is reached: the search ends.
    OutOfFlips,
    /// The current restart has used its flips: start afresh.
    Restart,
    /// Flip a variable of this unsatisfied clause.
    Pick { clause: usize },
}

impl RunControl {
    /// A run that has made no flip and no restart yet.
    pub fn new(max_total_flips: u64, luby_base: u64) -> (c: RunControl)
        ensures
            c.total_flips == 0,
            c.restart_idx == 0,
            c.flips_in_restart == 0,
            c.budget == 0,
            c.max_total_flips == max_total_flips,
            c.luby_base == luby_base,
    {
        RunControl {
            total_flips: 0,
            restart_idx: 0,
            flips_in_restart: 0,
            budget: 0,
            max_total_flips,
            luby_base,
        }
    }

    /// Whether the run may still flip.
    pub fn has_flips_left(&self) -> (r: bool)
        ensures
            r == (self.total_flips < self.max_total_flips),
    {
        self.total_flips < self.max_total_flips
    }
}

/// Starts a new restart: its flip allowance is `luby_base` times the
/// Luby factor of the current restart index (saturating), the
/// index advances and no flip of it is made yet.
pub fn restart(c: &mut RunControl)
    requires
        old(c).restart_idx < u64::MAX,
    ensures
        final(c).budget == saturating_product(
            old(c).luby_base,
            restart_factor(old(c).restart_idx),
        ),
        final(c).restart_idx == old(c).restart_idx + 1,
        final(c).flips_in_restart == 0,
        final(c).total_flips == old(c).total_flips,
        final(c).max_total_flips == old(c).max_total_flips,
        final(c).luby_base == old(c).luby_base,
{
    c.budget = restart_budget(c.luby_base, c.restart_idx);
    c.restart_idx = c.restart_idx + 1;
    c.flips_in_restart = 0;
}

/// The next move of the search: stop when the flip limit is reached; else
/// restart when the restart's flips are used; else report a solution when no
/// clause is unsatisfied; else pick an unsatisfied clause, drawn uniformly
/// from the list by the generator.
pub fn next_step(f: &Formula, st: &SearchState, c: &RunControl, rng: &mut SmallRng) -> (s: Step)
    requires
        st.consistent(f),
    ensures
        (s is OutOfFlips) <==> c.total_flips >= c.max_total_flips,
        c.total_flips < c.max_total_flips ==> ((s is Restart) <==> c.flips_in_restart >= c.budget),
        c.total_flips < c.max_total_flips && c.flips_in_restart < c.budget ==> ((s is Solved) <==> st.unsat_clauses.len() == 0),
        s matches Step::Pick { clause } ==> exists|i: int|
            0 <= i < st.unsat_clauses.len() && #[trigger] st.unsat_clauses@[i] == clause,
{
    if c.total_flips >= c.max_total_flips {
        return Step::OutOfFlips;
    }
    if c.flips_in_restart >= c.budget {
        return Step::Restart;
    }
    let n = st.num_unsat();
    if n == 0 {
        return Step::Solved;
    }
    let i = rng_below(rng, n);
    let clause = st.unsat_clause(i);
    assert(st.unsat_clauses@[i as int] == clause);
    Step::Pick { clause }
}

/// Flips variable index `v` as `SearchState::flip` does, marks it tabu at the
/// current flip count, and counts the flip in the run and in the restart.
pub fn apply_flip(f: &Formula, st: &mut SearchState, c: &mut RunControl, v: usize)
    requires
        old(st).consistent(f),
        v < f.num_variables,
        old(c).total_flips < old(c).max_total_flips,
        old(c).flips_in_restart < old(c).budget,
    ensures
        final(st).consistent(f),
        final(st).assignment@ == old(st).assignment@.update(
            v as int,
            !old(st).assignment@[v as int],
        ),
        final(st).tabu@ == old(st).tabu@.update(v as int, old(c).total_flips as i64),
        final(st).lists() == gain_all(
            lose_all(old(st).lists(), occ_list(f.cls(), v as int, old(st).assignment@[v as int])),
            occ_list(f.cls(), v as int, !old(st).assignment@[v as int]),
        ),
        final(c).total_flips == old(c).total_flips + 1,
        final(c).flips_in_restart == old(c).flips_in_restart + 1,
        final(c).restart_idx == old(c).restart_idx,
        final(c).budget == old(c).budget,
        final(c).max_total_flips == old(c).max_total_flips,
        final(c).luby_base == old(c).luby_base,
{
    st.set_tabu(v, c.total_flips);
    st.flip(f, v);
    c.total_flips = c.total_flips + 1;
    c.flips_in_restart = c.flips_in_restart + 1;
}

} // verus!
