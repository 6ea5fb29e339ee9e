//! Flexible job-shop scheduling by earliest-completion-time dispatch.
//!
//! A challenge has products, each a sequence of operations; an operation may
//! run on any of several machines, each with its own processing time.  Every
//! job is an instance of one product.  A schedule gives, for every job and
//! every one of its operations in order, a machine and a start time.
//!
//! This module holds what the three dispatch rules share: the model of the
//! instance, the earliest-finish machine choice, the validity of a (partial)
//! schedule, and the proof that one dispatch step keeps a schedule valid.

use vstd::prelude::*;

pub mod ect_v1;
pub mod ect_v2;
pub mod ect_v3;

verus! {

/// A flexible job-shop instance.  `product_processing_times[p][k]` lists the
/// machines that may run operation `k` of product `p`, each with its
/// processing time, in the order in which the instance enumerates them; a
/// machine occurs at most once in a list.
pub struct Challenge {
    pub seed: [u8; 32],
    pub num_jobs: usize,
    pub num_machines: usize,
    pub jobs_per_product: Vec<usize>,
    pub product_processing_times: Vec<Vec<Vec<(usize, u32)>>>,
}

/// For every job, the (machine, start time) of each of its operations.
pub struct Solution {
    pub job_schedule: Vec<Vec<(usize, u32)>>,
}

/// Why a dispatch rule produced no schedule.
#[derive(Debug, PartialEq, Eq, Structural)]
pub enum ScheduleError {
    /// `jobs_per_product` does not add up to `num_jobs`.
    JobCountMismatch,
    /// Operation `op` of job `job` lists no machine below `num_machines`.
    NoEligibleMachine { job: usize, op: usize },
    /// No pass produced a schedule (there are no jobs).
    NoSchedule,
}

/// The product of every job: product `p` repeated `jobs_per_product[p]`
/// times, products in order.
pub open spec fn expand_products(jpp: Seq<usize>) -> Seq<usize>
    decreases jpp.len(),
{
    if jpp.len() == 0 {
        seq![]
    } else {
        expand_products(jpp.drop_last()) + Seq::new(
            jpp.last() as nat,
            |i: int| (jpp.len() - 1) as usize,
        )
    }
}

/// The processing-time lists of a challenge as nested sequences.
pub open spec fn ppt_view(ch: &Challenge) -> Seq<Seq<Seq<(usize, u32)>>> {
    ch.product_processing_times@.map_values(
        |p: Vec<Vec<(usize, u32)>>| p@.map_values(|o: Vec<(usize, u32)>| o@),
    )
}

/// The operations of every job (those of its product).
pub open spec fn job_ops(ch: &Challenge) -> Seq<Seq<Seq<(usize, u32)>>> {
    let jp = expand_products(ch.jobs_per_product@);
    Seq::new(jp.len(), |j: int| ppt_view(ch)[jp[j] as int])
}

/// No machine occurs twice in an operation's list.
pub open spec fn distinct_machines(op: Seq<(usize, u32)>) -> bool {
    forall|a: int, b: int| 0 <= a < b < op.len() ==> op[a].0 != op[b].0
}

/// The shape that the challenge type stands for: machines are distinct in
/// every list, no product has `usize::MAX` operations, and, when the job count adds up, every product with jobs has
/// its operation lists.
pub open spec fn well_formed(ch: &Challenge) -> bool {
    &&& forall|p: int, k: int|
        0 <= p < ppt_view(ch).len() && 0 <= k < ppt_view(ch)[p].len() ==> distinct_machines(
            #[trigger] ppt_view(ch)[p][k],
        )
    &&& forall|p: int| 0 <= p < ppt_view(ch).len() ==> (#[trigger] ppt_view(ch)[p]).len() < usize::MAX
    &&& expand_products(ch.jobs_per_product@).len() == ch.num_jobs ==> forall|p: int|
        0 <= p < ch.jobs_per_product@.len() && #[trigger] ch.jobs_per_product@[p] > 0 ==> p
            < ppt_view(ch).len()
}

/// The number of operations of all jobs together.
pub open spec fn count_ops(jo: Seq<Seq<Seq<(usize, u32)>>>) -> int
    decreases jo.len(),
{
    if jo.len() == 0 {
        0
    } else {
        count_ops(jo.drop_last()) + jo.last().len()
    }
}

/// The number of operations a (partial) schedule has placed.
pub open spec fn scheduled_count(sched: Seq<Seq<(usize, u32)>>) -> int
    decreases sched.len(),
{
    if sched.len() == 0 {
        0
    } else {
        scheduled_count(sched.drop_last()) + sched.last().len()
    }
}

/// Machine `m` is listed for operation `op`.
pub open spec fn lists(op: Seq<(usize, u32)>, m: usize) -> bool {
    exists|i: int| 0 <= i < op.len() && (#[trigger] op[i]).0 == m
}

/// The processing time of `op` on a machine that it lists.
pub open spec fn op_time(op: Seq<(usize, u32)>, m: usize) -> u32 {
    op[choose|i: int| 0 <= i < op.len() && (#[trigger] op[i]).0 == m].1
}

/// The operation lists a machine below `nm`.
pub open spec fn has_eligible(op: Seq<(usize, u32)>, nm: int) -> bool {
    exists|i: int| 0 <= i < op.len() && (#[trigger] op[i]).0 < nm
}

/// Every operation of every job lists a machine below `nm`.
pub open spec fn all_eligible(jo: Seq<Seq<Seq<(usize, u32)>>>, nm: int) -> bool {
    forall|j: int, k: int|
        0 <= j < jo.len() && 0 <= k < jo[j].len() ==> has_eligible(#[trigger] jo[j][k], nm)
}

pub open spec fn max_u32(a: u32, b: u32) -> u32 {
    if a >= b { a } else { b }
}

/// The earliest-finish choice over the first `i` entries of `op`: the
/// machine, start and finish of the first entry (machine below
/// `avail.len()`) whose finish `max(avail[m], ready) + time` is strictly
/// smallest, starting from no machine and `u32::MAX` for both times.
pub open spec fn ect_fold(op: Seq<(usize, u32)>, avail: Seq<u32>, ready: u32, i: int) -> (
    Option<usize>,
    int,
    int,
)
    decreases i,
{
    if i <= 0 {
        (None, u32::MAX as int, u32::MAX as int)
    } else {
        let prev = ect_fold(op, avail, ready, i - 1);
        let m = op[i - 1].0;
        if m >= avail.len() {
            prev
        } else {
            let start = max_u32(avail[m as int], ready);
            let finish = start + op[i - 1].1;
            if finish < prev.2 {
                (Some(m), start as int, finish)
            } else {
                prev
            }
        }
    }
}

/// The machine, start and finish that the earliest-finish rule picks for
/// `op`, if any machine qualifies.
pub open spec fn ect_pick(op: Seq<(usize, u32)>, avail: Seq<u32>, ready: u32) -> Option<
    (usize, u32, u32),
> {
    let f = ect_fold(op, avail, ready, op.len() as int);
    match f.0 {
        Some(m) => Some((m, f.1 as u32, f.2 as u32)),
        None => None,
    }
}

/// No eligible entry of `op` would finish at or past `u32::MAX`.
pub open spec fn finishes_fit(op: Seq<(usize, u32)>, avail: Seq<u32>, ready: u32) -> bool {
    forall|i: int|
        0 <= i < op.len() && (#[trigger] op[i]).0 < avail.len() ==> max_u32(
            avail[op[i].0 as int],
            ready,
        ) + op[i].1 < u32::MAX
}

/// The finish time of operation `k` of job `j` in a schedule.
pub open spec fn fin(
    jo: Seq<Seq<Seq<(usize, u32)>>>,
    sched: Seq<Seq<(usize, u32)>>,
    j: int,
    k: int,
) -> int {
    sched[j][k].1 + op_time(jo[j][k], sched[j][k].0)
}

/// A partial schedule is valid: each job has placed a prefix of its
/// operations, each on a machine below `nm` that its list names; within a job
/// each operation starts no earlier than the previous one finishes; and two
/// operations on one machine never overlap.
pub open spec fn valid_partial(
    jo: Seq<Seq<Seq<(usize, u32)>>>,
    nm: int,
    sched: Seq<Seq<(usize, u32)>>,
) -> bool {
    &&& sched.len() == jo.len()
    &&& forall|j: int| 0 <= j < sched.len() ==> (#[trigger] sched[j]).len() <= jo[j].len()
    &&& forall|j: int, k: int|
        0 <= j < sched.len() && 0 <= k < sched[j].len() ==> (#[trigger] sched[j][k]).0 < nm
            && lists(jo[j][k], sched[j][k].0)
    &&& forall|j: int, k: int|
        0 <= j < sched.len() && 0 < k < sched[j].len() ==> (#[trigger] sched[j][k]).1 >= fin(
            jo,
            sched,
            j,
            k - 1,
        )
    &&& forall|j1: int, k1: int, j2: int, k2: int|
        0 <= j1 < sched.len() && 0 <= k1 < sched[j1].len() && 0 <= j2 < sched.len() && 0 <= k2
            < sched[j2].len() && (j1 != j2 || k1 != k2) && (#[trigger] sched[j1][k1]).0 == (
        #[trigger] sched[j2][k2]).0 ==> fin(jo, sched, j1, k1) <= sched[j2][k2].1 || fin(
            jo,
            sched,
            j2,
            k2,
        ) <= sched[j1][k1].1
}

/// Every job has placed all of its operations.
pub open spec fn complete(jo: Seq<Seq<Seq<(usize, u32)>>>, sched: Seq<Seq<(usize, u32)>>) -> bool {
    &&& sched.len() == jo.len()
    &&& forall|j: int| 0 <= j < sched.len() ==> (#[trigger] sched[j]).len() == jo[j].len()
}

/// A valid and complete schedule.
pub open spec fn valid_schedule(
    jo: Seq<Seq<Seq<(usize, u32)>>>,
    nm: int,
    sched: Seq<Seq<(usize, u32)>>,
) -> bool {
    valid_partial(jo, nm, sched) && complete(jo, sched)
}

/// The bookkeeping of a dispatcher agrees with its partial schedule: each
/// machine is free no earlier than every operation placed on it finishes, and
/// each job is ready when its last placed operation finishes (0 before).
pub open spec fn consistent(
    jo: Seq<Seq<Seq<(usize, u32)>>>,
    nm: int,
    sched: Seq<Seq<(usize, u32)>>,
    avail: Seq<u32>,
    ready: Seq<u32>,
) -> bool {
    &&& avail.len() == nm
    &&& ready.len() == sched.len()
    &&& forall|j: int, k: int|
        0 <= j < sched.len() && 0 <= k < sched[j].len() ==> fin(jo, sched, j, k) <= avail[(
        #[trigger] sched[j][k]).0 as int]
    &&& forall|j: int|
        0 <= j < sched.len() ==> #[trigger] ready[j] == if sched[j].len() == 0 {
            0
        } else {
            fin(jo, sched, j, sched[j].len() - 1)
        }
}

/// Every machine-free time and every job-ready time is below `u32::MAX`.
pub open spec fn times_below(avail: Seq<u32>, ready: Seq<u32>) -> bool {
    &&& forall|m: int| 0 <= m < avail.len() ==> #[trigger] avail[m] < u32::MAX
    &&& forall|j: int| 0 <= j < ready.len() ==> #[trigger] ready[j] < u32::MAX
}

/// The dispatcher state after placing the next operation of job `j` by the
/// earliest-finish rule (unchanged when no machine qualifies).
pub open spec fn dispatch(
    jo: Seq<Seq<Seq<(usize, u32)>>>,
    avail: Seq<u32>,
    ready: Seq<u32>,
    sched: Seq<Seq<(usize, u32)>>,
    j: int,
) -> (Seq<u32>, Seq<u32>, Seq<Seq<(usize, u32)>>) {
    let op = jo[j][sched[j].len() as int];
    match ect_pick(op, avail, ready[j]) {
        Some(c) => (
            avail.update(c.0 as int, c.2),
            ready.update(j, c.2),
            sched.update(j, sched[j].push((c.0, c.1))),
        ),
        None => (avail, ready, sched),
    }
}

/// The empty dispatcher state: all machines free at 0, all jobs ready at 0,
/// nothing placed.
pub open spec fn initial_state(jo: Seq<Seq<Seq<(usize, u32)>>>, nm: int) -> (
    Seq<u32>,
    Seq<u32>,
    Seq<Seq<(usize, u32)>>,
) {
    (
        Seq::new(nm as nat, |m: int| 0u32),
        Seq::new(jo.len(), |j: int| 0u32),
        Seq::new(jo.len(), |j: int| Seq::<(usize, u32)>::empty()),
    )
}

/// The largest ready time of the jobs (0 when there are none): the makespan.
pub open spec fn max_ready(ready: Seq<u32>) -> u32
    decreases ready.len(),
{
    if ready.len() == 0 {
        0
    } else {
        max_u32(max_ready(ready.drop_last()), ready.last())
    }
}

// ---------------------------------------------------------------------------
// Lemmas
// ---------------------------------------------------------------------------

pub proof fn lemma_expand_products_bound(jpp: Seq<usize>, j: int)
    requires
        0 <= j < expand_products(jpp).len(),
        jpp.len() <= usize::MAX,
    ensures
        0 <= expand_products(jpp)[j] < jpp.len(),
        jpp[expand_products(jpp)[j] as int] > 0,
    decreases jpp.len(),
{
    if jpp.len() > 0 {
        let prev = expand_products(jpp.drop_last());
        let tail = Seq::new(jpp.last() as nat, |i: int| (jpp.len() - 1) as usize);
        assert(expand_products(jpp) == prev + tail);
        if j < prev.len() {
            lemma_expand_products_bound(jpp.drop_last(), j);
            assert(expand_products(jpp)[j] == prev[j]);
            let q = prev[j] as int;
            assert(0 <= q < jpp.len() - 1);
            assert(jpp.drop_last()[q] == jpp[q]);
            assert(jpp[q] > 0);
        } else {
            assert(expand_products(jpp)[j] == tail[j - prev.len()]);
            assert(j - prev.len() < tail.len());
            assert(jpp[jpp.len() - 1] == jpp.last());
            assert(jpp.last() > 0);
        }
    }
}

/// The job operations of a well-formed challenge whose job count adds up are
/// the operation lists of the jobs' products, all distinct-machined.
pub proof fn lemma_job_ops(ch: &Challenge, j: int)
    requires
        well_formed(ch),
        expand_products(ch.jobs_per_product@).len() == ch.num_jobs,
        ch.jobs_per_product@.len() <= usize::MAX,
        0 <= j < ch.num_jobs,
    ensures
        0 <= expand_products(ch.jobs_per_product@)[j] < ch.product_processing_times@.len(),
        job_ops(ch)[j] == ppt_view(ch)[expand_products(ch.jobs_per_product@)[j] as int],
        forall|k: int| 0 <= k < job_ops(ch)[j].len() ==> distinct_machines(#[trigger] job_ops(ch)[j][k]),
{
    lemma_expand_products_bound(ch.jobs_per_product@, j);
    let p = expand_products(ch.jobs_per_product@)[j] as int;
    assert(ch.jobs_per_product@[p] > 0);
    assert forall|k: int| 0 <= k < job_ops(ch)[j].len() implies distinct_machines(
        #[trigger] job_ops(ch)[j][k],
    ) by {
        assert(distinct_machines(ppt_view(ch)[p][k]));
    }
}

pub proof fn lemma_count_ops_bound(jo: Seq<Seq<Seq<(usize, u32)>>>, sched: Seq<Seq<(usize, u32)>>)
    requires
        sched.len() == jo.len(),
        forall|j: int| 0 <= j < sched.len() ==> (#[trigger] sched[j]).len() <= jo[j].len(),
    ensures
        scheduled_count(sched) <= count_ops(jo),
        scheduled_count(sched) == count_ops(jo) ==> complete(jo, sched),
        scheduled_count(sched) >= 0,
    decreases sched.len(),
{
    if sched.len() > 0 {
        let s2 = sched.drop_last();
        let j2 = jo.drop_last();
        assert forall|j: int| 0 <= j < s2.len() implies (#[trigger] s2[j]).len() <= j2[j].len() by {
            assert(s2[j] == sched[j]);
        }
        lemma_count_ops_bound(j2, s2);
        if scheduled_count(sched) == count_ops(jo) {
            assert forall|j: int| 0 <= j < sched.len() implies (#[trigger] sched[j]).len()
                == jo[j].len() by {
                if j < sched.len() - 1 {
                    assert(s2[j] == sched[j]);
                }
            }
        }
    }
}

pub proof fn lemma_count_ops_nonneg(jo: Seq<Seq<Seq<(usize, u32)>>>)
    ensures
        count_ops(jo) >= 0,
    decreases jo.len(),
{
    if jo.len() > 0 {
        lemma_count_ops_nonneg(jo.drop_last());
    }
}

/// Appending one entry to one job's list adds one to the placed count.
pub proof fn lemma_scheduled_count_push(
    sched: Seq<Seq<(usize, u32)>>,
    j: int,
    e: (usize, u32),
)
    requires
        0 <= j < sched.len(),
    ensures
        scheduled_count(sched.update(j, sched[j].push(e))) == scheduled_count(sched) + 1,
    decreases sched.len(),
{
    let s2 = sched.update(j, sched[j].push(e));
    if j == sched.len() - 1 {
        assert(s2.drop_last() =~= sched.drop_last());
    } else {
        lemma_scheduled_count_push(sched.drop_last(), j, e);
        assert(s2.drop_last() =~= sched.drop_last().update(j, sched.drop_last()[j].push(e)));
    }
}

pub proof fn lemma_scheduled_count_empty(n: nat)
    ensures
        scheduled_count(Seq::new(n, |j: int| Seq::<(usize, u32)>::empty())) == 0,
    decreases n,
{
    if n > 0 {
        let s = Seq::new(n, |j: int| Seq::<(usize, u32)>::empty());
        assert(s.drop_last() =~= Seq::new((n - 1) as nat, |j: int| Seq::<(usize, u32)>::empty()));
        lemma_scheduled_count_empty((n - 1) as nat);
    }
}

/// The empty dispatcher state is valid, consistent and slowly growing.
pub proof fn lemma_initial_state(jo: Seq<Seq<Seq<(usize, u32)>>>, nm: int)
    requires
        nm >= 0,
    ensures
        ({
            let st = initial_state(jo, nm);
            &&& valid_partial(jo, nm, st.2)
            &&& consistent(jo, nm, st.2, st.0, st.1)
            &&& times_below(st.0, st.1)
            &&& scheduled_count(st.2) == 0
            &&& forall|j: int| 0 <= j < jo.len() ==> (#[trigger] st.2[j]).len() == 0 && st.1[j] == 0
        }),
{
    lemma_scheduled_count_empty(jo.len());
    lemma_count_ops_nonneg(jo);
}

/// The finish the earliest-finish scan keeps over the first `i` entries is
/// no later than the finish of any of those entries on a machine below
/// `avail.len()`.
proof fn lemma_ect_fold_min(op: Seq<(usize, u32)>, avail: Seq<u32>, ready: u32, i: int)
    requires
        0 <= i <= op.len(),
    ensures
        forall|t: int|
            0 <= t < i && (#[trigger] op[t]).0 < avail.len() ==> ect_fold(op, avail, ready, i).2
                <= max_u32(avail[op[t].0 as int], ready) + op[t].1,
        ect_fold(op, avail, ready, i).2 <= u32::MAX,
    decreases i,
{
    if i > 0 {
        lemma_ect_fold_min(op, avail, ready, i - 1);
    }
}

/// The earliest-finish rule: when every eligible entry of `op` finishes below
/// `u32::MAX`, a machine is chosen exactly when some entry lists a machine
/// below `avail.len()`; the chosen machine is such a listed machine, its start
/// is the later of its free time and `ready`, its finish is that start plus
/// its listed time, and no eligible entry would finish earlier.
pub proof fn lemma_earliest_finish(op: Seq<(usize, u32)>, avail: Seq<u32>, ready: u32)
    requires
        finishes_fit(op, avail, ready),
    ensures
        ect_pick(op, avail, ready) is None <==> forall|t: int|
            0 <= t < op.len() ==> (#[trigger] op[t]).0 >= avail.len(),
        ect_pick(op, avail, ready) matches Some(c) ==> {
            &&& c.0 < avail.len()
            &&& exists|t: int|
                0 <= t < op.len() && (#[trigger] op[t]).0 == c.0 && c.2 == c.1 + op[t].1
            &&& c.1 == max_u32(avail[c.0 as int], ready)
            &&& forall|t: int|
                0 <= t < op.len() && (#[trigger] op[t]).0 < avail.len() ==> c.2 <= max_u32(
                    avail[op[t].0 as int],
                    ready,
                ) + op[t].1
        },
{
    lemma_ect_fold(op, avail, ready, op.len() as int);
    lemma_ect_fold_min(op, avail, ready, op.len() as int);
    let f = ect_fold(op, avail, ready, op.len() as int);
    if let Some(m) = f.0 {
        let t = choose|t: int|
            0 <= t < op.len() && (#[trigger] op[t]).0 == m && m < avail.len() && f.1 == max_u32(
                avail[m as int],
                ready,
            ) && f.2 == f.1 + op[t].1 && f.2 < u32::MAX;
        assert(op[t].0 == m);
    }
}

/// What the earliest-finish fold yields: either nothing (and then no entry
/// among the first `i` qualified with a finish below the start value), or a
/// listed machine with its start and finish.
pub proof fn lemma_ect_fold(op: Seq<(usize, u32)>, avail: Seq<u32>, ready: u32, i: int)
    requires
        0 <= i <= op.len(),
        finishes_fit(op, avail, ready),
    ensures
        ({
            let f = ect_fold(op, avail, ready, i);
            match f.0 {
                Some(m) => exists|t: int|
                    0 <= t < i && (#[trigger] op[t]).0 == m && m < avail.len() && f.1 == max_u32(
                        avail[m as int],
                        ready,
                    ) && f.2 == f.1 + op[t].1 && f.2 < u32::MAX,
                None => f.2 == u32::MAX && forall|t: int| 0 <= t < i ==> (#[trigger] op[t]).0
                    >= avail.len(),
            }
        }),
    decreases i,
{
    if i > 0 {
        lemma_ect_fold(op, avail, ready, i - 1);
        let prev = ect_fold(op, avail, ready, i - 1);
        let m = op[i - 1].0;
        let f = ect_fold(op, avail, ready, i);
        if m < avail.len() {
            let start = max_u32(avail[m as int], ready);
            let finish = start + op[i - 1].1;
            assert(finish < u32::MAX);
            if finish < prev.2 {
                assert(f == (Some(m), start as int, finish));
                assert(op[i - 1].0 == m);
            } else {
                assert(f == prev);
                if prev.0 is None {
                    assert(false);
                }
            }
        } else {
            assert(f == prev);
        }
        match f.0 {
            Some(mm) => {},
            None => {
                assert forall|t: int| 0 <= t < i implies (#[trigger] op[t]).0 >= avail.len() by {
                    if t < i - 1 {
                    }
                }
            },
        }
    }
}

/// `op_time` of a listed machine is the time of its (unique) entry.
pub proof fn lemma_op_time(op: Seq<(usize, u32)>, t: int)
    requires
        distinct_machines(op),
        0 <= t < op.len(),
    ensures
        lists(op, op[t].0),
        op_time(op, op[t].0) == op[t].1,
{
    assert(lists(op, op[t].0));
    let c = choose|i: int| 0 <= i < op.len() && (#[trigger] op[i]).0 == op[t].0;
    if c != t {
        if c < t {
            assert(op[c].0 != op[t].0);
        } else {
            assert(op[t].0 != op[c].0);
        }
    }
}

/// The earliest-finish pick exists exactly when the operation lists an
/// eligible machine, and then it names a listed machine, starts when both the
/// machine and the job are free, and finishes one processing time later.
pub proof fn lemma_ect_pick(op: Seq<(usize, u32)>, avail: Seq<u32>, ready: u32)
    requires
        finishes_fit(op, avail, ready),
        distinct_machines(op),
    ensures
        ect_pick(op, avail, ready) is Some <==> has_eligible(op, avail.len() as int),
        ect_pick(op, avail, ready) matches Some(c) ==> {
            &&& c.0 < avail.len()
            &&& lists(op, c.0)
            &&& c.1 == max_u32(avail[c.0 as int], ready)
            &&& c.2 == c.1 + op_time(op, c.0)
        },
{
    lemma_ect_fold(op, avail, ready, op.len() as int);
    let f = ect_fold(op, avail, ready, op.len() as int);
    match f.0 {
        Some(m) => {
            let t = choose|t: int|
                0 <= t < op.len() && (#[trigger] op[t]).0 == m && m < avail.len() && f.1
                    == max_u32(avail[m as int], ready) && f.2 == f.1 + op[t].1 && f.2 < u32::MAX;
            lemma_op_time(op, t);
            assert(has_eligible(op, avail.len() as int));
        },
        None => {
            if has_eligible(op, avail.len() as int) {
                let t = choose|t: int| 0 <= t < op.len() && (#[trigger] op[t]).0 < avail.len();
                assert(op[t].0 >= avail.len());
            }
        },
    }
}


/// Appending the entry `(m, s)` to job `j` keeps the placed entries and
/// their finish times.
proof fn lemma_push_keeps(
    jo: Seq<Seq<Seq<(usize, u32)>>>,
    sched: Seq<Seq<(usize, u32)>>,
    j: int,
    e: (usize, u32),
)
    requires
        0 <= j < sched.len(),
    ensures
        ({
            let sched2 = sched.update(j, sched[j].push(e));
            &&& forall|j1: int, k1: int|
                0 <= j1 < sched.len() && 0 <= k1 < sched[j1].len() ==> #[trigger] sched2[j1][k1]
                    == sched[j1][k1] && fin(jo, sched2, j1, k1) == fin(jo, sched, j1, k1)
            &&& sched2[j][sched[j].len() as int] == e
            &&& forall|j1: int| 0 <= j1 < sched.len() && j1 != j ==> #[trigger] sched2[j1] == sched[j1]
            &&& sched2[j].len() == sched[j].len() + 1
        }),
{
    let sched2 = sched.update(j, sched[j].push(e));
    assert forall|j1: int, k1: int|
        0 <= j1 < sched.len() && 0 <= k1 < sched[j1].len() implies #[trigger] sched2[j1][k1]
        == sched[j1][k1] && fin(jo, sched2, j1, k1) == fin(jo, sched, j1, k1) by {
        if j1 == j {
            assert(sched2[j1] == sched[j].push(e));
        }
    }
}

/// Placing a new entry that starts no earlier than its machine and its job
/// are free keeps a partial schedule valid.
proof fn lemma_dispatch_valid(
    jo: Seq<Seq<Seq<(usize, u32)>>>,
    nm: int,
    avail: Seq<u32>,
    ready: Seq<u32>,
    sched: Seq<Seq<(usize, u32)>>,
    j: int,
    m: usize,
    s: u32,
)
    requires
        valid_partial(jo, nm, sched),
        consistent(jo, nm, sched, avail, ready),
        0 <= j < jo.len(),
        sched[j].len() < jo[j].len(),
        m < nm,
        lists(jo[j][sched[j].len() as int], m),
        s >= avail[m as int],
        s >= ready[j],
    ensures
        valid_partial(jo, nm, sched.update(j, sched[j].push((m, s)))),
{
    let len = sched[j].len() as int;
    let sched2 = sched.update(j, sched[j].push((m, s)));
    lemma_push_keeps(jo, sched, j, (m, s));
    assert forall|j1: int, k1: int|
        0 <= j1 < sched2.len() && 0 < k1 < sched2[j1].len() implies (#[trigger] sched2[j1][k1]).1
        >= fin(jo, sched2, j1, k1 - 1) by {
        assert(sched2[j1][k1 - 1] == sched[j1][k1 - 1]);
        if !(j1 == j && k1 == len) {
            assert(sched2[j1][k1] == sched[j1][k1]);
        }
    }
    assert forall|j1: int, k1: int, j2: int, k2: int|
        0 <= j1 < sched2.len() && 0 <= k1 < sched2[j1].len() && 0 <= j2 < sched2.len() && 0 <= k2
            < sched2[j2].len() && (j1 != j2 || k1 != k2) && (#[trigger] sched2[j1][k1]).0 == (
        #[trigger] sched2[j2][k2]).0 implies fin(jo, sched2, j1, k1) <= sched2[j2][k2].1 || fin(
        jo,
        sched2,
        j2,
        k2,
    ) <= sched2[j1][k1].1 by {
        let new1 = j1 == j && k1 == len;
        let new2 = j2 == j && k2 == len;
        if new1 {
            assert(sched2[j2][k2] == sched[j2][k2]);
            assert(fin(jo, sched, j2, k2) <= avail[sched[j2][k2].0 as int]);
        } else if new2 {
            assert(sched2[j1][k1] == sched[j1][k1]);
            assert(fin(jo, sched, j1, k1) <= avail[sched[j1][k1].0 as int]);
        } else {
            assert(sched2[j1][k1] == sched[j1][k1]);
            assert(sched2[j2][k2] == sched[j2][k2]);
        }
    }
    assert forall|j1: int| 0 <= j1 < sched2.len() implies (#[trigger] sched2[j1]).len()
        <= jo[j1].len() by {
        if j1 != j {
            assert(sched2[j1] == sched[j1]);
        }
    }
    assert forall|j1: int, k1: int|
        0 <= j1 < sched2.len() && 0 <= k1 < sched2[j1].len() implies (
        #[trigger] sched2[j1][k1]).0 < nm && lists(jo[j1][k1], sched2[j1][k1].0) by {
        if !(j1 == j && k1 == len) {
            assert(sched2[j1][k1] == sched[j1][k1]);
        }
    }
}

/// Placing the entry `(m, s)` finishing at `f` and recording `f` as the
/// machine's and the job's free time keeps the bookkeeping consistent.
proof fn lemma_dispatch_consistent(
    jo: Seq<Seq<Seq<(usize, u32)>>>,
    nm: int,
    avail: Seq<u32>,
    ready: Seq<u32>,
    sched: Seq<Seq<(usize, u32)>>,
    j: int,
    m: usize,
    s: u32,
    f: u32,
)
    requires
        consistent(jo, nm, sched, avail, ready),
        valid_partial(jo, nm, sched),
        0 <= j < jo.len(),
        sched[j].len() < jo[j].len(),
        m < nm,
        s >= avail[m as int],
        f == s + op_time(jo[j][sched[j].len() as int], m),
    ensures
        consistent(
            jo,
            nm,
            sched.update(j, sched[j].push((m, s))),
            avail.update(m as int, f),
            ready.update(j, f),
        ),
{
    let len = sched[j].len() as int;
    let sched2 = sched.update(j, sched[j].push((m, s)));
    let avail2 = avail.update(m as int, f);
    let ready2 = ready.update(j, f);
    lemma_push_keeps(jo, sched, j, (m, s));
    assert(fin(jo, sched2, j, len) == f);
    assert forall|j1: int, k1: int|
        0 <= j1 < sched2.len() && 0 <= k1 < sched2[j1].len() implies fin(jo, sched2, j1, k1)
        <= avail2[(#[trigger] sched2[j1][k1]).0 as int] by {
        if !(j1 == j && k1 == len) {
            assert(sched2[j1][k1] == sched[j1][k1]);
            assert(fin(jo, sched, j1, k1) <= avail[sched[j1][k1].0 as int]);
        }
    }
    assert forall|j1: int| 0 <= j1 < sched2.len() implies #[trigger] ready2[j1] == if sched2[j1].len()
        == 0 {
        0
    } else {
        fin(jo, sched2, j1, sched2[j1].len() - 1)
    } by {
        if j1 != j {
            assert(sched2[j1] == sched[j1]);
            if sched[j1].len() > 0 {
                assert(sched2[j1][sched2[j1].len() - 1] == sched[j1][sched[j1].len() - 1]);
            }
        }
    }
}

/// One earliest-finish dispatch step whose eligible finishes all stay below
/// `u32::MAX` keeps a partial schedule valid, the bookkeeping consistent and
/// the times below `u32::MAX`, and places exactly one more operation.
pub proof fn lemma_dispatch(
    jo: Seq<Seq<Seq<(usize, u32)>>>,
    nm: int,
    avail: Seq<u32>,
    ready: Seq<u32>,
    sched: Seq<Seq<(usize, u32)>>,
    j: int,
)
    requires
        valid_partial(jo, nm, sched),
        consistent(jo, nm, sched, avail, ready),
        times_below(avail, ready),
        0 <= j < jo.len(),
        sched[j].len() < jo[j].len(),
        distinct_machines(jo[j][sched[j].len() as int]),
        has_eligible(jo[j][sched[j].len() as int], nm),
        finishes_fit(jo[j][sched[j].len() as int], avail, ready[j]),
    ensures
        ect_pick(jo[j][sched[j].len() as int], avail, ready[j]) is Some,
        ({
            let st = dispatch(jo, avail, ready, sched, j);
            &&& valid_partial(jo, nm, st.2)
            &&& consistent(jo, nm, st.2, st.0, st.1)
            &&& times_below(st.0, st.1)
            &&& scheduled_count(st.2) == scheduled_count(sched) + 1
            &&& st.2[j].len() == sched[j].len() + 1
        }),
{
    let len = sched[j].len() as int;
    let op = jo[j][len];
    lemma_ect_pick(op, avail, ready[j]);
    let c = ect_pick(op, avail, ready[j]).unwrap();
    let m = c.0;
    let s = c.1;
    let f = c.2;
    let avail2 = avail.update(m as int, f);
    let ready2 = ready.update(j, f);
    let sched2 = sched.update(j, sched[j].push((m, s)));
    assert(dispatch(jo, avail, ready, sched, j) == (avail2, ready2, sched2));
    lemma_scheduled_count_push(sched, j, (m, s));
    lemma_dispatch_valid(jo, nm, avail, ready, sched, j, m, s);
    lemma_dispatch_consistent(jo, nm, avail, ready, sched, j, m, s, f);
    assert(times_below(avail2, ready2));
}

// ---------------------------------------------------------------------------
// Executable building blocks
// ---------------------------------------------------------------------------

/// The product of every job, in job order: product `p` repeated
/// `jobs_per_product[p]` times.
pub fn expand_jobs(jobs_per_product: &Vec<usize>) -> (r: Vec<usize>)
    ensures
        r@ == expand_products(jobs_per_product@),
        jobs_per_product@.len() <= usize::MAX,
{
    let mut r: Vec<usize> = Vec::new();
    let mut p: usize = 0;
    while p < jobs_per_product.len()
        invariant
            p <= jobs_per_product.len(),
            r@ == expand_products(jobs_per_product@.subrange(0, p as int)),
        decreases jobs_per_product.len() - p,
    {
        let count = jobs_per_product[p];
        let ghost before = r@;
        let mut c: usize = 0;
        while c < count
            invariant
                c <= count,
                r@ == before + Seq::new(c as nat, |i: int| p),
            decreases count - c,
        {
            r.push(p);
            c = c + 1;
            assert(r@ =~= before + Seq::new(c as nat, |i: int| p));
        }
        let ghost s = jobs_per_product@.subrange(0, p + 1);
        assert(s.drop_last() =~= jobs_per_product@.subrange(0, p as int));
        assert(r@ =~= expand_products(s));
        p = p + 1;
    }
    assert(jobs_per_product@.subrange(0, p as int) =~= jobs_per_product@);
    r
}

/// The earliest-finish choice for one operation: scanning the listed
/// machines in order, the first one below `machine_avail.len()` on which the
/// operation would finish strictly earliest, with its start (when both the
/// machine and the job are free) and finish.
pub fn earliest_finish(op: &Vec<(usize, u32)>, machine_avail: &Vec<u32>, job_ready: u32) -> (r:
    Option<(usize, u32, u32)>)
    requires
        finishes_fit(op@, machine_avail@, job_ready),
    ensures
        r == ect_pick(op@, machine_avail@, job_ready),
        r matches Some(c) ==> c.0 < machine_avail.len() && c.1 == max_u32(
            machine_avail@[c.0 as int],
            job_ready,
        ) && forall|t: int|
            0 <= t < op.len() && (#[trigger] op@[t]).0 < machine_avail.len() ==> c.2 <= max_u32(
                machine_avail@[op@[t].0 as int],
                job_ready,
            ) + op@[t].1,
{
    proof {
        lemma_earliest_finish(op@, machine_avail@, job_ready);
    }
    let mut best_machine: Option<usize> = None;
    let mut best_start: u32 = u32::MAX;
    let mut best_finish: u32 = u32::MAX;
    let mut i: usize = 0;
    while i < op.len()
        invariant
            i <= op.len(),
            finishes_fit(op@, machine_avail@, job_ready),
            ect_fold(op@, machine_avail@, job_ready, i as int) == (
                best_machine,
                best_start as int,
                best_finish as int,
            ),
        decreases op.len() - i,
    {
        let (m, proc_time) = op[i];
        if m < machine_avail.len() {
            let a = machine_avail[m];
            let start = if a >= job_ready {
                a
            } else {
                job_ready
            };
            assert(op@[i as int].0 < machine_avail@.len());
            let finish = start + proc_time;
            if finish < best_finish {
                best_finish = finish;
                best_start = start;
                best_machine = Some(m);
            }
        }
        i = i + 1;
    }
    match best_machine {
        Some(m) => Some((m, best_start, best_finish)),
        None => None,
    }
}

/// `n` zeros.
pub fn zeros_u32(n: usize) -> (v: Vec<u32>)
    ensures
        v@ == Seq::new(n as nat, |i: int| 0u32),
{
    let mut v: Vec<u32> = Vec::new();
    while v.len() < n
        invariant
            v.len() <= n,
            v@ == Seq::new(v.len() as nat, |i: int| 0u32),
        decreases n - v.len(),
    {
        v.push(0);
        assert(v@ =~= Seq::new(v.len() as nat, |i: int| 0u32));
    }
    v
}

/// The schedule of a solution as nested sequences.
pub open spec fn sched_view(v: Vec<Vec<(usize, u32)>>) -> Seq<Seq<(usize, u32)>> {
    v@.map_values(|r: Vec<(usize, u32)>| r@)
}

/// The latest ready time among the jobs (0 when there are none).
pub fn makespan(job_ready: &Vec<u32>) -> (r: u32)
    ensures
        r == max_ready(job_ready@),
{
    let mut best: u32 = 0;
    let mut j: usize = 0;
    while j < job_ready.len()
        invariant
            j <= job_ready.len(),
            best == max_ready(job_ready@.subrange(0, j as int)),
        decreases job_ready.len() - j,
    {
        let ghost s = job_ready@.subrange(0, j + 1);
        assert(s.drop_last() =~= job_ready@.subrange(0, j as int));
        if job_ready[j] > best {
            best = job_ready[j];
        }
        j = j + 1;
    }
    assert(job_ready@.subrange(0, j as int) =~= job_ready@);
    best
}

// ---------------------------------------------------------------------------
// List scheduling: repeatedly dispatch the next operation of a chosen job
// ---------------------------------------------------------------------------

/// The job choice of a list scheduler over jobs `0..i`: the first unfinished
/// job with the smallest ready time and, among equal ready times, the
/// strictly smallest key `key(j, next_op)`; the scan starts from no job, ready
/// time `u32::MAX` and key `init_key`.
pub open spec fn list_fold(
    jo: Seq<Seq<Seq<(usize, u32)>>>,
    ready: Seq<u32>,
    sched: Seq<Seq<(usize, u32)>>,
    key: spec_fn(int, int) -> int,
    init_key: int,
    i: int,
) -> (Option<usize>, int, int)
    decreases i,
{
    if i <= 0 {
        (None, u32::MAX as int, init_key)
    } else {
        let prev = list_fold(jo, ready, sched, key, init_key, i - 1);
        let j = i - 1;
        if sched[j].len() >= jo[j].len() {
            prev
        } else {
            let r = ready[j] as int;
            let s = key(j, sched[j].len() as int);
            if r < prev.1 || (r == prev.1 && s < prev.2) {
                (Some(j as usize), r, s)
            } else {
                prev
            }
        }
    }
}

/// The job that a list scheduler dispatches next, if any.
pub open spec fn list_pick(
    jo: Seq<Seq<Seq<(usize, u32)>>>,
    ready: Seq<u32>,
    sched: Seq<Seq<(usize, u32)>>,
    key: spec_fn(int, int) -> int,
    init_key: int,
) -> Option<usize> {
    list_fold(jo, ready, sched, key, init_key, jo.len() as int).0
}

/// The dispatcher state after `n` list-scheduling steps from the empty
/// state.  A step dispatches the next operation of the chosen job; the state
/// stays as it is when no job is chosen or the operation has no machine.
pub open spec fn list_run(
    jo: Seq<Seq<Seq<(usize, u32)>>>,
    nm: int,
    key: spec_fn(int, int) -> int,
    init_key: int,
    n: nat,
) -> (Seq<u32>, Seq<u32>, Seq<Seq<(usize, u32)>>)
    decreases n,
{
    if n == 0 {
        initial_state(jo, nm)
    } else {
        let st = list_run(jo, nm, key, init_key, (n - 1) as nat);
        match list_pick(jo, st.1, st.2, key, init_key) {
            Some(j) => dispatch(jo, st.0, st.1, st.2, j as int),
            None => st,
        }
    }
}

/// No start plus processing time that the list scheduler computes reaches
/// `u32::MAX`: at each of its steps, every eligible machine of the next
/// operation of the chosen job would finish below it.
pub open spec fn list_run_fits(
    jo: Seq<Seq<Seq<(usize, u32)>>>,
    nm: int,
    key: spec_fn(int, int) -> int,
    init_key: int,
) -> bool {
    forall|i: nat|
        i < count_ops(jo) ==> {
            let st = #[trigger] list_run(jo, nm, key, init_key, i);
            match list_pick(jo, st.1, st.2, key, init_key) {
                Some(j) => finishes_fit(jo[j as int][st.2[j as int].len() as int], st.0, st.1[j as int]),
                None => true,
            }
        }
}

/// The job a list scheduler picks over jobs `0..i` is unfinished, and no
/// unfinished job among them is ready earlier, nor ready as early with a
/// strictly smaller key.
pub proof fn lemma_list_fold_min(
    jo: Seq<Seq<Seq<(usize, u32)>>>,
    ready: Seq<u32>,
    sched: Seq<Seq<(usize, u32)>>,
    key: spec_fn(int, int) -> int,
    init_key: int,
    i: int,
)
    requires
        0 <= i <= jo.len(),
        sched.len() == jo.len(),
        ready.len() == jo.len(),
        jo.len() <= usize::MAX,
    ensures
        ({
            let f = list_fold(jo, ready, sched, key, init_key, i);
            &&& f.0 matches Some(j) ==> 0 <= j < i && unfinished(jo, sched, j as int) && f.1
                == ready[j as int] && f.2 == key(j as int, sched[j as int].len() as int)
            &&& forall|j2: int|
                0 <= j2 < i && unfinished(jo, sched, j2) ==> f.1 < #[trigger] ready[j2] || (f.1
                    == ready[j2] && f.2 <= key(j2, sched[j2].len() as int))
        }),
    decreases i,
{
    if i > 0 {
        lemma_list_fold_min(jo, ready, sched, key, init_key, i - 1);
    }
}

/// Whether job `j` still has an operation to place.
pub open spec fn unfinished(
    jo: Seq<Seq<Seq<(usize, u32)>>>,
    sched: Seq<Seq<(usize, u32)>>,
    j: int,
) -> bool {
    sched[j].len() < jo[j].len()
}

/// What the job choice yields when every ready time is below `u32::MAX`: an
/// unfinished job, or nothing when every job is finished.
pub proof fn lemma_list_fold(
    jo: Seq<Seq<Seq<(usize, u32)>>>,
    ready: Seq<u32>,
    sched: Seq<Seq<(usize, u32)>>,
    key: spec_fn(int, int) -> int,
    init_key: int,
    i: int,
)
    requires
        0 <= i <= jo.len(),
        sched.len() == jo.len(),
        ready.len() == jo.len(),
        jo.len() <= usize::MAX,
        forall|j: int| 0 <= j < ready.len() ==> #[trigger] ready[j] < u32::MAX,
    ensures
        ({
            let f = list_fold(jo, ready, sched, key, init_key, i);
            &&& f.0 matches Some(j) ==> 0 <= j < i && unfinished(jo, sched, j as int)
            &&& f.0 is None <==> forall|j: int| 0 <= j < i ==> !unfinished(jo, sched, j)
            &&& f.0 is None ==> f.1 == u32::MAX
            &&& f.1 <= u32::MAX
        }),
    decreases i,
{
    if i > 0 {
        lemma_list_fold(jo, ready, sched, key, init_key, i - 1);
        let f = list_fold(jo, ready, sched, key, init_key, i);
        if f.0 is None {
            assert forall|j: int| 0 <= j < i implies !unfinished(jo, sched, j) by {
                if j == i - 1 {
                    assert(ready[j] < u32::MAX);
                }
            }
        }
    }
}

/// Once a list scheduler stands still it stays there.
pub proof fn lemma_list_run_fixed(
    jo: Seq<Seq<Seq<(usize, u32)>>>,
    nm: int,
    key: spec_fn(int, int) -> int,
    init_key: int,
    s: nat,
    t: nat,
)
    requires
        s <= t,
        ({
            let st = list_run(jo, nm, key, init_key, s);
            let next = match list_pick(jo, st.1, st.2, key, init_key) {
                Some(j) => dispatch(jo, st.0, st.1, st.2, j as int),
                None => st,
            };
            next == st
        }),
    ensures
        list_run(jo, nm, key, init_key, t) == list_run(jo, nm, key, init_key, s),
    decreases t - s,
{
    if t > s {
        lemma_list_run_fixed(jo, nm, key, init_key, s, (t - 1) as nat);
    }
}

/// The smallest processing time listed for an operation (0 when none).
pub open spec fn min_time(op: Seq<(usize, u32)>) -> u32
    decreases op.len(),
{
    if op.len() == 0 {
        0
    } else if op.len() == 1 {
        op[0].1
    } else {
        let rest = min_time(op.drop_last());
        if op.last().1 < rest { op.last().1 } else { rest }
    }
}

/// The largest processing time listed for an operation (0 when none).
pub open spec fn max_time(op: Seq<(usize, u32)>) -> u32
    decreases op.len(),
{
    if op.len() == 0 {
        0
    } else {
        max_u32(max_time(op.drop_last()), op.last().1)
    }
}

/// `a + b`, or `u32::MAX` when the sum does not fit.
pub open spec fn saturating_sum(a: u32, b: u32) -> u32 {
    if a + b > u32::MAX { u32::MAX } else { (a + b) as u32 }
}

/// A lower bound on the work left from operation `k` on: the sum of the
/// smallest processing times of operations `k..`, saturating at `u32::MAX`.
pub open spec fn remaining_work(ops: Seq<Seq<(usize, u32)>>, k: int) -> u32
    decreases ops.len() - k,
{
    if k >= ops.len() || k < 0 {
        0
    } else {
        saturating_sum(remaining_work(ops, k + 1), min_time(ops[k]))
    }
}

/// The smallest listed processing time (0 when none).
pub fn op_min_time(op: &Vec<(usize, u32)>) -> (r: u32)
    ensures
        r == min_time(op@),
{
    if op.len() == 0 {
        return 0;
    }
    let mut best = op[0].1;
    let mut i: usize = 1;
    assert(op@.subrange(0, 1).drop_last() =~= seq![]);
    assert(min_time(op@.subrange(0, 1)) == op@[0].1);
    while i < op.len()
        invariant
            1 <= i <= op.len(),
            best == min_time(op@.subrange(0, i as int)),
        decreases op.len() - i,
    {
        let ghost s = op@.subrange(0, i + 1);
        assert(s.drop_last() =~= op@.subrange(0, i as int));
        if op[i].1 < best {
            best = op[i].1;
        }
        i = i + 1;
    }
    assert(op@.subrange(0, i as int) =~= op@);
    best
}

/// The largest listed processing time (0 when none).
pub fn op_max_time(op: &Vec<(usize, u32)>) -> (r: u32)
    ensures
        r == max_time(op@),
{
    let mut best: u32 = 0;
    let mut i: usize = 0;
    while i < op.len()
        invariant
            i <= op.len(),
            best == max_time(op@.subrange(0, i as int)),
        decreases op.len() - i,
    {
        let ghost s = op@.subrange(0, i + 1);
        assert(s.drop_last() =~= op@.subrange(0, i as int));
        if op[i].1 >= best {
            best = op[i].1;
        }
        i = i + 1;
    }
    assert(op@.subrange(0, i as int) =~= op@);
    best
}

/// The remaining-work bound from every operation index of one product:
/// entry `k` is `remaining_work(ops, k)`, with a final 0.
pub fn remaining_work_table(ops: &Vec<Vec<(usize, u32)>>) -> (r: Vec<u32>)
    requires
        ops.len() < usize::MAX,
    ensures
        r.len() == ops.len() + 1,
        forall|k: int|
            0 <= k <= ops.len() ==> #[trigger] r@[k] == remaining_work(
                ops@.map_values(|o: Vec<(usize, u32)>| o@),
                k,
            ),
{
    let ghost v = ops@.map_values(|o: Vec<(usize, u32)>| o@);
    let mut suf = zeros_u32(ops.len() + 1);
    let mut k: usize = ops.len();
    while k > 0
        invariant
            k <= ops.len(),
            suf.len() == ops.len() + 1,
            v == ops@.map_values(|o: Vec<(usize, u32)>| o@),
            forall|i: int| k <= i <= ops.len() ==> #[trigger] suf@[i] == remaining_work(v, i),
        decreases k,
    {
        k = k - 1;
        let min_pt = op_min_time(&ops[k]);
        assert(ops[k as int]@ == v[k as int]);
        let next = suf[k + 1];
        let val = next.saturating_add(min_pt);
        suf.set(k, val);
    }
    suf
}

/// The number of operations of all jobs (each job's product's count).
pub fn total_ops(
    job_to_product: &Vec<usize>,
    product_processing_times: &Vec<Vec<Vec<(usize, u32)>>>,
    Ghost(jo): Ghost<Seq<Seq<Seq<(usize, u32)>>>>,
) -> (r: usize)
    requires
        jo.len() == job_to_product.len(),
        forall|j: int|
            0 <= j < jo.len() ==> #[trigger] job_to_product@[j] < product_processing_times.len()
                && product_processing_times@[job_to_product@[j] as int]@.len() == jo[j].len(),
        count_ops(jo) <= usize::MAX,
    ensures
        r == count_ops(jo),
{
    let mut total: usize = 0;
    let mut j: usize = 0;
    while j < job_to_product.len()
        invariant
            j <= job_to_product.len(),
            jo.len() == job_to_product.len(),
            forall|j2: int|
                0 <= j2 < jo.len() ==> #[trigger] job_to_product@[j2]
                    < product_processing_times.len()
                    && product_processing_times@[job_to_product@[j2] as int]@.len()
                    == jo[j2].len(),
            count_ops(jo) <= usize::MAX,
            total == count_ops(jo.subrange(0, j as int)),
        decreases job_to_product.len() - j,
    {
        let ghost s = jo.subrange(0, j + 1);
        assert(s.drop_last() =~= jo.subrange(0, j as int));
        proof {
            lemma_count_prefix(jo, j + 1);
        }
        total = total + product_processing_times[job_to_product[j]].len();
        j = j + 1;
    }
    assert(jo.subrange(0, j as int) =~= jo);
    total
}

/// The count of a prefix is at most the whole count.
pub proof fn lemma_count_prefix(jo: Seq<Seq<Seq<(usize, u32)>>>, i: int)
    requires
        0 <= i <= jo.len(),
    ensures
        0 <= count_ops(jo.subrange(0, i)) <= count_ops(jo),
    decreases jo.len() - i,
{
    lemma_count_ops_nonneg(jo.subrange(0, i));
    if i < jo.len() {
        lemma_count_prefix(jo, i + 1);
        let s = jo.subrange(0, i + 1);
        assert(s.drop_last() =~= jo.subrange(0, i));
    } else {
        assert(jo.subrange(0, i) =~= jo);
    }
}

/// `n` empty rows.
pub fn empty_rows(n: usize) -> (v: Vec<Vec<(usize, u32)>>)
    ensures
        sched_view(v) == Seq::new(n as nat, |j: int| Seq::<(usize, u32)>::empty()),
{
    let mut v: Vec<Vec<(usize, u32)>> = Vec::new();
    while v.len() < n
        invariant
            v.len() <= n,
            sched_view(v) == Seq::new(v.len() as nat, |j: int| Seq::<(usize, u32)>::empty()),
        decreases n - v.len(),
    {
        let e: Vec<(usize, u32)> = Vec::new();
        assert(e@ =~= Seq::<(usize, u32)>::empty());
        let ghost old_v = v@;
        v.push(e);
        assert forall|j: int| 0 <= j < v.len() implies #[trigger] sched_view(v)[j] == Seq::<
            (usize, u32),
        >::empty() by {
            if j < old_v.len() {
                assert(v@[j] == old_v[j]);
                assert(old_v.map_values(|r: Vec<(usize, u32)>| r@)[j] == old_v[j]@);
            }
        }
        assert(sched_view(v) =~= Seq::new(v.len() as nat, |j: int| Seq::<(usize, u32)>::empty()));
    }
    v
}

/// `n` zeros.
pub fn zeros_usize(n: usize) -> (v: Vec<usize>)
    ensures
        v@ == Seq::new(n as nat, |i: int| 0usize),
{
    let mut v: Vec<usize> = Vec::new();
    while v.len() < n
        invariant
            v.len() <= n,
            v@ == Seq::new(v.len() as nat, |i: int| 0usize),
        decreases n - v.len(),
    {
        v.push(0);
        assert(v@ =~= Seq::new(v.len() as nat, |i: int| 0usize));
    }
    v
}


/// The makespan is below `u32::MAX` when every ready time is.
pub proof fn lemma_max_ready_below(ready: Seq<u32>)
    requires
        forall|j: int| 0 <= j < ready.len() ==> #[trigger] ready[j] < u32::MAX,
    ensures
        max_ready(ready) < u32::MAX,
    decreases ready.len(),
{
    if ready.len() > 0 {
        assert forall|j: int| 0 <= j < ready.drop_last().len() implies #[trigger] ready.drop_last()[j]
            < u32::MAX by {
            assert(ready.drop_last()[j] == ready[j]);
        }
        lemma_max_ready_below(ready.drop_last());
    }
}

/// When each job's ready time is its last finish, every ready time of a
/// consistent, slowly growing state is below `u32::MAX`, and so is the
/// makespan.
pub proof fn lemma_makespan_fits(
    jo: Seq<Seq<Seq<(usize, u32)>>>,
    nm: int,
    sched: Seq<Seq<(usize, u32)>>,
    avail: Seq<u32>,
    ready: Seq<u32>,
)
    requires
        valid_partial(jo, nm, sched),
        consistent(jo, nm, sched, avail, ready),
        times_below(avail, ready),
    ensures
        forall|j: int| 0 <= j < ready.len() ==> #[trigger] ready[j] < u32::MAX,
        max_ready(ready) < u32::MAX,
{
    lemma_max_ready_below(ready);
}

/// The finish time of a job's last placed operation (0 when none).
pub open spec fn job_finish(
    jo: Seq<Seq<Seq<(usize, u32)>>>,
    sched: Seq<Seq<(usize, u32)>>,
    j: int,
) -> int {
    if sched[j].len() == 0 {
        0
    } else {
        fin(jo, sched, j, sched[j].len() - 1)
    }
}

/// The makespan of a schedule: the latest finish among all jobs (0 when there
/// are none).
pub open spec fn schedule_makespan(
    jo: Seq<Seq<Seq<(usize, u32)>>>,
    sched: Seq<Seq<(usize, u32)>>,
) -> u32 {
    max_ready(Seq::new(sched.len(), |j: int| job_finish(jo, sched, j) as u32))
}

/// For consistent bookkeeping the makespan of the ready times is the
/// makespan of the schedule.
pub proof fn lemma_makespan_of_schedule(
    jo: Seq<Seq<Seq<(usize, u32)>>>,
    nm: int,
    sched: Seq<Seq<(usize, u32)>>,
    avail: Seq<u32>,
    ready: Seq<u32>,
)
    requires
        consistent(jo, nm, sched, avail, ready),
    ensures
        max_ready(ready) == schedule_makespan(jo, sched),
{
    let s = Seq::new(sched.len(), |j: int| job_finish(jo, sched, j) as u32);
    assert forall|j: int| 0 <= j < ready.len() implies ready[j] == s[j] by {
        assert(ready[j] == if sched[j].len() == 0 {
            0
        } else {
            fin(jo, sched, j, sched[j].len() - 1)
        });
    }
    assert(ready =~= s);
}

/// A complete schedule has placed every operation.
pub proof fn lemma_complete_count(jo: Seq<Seq<Seq<(usize, u32)>>>, sched: Seq<Seq<(usize, u32)>>)
    requires
        complete(jo, sched),
    ensures
        scheduled_count(sched) == count_ops(jo),
    decreases sched.len(),
{
    if sched.len() > 0 {
        let s2 = sched.drop_last();
        let j2 = jo.drop_last();
        assert forall|j: int| 0 <= j < s2.len() implies (#[trigger] s2[j]).len() == j2[j].len() by {
            assert(s2[j] == sched[j]);
        }
        lemma_complete_count(j2, s2);
    }
}

} // verus!
