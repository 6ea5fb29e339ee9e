//! Several list-scheduling rules, keeping the schedule with the smallest
//! makespan.  Every rule dispatches the earliest-ready unfinished job and
//! places its next operation on the eligible machine on which it would finish
//! first; the rules differ in how they break ties between equally ready jobs:
//! most remaining work, least remaining work, fewest eligible machines,
//! longest current operation, or random keys.

use super::{
    all_eligible, complete, consistent, count_ops, dispatch, earliest_finish, empty_rows,
    expand_jobs, expand_products, has_eligible, initial_state, job_ops, lemma_complete_count, lemma_count_ops_bound,
    lemma_dispatch, lemma_ect_pick, lemma_initial_state, lemma_job_ops, finishes_fit, list_pick,
    lemma_list_fold, lemma_makespan_fits, lemma_makespan_of_schedule, list_run_fits,
    list_fold, list_run, makespan, max_time, op_max_time, remaining_work, remaining_work_table,
    sched_view, schedule_makespan, scheduled_count, times_below, total_ops,
    unfinished, valid_partial, valid_schedule, well_formed, zeros_u32, zeros_usize, Challenge,
    ScheduleError, Solution,
};
use crate::rng::{rng_from_seed, rng_next_u64, rng_seed_from_u64};
use vstd::prelude::*;

verus! {

/// Tunable parameters: the number of random-key passes (default 64).
pub struct Hyperparameters {
    pub n_random_passes: Option<usize>,
}

/// How a rule breaks ties between jobs that are ready at the same time.
#[derive(Clone, Copy)]
pub enum Priority {
    /// Most remaining work first.
    Lrpt,
    /// Least remaining work first.
    Srpt,
    /// Fewest listed machines for the next operation first.
    LeastFlexible,
    /// Longest (largest listed time) next operation first.
    Lpt,
    /// Smallest fresh random key first, from a generator seeded by the value.
    Random(u64),
}

/// The tie-break key of a deterministic rule for job `j` at operation `k`
/// (smaller wins).  Random keys are not described.
pub open spec fn priority_key(jo: Seq<Seq<Seq<(usize, u32)>>>, prio: Priority) -> spec_fn(
    int,
    int,
) -> int {
    |j: int, k: int|
        match prio {
            Priority::Lrpt => -(remaining_work(jo[j], k) as int),
            Priority::Srpt => remaining_work(jo[j], k) as int,
            Priority::LeastFlexible => jo[j][k].len() as int,
            Priority::Lpt => -(max_time(jo[j][k]) as int),
            Priority::Random(_) => 0,
        }
}

/// The key that starts every scan: larger than every key.
pub open spec fn start_key() -> int {
    i64::MAX as int
}

/// The state that a deterministic rule reaches once every operation is
/// placed.
pub open spec fn rule_final(jo: Seq<Seq<Seq<(usize, u32)>>>, nm: int, prio: Priority) -> (
    Seq<u32>,
    Seq<u32>,
    Seq<Seq<(usize, u32)>>,
) {
    list_run(jo, nm, priority_key(jo, prio), start_key(), count_ops(jo) as nat)
}

/// The schedule of a deterministic rule.
pub open spec fn rule_schedule(jo: Seq<Seq<Seq<(usize, u32)>>>, nm: int, prio: Priority) -> Seq<
    Seq<(usize, u32)>,
> {
    rule_final(jo, nm, prio).2
}

/// The schedule that the four deterministic rules, tried in the order
/// `Lrpt`, `Srpt`, `LeastFlexible`, `Lpt`, leave as best: the first one with
/// the smallest makespan.
pub open spec fn best_of_rules(jo: Seq<Seq<Seq<(usize, u32)>>>, nm: int) -> Seq<Seq<(usize, u32)>> {
    let s1 = rule_schedule(jo, nm, Priority::Lrpt);
    let s2 = rule_schedule(jo, nm, Priority::Srpt);
    let s3 = rule_schedule(jo, nm, Priority::LeastFlexible);
    let s4 = rule_schedule(jo, nm, Priority::Lpt);
    let m1 = schedule_makespan(jo, s1);
    let b12 = if schedule_makespan(jo, s2) < m1 { s2 } else { s1 };
    let b123 = if schedule_makespan(jo, s3) < schedule_makespan(jo, b12) { s3 } else { b12 };
    if schedule_makespan(jo, s4) < schedule_makespan(jo, b123) { s4 } else { b123 }
}

/// Job `j` may be dispatched next by a rule that serves the earliest-ready
/// job first: it is unfinished and no unfinished job is ready earlier.
pub open spec fn earliest_ready(
    jo: Seq<Seq<Seq<(usize, u32)>>>,
    ready: Seq<u32>,
    sched: Seq<Seq<(usize, u32)>>,
    j: int,
) -> bool {
    &&& 0 <= j < jo.len()
    &&& unfinished(jo, sched, j)
    &&& forall|j2: int|
        0 <= j2 < jo.len() && unfinished(jo, sched, j2) ==> ready[j] <= #[trigger] ready[j2]
}

/// The dispatcher state after dispatching the next operation of the jobs in
/// `picks`, in turn, from the empty state.
pub open spec fn picks_run(jo: Seq<Seq<Seq<(usize, u32)>>>, nm: int, picks: Seq<int>) -> (
    Seq<u32>,
    Seq<u32>,
    Seq<Seq<(usize, u32)>>,
)
    decreases picks.len(),
{
    if picks.len() == 0 {
        initial_state(jo, nm)
    } else {
        let st = picks_run(jo, nm, picks.drop_last());
        dispatch(jo, st.0, st.1, st.2, picks.last())
    }
}

/// Every pick is a job that may be dispatched next by an earliest-ready rule.
pub open spec fn earliest_ready_picks(jo: Seq<Seq<Seq<(usize, u32)>>>, nm: int, picks: Seq<int>) -> bool {
    forall|i: int|
        0 <= i < picks.len() ==> {
            let st = picks_run(jo, nm, picks.take(i));
            earliest_ready(jo, st.1, st.2, #[trigger] picks[i])
        }
}

/// A schedule that some run of an earliest-ready rule produces once every
/// operation is placed (ties broken in any way).
pub open spec fn earliest_ready_schedule(jo: Seq<Seq<Seq<(usize, u32)>>>, nm: int, s: Seq<Seq<(usize, u32)>>) -> bool {
    exists|picks: Seq<int>|
        #![trigger picks_run(jo, nm, picks)]
        picks.len() == count_ops(jo) && earliest_ready_picks(jo, nm, picks) && s == picks_run(
            jo,
            nm,
            picks,
        ).2
}

/// The first schedule of the nonempty list `cands` whose makespan is the
/// smallest.
pub open spec fn first_best(jo: Seq<Seq<Seq<(usize, u32)>>>, cands: Seq<Seq<Seq<(usize, u32)>>>) -> Seq<
    Seq<(usize, u32)>,
>
    decreases cands.len(),
{
    if cands.len() <= 1 {
        cands[0]
    } else {
        let b = first_best(jo, cands.drop_last());
        if schedule_makespan(jo, cands.last()) < schedule_makespan(jo, b) {
            cands.last()
        } else {
            b
        }
    }
}

/// The schedules of the four deterministic rules, in the order tried.
pub open spec fn rule_schedules(jo: Seq<Seq<Seq<(usize, u32)>>>, nm: int) -> Seq<Seq<Seq<(usize, u32)>>> {
    seq![
        rule_schedule(jo, nm, Priority::Lrpt),
        rule_schedule(jo, nm, Priority::Srpt),
        rule_schedule(jo, nm, Priority::LeastFlexible),
        rule_schedule(jo, nm, Priority::Lpt),
    ]
}

/// What the schedules handed out after each pass are: valid and complete.
#[verifier::opaque]
pub open spec fn saveable(jo: Seq<Seq<Seq<(usize, u32)>>>, nm: int, s: Seq<Seq<(usize, u32)>>) -> bool {
    valid_schedule(jo, nm, s)
}

/// Every candidate schedule is valid.
#[verifier::opaque]
pub open spec fn all_valid(
    jo: Seq<Seq<Seq<(usize, u32)>>>,
    nm: int,
    cands: Seq<Seq<Seq<(usize, u32)>>>,
) -> bool {
    forall|i: int| 0 <= i < cands.len() ==> valid_schedule(jo, nm, #[trigger] cands[i])
}

/// One more random pass: its schedule joins the candidates, which stay valid,
/// and the first best changes to it exactly when it is strictly shorter.
proof fn lemma_random_step(
    jo: Seq<Seq<Seq<(usize, u32)>>>,
    nm: int,
    scheds: Seq<Seq<Seq<(usize, u32)>>>,
    sv: Seq<Seq<(usize, u32)>>,
)
    requires
        all_valid(jo, nm, rule_schedules(jo, nm) + scheds),
        valid_schedule(jo, nm, sv),
    ensures
        all_valid(jo, nm, rule_schedules(jo, nm) + scheds.push(sv)),
        first_best(jo, rule_schedules(jo, nm) + scheds.push(sv)) == if schedule_makespan(jo, sv)
            < schedule_makespan(jo, first_best(jo, rule_schedules(jo, nm) + scheds)) {
            sv
        } else {
            first_best(jo, rule_schedules(jo, nm) + scheds)
        },
{
    let c = rule_schedules(jo, nm) + scheds;
    lemma_first_best_push(jo, c, sv);
    assert(rule_schedules(jo, nm) + scheds.push(sv) =~= c.push(sv));
    lemma_all_valid_push(jo, nm, c, sv);
}

/// The candidates after a prefix are valid when all are.
proof fn lemma_all_valid_tail(
    jo: Seq<Seq<Seq<(usize, u32)>>>,
    nm: int,
    head: Seq<Seq<Seq<(usize, u32)>>>,
    tail: Seq<Seq<Seq<(usize, u32)>>>,
)
    requires
        all_valid(jo, nm, head + tail),
    ensures
        forall|k: int| 0 <= k < tail.len() ==> valid_schedule(jo, nm, #[trigger] tail[k]),
{
    reveal(all_valid);
    assert forall|k: int| 0 <= k < tail.len() implies valid_schedule(jo, nm, #[trigger] tail[k]) by {
        assert((head + tail)[k + head.len()] == tail[k]);
    }
}

/// Appending a valid schedule keeps every candidate valid.
proof fn lemma_all_valid_push(
    jo: Seq<Seq<Seq<(usize, u32)>>>,
    nm: int,
    cands: Seq<Seq<Seq<(usize, u32)>>>,
    s: Seq<Seq<(usize, u32)>>,
)
    requires
        all_valid(jo, nm, cands),
        valid_schedule(jo, nm, s),
    ensures
        all_valid(jo, nm, cands.push(s)),
{
    reveal(all_valid);
    assert forall|k: int| 0 <= k < cands.push(s).len() implies valid_schedule(
        jo,
        nm,
        #[trigger] cands.push(s)[k],
    ) by {
        if k < cands.len() {
            assert(cands.push(s)[k] == cands[k]);
        }
    }
}

/// The running bests of a list of candidate schedules, that is the first best
/// of each nonempty prefix, are valid and their makespans never rise.
pub open spec fn running_bests_improve(
    jo: Seq<Seq<Seq<(usize, u32)>>>,
    nm: int,
    cands: Seq<Seq<Seq<(usize, u32)>>>,
) -> bool {
    &&& forall|k: int|
        1 <= k <= cands.len() ==> valid_schedule(jo, nm, #[trigger] first_best(jo, cands.take(k)))
    &&& forall|k: int|
        1 <= k < cands.len() ==> schedule_makespan(jo, first_best(jo, cands.take(k + 1)))
            <= schedule_makespan(jo, #[trigger] first_best(jo, cands.take(k)))
}

/// When every candidate is valid, the running bests are valid and never
/// longer than the ones before.
pub proof fn lemma_running_bests(
    jo: Seq<Seq<Seq<(usize, u32)>>>,
    nm: int,
    cands: Seq<Seq<Seq<(usize, u32)>>>,
)
    requires
        all_valid(jo, nm, cands),
    ensures
        running_bests_improve(jo, nm, cands),
{
    reveal(all_valid);
    assert forall|k: int| 1 <= k <= cands.len() implies valid_schedule(
        jo,
        nm,
        #[trigger] first_best(jo, cands.take(k)),
    ) by {
        lemma_prefix_best_valid(jo, nm, cands, k);
    }
    assert forall|k: int| 1 <= k < cands.len() implies schedule_makespan(
        jo,
        first_best(jo, cands.take(k + 1)),
    ) <= schedule_makespan(jo, #[trigger] first_best(jo, cands.take(k))) by {
        assert(cands.take(k + 1).drop_last() =~= cands.take(k));
    }
}

/// The first best of a nonempty prefix of valid candidates is valid.
proof fn lemma_prefix_best_valid(
    jo: Seq<Seq<Seq<(usize, u32)>>>,
    nm: int,
    cands: Seq<Seq<Seq<(usize, u32)>>>,
    k: int,
)
    requires
        forall|i: int| 0 <= i < cands.len() ==> valid_schedule(jo, nm, #[trigger] cands[i]),
        1 <= k <= cands.len(),
    ensures
        valid_schedule(jo, nm, first_best(jo, cands.take(k))),
    decreases k,
{
    if k == 1 {
        assert(cands.take(1)[0] == cands[0]);
    } else {
        lemma_prefix_best_valid(jo, nm, cands, k - 1);
        assert(cands.take(k).drop_last() =~= cands.take(k - 1));
        assert(cands.take(k).last() == cands[k - 1]);
    }
}

/// The best of the four rules is the first best of their schedules in order.
proof fn lemma_best_of_rules(jo: Seq<Seq<Seq<(usize, u32)>>>, nm: int)
    ensures
        best_of_rules(jo, nm) == first_best(jo, rule_schedules(jo, nm)),
{
    let c = rule_schedules(jo, nm);
    assert(c.drop_last().drop_last().drop_last() =~= seq![c[0]]);
    assert(c.drop_last().drop_last() =~= seq![c[0], c[1]]);
    assert(c.drop_last() =~= seq![c[0], c[1], c[2]]);
    reveal_with_fuel(first_best, 4);
}

/// Appending a candidate keeps the first best unless the new one is strictly
/// shorter.
proof fn lemma_first_best_push(
    jo: Seq<Seq<Seq<(usize, u32)>>>,
    cands: Seq<Seq<Seq<(usize, u32)>>>,
    s: Seq<Seq<(usize, u32)>>,
)
    requires
        cands.len() >= 1,
    ensures
        first_best(jo, cands.push(s)) == if schedule_makespan(jo, s) < schedule_makespan(
            jo,
            first_best(jo, cands),
        ) {
            s
        } else {
            first_best(jo, cands)
        },
{
    assert(cands.push(s).drop_last() =~= cands);
}

/// The number of random passes the hyperparameters ask for (64 by default).
pub open spec fn random_passes_of(hyperparameters: &Option<Hyperparameters>) -> usize {
    match hyperparameters {
        Some(h) => match h.n_random_passes {
            Some(n) => n,
            None => 64,
        },
        None => 64,
    }
}

/// Operation lists shorter than 2^53 entries, so that their lengths compare as
/// exactly as the floating-point scores they stand for.
pub open spec fn flexibility_fits(jo: Seq<Seq<Seq<(usize, u32)>>>) -> bool {
    forall|j: int, k: int|
        0 <= j < jo.len() && 0 <= k < jo[j].len() ==> (#[trigger] jo[j][k]).len()
            < 0x20_0000_0000_0000
}

/// No start plus processing time computed along any run of an
/// earliest-ready rule (ties broken in any way) reaches `u32::MAX`: whenever
/// such a run may dispatch job `j` next, every eligible machine of its next
/// operation would finish below it.
pub open spec fn ready_runs_fit(jo: Seq<Seq<Seq<(usize, u32)>>>, nm: int) -> bool {
    forall|picks: Seq<int>, j: int|
        earliest_ready_picks(jo, nm, picks) && #[trigger] earliest_ready(
            jo,
            picks_run(jo, nm, picks).1,
            picks_run(jo, nm, picks).2,
            j,
        ) ==> {
            let st = picks_run(jo, nm, picks);
            finishes_fit(jo[j][st.2[j].len() as int], st.0, st.1[j])
        }
}

/// No start plus processing time that a pass under `prio` computes reaches
/// `u32::MAX`: for a deterministic rule, along that rule's run; for random
/// keys, along every run that they could lead to.
pub open spec fn pass_fits(jo: Seq<Seq<Seq<(usize, u32)>>>, nm: int, prio: Priority) -> bool {
    match prio {
        Priority::Random(_) => ready_runs_fit(jo, nm),
        _ => list_run_fits(jo, nm, priority_key(jo, prio), start_key()),
    }
}

/// What a pass needs of its inputs: the job products, the remaining-work and
/// eligibility tables of every job, and instance bounds.
pub open spec fn pass_inputs(
    challenge: &Challenge,
    job_to_product: Seq<usize>,
    remaining: Seq<Vec<u32>>,
    eligibility: Seq<Vec<usize>>,
) -> bool {
    let jo = job_ops(challenge);
    &&& well_formed(challenge)
    &&& job_to_product == expand_products(challenge.jobs_per_product@)
    &&& job_to_product.len() == challenge.num_jobs
    &&& challenge.jobs_per_product@.len() <= usize::MAX
    &&& count_ops(jo) <= usize::MAX
    &&& all_eligible(jo, challenge.num_machines as int)
    &&& flexibility_fits(jo)
    &&& remaining.len() == jo.len()
    &&& eligibility.len() == jo.len()
    &&& forall|j: int| 0 <= j < jo.len() ==> (#[trigger] remaining[j]@).len() == jo[j].len() + 1
    &&& forall|j: int, k: int|
        0 <= j < jo.len() && 0 <= k <= jo[j].len() ==> #[trigger] remaining[j]@[k]
            == remaining_work(jo[j], k)
    &&& forall|j: int| 0 <= j < jo.len() ==> (#[trigger] eligibility[j]@).len() == jo[j].len()
    &&& forall|j: int, k: int|
        0 <= j < jo.len() && 0 <= k < jo[j].len() ==> #[trigger] eligibility[j]@[k] == jo[j][k].len()
}

/// Keeps `sched` as the best schedule when its makespan is strictly smaller,
/// then hands the best schedule to `save` (when it has rows).
fn record_best<F: Fn(&Vec<Vec<(usize, u32)>>)>(
    best_schedule: &mut Vec<Vec<(usize, u32)>>,
    best_makespan: &mut u32,
    sched: Vec<Vec<(usize, u32)>>,
    mks: u32,
    save: &F,
    Ghost(jo): Ghost<Seq<Seq<Seq<(usize, u32)>>>>,
    Ghost(nm): Ghost<int>,
)
    requires
        valid_schedule(jo, nm, sched_view(sched)),
        mks == schedule_makespan(jo, sched_view(sched)),
        mks < u32::MAX,
        *old(best_makespan) == u32::MAX || (valid_schedule(jo, nm, sched_view(*old(best_schedule)))
            && *old(best_makespan) == schedule_makespan(jo, sched_view(*old(best_schedule)))),
        forall|s: &Vec<Vec<(usize, u32)>>|
            #![trigger save.requires((s,))]
            saveable(jo, nm, sched_view(*s)) ==> save.requires((s,)),
    ensures
        sched_view(*final(best_schedule)) == if mks < *old(best_makespan) {
            sched_view(sched)
        } else {
            sched_view(*old(best_schedule))
        },
        final(best_schedule)@.len() == if mks < *old(best_makespan) {
            sched@.len()
        } else {
            old(best_schedule)@.len()
        },
        *final(best_makespan) == if mks < *old(best_makespan) {
            mks
        } else {
            *old(best_makespan)
        },
{
    if mks < *best_makespan {
        *best_makespan = mks;
        *best_schedule = sched;
    }
    if best_schedule.len() > 0 {
        assert(saveable(jo, nm, sched_view(*best_schedule))) by {
            reveal(saveable);
        }
        save(best_schedule);
    }
}

/// One list-scheduling pass under priority rule `prio`: the schedule and its
/// makespan.  The schedule is valid and complete and the makespan is its
/// latest finish; under a deterministic rule the schedule is exactly the one
/// that rule builds.
pub fn run_pass(
    challenge: &Challenge,
    job_to_product: &Vec<usize>,
    remaining: &Vec<Vec<u32>>,
    eligibility: &Vec<Vec<usize>>,
    prio: Priority,
) -> (r: (Vec<Vec<(usize, u32)>>, u32))
    requires
        pass_inputs(challenge, job_to_product@, remaining@, eligibility@),
        pass_fits(job_ops(challenge), challenge.num_machines as int, prio),
    ensures
        valid_schedule(job_ops(challenge), challenge.num_machines as int, sched_view(r.0)),
        r.1 == schedule_makespan(job_ops(challenge), sched_view(r.0)),
        r.1 < u32::MAX,
        earliest_ready_schedule(job_ops(challenge), challenge.num_machines as int, sched_view(r.0)),
        !(prio is Random) ==> sched_view(r.0) == rule_schedule(
            job_ops(challenge),
            challenge.num_machines as int,
            prio,
        ),
{
    let n_jobs = challenge.num_jobs;
    let n_machines = challenge.num_machines;
    let ghost jo = job_ops(challenge);
    let ghost nm = n_machines as int;
    let ghost key = priority_key(jo, prio);
    let ghost det = !(prio is Random);
    proof {
        assert forall|j: int| 0 <= j < jo.len() implies #[trigger] job_to_product@[j]
            < challenge.product_processing_times.len()
            && challenge.product_processing_times@[job_to_product@[j] as int]@.len()
            == jo[j].len() by {
            lemma_job_ops(challenge, j);
        }
    }
    let mut machine_avail = zeros_u32(n_machines);
    let mut next_op = zeros_usize(n_jobs);
    let mut job_ready = zeros_u32(n_jobs);
    let mut job_schedule = empty_rows(n_jobs);
    let total = total_ops(job_to_product, &challenge.product_processing_times, Ghost(jo));
    let mut ops_done: usize = 0;
    let mut rng = match prio {
        Priority::Random(seed) => Some(rng_seed_from_u64(seed)),
        _ => None,
    };
    // The state that the loop maintains; under a deterministic rule it is the
    // rule's own state after `ops_done` steps.
    let ghost mut st = initial_state(jo, nm);
    let ghost mut picks: Seq<int> = seq![];
    proof {
        lemma_initial_state(jo, nm);
        assert(list_run(jo, nm, key, start_key(), 0) == initial_state(jo, nm));
        assert(sched_view(job_schedule) =~= initial_state(jo, nm).2);
        lemma_count_ops_bound(jo, initial_state(jo, nm).2);
    }
    while ops_done < total
        invariant
            ops_done <= total,
            pass_inputs(challenge, job_to_product@, remaining@, eligibility@),
            n_jobs == challenge.num_jobs,
            n_machines == challenge.num_machines,
            nm == n_machines,
            jo == job_ops(challenge),
            key == priority_key(jo, prio),
            det == !(prio is Random),
            det ==> rng is None,
            !det ==> rng is Some,
            jo.len() == n_jobs,
            total == count_ops(jo),
            next_op.len() == n_jobs,
            forall|j2: int|
                0 <= j2 < n_jobs ==> #[trigger] job_to_product@[j2]
                    < challenge.product_processing_times.len()
                    && challenge.product_processing_times@[job_to_product@[j2] as int]@.len()
                    == jo[j2].len(),
            det ==> st == list_run(jo, nm, key, start_key(), ops_done as nat),
            st.0 == machine_avail@,
            st.1 == job_ready@,
            st.2 == sched_view(job_schedule),
            forall|j2: int| 0 <= j2 < n_jobs ==> #[trigger] next_op@[j2] == st.2[j2].len(),
            valid_partial(jo, nm, st.2),
            consistent(jo, nm, st.2, st.0, st.1),
            pass_fits(jo, nm, prio),
            times_below(st.0, st.1),
            scheduled_count(st.2) == ops_done,
            ops_done == total ==> complete(jo, st.2),
            st == picks_run(jo, nm, picks),
            picks.len() == ops_done,
            earliest_ready_picks(jo, nm, picks),
        ensures
            ops_done == total,
        decreases total - ops_done,
    {
        proof {
            lemma_count_ops_bound(jo, st.2);
        }
        let mut best_j: Option<usize> = None;
        let mut best_score: i64 = i64::MAX;
        let mut best_ready: u32 = u32::MAX;
        let mut j: usize = 0;
        while j < n_jobs
            invariant
                j <= n_jobs,
                n_jobs == jo.len(),
                pass_inputs(challenge, job_to_product@, remaining@, eligibility@),
                jo == job_ops(challenge),
                key == priority_key(jo, prio),
                det == !(prio is Random),
                det ==> rng is None,
                !det ==> rng is Some,
                next_op.len() == n_jobs,
                st.1 == job_ready@,
                job_ready.len() == n_jobs,
                st.2.len() == n_jobs,
                forall|j2: int| 0 <= j2 < n_jobs ==> #[trigger] next_op@[j2] == st.2[j2].len(),
                forall|j2: int| 0 <= j2 < n_jobs ==> (#[trigger] st.2[j2]).len() <= jo[j2].len(),
                forall|j2: int| 0 <= j2 < n_jobs ==> #[trigger] st.1[j2] < u32::MAX,
                forall|j2: int|
                    0 <= j2 < n_jobs ==> #[trigger] job_to_product@[j2]
                        < challenge.product_processing_times.len()
                        && challenge.product_processing_times@[job_to_product@[j2] as int]@.len()
                        == jo[j2].len(),
                det ==> list_fold(jo, st.1, st.2, key, start_key(), j as int) == (
                    best_j,
                    best_ready as int,
                    best_score as int,
                ),
                best_j matches Some(b) ==> b < j && unfinished(jo, st.2, b as int),
                best_j is None ==> best_ready == u32::MAX && forall|j2: int|
                    0 <= j2 < j ==> !unfinished(jo, st.2, j2),
                best_j matches Some(b) ==> best_ready == st.1[b as int] && forall|j2: int|
                    0 <= j2 < j && unfinished(jo, st.2, j2) ==> best_ready <= #[trigger] st.1[j2],
            decreases n_jobs - j,
        {
            let p = job_to_product[j];
            let n_ops = challenge.product_processing_times[p].len();
            if next_op[j] < n_ops {
                let r = job_ready[j];
                let k = next_op[j];
                // Primary: earliest ready.  Secondary: the rule's score.
                let secondary: i64 = match prio {
                    Priority::Lrpt => -(remaining[j][k] as i64),
                    Priority::Srpt => remaining[j][k] as i64,
                    Priority::LeastFlexible => eligibility[j][k] as i64,
                    Priority::Lpt => {
                        proof {
                            lemma_job_ops(challenge, j as int);
                        }
                        let op = &challenge.product_processing_times[p][k];
                        assert(op@ == jo[j as int][k as int]);
                        -(op_max_time(op) as i64)
                    },
                    Priority::Random(_) => {
                        let draw = match rng.as_mut() {
                            Some(g) => rng_next_u64(g),
                            None => 0,
                        };
                        let key_bits: u64 = draw >> 11u64;
                        assert(key_bits < 0x20_0000_0000_0000u64) by (bit_vector)
                            requires
                                key_bits == draw >> 11u64,
                        ;
                        key_bits as i64
                    },
                };
                if r < best_ready || (r == best_ready && secondary < best_score) {
                    best_j = Some(j);
                    best_ready = r;
                    best_score = secondary;
                }
            }
            j = j + 1;
        }
        proof {
            if det {
                lemma_list_fold(jo, st.1, st.2, key, start_key(), n_jobs as int);
            }
        }
        let j = match best_j {
            Some(x) => x,
            None => {
                proof {
                    // Fewer operations placed than there are means some job is
                    // unfinished, so a job is always chosen.
                    assert forall|j2: int| 0 <= j2 < st.2.len() implies (#[trigger] st.2[j2]).len()
                        == jo[j2].len() by {
                        assert(!unfinished(jo, st.2, j2));
                    }
                    assert(complete(jo, st.2));
                    lemma_complete_count(jo, st.2);
                    assert(false);
                }
                break;
            },
        };
        proof {
            lemma_job_ops(challenge, j as int);
        }
        let p = job_to_product[j];
        let op_idx = next_op[j];
        let op = &challenge.product_processing_times[p][op_idx];
        assert(op@ == jo[j as int][op_idx as int]);
        proof {
            assert(earliest_ready(jo, st.1, st.2, j as int));
            assert(st.2[j as int].len() == op_idx);
            if det {
                assert(list_pick(jo, st.1, st.2, key, start_key()) == Some(j));
                assert(finishes_fit(jo[j as int][op_idx as int], st.0, st.1[j as int]));
            } else {
                assert(finishes_fit(jo[j as int][op_idx as int], st.0, st.1[j as int]));
            }
            lemma_ect_pick(jo[j as int][op_idx as int], st.0, st.1[j as int]);
            assert(has_eligible(jo[j as int][op_idx as int], nm));
            lemma_dispatch(jo, nm, st.0, st.1, st.2, j as int);
        }
        let (m, start, finish) = match earliest_finish(op, &machine_avail, job_ready[j]) {
            Some(c) => c,
            None => {
                assert(false);
                (0, 0, 0)
            },
        };
        job_schedule[j].push((m, start));
        machine_avail.set(m, finish);
        job_ready.set(j, finish);
        next_op.set(j, op_idx + 1);
        proof {
            let st2 = dispatch(jo, st.0, st.1, st.2, j as int);
            if det {
                assert(st2 == list_run(jo, nm, key, start_key(), (ops_done + 1) as nat));
            }
            assert(earliest_ready(jo, st.1, st.2, j as int));
            let old_picks = picks;
            picks = picks.push(j as int);
            assert(picks.drop_last() =~= old_picks);
            assert(picks.take(old_picks.len() as int) =~= old_picks);
            assert forall|i: int| 0 <= i < picks.len() implies {
                let sti = picks_run(jo, nm, picks.take(i));
                earliest_ready(jo, sti.1, sti.2, #[trigger] picks[i])
            } by {
                if i < old_picks.len() {
                    assert(picks.take(i) =~= old_picks.take(i));
                    assert(picks[i] == old_picks[i]);
                }
            }
            st = st2;
            assert(sched_view(job_schedule) =~= st.2);
            lemma_count_ops_bound(jo, st.2);
        }
        ops_done = ops_done + 1;
    }
    proof {
        lemma_makespan_fits(jo, nm, st.2, st.0, st.1);
        lemma_makespan_of_schedule(jo, nm, st.2, st.0, st.1);
        assert(picks.len() == count_ops(jo) && earliest_ready_picks(jo, nm, picks) && st.2
            == picks_run(jo, nm, picks).2);
    }
    let mks = makespan(&job_ready);
    (job_schedule, mks)
}

/// The remaining-work and eligibility tables of every job.
fn job_tables(challenge: &Challenge, job_to_product: &Vec<usize>) -> (r: (Vec<Vec<u32>>, Vec<Vec<usize>>))
    requires
        well_formed(challenge),
        job_to_product@ == expand_products(challenge.jobs_per_product@),
        job_to_product.len() == challenge.num_jobs,
        challenge.jobs_per_product@.len() <= usize::MAX,
    ensures
        ({
            let jo = job_ops(challenge);
            &&& r.0@.len() == jo.len()
            &&& r.1@.len() == jo.len()
            &&& forall|j: int| 0 <= j < jo.len() ==> (#[trigger] r.0@[j]@).len() == jo[j].len() + 1
            &&& forall|j: int, k: int|
                0 <= j < jo.len() && 0 <= k <= jo[j].len() ==> #[trigger] r.0@[j]@[k]
                    == remaining_work(jo[j], k)
            &&& forall|j: int| 0 <= j < jo.len() ==> (#[trigger] r.1@[j]@).len() == jo[j].len()
            &&& forall|j: int, k: int|
                0 <= j < jo.len() && 0 <= k < jo[j].len() ==> #[trigger] r.1@[j]@[k]
                    == jo[j][k].len()
        }),
{
    let ghost jo = job_ops(challenge);
    let n_jobs = challenge.num_jobs;
    let mut remaining: Vec<Vec<u32>> = Vec::new();
    let mut eligibility: Vec<Vec<usize>> = Vec::new();
    let mut j: usize = 0;
    while j < n_jobs
        invariant
            j <= n_jobs,
            n_jobs == challenge.num_jobs,
            jo == job_ops(challenge),
            jo.len() == n_jobs,
            job_to_product@ == expand_products(challenge.jobs_per_product@),
            challenge.jobs_per_product@.len() <= usize::MAX,
            well_formed(challenge),
            remaining.len() == j,
            eligibility.len() == j,
            forall|j2: int| 0 <= j2 < j ==> (#[trigger] remaining@[j2]@).len() == jo[j2].len() + 1,
            forall|j2: int, k: int|
                0 <= j2 < j && 0 <= k <= jo[j2].len() ==> #[trigger] remaining@[j2]@[k]
                    == remaining_work(jo[j2], k),
            forall|j2: int| 0 <= j2 < j ==> (#[trigger] eligibility@[j2]@).len() == jo[j2].len(),
            forall|j2: int, k: int|
                0 <= j2 < j && 0 <= k < jo[j2].len() ==> #[trigger] eligibility@[j2]@[k]
                    == jo[j2][k].len(),
        decreases n_jobs - j,
    {
        proof {
            lemma_job_ops(challenge, j as int);
        }
        let p = job_to_product[j];
        let ops = &challenge.product_processing_times[p];
        assert(ops@.map_values(|o: Vec<(usize, u32)>| o@) == jo[j as int]);
        remaining.push(remaining_work_table(ops));
        let mut elig: Vec<usize> = Vec::new();
        let mut k: usize = 0;
        while k < ops.len()
            invariant
                k <= ops.len(),
                ops@.map_values(|o: Vec<(usize, u32)>| o@) == jo[j as int],
                elig.len() == k,
                forall|k2: int| 0 <= k2 < k ==> #[trigger] elig@[k2] == jo[j as int][k2].len(),
            decreases ops.len() - k,
        {
            assert(ops[k as int]@ == jo[j as int][k as int]);
            elig.push(ops[k].len());
            k = k + 1;
        }
        eligibility.push(elig);
        j = j + 1;
    }
    (remaining, eligibility)
}

/// Tries the four deterministic rules, then `n_random_passes` random-key
/// passes (default 64, keys from a generator seeded by the challenge), and
/// keeps the first schedule with the smallest makespan.  After every pass the
/// best schedule so far, the first best of the candidates tried until then,
/// is handed to `save` (unless it has no rows); `save` is only ever handed a
/// valid, complete schedule, and these running bests never grow longer.
///
/// Errors: `JobCountMismatch` when `jobs_per_product` does not add up to
/// `num_jobs`; `NoSchedule` when there are no jobs.  Otherwise the schedule is
/// valid and complete, no longer (in makespan) than any of the four
/// deterministic rules, and it is the first best of the four rule schedules
/// followed by `n_random_passes` schedules, each the outcome of some
/// earliest-ready run (which ties the random keys broke is not stated); with
/// no random passes it is exactly the best of the four.
#[verifier::spinoff_prover]
#[verifier::rlimit(100)]
pub fn solve_challenge<F: Fn(&Vec<Vec<(usize, u32)>>)>(
    challenge: &Challenge,
    hyperparameters: &Option<Hyperparameters>,
    save: &F,
) -> (r: Result<Solution, ScheduleError>)
    requires
        forall|s: &Vec<Vec<(usize, u32)>>|
            #![trigger save.requires((s,))]
            saveable(job_ops(challenge), challenge.num_machines as int, sched_view(*s))
                ==> save.requires((s,)),
        well_formed(challenge),
        expand_products(challenge.jobs_per_product@).len() == challenge.num_jobs ==> {
            let jo = job_ops(challenge);
            let nm = challenge.num_machines as int;
            &&& pass_fits(jo, nm, Priority::Lrpt)
            &&& pass_fits(jo, nm, Priority::Srpt)
            &&& pass_fits(jo, nm, Priority::LeastFlexible)
            &&& pass_fits(jo, nm, Priority::Lpt)
            &&& random_passes_of(hyperparameters) > 0 ==> ready_runs_fit(jo, nm)
            &&& count_ops(jo) <= usize::MAX
            &&& all_eligible(jo, challenge.num_machines as int)
            &&& flexibility_fits(jo)
        },
    ensures
        expand_products(challenge.jobs_per_product@).len() != challenge.num_jobs ==> r == Err::<
            Solution,
            ScheduleError,
        >(ScheduleError::JobCountMismatch),
        expand_products(challenge.jobs_per_product@).len() == challenge.num_jobs ==> {
            let jo = job_ops(challenge);
            let nm = challenge.num_machines as int;
            &&& challenge.num_jobs == 0 ==> r == Err::<Solution, ScheduleError>(
                ScheduleError::NoSchedule,
            )
            &&& challenge.num_jobs > 0 ==> (r matches Ok(sol) && {
                let s = sched_view(sol.job_schedule);
                &&& valid_schedule(jo, nm, s)
                &&& schedule_makespan(jo, s) <= schedule_makespan(
                    jo,
                    rule_schedule(jo, nm, Priority::Lrpt),
                )
                &&& schedule_makespan(jo, s) <= schedule_makespan(
                    jo,
                    rule_schedule(jo, nm, Priority::Srpt),
                )
                &&& schedule_makespan(jo, s) <= schedule_makespan(
                    jo,
                    rule_schedule(jo, nm, Priority::LeastFlexible),
                )
                &&& schedule_makespan(jo, s) <= schedule_makespan(
                    jo,
                    rule_schedule(jo, nm, Priority::Lpt),
                )
                &&& exists|scheds: Seq<Seq<Seq<(usize, u32)>>>|
                    #![trigger first_best(jo, rule_schedules(jo, nm) + scheds)]
                    {
                        &&& scheds.len() == random_passes_of(hyperparameters)
                        &&& forall|k: int|
                            0 <= k < scheds.len() ==> earliest_ready_schedule(
                                jo,
                                nm,
                                #[trigger] scheds[k],
                            ) && valid_schedule(jo, nm, scheds[k])
                        &&& s == first_best(jo, rule_schedules(jo, nm) + scheds)
                        &&& running_bests_improve(jo, nm, rule_schedules(jo, nm) + scheds)
                    }
                &&& (hyperparameters matches Some(h) && h.n_random_passes == Some(0usize)) ==> s
                    == best_of_rules(jo, nm)
            })
        },
{
    let n_random_passes = match hyperparameters {
        Some(h) => match h.n_random_passes {
            Some(n) => n,
            None => 64,
        },
        None => 64,
    };
    let n_jobs = challenge.num_jobs;
    let job_to_product = expand_jobs(&challenge.jobs_per_product);
    if job_to_product.len() != n_jobs {
        return Err(ScheduleError::JobCountMismatch);
    }
    let ghost jo = job_ops(challenge);
    let ghost nm = challenge.num_machines as int;
    assert(n_random_passes == random_passes_of(hyperparameters));
    let (remaining, eligibility) = job_tables(challenge, &job_to_product);
    let mut best_makespan: u32 = u32::MAX;
    let mut best_schedule: Vec<Vec<(usize, u32)>> = Vec::new();
    // The four deterministic rules.
    let rules = [Priority::Lrpt, Priority::Srpt, Priority::LeastFlexible, Priority::Lpt];
    let ghost rule_seq = seq![Priority::Lrpt, Priority::Srpt, Priority::LeastFlexible, Priority::Lpt];
    let mut i: usize = 0;
    assert(all_valid(jo, nm, rule_schedules(jo, nm).take(0))) by {
        reveal(all_valid);
    }
    while i < 4
        invariant
            i <= 4,
            rules@ == rule_seq,
            all_valid(jo, nm, rule_schedules(jo, nm).take(i as int)),
            forall|s: &Vec<Vec<(usize, u32)>>|
                #![trigger save.requires((s,))]
                saveable(jo, nm, sched_view(*s)) ==> save.requires((s,)),
            rule_seq == seq![Priority::Lrpt, Priority::Srpt, Priority::LeastFlexible, Priority::Lpt],
            pass_inputs(challenge, job_to_product@, remaining@, eligibility@),
            pass_fits(jo, nm, Priority::Lrpt),
            pass_fits(jo, nm, Priority::Srpt),
            pass_fits(jo, nm, Priority::LeastFlexible),
            pass_fits(jo, nm, Priority::Lpt),
            jo == job_ops(challenge),
            nm == challenge.num_machines,
            i == 0 ==> best_makespan == u32::MAX && best_schedule@.len() == 0,
            i > 0 ==> {
                &&& valid_schedule(jo, nm, sched_view(best_schedule))
                &&& best_makespan == schedule_makespan(jo, sched_view(best_schedule))
                &&& best_schedule@.len() == jo.len()
                &&& forall|i2: int|
                    0 <= i2 < i ==> best_makespan <= schedule_makespan(
                        jo,
                        rule_schedule(jo, nm, #[trigger] rule_seq[i2]),
                    )
            },
            i == 1 ==> sched_view(best_schedule) == rule_schedule(jo, nm, Priority::Lrpt),
            i == 2 ==> sched_view(best_schedule) == (if schedule_makespan(
                jo,
                rule_schedule(jo, nm, Priority::Srpt),
            ) < schedule_makespan(jo, rule_schedule(jo, nm, Priority::Lrpt)) {
                rule_schedule(jo, nm, Priority::Srpt)
            } else {
                rule_schedule(jo, nm, Priority::Lrpt)
            }),
            i == 3 ==> {
                let s1 = rule_schedule(jo, nm, Priority::Lrpt);
                let s2 = rule_schedule(jo, nm, Priority::Srpt);
                let s3 = rule_schedule(jo, nm, Priority::LeastFlexible);
                let b12 = if schedule_makespan(jo, s2) < schedule_makespan(jo, s1) {
                    s2
                } else {
                    s1
                };
                sched_view(best_schedule) == if schedule_makespan(jo, s3) < schedule_makespan(
                    jo,
                    b12,
                ) {
                    s3
                } else {
                    b12
                }
            },
            i == 4 ==> sched_view(best_schedule) == best_of_rules(jo, nm),
        decreases 4 - i,
    {
        let prio = rules[i];
        proof {
            assert(rule_seq[0] == Priority::Lrpt);
            assert(rule_seq[1] == Priority::Srpt);
            assert(rule_seq[2] == Priority::LeastFlexible);
            assert(rule_seq[3] == Priority::Lpt);
        }
        assert(prio == rule_seq[i as int]);
        assert(!(prio is Random));
        let (sched, mks) = run_pass(challenge, &job_to_product, &remaining, &eligibility, prio);
        proof {
            assert(sched_view(sched) == rule_schedule(jo, nm, prio));
            assert(rule_schedules(jo, nm)[i as int] == rule_schedule(jo, nm, prio));
            assert(all_valid(jo, nm, rule_schedules(jo, nm).take(i + 1))) by {
                reveal(all_valid);
                let c = rule_schedules(jo, nm);
                assert forall|k: int| 0 <= k < i + 1 implies valid_schedule(
                    jo,
                    nm,
                    #[trigger] c.take(i + 1)[k],
                ) by {
                    if k < i {
                        assert(c.take(i + 1)[k] == c.take(i as int)[k]);
                    }
                }
            }
        }
        record_best(&mut best_schedule, &mut best_makespan, sched, mks, save, Ghost(jo), Ghost(nm));
        i = i + 1;
    }
    // Randomized passes.
    let mut rng = rng_from_seed(challenge.seed);
    let mut pass: usize = 0;
    let ghost mut scheds: Seq<Seq<Seq<(usize, u32)>>> = seq![];
    proof {
        lemma_best_of_rules(jo, nm);
        assert(rule_schedules(jo, nm) + scheds =~= rule_schedules(jo, nm));
        assert(rule_schedules(jo, nm).take(4) =~= rule_schedules(jo, nm));
    }
    while pass < n_random_passes
        invariant
            pass_inputs(challenge, job_to_product@, remaining@, eligibility@),
            jo == job_ops(challenge),
            nm == challenge.num_machines,
            valid_schedule(jo, nm, sched_view(best_schedule)),
            best_makespan == schedule_makespan(jo, sched_view(best_schedule)),
            best_schedule@.len() == jo.len(),
            forall|i2: int|
                0 <= i2 < 4 ==> best_makespan <= schedule_makespan(
                    jo,
                    rule_schedule(jo, nm, #[trigger] rule_seq[i2]),
                ),
            rule_seq == seq![Priority::Lrpt, Priority::Srpt, Priority::LeastFlexible, Priority::Lpt],
            pass <= n_random_passes,
            all_valid(jo, nm, rule_schedules(jo, nm) + scheds),
            forall|s: &Vec<Vec<(usize, u32)>>|
                #![trigger save.requires((s,))]
                saveable(jo, nm, sched_view(*s)) ==> save.requires((s,)),
            n_random_passes > 0 ==> ready_runs_fit(jo, nm),
            scheds.len() == pass,
            forall|k: int| 0 <= k < pass ==> earliest_ready_schedule(jo, nm, #[trigger] scheds[k]),
            sched_view(best_schedule) == first_best(jo, rule_schedules(jo, nm) + scheds),
        decreases n_random_passes - pass,
    {
        let seed = rng_next_u64(&mut rng);
        let (sched, mks) = run_pass(
            challenge,
            &job_to_product,
            &remaining,
            &eligibility,
            Priority::Random(seed),
        );
        let ghost sv = sched_view(sched);
        proof {
            lemma_random_step(jo, nm, scheds, sv);
        }
        record_best(&mut best_schedule, &mut best_makespan, sched, mks, save, Ghost(jo), Ghost(nm));
        proof {
            scheds = scheds.push(sv);
        }
        pass = pass + 1;
    }
    proof {
        assert(rule_seq[0] == Priority::Lrpt);
        assert(rule_seq[1] == Priority::Srpt);
        assert(rule_seq[2] == Priority::LeastFlexible);
        assert(rule_seq[3] == Priority::Lpt);
        assert(n_random_passes == random_passes_of(hyperparameters));
        if n_random_passes == 0 {
            lemma_best_of_rules(jo, nm);
            assert(rule_schedules(jo, nm) + scheds =~= rule_schedules(jo, nm));
        }
    }
    if best_schedule.len() == 0 {
        return Err(ScheduleError::NoSchedule);
    }
    proof {
        let s = sched_view(best_schedule);
        assert(scheds.len() == random_passes_of(hyperparameters));
        assert(s == first_best(jo, rule_schedules(jo, nm) + scheds));
        lemma_running_bests(jo, nm, rule_schedules(jo, nm) + scheds);
        lemma_all_valid_tail(jo, nm, rule_schedules(jo, nm), scheds);
    }
    Ok(Solution { job_schedule: best_schedule })
}

} // verus!
