//! List scheduling with earliest completion time: at every step the
//! unfinished job that is ready earliest (ties: the most remaining work, then
//! the lowest index) places its next operation on the eligible machine on
//! which it would finish first.

use super::{
    all_eligible, consistent, count_ops, dispatch, distinct_machines, earliest_finish, empty_rows,
    expand_jobs, expand_products, has_eligible, initial_state, job_ops, lemma_count_ops_bound,
    lemma_dispatch, lemma_ect_pick, lemma_initial_state, lemma_job_ops,
    lemma_list_fold, lemma_list_fold_min, lemma_list_run_fixed, list_fold, list_pick, list_run, list_run_fits,
    ppt_view, remaining_work, remaining_work_table, sched_view, scheduled_count, finishes_fit,
    complete, times_below, total_ops, unfinished, valid_partial, valid_schedule, well_formed,
    zeros_u32, zeros_usize, Challenge, ScheduleError, Solution,
};
use vstd::prelude::*;

verus! {

/// This rule has no tunable hyperparameters.
pub struct Hyperparameters {}

/// The tie-break key of this rule: more remaining work first.
pub open spec fn most_work_first(jo: Seq<Seq<Seq<(usize, u32)>>>) -> spec_fn(int, int) -> int {
    |j: int, k: int| -(remaining_work(jo[j], k) as int)
}

/// The job this rule dispatches next: an unfinished job ready no later than
/// any other unfinished job, and among those ready as early, one with the
/// most remaining work (the sum of the smallest processing times of its
/// operations still to place).  No job is dispatched only when all are
/// finished.
pub proof fn lemma_lrpt_pick(
    jo: Seq<Seq<Seq<(usize, u32)>>>,
    ready: Seq<u32>,
    sched: Seq<Seq<(usize, u32)>>,
)
    requires
        sched.len() == jo.len(),
        ready.len() == jo.len(),
        jo.len() <= usize::MAX,
        forall|j: int| 0 <= j < ready.len() ==> #[trigger] ready[j] < u32::MAX,
    ensures
        list_pick(jo, ready, sched, most_work_first(jo), 0) is None <==> forall|j: int|
            0 <= j < jo.len() ==> !unfinished(jo, sched, j),
        list_pick(jo, ready, sched, most_work_first(jo), 0) matches Some(j) ==> {
            &&& 0 <= j < jo.len()
            &&& unfinished(jo, sched, j as int)
            &&& forall|j2: int|
                0 <= j2 < jo.len() && unfinished(jo, sched, j2) ==> ready[j as int]
                    <= #[trigger] ready[j2] && (ready[j2] == ready[j as int] ==> remaining_work(
                    jo[j2],
                    sched[j2].len() as int,
                ) <= remaining_work(jo[j as int], sched[j as int].len() as int))
        },
{
    let key = most_work_first(jo);
    lemma_list_fold(jo, ready, sched, key, 0, jo.len() as int);
    lemma_list_fold_min(jo, ready, sched, key, 0, jo.len() as int);
}

/// The state this rule reaches after at most `count_ops` steps.
pub open spec fn lrpt_final(jo: Seq<Seq<Seq<(usize, u32)>>>, nm: int) -> (
    Seq<u32>,
    Seq<u32>,
    Seq<Seq<(usize, u32)>>,
) {
    list_run(jo, nm, most_work_first(jo), 0, count_ops(jo) as nat)
}

/// Schedules all operations by list scheduling: earliest-ready job first,
/// more remaining work (the sum of smallest processing times, saturating)
/// on ties, then the lower job index; each operation on its earliest-finish
/// machine.
///
/// Errors: `JobCountMismatch` when `jobs_per_product` does not add up to
/// `num_jobs`; `NoEligibleMachine` when the rule reaches an operation that
/// lists no machine below `num_machines` (the operation at which the rule
/// stands still).  Otherwise the schedule is the one the rule builds, and it
/// is valid and complete.
pub fn solve_challenge(challenge: &Challenge, hyperparameters: &Option<Hyperparameters>) -> (r:
    Result<Solution, ScheduleError>)
    requires
        well_formed(challenge),
        expand_products(challenge.jobs_per_product@).len() == challenge.num_jobs ==> list_run_fits(
            job_ops(challenge),
            challenge.num_machines as int,
            most_work_first(job_ops(challenge)),
            0,
        ) && count_ops(job_ops(challenge)) <= usize::MAX,
    ensures
        expand_products(challenge.jobs_per_product@).len() != challenge.num_jobs ==> r == Err::<
            Solution,
            ScheduleError,
        >(ScheduleError::JobCountMismatch),
        expand_products(challenge.jobs_per_product@).len() == challenge.num_jobs ==> {
            let jo = job_ops(challenge);
            let nm = challenge.num_machines as int;
            let fin = lrpt_final(jo, nm);
            &&& all_eligible(jo, nm) ==> (r matches Ok(sol) && sched_view(sol.job_schedule)
                == fin.2 && valid_schedule(jo, nm, sched_view(sol.job_schedule)))
            &&& !all_eligible(jo, nm) ==> (r matches Err(ScheduleError::NoEligibleMachine {
                job,
                op,
            }) && list_pick(jo, fin.1, fin.2, most_work_first(jo), 0) == Some(job) && fin.2[job as int].len()
                == op && op < jo[job as int].len() && !has_eligible(jo[job as int][op as int], nm))
        },
{
    let n_jobs = challenge.num_jobs;
    let n_machines = challenge.num_machines;
    let mut machine_avail = zeros_u32(n_machines);
    let job_to_product = expand_jobs(&challenge.jobs_per_product);
    if job_to_product.len() != n_jobs {
        return Err(ScheduleError::JobCountMismatch);
    }
    let ghost jo = job_ops(challenge);
    let ghost nm = n_machines as int;
    let ghost key = most_work_first(jo);
    proof {
        assert forall|j: int| 0 <= j < jo.len() implies #[trigger] job_to_product@[j]
            < challenge.product_processing_times.len()
            && challenge.product_processing_times@[job_to_product@[j] as int]@.len()
            == jo[j].len() by {
            lemma_job_ops(challenge, j);
        }
    }
    let mut next_op = zeros_usize(n_jobs);
    let mut job_ready = zeros_u32(n_jobs);
    // Remaining-work bound for every job and operation index.
    let mut remaining: Vec<Vec<u32>> = Vec::new();
    let mut j: usize = 0;
    while j < n_jobs
        invariant
            j <= n_jobs,
            n_jobs == challenge.num_jobs,
            jo == job_ops(challenge),
            jo.len() == n_jobs,
            job_to_product@ == expand_products(challenge.jobs_per_product@),
            challenge.jobs_per_product@.len() <= usize::MAX,
            well_formed(challenge),
            remaining.len() == j,
            forall|j2: int, k: int|
                0 <= j2 < j && 0 <= k <= jo[j2].len() ==> #[trigger] remaining@[j2]@[k]
                    == remaining_work(jo[j2], k),
            forall|j2: int| 0 <= j2 < j ==> (#[trigger] remaining@[j2]@).len() == jo[j2].len() + 1,
        decreases n_jobs - j,
    {
        proof {
            lemma_job_ops(challenge, j as int);
        }
        let p = job_to_product[j];
        let ops = &challenge.product_processing_times[p];
        assert(ops@.map_values(|o: Vec<(usize, u32)>| o@) == jo[j as int]);
        let table = remaining_work_table(ops);
        remaining.push(table);
        j = j + 1;
    }
    let mut job_schedule = empty_rows(n_jobs);
    let total = total_ops(&job_to_product, &challenge.product_processing_times, Ghost(jo));
    let mut ops_done: usize = 0;
    proof {
        lemma_initial_state(jo, nm);
        assert(list_run(jo, nm, key, 0, 0) == initial_state(jo, nm));
        assert(sched_view(job_schedule) =~= initial_state(jo, nm).2);
        lemma_count_ops_bound(jo, initial_state(jo, nm).2);
    }
    while ops_done < total
        invariant_except_break
            ops_done <= total,
        invariant
            n_jobs == challenge.num_jobs,
            n_machines == challenge.num_machines,
            nm == n_machines,
            jo == job_ops(challenge),
            key == most_work_first(jo),
            jo.len() == n_jobs,
            total == count_ops(jo),
            job_to_product@ == expand_products(challenge.jobs_per_product@),
            challenge.jobs_per_product@.len() <= usize::MAX,
            well_formed(challenge),
            list_run_fits(jo, nm, key, 0),
            forall|j2: int, k: int|
                0 <= j2 < n_jobs && 0 <= k <= jo[j2].len() ==> #[trigger] remaining@[j2]@[k]
                    == remaining_work(jo[j2], k),
            forall|j2: int| 0 <= j2 < n_jobs ==> (#[trigger] remaining@[j2]@).len() == jo[j2].len() + 1,
            remaining.len() == n_jobs,
            next_op.len() == n_jobs,
            ({
                let st = list_run(jo, nm, key, 0, ops_done as nat);
                &&& st.0 == machine_avail@
                &&& st.1 == job_ready@
                &&& st.2 == sched_view(job_schedule)
                &&& forall|j2: int| 0 <= j2 < n_jobs ==> #[trigger] next_op@[j2] == st.2[j2].len()
                &&& valid_partial(jo, nm, st.2)
                &&& consistent(jo, nm, st.2, st.0, st.1)
                &&& times_below(st.0, st.1)
                &&& scheduled_count(st.2) == ops_done
                &&& ops_done == total ==> complete(jo, st.2)
            }),
            forall|j2: int|
                0 <= j2 < n_jobs ==> #[trigger] job_to_product@[j2]
                    < challenge.product_processing_times.len()
                    && challenge.product_processing_times@[job_to_product@[j2] as int]@.len()
                    == jo[j2].len(),
        ensures
            ({
                let st = list_run(jo, nm, key, 0, ops_done as nat);
                &&& st == lrpt_final(jo, nm)
                &&& complete(jo, st.2)
            }),
        decreases total - ops_done,
    {
        let ghost st = list_run(jo, nm, key, 0, ops_done as nat);
        proof {
            lemma_count_ops_bound(jo, st.2);
        }
        // Pick the unfinished job with earliest ready time; LRPT tiebreak.
        let mut best_j: Option<usize> = None;
        let mut best_ready: u32 = u32::MAX;
        let mut best_remaining: u32 = 0;
        let mut j: usize = 0;
        while j < n_jobs
            invariant
                j <= n_jobs,
                n_jobs == jo.len(),
                job_to_product@ == expand_products(challenge.jobs_per_product@),
                jo == job_ops(challenge),
                key == most_work_first(jo),
                forall|j2: int, k: int|
                    0 <= j2 < n_jobs && 0 <= k <= jo[j2].len() ==> #[trigger] remaining@[j2]@[k]
                        == remaining_work(jo[j2], k),
                forall|j2: int| 0 <= j2 < n_jobs ==> (#[trigger] remaining@[j2]@).len() == jo[j2].len() + 1,
                remaining.len() == n_jobs,
                next_op.len() == n_jobs,
                st.1 == job_ready@,
                job_ready.len() == n_jobs,
                st.2.len() == n_jobs,
                forall|j2: int| 0 <= j2 < n_jobs ==> #[trigger] next_op@[j2] == st.2[j2].len(),
                forall|j2: int| 0 <= j2 < n_jobs ==> (#[trigger] st.2[j2]).len() <= jo[j2].len(),
                forall|j2: int|
                    0 <= j2 < n_jobs ==> #[trigger] job_to_product@[j2]
                        < challenge.product_processing_times.len()
                        && challenge.product_processing_times@[job_to_product@[j2] as int]@.len()
                        == jo[j2].len(),
                list_fold(jo, st.1, st.2, key, 0, j as int) == (
                    best_j,
                    best_ready as int,
                    -(best_remaining as int),
                ),
            decreases n_jobs - j,
        {
            let p = job_to_product[j];
            let n_ops = challenge.product_processing_times[p].len();
            if next_op[j] < n_ops {
                let r = job_ready[j];
                let rem = remaining[j][next_op[j]];
                if r < best_ready || (r == best_ready && rem > best_remaining) {
                    best_j = Some(j);
                    best_ready = r;
                    best_remaining = rem;
                }
            }
            j = j + 1;
        }
        proof {
            lemma_list_fold(jo, st.1, st.2, key, 0, n_jobs as int);
        }
        let j = match best_j {
            Some(x) => x,
            None => {
                proof {
                    lemma_list_run_fixed(jo, nm, key, 0, ops_done as nat, total as nat);
                    lemma_count_ops_bound(jo, st.2);
                    assert forall|j2: int| 0 <= j2 < st.2.len() implies (#[trigger] st.2[j2]).len()
                        == jo[j2].len() by {
                        assert(!unfinished(jo, st.2, j2));
                    }
                }
                break;
            },
        };
        proof {
            lemma_job_ops(challenge, j as int);
        }
        let p = job_to_product[j];
        let op_idx = next_op[j];
        let op = &challenge.product_processing_times[p][op_idx];
        assert(op@ == jo[j as int][op_idx as int]);
        proof {
            assert(list_pick(jo, st.1, st.2, key, 0) == Some(j));
            assert(st.2[j as int].len() == op_idx);
            assert(finishes_fit(jo[j as int][op_idx as int], st.0, st.1[j as int]));
            lemma_ect_pick(jo[j as int][op_idx as int], st.0, st.1[j as int]);
        }
        match earliest_finish(op, &machine_avail, job_ready[j]) {
            None => {
                proof {
                    assert(dispatch(jo, st.0, st.1, st.2, j as int) == st);
                    lemma_list_run_fixed(jo, nm, key, 0, ops_done as nat, total as nat);
                    assert(!all_eligible(jo, nm));
                }
                return Err(ScheduleError::NoEligibleMachine { job: j, op: op_idx });
            },
            Some((m, start, finish)) => {
                proof {
                    lemma_dispatch(jo, nm, st.0, st.1, st.2, j as int);
                }
                job_schedule[j].push((m, start));
                machine_avail.set(m, finish);
                job_ready.set(j, finish);
                next_op.set(j, op_idx + 1);
                proof {
                    let st2 = list_run(jo, nm, key, 0, (ops_done + 1) as nat);
                    assert(st2 == dispatch(jo, st.0, st.1, st.2, j as int));
                    assert(sched_view(job_schedule) =~= st2.2);
                    lemma_count_ops_bound(jo, st2.2);
                }
            },
        }
        ops_done = ops_done + 1;
    }
    proof {
        let st = list_run(jo, nm, key, 0, ops_done as nat);
        assert forall|j2: int, k: int|
            0 <= j2 < jo.len() && 0 <= k < jo[j2].len() implies has_eligible(
            #[trigger] jo[j2][k],
            nm,
        ) by {
            assert(st.2[j2][k].0 < nm && super::lists(jo[j2][k], st.2[j2][k].0));
            let t = choose|i: int| 0 <= i < jo[j2][k].len() && (#[trigger] jo[j2][k][i]).0
                == st.2[j2][k].0;
            assert(jo[j2][k][t].0 < nm);
        }
    }
    Ok(Solution { job_schedule })
}

} // verus!
