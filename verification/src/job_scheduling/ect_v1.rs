//! Earliest completion time, job by job: every operation of job 0, in order,
//! then those of job 1, and so on, each on the eligible machine on which it
//! would finish first.

use super::{
    all_eligible, consistent, dispatch, distinct_machines, earliest_finish, expand_jobs,
    expand_products, has_eligible, initial_state, job_ops, lemma_dispatch, lemma_initial_state,
    lemma_ect_pick, lemma_job_ops, sched_view, finishes_fit,
    times_below, valid_partial, valid_schedule, well_formed, zeros_u32,
    Challenge, ScheduleError, Solution,
};
use vstd::prelude::*;

verus! {

/// This rule has no tunable hyperparameters.
pub struct Hyperparameters {}

/// The dispatcher state after every operation of jobs `0..j` and the first
/// `k` operations of job `j` have been placed, job by job.
pub open spec fn job_by_job(jo: Seq<Seq<Seq<(usize, u32)>>>, nm: int, j: int, k: int) -> (
    Seq<u32>,
    Seq<u32>,
    Seq<Seq<(usize, u32)>>,
)
    decreases j, k,
{
    if k > 0 {
        let st = job_by_job(jo, nm, j, k - 1);
        dispatch(jo, st.0, st.1, st.2, j)
    } else if j > 0 {
        job_by_job(jo, nm, j - 1, jo[j - 1].len() as int)
    } else {
        initial_state(jo, nm)
    }
}

/// The schedule that the job-by-job rule produces.
pub open spec fn job_by_job_schedule(jo: Seq<Seq<Seq<(usize, u32)>>>, nm: int) -> Seq<
    Seq<(usize, u32)>,
> {
    job_by_job(jo, nm, jo.len() as int, 0).2
}

/// Every operation before `(j, k)`, in job-then-operation order, lists a
/// machine below `nm`.
pub open spec fn eligible_before(jo: Seq<Seq<Seq<(usize, u32)>>>, nm: int, j: int, k: int) -> bool {
    forall|j2: int, k2: int|
        0 <= j2 < jo.len() && 0 <= k2 < jo[j2].len() && (j2 < j || (j2 == j && k2 < k))
            ==> has_eligible(#[trigger] jo[j2][k2], nm)
}

/// No start plus processing time that the job-by-job rule computes reaches
/// `u32::MAX`: when it comes to operation `(j, k)`, every eligible machine of
/// that operation would finish below it.
pub open spec fn job_by_job_fits(jo: Seq<Seq<Seq<(usize, u32)>>>, nm: int) -> bool {
    forall|j: int, k: int|
        0 <= j < jo.len() && 0 <= k < jo[j].len() && eligible_before(jo, nm, j, k) ==> {
            let st = #[trigger] job_by_job(jo, nm, j, k);
            finishes_fit(jo[j][k], st.0, st.1[j])
        }
}

/// `(j, k)` is the first operation, in job-then-operation order, that lists
/// no machine below `nm`.
pub open spec fn first_ineligible(jo: Seq<Seq<Seq<(usize, u32)>>>, nm: int, j: int, k: int) -> bool {
    &&& 0 <= j < jo.len()
    &&& 0 <= k < jo[j].len()
    &&& !has_eligible(jo[j][k], nm)
    &&& forall|j2: int, k2: int|
        0 <= j2 < jo.len() && 0 <= k2 < jo[j2].len() && (j2 < j || (j2 == j && k2 < k))
            ==> has_eligible(#[trigger] jo[j2][k2], nm)
}

/// Schedules every job, in job order, by earliest completion time.
///
/// Errors: `JobCountMismatch` when `jobs_per_product` does not add up to
/// `num_jobs`; otherwise `NoEligibleMachine` naming the first operation that
/// lists no machine below `num_machines`.  Otherwise the schedule is the
/// job-by-job earliest-finish schedule, and it is valid: every operation on a
/// listed machine, operations of a job in sequence, no two operations
/// overlapping on a machine.
#[verifier::spinoff_prover]
#[verifier::rlimit(40)]
pub fn solve_challenge(challenge: &Challenge, hyperparameters: &Option<Hyperparameters>) -> (r:
    Result<Solution, ScheduleError>)
    requires
        well_formed(challenge),
        expand_products(challenge.jobs_per_product@).len() == challenge.num_jobs ==> job_by_job_fits(
            job_ops(challenge),
            challenge.num_machines as int,
        ),
    ensures
        expand_products(challenge.jobs_per_product@).len() != challenge.num_jobs ==> r == Err::<
            Solution,
            ScheduleError,
        >(ScheduleError::JobCountMismatch),
        expand_products(challenge.jobs_per_product@).len() == challenge.num_jobs ==> {
            let jo = job_ops(challenge);
            let nm = challenge.num_machines as int;
            &&& all_eligible(jo, nm) ==> (r matches Ok(sol) && sched_view(sol.job_schedule)
                == job_by_job_schedule(jo, nm) && valid_schedule(
                jo,
                nm,
                sched_view(sol.job_schedule),
            ))
            &&& !all_eligible(jo, nm) ==> (r matches Err(ScheduleError::NoEligibleMachine {
                job,
                op,
            }) && first_ineligible(jo, nm, job as int, op as int))
        },
{
    let n_jobs = challenge.num_jobs;
    let n_machines = challenge.num_machines;
    let mut machine_avail = zeros_u32(n_machines);
    let job_to_product = expand_jobs(&challenge.jobs_per_product);
    if job_to_product.len() != n_jobs {
        return Err(ScheduleError::JobCountMismatch);
    }
    let ghost jo = job_ops(challenge);
    let ghost nm = n_machines as int;
    proof {
        lemma_initial_state(jo, nm);
        assert(job_by_job(jo, nm, 0, 0) == initial_state(jo, nm));
    }
    let mut job_schedule: Vec<Vec<(usize, u32)>> = Vec::new();
    let mut job_idx: usize = 0;
    while job_idx < n_jobs
        invariant
            n_jobs == challenge.num_jobs,
            n_machines == challenge.num_machines,
            nm == n_machines,
            jo == job_ops(challenge),
            jo.len() == n_jobs,
            job_to_product@ == expand_products(challenge.jobs_per_product@),
            challenge.jobs_per_product@.len() <= usize::MAX,
            well_formed(challenge),
            job_by_job_fits(jo, nm),
            job_idx <= n_jobs,
            job_schedule@.len() == job_idx,
            ({
                let st = job_by_job(jo, nm, job_idx as int, 0);
                &&& st.0 == machine_avail@
                &&& forall|j: int| 0 <= j < job_idx ==> #[trigger] st.2[j] == job_schedule@[j]@
                &&& forall|j: int| job_idx <= j < n_jobs ==> #[trigger] st.2[j].len() == 0
                &&& valid_partial(jo, nm, st.2)
                &&& consistent(jo, nm, st.2, st.0, st.1)
                &&& times_below(st.0, st.1)
                &&& forall|j: int| job_idx <= j < n_jobs ==> #[trigger] st.1[j] == 0
            }),
            forall|j: int| 0 <= j < job_idx ==> (#[trigger] job_schedule@[j]@).len() == jo[j].len(),
            forall|j2: int, k2: int|
                0 <= j2 < job_idx && 0 <= k2 < jo[j2].len() ==> has_eligible(
                    #[trigger] jo[j2][k2],
                    nm,
                ),
        decreases n_jobs - job_idx,
    {
        proof {
            lemma_job_ops(challenge, job_idx as int);
        }
        let product = job_to_product[job_idx];
        let processing_times = &challenge.product_processing_times[product];
        assert(processing_times@.map_values(|o: Vec<(usize, u32)>| o@) == jo[job_idx as int]);
        let mut this_schedule: Vec<(usize, u32)> = Vec::new();
        let mut job_ready: u32 = 0;
        let mut k: usize = 0;
        while k < processing_times.len()
            invariant
                n_jobs == challenge.num_jobs,
                n_machines == challenge.num_machines,
                nm == n_machines,
                jo == job_ops(challenge),
                jo.len() == n_jobs,
                job_by_job_fits(jo, nm),
                job_idx < n_jobs,
                job_schedule@.len() == job_idx,
                processing_times@.map_values(|o: Vec<(usize, u32)>| o@) == jo[job_idx as int],
                forall|k2: int|
                    0 <= k2 < jo[job_idx as int].len() ==> distinct_machines(
                        #[trigger] jo[job_idx as int][k2],
                    ),
                k <= processing_times.len(),
                ({
                    let st = job_by_job(jo, nm, job_idx as int, k as int);
                    &&& st.0 == machine_avail@
                    &&& st.1[job_idx as int] == job_ready
                    &&& forall|j: int| 0 <= j < job_idx ==> #[trigger] st.2[j] == job_schedule@[j]@
                    &&& st.2[job_idx as int] == this_schedule@
                    &&& forall|j: int| job_idx < j < n_jobs ==> #[trigger] st.2[j].len() == 0
                    &&& valid_partial(jo, nm, st.2)
                    &&& consistent(jo, nm, st.2, st.0, st.1)
                    &&& times_below(st.0, st.1)
                    &&& forall|j: int| job_idx < j < n_jobs ==> #[trigger] st.1[j] == 0
                }),
                this_schedule@.len() == k,
                forall|j: int| 0 <= j < job_idx ==> (#[trigger] job_schedule@[j]@).len()
                    == jo[j].len(),
                forall|j2: int, k2: int|
                    0 <= j2 < job_idx && 0 <= k2 < jo[j2].len() ==> has_eligible(
                        #[trigger] jo[j2][k2],
                        nm,
                    ),
                forall|k2: int| 0 <= k2 < k ==> has_eligible(#[trigger] jo[job_idx as int][k2], nm),
            decreases processing_times.len() - k,
        {
            let ghost st = job_by_job(jo, nm, job_idx as int, k as int);
            assert(processing_times[k as int]@ == jo[job_idx as int][k as int]);
            proof {
                assert(eligible_before(jo, nm, job_idx as int, k as int));
                assert(finishes_fit(jo[job_idx as int][k as int], st.0, st.1[job_idx as int]));
                lemma_ect_pick(jo[job_idx as int][k as int], st.0, st.1[job_idx as int]);
            }
            match earliest_finish(&processing_times[k], &machine_avail, job_ready) {
                None => {
                    proof {
                        assert forall|j2: int, k2: int|
                            0 <= j2 < jo.len() && 0 <= k2 < jo[j2].len() && (j2 < job_idx || (j2
                                == job_idx && k2 < k)) implies has_eligible(
                            #[trigger] jo[j2][k2],
                            nm,
                        ) by {}
                    }
                    return Err(ScheduleError::NoEligibleMachine { job: job_idx, op: k });
                },
                Some((m, start, finish)) => {
                    proof {
                        lemma_dispatch(jo, nm, st.0, st.1, st.2, job_idx as int);
                    }
                    this_schedule.push((m, start));
                    machine_avail.set(m, finish);
                    job_ready = finish;
                    proof {
                        let st2 = job_by_job(jo, nm, job_idx as int, k + 1);
                        assert(st2 == dispatch(jo, st.0, st.1, st.2, job_idx as int));
                        assert(st2.2 =~= st.2.update(job_idx as int, this_schedule@));
                        assert forall|j: int| job_idx < j < n_jobs implies #[trigger] st2.2[j].len()
                            == 0 by {}
                    }
                },
            }
            k = k + 1;
        }
        proof {
            let st = job_by_job(jo, nm, job_idx as int, k as int);
            assert(job_by_job(jo, nm, job_idx + 1, 0) == st);
            assert(processing_times@.len() == jo[job_idx as int].len());
        }
        job_schedule.push(this_schedule);
        job_idx = job_idx + 1;
        proof {
            let st = job_by_job(jo, nm, job_idx as int, 0);
            assert forall|j: int| 0 <= j < job_idx implies #[trigger] st.2[j] == job_schedule@[j]@ by {}
            assert forall|j: int| 0 <= j < job_idx implies (#[trigger] job_schedule@[j]@).len()
                == jo[j].len() by {}
        }
    }
    let ghost st = job_by_job(jo, nm, n_jobs as int, 0);
    proof {
        assert(sched_view(job_schedule) =~= st.2);
        assert(all_eligible(jo, nm));
    }
    Ok(Solution { job_schedule })
}

} // verus!
