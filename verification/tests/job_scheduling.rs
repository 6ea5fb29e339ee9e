use tig_algorithms::job_scheduling::{
    earliest_finish, ect_v1, ect_v2, ect_v3, expand_jobs, makespan, op_max_time, op_min_time,
    remaining_work_table, Challenge, ScheduleError,
};

fn no_save(_s: &Vec<Vec<(usize, u32)>>) {}

fn small_challenge() -> Challenge {
    // Product 0: two operations, the first on machine 0 (3) or 1 (5), the
    // second on machine 1 (2).  Product 1: one operation on machine 1 (4).
    Challenge {
        seed: [0u8; 32],
        num_jobs: 2,
        num_machines: 2,
        jobs_per_product: vec![1, 1],
        product_processing_times: vec![
            vec![vec![(0, 3), (1, 5)], vec![(1, 2)]],
            vec![vec![(1, 4)]],
        ],
    }
}

#[test]
fn expand_jobs_repeats_products() {
    assert_eq!(expand_jobs(&vec![2, 0, 1]), vec![0, 0, 2]);
    assert_eq!(expand_jobs(&vec![]), Vec::<usize>::new());
}

#[test]
fn earliest_finish_prefers_first_of_equal_finishes() {
    // Machine 0 free at 4, machine 1 at 0; job ready at 1.
    let op = vec![(0, 2), (1, 5)];
    // Machine 0: start 4, finish 6; machine 1: start 1, finish 6 -> first wins.
    assert_eq!(earliest_finish(&op, &vec![4, 0], 1), Some((0, 4, 6)));
    // A machine outside the list of machines is skipped.
    assert_eq!(earliest_finish(&vec![(7, 1)], &vec![0, 0], 0), None);
}

#[test]
fn makespan_is_latest_finish() {
    assert_eq!(makespan(&vec![3, 9, 6]), 9);
    assert_eq!(makespan(&vec![]), 0);
}

#[test]
fn operation_time_bounds() {
    assert_eq!(op_min_time(&vec![(0, 7), (1, 3), (2, 5)]), 3);
    assert_eq!(op_max_time(&vec![(0, 7), (1, 3), (2, 5)]), 7);
    assert_eq!(op_min_time(&vec![]), 0);
    assert_eq!(op_max_time(&vec![]), 0);
}

#[test]
fn remaining_work_is_suffix_of_minimum_times() {
    let ops = vec![vec![(0, 3), (1, 5)], vec![(1, 2)]];
    assert_eq!(remaining_work_table(&ops), vec![5, 2, 0]);
}

#[test]
fn ect_v1_schedules_job_by_job() {
    let r = ect_v1::solve_challenge(&small_challenge(), &None).unwrap();
    assert_eq!(r.job_schedule, vec![vec![(0, 0), (1, 3)], vec![(1, 5)]]);
}

#[test]
fn ect_v1_rejects_job_count_mismatch() {
    let mut c = small_challenge();
    c.num_jobs = 3;
    assert!(matches!(
        ect_v1::solve_challenge(&c, &None),
        Err(ScheduleError::JobCountMismatch)
    ));
}

#[test]
fn ect_v1_reports_operation_without_machine() {
    let mut c = small_challenge();
    c.product_processing_times[1][0] = vec![(5, 4)];
    assert!(matches!(
        ect_v1::solve_challenge(&c, &None),
        Err(ScheduleError::NoEligibleMachine { job: 1, op: 0 })
    ));
}

#[test]
fn ect_v2_dispatches_earliest_ready_most_work_first() {
    let r = ect_v2::solve_challenge(&small_challenge(), &None).unwrap();
    assert_eq!(r.job_schedule, vec![vec![(0, 0), (1, 4)], vec![(1, 0)]]);
}

#[test]
fn ect_v2_rejects_job_count_mismatch() {
    let mut c = small_challenge();
    c.jobs_per_product = vec![1];
    assert!(matches!(
        ect_v2::solve_challenge(&c, &None),
        Err(ScheduleError::JobCountMismatch)
    ));
}

#[test]
fn ect_v2_reports_operation_without_machine() {
    let mut c = small_challenge();
    c.product_processing_times[0][1] = vec![(2, 1)];
    assert!(matches!(
        ect_v2::solve_challenge(&c, &None),
        Err(ScheduleError::NoEligibleMachine { job: 0, op: 1 })
    ));
}

#[test]
fn ect_v3_keeps_best_deterministic_rule_without_random_passes() {
    let hp = Some(ect_v3::Hyperparameters { n_random_passes: Some(0) });
    let r = ect_v3::solve_challenge(&small_challenge(), &hp, &no_save).unwrap();
    assert_eq!(r.job_schedule, vec![vec![(0, 0), (1, 4)], vec![(1, 0)]]);
}

#[test]
fn ect_v3_random_passes_do_not_replace_an_equal_makespan() {
    // No schedule of this instance is shorter than 6, and only a strictly
    // shorter one replaces the best.
    let r = ect_v3::solve_challenge(&small_challenge(), &None, &no_save).unwrap();
    assert_eq!(r.job_schedule, vec![vec![(0, 0), (1, 4)], vec![(1, 0)]]);
}

#[test]
fn ect_v3_without_jobs_has_no_schedule() {
    let c = Challenge {
        seed: [1u8; 32],
        num_jobs: 0,
        num_machines: 1,
        jobs_per_product: vec![],
        product_processing_times: vec![],
    };
    assert!(matches!(
        ect_v3::solve_challenge(&c, &None, &no_save),
        Err(ScheduleError::NoSchedule)
    ));
}

#[test]
fn ect_v3_rejects_job_count_mismatch() {
    let mut c = small_challenge();
    c.num_jobs = 1;
    assert!(matches!(
        ect_v3::solve_challenge(&c, &None, &no_save),
        Err(ScheduleError::JobCountMismatch)
    ));
}

fn larger_challenge() -> Challenge {
    Challenge {
        seed: [9u8; 32],
        num_jobs: 5,
        num_machines: 3,
        jobs_per_product: vec![2, 2, 1],
        product_processing_times: vec![
            vec![vec![(0, 4), (2, 6)], vec![(1, 3)], vec![(0, 2), (1, 2), (2, 2)]],
            vec![vec![(1, 5)], vec![(2, 1), (0, 7)]],
            vec![vec![(2, 3), (1, 4)], vec![(0, 5)], vec![(1, 1)], vec![(2, 2)]],
        ],
    }
}

/// Every operation on a listed machine, a job's operations in sequence, and
/// no two operations overlapping on a machine.
fn check_valid(c: &Challenge, sched: &Vec<Vec<(usize, u32)>>) {
    let jobs = expand_jobs(&c.jobs_per_product);
    assert_eq!(sched.len(), c.num_jobs);
    let mut busy: Vec<Vec<(u32, u32)>> = vec![Vec::new(); c.num_machines];
    for (j, ops) in sched.iter().enumerate() {
        let spec = &c.product_processing_times[jobs[j]];
        assert_eq!(ops.len(), spec.len());
        let mut ready = 0;
        for (k, &(m, start)) in ops.iter().enumerate() {
            let t = spec[k].iter().find(|&&(mm, _)| mm == m).expect("listed machine").1;
            assert!(m < c.num_machines);
            assert!(start >= ready);
            ready = start + t;
            busy[m].push((start, start + t));
        }
    }
    for slots in busy {
        for a in 0..slots.len() {
            for b in a + 1..slots.len() {
                assert!(slots[a].1 <= slots[b].0 || slots[b].1 <= slots[a].0);
            }
        }
    }
}

#[test]
fn all_dispatch_rules_give_valid_schedules() {
    let c = larger_challenge();
    check_valid(&c, &ect_v1::solve_challenge(&c, &None).unwrap().job_schedule);
    check_valid(&c, &ect_v2::solve_challenge(&c, &None).unwrap().job_schedule);
    let v3 = ect_v3::solve_challenge(&c, &None, &no_save).unwrap().job_schedule;
    check_valid(&c, &v3);
    let det = ect_v3::solve_challenge(&c, &Some(ect_v3::Hyperparameters { n_random_passes: Some(0) }), &no_save)
        .unwrap()
        .job_schedule;
    check_valid(&c, &det);
    let span = |s: &Vec<Vec<(usize, u32)>>| {
        let jobs = expand_jobs(&c.jobs_per_product);
        s.iter()
            .enumerate()
            .map(|(j, ops)| {
                ops.iter()
                    .enumerate()
                    .map(|(k, &(m, st))| {
                        st + c.product_processing_times[jobs[j]][k]
                            .iter()
                            .find(|&&(mm, _)| mm == m)
                            .unwrap()
                            .1
                    })
                    .max()
                    .unwrap_or(0)
            })
            .max()
            .unwrap_or(0)
    };
    assert!(span(&v3) <= span(&det));
}

#[test]
fn long_times_on_unchosen_machines_are_fine() {
    // Machine 1 is listed with a very long time that no rule ever picks.
    let c = Challenge {
        seed: [0u8; 32],
        num_jobs: 1,
        num_machines: 2,
        jobs_per_product: vec![1],
        product_processing_times: vec![vec![
            vec![(0, 5), (1, 4_000_000_000)],
            vec![(0, 5), (1, 4_000_000_000)],
        ]],
    };
    let expected = vec![vec![(0, 0), (0, 5)]];
    assert_eq!(ect_v1::solve_challenge(&c, &None).unwrap().job_schedule, expected);
    assert_eq!(ect_v2::solve_challenge(&c, &None).unwrap().job_schedule, expected);
    let h = Some(ect_v3::Hyperparameters { n_random_passes: Some(2) });
    assert_eq!(ect_v3::solve_challenge(&c, &h, &no_save).unwrap().job_schedule, expected);
}

#[test]
fn ect_v3_saves_the_best_schedule_after_every_pass() {
    let saved = std::cell::RefCell::new(Vec::new());
    let save = |s: &Vec<Vec<(usize, u32)>>| saved.borrow_mut().push(s.clone());
    let h = Some(ect_v3::Hyperparameters { n_random_passes: Some(3) });
    let r = ect_v3::solve_challenge(&small_challenge(), &h, &save).unwrap();
    let saved = saved.into_inner();
    // Four rules and three random passes.
    assert_eq!(saved.len(), 7);
    assert_eq!(saved.last().unwrap(), &r.job_schedule);
    // The makespans of the saved schedules never rise.
    let c = small_challenge();
    let span = |s: &Vec<Vec<(usize, u32)>>| -> u32 {
        let mut m = 0;
        for (j, row) in s.iter().enumerate() {
            let p = if j == 0 { 0 } else { 1 };
            for (k, &(mach, start)) in row.iter().enumerate() {
                let t = c.product_processing_times[p][k].iter().find(|x| x.0 == mach).unwrap().1;
                m = m.max(start + t);
            }
        }
        m
    };
    for w in saved.windows(2) {
        assert!(span(&w[1]) <= span(&w[0]));
    }
    // Without jobs nothing is saved.
    let mut c = small_challenge();
    c.num_jobs = 0;
    c.jobs_per_product = vec![0, 0];
    let count = std::cell::Cell::new(0);
    let r = ect_v3::solve_challenge(&c, &h, &|_s: &Vec<Vec<(usize, u32)>>| count.set(count.get() + 1));
    assert!(matches!(r, Err(ScheduleError::NoSchedule)));
    assert_eq!(count.get(), 0);
}
