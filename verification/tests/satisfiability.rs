use rand::{rngs::SmallRng, SeedableRng};
use tig_algorithms::satisfiability::local_search::{
    apply_flip, next_step, restart, Formula, RunControl, SearchState, Step,
};
use tig_algorithms::satisfiability::sat_cdcl_v1::{
    cnf_of, solution_from_answer, solve_challenge, CdclAnswer, CdclError,
};
use tig_algorithms::satisfiability::{lit_index, sat_probsat_v1, sat_probsat_v2, Challenge};

fn holds(clause: &Vec<i32>, a: &Vec<bool>) -> bool {
    clause[..3].iter().any(|&l| {
        let v = (l.unsigned_abs() - 1) as usize;
        if l > 0 {
            a[v]
        } else {
            !a[v]
        }
    })
}

fn satisfies(c: &Challenge, a: &Vec<bool>) -> bool {
    c.clauses.iter().all(|cl| holds(cl, a))
}

fn small_challenge() -> Challenge {
    Challenge {
        seed: [3u8; 32],
        num_variables: 3,
        clauses: vec![vec![1, 2, 3], vec![-1, 2, -3], vec![1, -1, 2], vec![-2, -3, 1]],
    }
}

#[test]
fn literal_index() {
    assert_eq!(lit_index(1), 0);
    assert_eq!(lit_index(-4), 3);
    assert_eq!(lit_index(i32::MAX), (i32::MAX - 1) as usize);
    assert_eq!(lit_index(-i32::MAX), (i32::MAX - 1) as usize);
}

#[test]
fn restart_lengths() {
    let expected: Vec<u64> = vec![1, 1, 2, 1, 1, 2, 4, 1, 1, 2, 1, 1, 2, 4, 8, 1];
    for (k, &e) in expected.iter().enumerate() {
        assert_eq!(sat_probsat_v1::luby(k as u64), e);
        assert_eq!(sat_probsat_v2::luby(k as u64), e);
    }
}

#[test]
fn restart_flips_saturate() {
    assert_eq!(sat_probsat_v1::restart_flips(256, 6), 256 * 4);
    assert_eq!(sat_probsat_v2::restart_flips(4096, 14), 4096 * 8);
    assert_eq!(sat_probsat_v1::luby(u64::MAX - 1), 1u64 << 63);
    assert_eq!(sat_probsat_v2::restart_flips(u64::MAX, 2), u64::MAX);
    assert_eq!(sat_probsat_v2::restart_flips(u64::MAX, 1), u64::MAX);
    assert_eq!(sat_probsat_v1::restart_flips(3, 2), 6);
    assert_eq!(sat_probsat_v1::restart_flips(0, 7), 0);
}

#[test]
fn formula_drops_tautologies_and_lists_occurrences() {
    let f = Formula::new(&small_challenge());
    assert_eq!(f.num_variables, 3);
    assert_eq!(f.clauses, vec![[1, 2, 3], [-1, 2, -3], [-2, -3, 1]]);
    assert_eq!(f.pos_clauses, vec![vec![0, 2], vec![0, 1], vec![0]]);
    assert_eq!(f.neg_clauses, vec![vec![1], vec![2], vec![1, 2]]);
}

#[test]
fn repeated_literal_is_listed_twice() {
    let c = Challenge { seed: [0u8; 32], num_variables: 2, clauses: vec![vec![1, 1, -2]] };
    let f = Formula::new(&c);
    assert_eq!(f.pos_clauses, vec![vec![0, 0], vec![]]);
    assert_eq!(f.neg_clauses, vec![vec![], vec![0]]);
}

#[test]
fn search_state_counts_and_flips() {
    let c = small_challenge();
    let f = Formula::new(&c);
    let mut s = SearchState::new(&f, vec![false, false, false]);
    assert_eq!(s.clause_sat_lits, vec![0, 2, 2]);
    assert_eq!(s.unsat_clauses, vec![0]);
    assert_eq!(s.unsat_pos, vec![0, -1, -1]);
    assert_eq!(s.tabu, vec![-1, -1, -1]);
    assert_eq!(s.num_unsat(), 1);
    assert_eq!(s.unsat_clause(0), 0);
    assert_eq!(s.break_count(&f, 0), 0);
    assert_eq!(s.break_count(&f, 2), 0);

    s.flip(&f, 0);
    assert_eq!(s.assignment, vec![true, false, false]);
    assert_eq!(s.clause_sat_lits, vec![1, 1, 3]);
    assert_eq!(s.unsat_clauses, Vec::<u32>::new());
    assert_eq!(s.unsat_pos, vec![-1, -1, -1]);
    assert_eq!(s.num_unsat(), 0);
    assert!(satisfies(&c, &s.assignment));
    assert_eq!(s.break_count(&f, 0), 1);

    s.flip(&f, 2);
    assert_eq!(s.assignment, vec![true, false, true]);
    assert_eq!(s.clause_sat_lits, vec![2, 0, 2]);
    assert_eq!(s.unsat_clauses, vec![1]);
    assert_eq!(s.unsat_pos, vec![-1, 0, -1]);
    assert!(!satisfies(&c, &s.assignment));
}

#[test]
fn removing_from_the_middle_of_the_unsatisfied_list() {
    // Three unit-like clauses on distinct variables, all false at first.
    let c = Challenge {
        seed: [0u8; 32],
        num_variables: 3,
        clauses: vec![vec![1, 1, 1], vec![2, 2, 2], vec![3, 3, 3]],
    };
    let f = Formula::new(&c);
    let mut s = SearchState::new(&f, vec![false, false, false]);
    assert_eq!(s.unsat_clauses, vec![0, 1, 2]);
    s.flip(&f, 0);
    // Clause 0 leaves; the last entry takes its place.
    assert_eq!(s.unsat_clauses, vec![2, 1]);
    assert_eq!(s.unsat_pos, vec![-1, 1, 0]);
    assert_eq!(s.clause_sat_lits, vec![3, 0, 0]);
    s.flip(&f, 0);
    assert_eq!(s.unsat_clauses, vec![2, 1, 0]);
    assert_eq!(s.unsat_pos, vec![2, 1, 0]);
}

#[test]
fn tabu_marks() {
    let f = Formula::new(&small_challenge());
    let mut s = SearchState::new(&f, vec![false, false, false]);
    assert!(!s.is_tabu(1, 7, 8));
    s.set_tabu(1, 5);
    assert_eq!(s.tabu, vec![-1, 5, -1]);
    assert!(s.is_tabu(1, 7, 8));
    assert!(!s.is_tabu(1, 13, 8));
    assert!(!s.is_tabu(0, 7, 8));
}

#[test]
fn clauses_for_the_solver() {
    let c = Challenge {
        seed: [0u8; 32],
        num_variables: 4,
        clauses: vec![vec![1, -2, 3, 4], vec![-1, -1, 2]],
    };
    assert_eq!(cnf_of(&c), vec![vec![1, -2, 3], vec![-1, -1, 2]]);
}

#[test]
fn assignment_from_a_model() {
    let sol = solution_from_answer(4, &CdclAnswer::Sat(vec![1, -2, 3]));
    assert_eq!(sol.variables, vec![true, false, true, false]);
    let sol = solution_from_answer(2, &CdclAnswer::Sat(vec![-1, 2, 3]));
    assert_eq!(sol.variables, vec![false, true]);
    let sol = solution_from_answer(3, &CdclAnswer::Unsat);
    assert_eq!(sol.variables, vec![false, false, false]);
}

#[test]
fn cdcl_solves_a_satisfiable_instance() {
    let c = Challenge {
        seed: [0u8; 32],
        num_variables: 3,
        clauses: vec![vec![1, 2, 3], vec![-1, -2, 3], vec![1, -2, -3], vec![-1, 2, -3]],
    };
    match solve_challenge(&c, &None) {
        Ok(sol) => {
            assert_eq!(sol.variables.len(), 3);
            assert!(satisfies(&c, &sol.variables));
        }
        Err(_) => panic!("the solver failed"),
    }
}

#[test]
fn cdcl_unsatisfiable_instance_gives_all_false() {
    let c = Challenge {
        seed: [0u8; 32],
        num_variables: 2,
        clauses: vec![vec![1, 1, 1], vec![-1, -1, -1]],
    };
    match solve_challenge(&c, &None) {
        Ok(sol) => assert_eq!(sol.variables, vec![false, false]),
        Err(_) => panic!("the solver failed"),
    }
}

#[test]
fn cdcl_reports_solver_errors() {
    // A literal 0 inside a tautology reaches the solver, which refuses it.
    let c = Challenge {
        seed: [0u8; 32],
        num_variables: 1,
        clauses: vec![vec![0, 0, 1]],
    };
    assert!(matches!(solve_challenge(&c, &None), Err(CdclError::Solver(_))));
}

#[test]
fn flipping_twice_restores_counts_and_unsatisfied_set() {
    let c = Challenge {
        seed: [0u8; 32],
        num_variables: 3,
        clauses: vec![vec![1, 2, 3], vec![-1, 2, 3], vec![1, -2, 3], vec![1, 2, -3]],
    };
    let f = Formula::new(&c);
    let mut s = SearchState::new(&f, vec![false, false, false]);
    let counts = s.clause_sat_lits.clone();
    let mut before = s.unsat_clauses.clone();
    s.flip(&f, 1);
    s.flip(&f, 1);
    assert_eq!(s.assignment, vec![false, false, false]);
    assert_eq!(s.clause_sat_lits, counts);
    let mut after = s.unsat_clauses.clone();
    before.sort();
    after.sort();
    assert_eq!(before, after);
}

#[test]
fn run_control_steps() {
    let c = small_challenge();
    let f = Formula::new(&c);
    let mut rng = SmallRng::from_seed([5u8; 32]);
    let mut s = SearchState::new(&f, vec![false, false, false]);
    let mut ctl = RunControl::new(3, 2);
    assert!(ctl.has_flips_left());
    // Before the first restart the restart has no flips.
    assert!(matches!(next_step(&f, &s, &ctl, &mut rng), Step::Restart));
    restart(&mut ctl);
    // luby(0) == 1, so the first restart allows 2 flips.
    assert_eq!((ctl.budget, ctl.restart_idx, ctl.flips_in_restart), (2, 1, 0));
    // Clause 0 is the only unsatisfied clause.
    assert!(matches!(next_step(&f, &s, &ctl, &mut rng), Step::Pick { clause: 0 }));
    apply_flip(&f, &mut s, &mut ctl, 0);
    assert_eq!((ctl.total_flips, ctl.flips_in_restart), (1, 1));
    assert_eq!(s.tabu, vec![0, -1, -1]);
    assert_eq!(s.assignment, vec![true, false, false]);
    // Every kept clause holds now.
    assert!(matches!(next_step(&f, &s, &ctl, &mut rng), Step::Solved));
    apply_flip(&f, &mut s, &mut ctl, 2);
    assert_eq!(s.tabu, vec![0, -1, 1]);
    // Two flips used: restart.
    assert!(matches!(next_step(&f, &s, &ctl, &mut rng), Step::Restart));
    restart(&mut ctl);
    // The second Luby entry is 1 as well, so 2 flips again.
    assert_eq!((ctl.budget, ctl.restart_idx, ctl.flips_in_restart), (2, 2, 0));
    // Clause 1 (-1, 2, -3) is the unsatisfied one.
    assert!(matches!(next_step(&f, &s, &ctl, &mut rng), Step::Pick { clause: 1 }));
    apply_flip(&f, &mut s, &mut ctl, 2);
    // Three flips made in all: the run ends.
    assert!(!ctl.has_flips_left());
    assert!(matches!(next_step(&f, &s, &ctl, &mut rng), Step::OutOfFlips));
}

#[test]
fn cdcl_takes_literals_beyond_the_variables() {
    // Literal 5 names a variable the instance does not have; the solver just
    // works with more variables, and the assignment keeps the first two.
    let c = Challenge {
        seed: [0u8; 32],
        num_variables: 2,
        clauses: vec![vec![1, 5, -2], vec![-1, 2, 5]],
    };
    match solve_challenge(&c, &None) {
        Ok(sol) => assert_eq!(sol.variables.len(), 2),
        Err(_) => panic!("the solver failed"),
    }
}
