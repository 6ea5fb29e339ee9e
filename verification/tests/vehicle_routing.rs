use tig_algorithms::vehicle_routing::nn_tw_v1::{solve_challenge, Hyperparameters, RoutingError};
use tig_algorithms::vehicle_routing::Challenge;

fn line_challenge(capacity: i32, fleet: usize, due3: i32) -> Challenge {
    // Depot 0 and customers 1, 2, 3.
    Challenge {
        seed: [0u8; 32],
        num_nodes: 4,
        distance_matrix: vec![
            vec![0, 2, 4, 6],
            vec![2, 0, 3, 5],
            vec![4, 3, 0, 2],
            vec![6, 5, 2, 0],
        ],
        max_capacity: capacity,
        fleet_size: fleet,
        demands: vec![0, 1, 1, 1],
        ready_times: vec![0, 0, 0, 0],
        due_times: vec![100, 100, 100, due3],
        service_time: 1,
    }
}

fn grid_challenge() -> Challenge {
    // Six points of a grid at Manhattan distances; nearest neighbour gives a
    // route that 2-opt shortens.
    Challenge {
        seed: [0u8; 32],
        num_nodes: 6,
        distance_matrix: vec![
            vec![0, 10, 9, 6, 5, 1],
            vec![10, 0, 3, 10, 5, 11],
            vec![9, 3, 0, 9, 4, 10],
            vec![6, 10, 9, 0, 7, 5],
            vec![5, 5, 4, 7, 0, 6],
            vec![1, 11, 10, 5, 6, 0],
        ],
        max_capacity: 10,
        fleet_size: 1,
        demands: vec![0, 1, 1, 1, 1, 1],
        ready_times: vec![0; 6],
        due_times: vec![1000; 6],
        service_time: 0,
    }
}

fn route_length(c: &Challenge, r: &Vec<usize>) -> i32 {
    let mut at = 0usize;
    let mut tot = 0;
    for &s in r {
        tot += c.distance_matrix[at][s];
        at = s;
    }
    tot + c.distance_matrix[at][0]
}

#[test]
fn nearest_neighbour_single_route() {
    let sol = solve_challenge(&line_challenge(10, 2, 100), &None).unwrap();
    assert_eq!(sol.routes, vec![vec![1, 2, 3]]);
}

#[test]
fn capacity_starts_a_new_route() {
    let sol = solve_challenge(&line_challenge(2, 2, 100), &None).unwrap();
    assert_eq!(sol.routes, vec![vec![1, 2], vec![3]]);
}

#[test]
fn too_many_routes_is_an_error() {
    let r = solve_challenge(&line_challenge(2, 1, 100), &None);
    assert!(matches!(r, Err(RoutingError::TooManyRoutes { routes: 2, fleet: 1 })));
    let r = solve_challenge(&line_challenge(10, 0, 100), &None);
    assert!(matches!(r, Err(RoutingError::TooManyRoutes { routes: 1, fleet: 0 })));
}

#[test]
fn unreachable_customer_is_an_error() {
    // Customer 3 is due before any vehicle can reach it.
    let r = solve_challenge(&line_challenge(10, 2, 1), &None);
    assert!(matches!(r, Err(RoutingError::UnvisitedCustomers)));
}

#[test]
fn two_opt_shortens_the_nearest_neighbour_route() {
    let c = grid_challenge();
    let nn = solve_challenge(&c, &Some(Hyperparameters { two_opt_passes: Some(0) })).unwrap();
    assert_eq!(nn.routes, vec![vec![5, 3, 4, 2, 1]]);
    let improved = solve_challenge(&c, &None).unwrap();
    assert_eq!(improved.routes, vec![vec![5, 3, 1, 2, 4]]);
    assert!(route_length(&c, &improved.routes[0]) < route_length(&c, &nn.routes[0]));
    // A second round changes nothing.
    let again = solve_challenge(&c, &Some(Hyperparameters { two_opt_passes: Some(1) })).unwrap();
    assert_eq!(again.routes, improved.routes);
}

#[test]
fn every_customer_is_served_exactly_once() {
    for c in [line_challenge(10, 2, 100), line_challenge(2, 2, 100), grid_challenge()] {
        let sol = solve_challenge(&c, &None).unwrap();
        let mut seen = vec![0usize; c.num_nodes];
        for r in &sol.routes {
            assert!(!r.is_empty());
            for &s in r {
                seen[s] += 1;
            }
        }
        assert_eq!(seen[0], 0);
        for s in 1..c.num_nodes {
            assert_eq!(seen[s], 1);
        }
        assert!(sol.routes.len() <= c.fleet_size);
    }
}

#[test]
fn construction_is_deterministic() {
    let c = grid_challenge();
    let a = solve_challenge(&c, &None).unwrap();
    let b = solve_challenge(&c, &None).unwrap();
    assert_eq!(a.routes, b.routes);
}

#[test]
fn late_return_to_the_depot_is_an_error() {
    let c = Challenge {
        seed: [0u8; 32],
        num_nodes: 2,
        distance_matrix: vec![vec![0, 1], vec![1, 0]],
        max_capacity: 10,
        fleet_size: 1,
        demands: vec![0, 1],
        ready_times: vec![0, 0],
        due_times: vec![1, 10],
        service_time: 0,
    };
    let r = solve_challenge(&c, &None);
    assert!(matches!(r, Err(RoutingError::InfeasibleRoute)));
    let mut c2 = c;
    c2.due_times = vec![2, 10];
    let r = solve_challenge(&c2, &None);
    assert_eq!(r.unwrap().routes, vec![vec![1]]);
}

#[test]
fn large_distances_and_times() {
    let c = Challenge {
        seed: [0u8; 32],
        num_nodes: 2,
        distance_matrix: vec![vec![0, 500_000_000], vec![500_000_000, 0]],
        max_capacity: 10,
        fleet_size: 1,
        demands: vec![0, 1],
        ready_times: vec![0, 0],
        due_times: vec![2_000_000_000, 1_000_000_000],
        service_time: 0,
    };
    let r = solve_challenge(&c, &None);
    assert_eq!(r.unwrap().routes, vec![vec![1]]);
}
