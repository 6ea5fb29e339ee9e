use tig_algorithms::hypergraph::fm_v1::{
    count_state, refine_pass, round_robin, solve_challenge, Hyperparameters,
};
use tig_algorithms::hypergraph::Challenge;

fn no_save(_p: &Vec<u32>) {}

fn small_challenge(max_part_size: i32) -> Challenge {
    // Hyperedges {0, 1, 2}, {3, 4, 5}, {0, 3}; two parts.
    Challenge {
        seed: [7u8; 32],
        num_nodes: 6,
        num_hyperedges: 3,
        num_parts: 2,
        max_part_size,
        hyperedge_offsets: vec![0, 3, 6, 8],
        hyperedge_nodes: vec![0, 1, 2, 3, 4, 5, 0, 3],
        node_offsets: vec![0, 2, 3, 4, 6, 7, 8],
        node_hyperedges: vec![0, 2, 0, 0, 1, 2, 1, 1],
    }
}

fn connectivity(c: &Challenge, partition: &Vec<u32>) -> usize {
    let mut total = 0;
    for e in 0..c.num_hyperedges as usize {
        let mut parts: Vec<u32> = Vec::new();
        for k in c.hyperedge_offsets[e] as usize..c.hyperedge_offsets[e + 1] as usize {
            let p = partition[c.hyperedge_nodes[k] as usize];
            if !parts.contains(&p) {
                parts.push(p);
            }
        }
        total += parts.len().saturating_sub(1);
    }
    total
}

#[test]
fn round_robin_cycles_through_parts() {
    assert_eq!(round_robin(5, 2), vec![0, 1, 0, 1, 0]);
    assert_eq!(round_robin(3, 4), vec![0, 1, 2]);
    assert_eq!(round_robin(0, 0), Vec::<u32>::new());
}

#[test]
fn counts_of_round_robin() {
    let c = small_challenge(4);
    let p = round_robin(6, 2);
    let (sizes, edge_part) = count_state(&c, &p);
    assert_eq!(sizes, vec![3, 3]);
    assert_eq!(edge_part, vec![2, 1, 1, 2, 1, 1]);
}

#[test]
fn refine_pass_in_node_order() {
    let c = small_challenge(4);
    let mut p = round_robin(6, 2);
    let (mut sizes, mut edge_part) = count_state(&c, &p);
    let moves = refine_pass(&c, &mut p, &mut sizes, &mut edge_part, &vec![0, 1, 2, 3, 4, 5]);
    assert_eq!(moves, 1);
    assert_eq!(p, vec![1, 1, 0, 1, 0, 1]);
    assert_eq!(sizes, vec![2, 4]);
    assert_eq!(edge_part, vec![1, 2, 1, 2, 0, 2]);
}

#[test]
fn refine_pass_in_reverse_order() {
    let c = small_challenge(4);
    let mut p = round_robin(6, 2);
    let (mut sizes, mut edge_part) = count_state(&c, &p);
    let moves = refine_pass(&c, &mut p, &mut sizes, &mut edge_part, &vec![5, 4, 3, 2, 1, 0]);
    assert_eq!(moves, 2);
    assert_eq!(p, vec![0, 0, 0, 1, 1, 1]);
    assert_eq!(sizes, vec![3, 3]);
    assert_eq!(edge_part, vec![3, 0, 0, 3, 1, 1]);
}

#[test]
fn size_limit_blocks_moves() {
    let c = small_challenge(3);
    let mut p = round_robin(6, 2);
    let (mut sizes, mut edge_part) = count_state(&c, &p);
    let moves = refine_pass(&c, &mut p, &mut sizes, &mut edge_part, &vec![0, 1, 2, 3, 4, 5]);
    assert_eq!(moves, 0);
    assert_eq!(p, vec![0, 1, 0, 1, 0, 1]);
}

#[test]
fn solve_keeps_parts_nonempty_and_within_limit() {
    for limit in [3, 4, 6] {
        let c = small_challenge(limit);
        let sol = solve_challenge(&c, &None, &no_save);
        assert_eq!(sol.partition.len(), 6);
        let mut sizes = vec![0; 2];
        for &p in &sol.partition {
            assert!(p < 2);
            sizes[p as usize] += 1;
        }
        for s in sizes {
            assert!(s >= 1 && s <= limit as usize);
        }
        assert!(connectivity(&c, &sol.partition) <= connectivity(&c, &round_robin(6, 2)));
    }
}

#[test]
fn no_passes_keeps_round_robin() {
    let c = small_challenge(4);
    let sol = solve_challenge(&c, &Some(Hyperparameters { n_passes: Some(0) }), &no_save);
    assert_eq!(sol.partition, vec![0, 1, 0, 1, 0, 1]);
}

#[test]
fn repeated_listing_does_not_raise_connectivity() {
    // Hyperedge 0 lists node 0 twice; node 0 lists hyperedge 0 twice.
    let c = Challenge {
        seed: [2u8; 32],
        num_nodes: 4,
        num_hyperedges: 2,
        num_parts: 2,
        max_part_size: 3,
        hyperedge_offsets: vec![0, 3, 5],
        hyperedge_nodes: vec![0, 0, 1, 2, 3],
        node_offsets: vec![0, 2, 3, 4, 5],
        node_hyperedges: vec![0, 0, 0, 1, 1],
    };
    let start = round_robin(4, 2);
    for order in [vec![0, 1, 2, 3], vec![3, 2, 1, 0], vec![1, 0, 3, 2]] {
        let mut p = start.clone();
        let (mut sizes, mut edge_part) = count_state(&c, &p);
        let moves = refine_pass(&c, &mut p, &mut sizes, &mut edge_part, &order);
        assert!(connectivity(&c, &p) + moves <= connectivity(&c, &start));
    }
}

#[test]
fn partition_is_saved_after_every_pass() {
    let c = small_challenge(6);
    let saved = std::cell::RefCell::new(Vec::new());
    let save = |p: &Vec<u32>| saved.borrow_mut().push(p.clone());
    let sol = solve_challenge(&c, &Some(Hyperparameters { n_passes: Some(5) }), &save);
    let saved = saved.into_inner();
    assert!(saved.len() >= 1 && saved.len() <= 5);
    assert_eq!(saved.last().unwrap(), &sol.partition);
    let mut before = round_robin(6, 2);
    for p in &saved {
        assert!(p == &before || connectivity(&c, p) < connectivity(&c, &before));
        before = p.clone();
    }
    let count = std::cell::Cell::new(0);
    let none = solve_challenge(&c, &Some(Hyperparameters { n_passes: Some(0) }), &|_p: &Vec<u32>| {
        count.set(count.get() + 1)
    });
    assert_eq!(count.get(), 0);
    assert_eq!(none.partition, round_robin(6, 2));
}
