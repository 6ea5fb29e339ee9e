use tig_algorithms::neuralnet_optimizer::lion_v2::{depth_tier, warmup_steps};
use tig_algorithms::neuralnet_optimizer::{grid_blocks, launch_grid};

#[test]
fn blocks_cover_the_tensor() {
    assert_eq!(grid_blocks(0), 1);
    assert_eq!(grid_blocks(1), 1);
    assert_eq!(grid_blocks(256), 1);
    assert_eq!(grid_blocks(257), 2);
    assert_eq!(grid_blocks(1000), 4);
}

#[test]
fn launch_grid_per_tensor() {
    assert_eq!(launch_grid(&vec![10, 512, 513, 0]), vec![1, 2, 3, 1]);
}

#[test]
fn depth_tiers_and_warmup() {
    let cases = [(0, 0, 32), (4, 0, 32), (5, 1, 48), (7, 1, 48), (8, 2, 64), (10, 2, 64), (11, 3, 96), (14, 3, 96), (15, 4, 128), (18, 4, 128)];
    for (nh, tier, warm) in cases {
        assert_eq!(depth_tier(nh), tier);
        assert_eq!(warmup_steps(nh), warm);
    }
}

#[test]
fn deeper_networks_warm_up_longer() {
    for a in 0..30 {
        for b in a..30 {
            assert!(depth_tier(a) <= depth_tier(b));
            assert!(warmup_steps(a) <= warmup_steps(b));
        }
    }
}
