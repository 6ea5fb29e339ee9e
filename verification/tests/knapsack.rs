use tig_algorithms::knapsack::near_knap_v5::params::{ParamOverrides, Params};

#[test]
fn defaults_without_hyperparameters() {
    let p = Params::initialize(&None);
    assert_eq!(p.n_perturbation_rounds, 30);
    assert_eq!(p.perturbation_strength_base, 4);
    assert_eq!(p.extra_starts, 4);
    assert_eq!(p.max_frontier_swaps_override, None);
    assert_eq!(p.dp_passes_multiplier, 1);
}

#[test]
fn overrides_replace_defaults() {
    let o = ParamOverrides {
        n_perturbation_rounds: Some(7),
        perturbation_strength_base: None,
        extra_starts: Some(0),
        dp_passes_multiplier: Some(3),
    };
    let p = Params::with_overrides(&Some(o));
    assert_eq!(p.n_perturbation_rounds, 7);
    assert_eq!(p.perturbation_strength_base, 4);
    assert_eq!(p.extra_starts, 0);
    assert_eq!(p.dp_passes_multiplier, 3);
    assert_eq!(p.max_frontier_swaps_override, None);
}

#[test]
fn overrides_read_from_json_object() {
    let mut m = serde_json::Map::new();
    m.insert("n_perturbation_rounds".to_string(), serde_json::Value::from(12u64));
    m.insert("extra_starts".to_string(), serde_json::Value::from("many"));
    m.insert("dp_passes_multiplier".to_string(), serde_json::Value::from(-2i64));
    m.insert("perturbation_strength_base".to_string(), serde_json::Value::from(9u64));
    m.insert("max_frontier_swaps_override".to_string(), serde_json::Value::from(5u64));
    let p = Params::initialize(&Some(m));
    assert_eq!(p.n_perturbation_rounds, 12);
    assert_eq!(p.perturbation_strength_base, 9);
    assert_eq!(p.extra_starts, 4);
    assert_eq!(p.dp_passes_multiplier, 1);
    assert_eq!(p.max_frontier_swaps_override, None);
}

#[test]
fn empty_json_object_keeps_defaults() {
    let p = Params::initialize(&Some(serde_json::Map::new()));
    assert_eq!(p.n_perturbation_rounds, 30);
    assert_eq!(p.extra_starts, 4);
}
