//! Knapsack: the tunable parameters of the near-optimal search.

pub mod near_knap_v5;
