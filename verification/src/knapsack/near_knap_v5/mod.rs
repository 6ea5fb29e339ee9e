//! The near-optimal knapsack search (version 5).

pub mod params;
