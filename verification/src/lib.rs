//! Verified heuristics for several combinatorial challenges: flexible job-shop
//! scheduling, hypergraph partitioning, knapsack parameters, optimizer
//! schedules, satisfiability and vehicle routing with time windows.

pub mod hypergraph;
pub mod job_scheduling;
pub mod knapsack;
pub mod neuralnet_optimizer;
pub mod satisfiability;
pub mod vehicle_routing;

mod rng;
