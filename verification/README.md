# tig_algorithms

Heuristic solvers for several combinatorial challenges, with their logic
verified by Verus.

- `src/` — the verified library:
  - `job_scheduling` — flexible job-shop dispatch rules (`ect_v1`, `ect_v2`,
    `ect_v3`): schedules proved valid, and exactly the schedules the rules
    build.
  - `vehicle_routing::nn_tw_v1` — nearest-neighbour construction with time
    windows and 2-opt: every customer served exactly once, every returned
    route feasible (capacity, due times, back at the depot in time), 2-opt
    never lengthening a route.
  - `satisfiability` — the clause store and incremental search state of the
    probSAT solvers (`local_search`), the control of their search runs
    (restarts, stopping, clause picks, tabu marks), their restart schedules
    and initial assignment, and the `splr` CDCL front end (`sat_cdcl_v1`).
  - `hypergraph::fm_v1` — round-robin partition and single-node refinement,
    with the part counts kept exact and part sizes kept within bounds.
  - `knapsack::near_knap_v5::params` — search parameters and their overrides.
  - `neuralnet_optimizer` — kernel launch geometry and the depth schedule of
    the Lion optimizer.
- `tests/` — tests on concrete instances.
- `app/` — the entry points: hyperparameter parsing, conversion from the
  challenge types, saving solutions, GPU work, and the floating-point parts
  (the probSAT flip choice, the Lion update, the energy-arbitrage policy).
