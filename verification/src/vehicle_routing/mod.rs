//! Vehicle routing with capacities and time windows.
//!
//! Node 0 is the depot, nodes `1..num_nodes` are customers.  A route is the
//! sequence of customers a vehicle visits, leaving the depot at time 0 and
//! returning to it at the end.

use vstd::prelude::*;

pub mod nn_tw_v1;

verus! {

/// A routing instance.
pub struct Challenge {
    pub seed: [u8; 32],
    pub num_nodes: usize,
    pub distance_matrix: Vec<Vec<i32>>,
    pub max_capacity: i32,
    pub fleet_size: usize,
    pub demands: Vec<i32>,
    pub ready_times: Vec<i32>,
    pub due_times: Vec<i32>,
    pub service_time: i32,
}

/// The routes of all vehicles.
pub struct Solution {
    pub routes: Vec<Vec<usize>>,
}

/// The largest magnitude of an `i32`: no distance, demand, time or service
/// time is larger.  Lengths, loads and times along a route are computed in
/// `i64`, where sums of up to `4 * num_nodes + 8` such values fit.
pub open spec fn value_bound(n: int) -> int {
    0x8000_0000
}

pub open spec fn within(x: i32, b: int) -> bool {
    -b <= x <= b
}

/// The largest node count for which the sums along a route fit in `i64`
/// (a table of distances between that many nodes would take `2^62` bytes).
pub open spec fn max_nodes() -> int {
    0x3FFF_FFFD
}

/// The instance is square and consistent: every table covers all nodes and
/// there is a depot.  Its values lie within `value_bound`, as every `i32`
/// does; the clauses name them for the bounds on running sums.
pub open spec fn well_formed(ch: &Challenge) -> bool {
    let n = ch.num_nodes as int;
    &&& 1 <= n <= max_nodes()
    &&& ch.distance_matrix@.len() == n
    &&& forall|a: int| 0 <= a < n ==> (#[trigger] ch.distance_matrix@[a])@.len() == n
    &&& ch.demands@.len() == n
    &&& ch.ready_times@.len() == n
    &&& ch.due_times@.len() == n
    &&& forall|a: int, c: int|
        0 <= a < n && 0 <= c < n ==> within(#[trigger] ch.distance_matrix@[a]@[c], value_bound(n))
    &&& forall|a: int| 0 <= a < n ==> within(#[trigger] ch.demands@[a], value_bound(n))
    &&& forall|a: int| 0 <= a < n ==> within(#[trigger] ch.ready_times@[a], value_bound(n))
    &&& forall|a: int| 0 <= a < n ==> within(#[trigger] ch.due_times@[a], value_bound(n))
    &&& within(ch.service_time, value_bound(n))
}

/// The distance from node `a` to node `c`.
pub open spec fn dist(ch: &Challenge, a: int, c: int) -> int {
    ch.distance_matrix@[a]@[c] as int
}

/// Where the vehicle is before its `i`-th stop: the depot, or stop `i - 1`.
pub open spec fn prev_stop(route: Seq<usize>, i: int) -> int {
    if i <= 0 {
        0
    } else {
        route[i - 1] as int
    }
}

/// The distance driven up to (and including the arrival at) stop `i`.
pub open spec fn length_upto(ch: &Challenge, route: Seq<usize>, i: int) -> int
    decreases i,
{
    if i <= 0 {
        0
    } else {
        length_upto(ch, route, i - 1) + dist(ch, prev_stop(route, i - 1), route[i - 1] as int)
    }
}

/// The length of a route: from the depot through every stop and back.
pub open spec fn route_length(ch: &Challenge, route: Seq<usize>) -> int {
    length_upto(ch, route, route.len() as int) + dist(ch, prev_stop(route, route.len() as int), 0)
}

/// The total demand of the first `i` stops.
pub open spec fn load_upto(ch: &Challenge, route: Seq<usize>, i: int) -> int
    decreases i,
{
    if i <= 0 {
        0
    } else {
        load_upto(ch, route, i - 1) + ch.demands@[route[i - 1] as int]
    }
}

pub open spec fn max_int(a: int, b: int) -> int {
    if a >= b { a } else { b }
}

/// When service at stop `i` starts: on arrival, or at the stop's ready time
/// if that is later.
pub open spec fn start_at(ch: &Challenge, route: Seq<usize>, i: int) -> int
    decreases i, 1int,
{
    max_int(
        time_upto(ch, route, i) + dist(ch, prev_stop(route, i), route[i] as int),
        ch.ready_times@[route[i] as int] as int,
    )
}

/// The time at which the vehicle leaves stop `i - 1` (0 at the depot): the
/// start of service there plus the service time.
pub open spec fn time_upto(ch: &Challenge, route: Seq<usize>, i: int) -> int
    decreases i, 0int,
{
    if i <= 0 {
        0
    } else {
        start_at(ch, route, i - 1) + ch.service_time
    }
}

/// A route is feasible: after every stop the load is within capacity, service
/// at every stop starts by its due time, and the vehicle is back at the depot
/// by the depot's due time.
pub open spec fn route_ok(ch: &Challenge, route: Seq<usize>) -> bool {
    &&& forall|i: int|
        0 <= i < route.len() ==> #[trigger] load_upto(ch, route, i + 1) <= ch.max_capacity
            && start_at(ch, route, i) <= ch.due_times@[route[i] as int]
    &&& time_upto(ch, route, route.len() as int) + dist(ch, prev_stop(route, route.len() as int), 0)
        <= ch.due_times@[0]
}

/// Two instances with the same distances, demands, ready times and service
/// time (only the capacity and due times may differ).
pub open spec fn same_travel(ch: &Challenge, ch2: &Challenge) -> bool {
    &&& ch2.distance_matrix@.len() == ch.distance_matrix@.len()
    &&& forall|a: int|
        0 <= a < ch.distance_matrix@.len() ==> (#[trigger] ch2.distance_matrix@[a])@
            == ch.distance_matrix@[a]@
    &&& ch2.demands@ == ch.demands@
    &&& ch2.ready_times@ == ch.ready_times@
    &&& ch2.service_time == ch.service_time
}

/// Running loads and times along a route depend only on distances, demands,
/// ready times and service time.
pub proof fn lemma_same_travel(ch: &Challenge, ch2: &Challenge, route: Seq<usize>, i: int)
    requires
        same_travel(ch, ch2),
        stops_in_range(ch, route),
        ch.distance_matrix@.len() == ch.num_nodes,
        0 <= i <= route.len(),
    ensures
        load_upto(ch2, route, i) == load_upto(ch, route, i),
        time_upto(ch2, route, i) == time_upto(ch, route, i),
        i < route.len() ==> start_at(ch2, route, i) == start_at(ch, route, i),
    decreases i,
{
    if i > 0 {
        lemma_same_travel(ch, ch2, route, i - 1);
        let a = prev_stop(route, i - 1);
        assert(0 <= a < ch.num_nodes);
        assert(ch2.distance_matrix@[a]@ == ch.distance_matrix@[a]@);
    }
    if i < route.len() {
        let a = prev_stop(route, i);
        assert(0 <= a < ch.num_nodes);
        assert(ch2.distance_matrix@[a]@ == ch.distance_matrix@[a]@);
    }
}

/// Feasibility is monotone in the capacity and the time windows: a feasible
/// route stays feasible when the capacity grows and no due time shrinks.
pub proof fn lemma_route_ok_monotone(ch: &Challenge, ch2: &Challenge, route: Seq<usize>)
    requires
        well_formed(ch),
        same_travel(ch, ch2),
        stops_in_range(ch, route),
        ch2.max_capacity >= ch.max_capacity,
        ch2.due_times@.len() == ch.due_times@.len(),
        forall|a: int| 0 <= a < ch.due_times@.len() ==> #[trigger] ch2.due_times@[a] >= ch.due_times@[a],
        route_ok(ch, route),
    ensures
        route_ok(ch2, route),
{
    assert forall|i: int| 0 <= i < route.len() implies #[trigger] load_upto(ch2, route, i + 1)
        <= ch2.max_capacity && start_at(ch2, route, i) <= ch2.due_times@[route[i] as int] by {
        lemma_same_travel(ch, ch2, route, i + 1);
        lemma_same_travel(ch, ch2, route, i);
        assert(load_upto(ch, route, i + 1) <= ch.max_capacity && start_at(ch, route, i)
            <= ch.due_times@[route[i] as int]);
    }
    let len = route.len() as int;
    lemma_same_travel(ch, ch2, route, len);
    let a = prev_stop(route, len);
    assert(0 <= a < ch.num_nodes);
    assert(ch2.distance_matrix@[a]@ == ch.distance_matrix@[a]@);
}

/// Every stop is a node of the instance and there are at most `num_nodes`
/// of them.
pub open spec fn stops_in_range(ch: &Challenge, route: Seq<usize>) -> bool {
    &&& route.len() <= ch.num_nodes
    &&& forall|i: int| 0 <= i < route.len() ==> (#[trigger] route[i]) < ch.num_nodes
}

/// The magnitudes of the running length, load and time stay within what
/// `value_bound` allows.
pub proof fn lemma_route_bounds(ch: &Challenge, route: Seq<usize>, i: int)
    requires
        well_formed(ch),
        stops_in_range(ch, route),
        0 <= i <= route.len(),
    ensures
        -i * value_bound(ch.num_nodes as int) <= length_upto(ch, route, i) <= i * value_bound(
            ch.num_nodes as int,
        ),
        -i * value_bound(ch.num_nodes as int) <= load_upto(ch, route, i) <= i * value_bound(
            ch.num_nodes as int,
        ),
        -2 * i * value_bound(ch.num_nodes as int) <= time_upto(ch, route, i) <= 2 * i
            * value_bound(ch.num_nodes as int),
    decreases i,
{
    let b = value_bound(ch.num_nodes as int);
    if i > 0 {
        lemma_route_bounds(ch, route, i - 1);
        let a = prev_stop(route, i - 1);
        let c = route[i - 1] as int;
        assert(within(ch.distance_matrix@[a]@[c], b));
        assert(within(ch.demands@[c], b));
        assert(within(ch.ready_times@[c], b));
        assert((i - 1) * b + b == i * b) by (nonlinear_arith);
        assert(-(i - 1) * b - b == -i * b) by (nonlinear_arith);
        assert(-2 * (i - 1) * b - 2 * b == -2 * i * b) by (nonlinear_arith);
        assert(within(ch.service_time, b));
        assert(0 <= a < ch.num_nodes);
        assert(0 <= c < ch.num_nodes);
        assert(2 * (i - 1) * b + 2 * b == 2 * i * b) by (nonlinear_arith);
        assert(b >= 0) by {
            lemma_bound_room(ch.num_nodes as int, 0);
        }
        assert(i * b >= 0) by (nonlinear_arith)
            requires
                i >= 0,
                b >= 0,
        ;
        let t0 = time_upto(ch, route, i - 1);
        let arrive = t0 + dist(ch, a, c);
        assert(start_at(ch, route, i - 1) == max_int(arrive, ch.ready_times@[c] as int));
        assert(time_upto(ch, route, i) == start_at(ch, route, i - 1) + ch.service_time);
    }
}

/// `value_bound` times a small multiple of the node count fits in `i64`.
pub proof fn lemma_bound_room(n: int, k: int)
    requires
        1 <= n <= max_nodes(),
        0 <= k <= 4 * n + 8,
    ensures
        k * value_bound(n) <= i64::MAX,
        value_bound(n) >= 0,
{
    let b = value_bound(n);
    assert(k * b <= (4 * n + 8) * b) by (nonlinear_arith)
        requires
            0 <= k <= 4 * n + 8,
            b >= 0,
    ;
}

/// Whether an instance is well-formed, as `well_formed` says.
pub fn check_well_formed(ch: &Challenge) -> (r: bool)
    ensures
        r == well_formed(ch),
{
    let n = ch.num_nodes;
    if n < 1 || n > 0x3FFF_FFFD {
        return false;
    }
    if ch.distance_matrix.len() != n || ch.demands.len() != n || ch.ready_times.len() != n
        || ch.due_times.len() != n {
        return false;
    }
    let mut a: usize = 0;
    while a < n
        invariant
            n == ch.num_nodes,
            ch.distance_matrix.len() == n,
            a <= n,
            forall|x: int| 0 <= x < a ==> (#[trigger] ch.distance_matrix@[x])@.len() == n,
        decreases n - a,
    {
        if ch.distance_matrix[a].len() != n {
            return false;
        }
        a = a + 1;
    }
    true
}

} // verus!
