//! Nearest-neighbour route construction with time windows, then bounded
//! 2-opt improvement within each route.
//!
//! Routes are built one after the other: from the depot, repeatedly go to the
//! nearest unvisited customer that the vehicle can still serve (capacity and
//! due time; the return to the depot is not checked here), and start a new
//! route when none is left.  Each route is then shortened by reversing
//! segments as long as a feasible strictly shorter route results.

use super::{
    dist, lemma_bound_room, lemma_route_bounds, length_upto, load_upto, max_int, prev_stop, route_length,
    route_ok, start_at, stops_in_range, time_upto, value_bound, well_formed, within, Challenge,
    Solution,
};
use vstd::multiset::Multiset;
use vstd::prelude::*;

verus! {

/// Tunable parameters: the number of 2-opt passes over all routes
/// (default 3).
pub struct Hyperparameters {
    pub two_opt_passes: Option<usize>,
}

/// The length of a route: the distance from the depot through every stop in
/// order and back to the depot.
pub(crate) fn route_distance(route: &Vec<usize>, d: &Vec<Vec<i32>>, Ghost(ch): Ghost<&Challenge>) -> (r:
    i64)
    requires
        well_formed(ch),
        d@ == ch.distance_matrix@,
        stops_in_range(ch, route@),
    ensures
        r == route_length(ch, route@),
{
    let ghost n = ch.num_nodes as int;
    let ghost b = value_bound(n);
    let mut at: usize = 0;
    let mut tot: i64 = 0;
    let mut i: usize = 0;
    proof {
        lemma_bound_room(n, 2 * n + 2);
    }
    while i < route.len()
        invariant
            well_formed(ch),
            d@ == ch.distance_matrix@,
            stops_in_range(ch, route@),
            n == ch.num_nodes,
            b == value_bound(n),
            (2 * n + 2) * b <= i64::MAX,
            b >= 0,
            i <= route.len(),
            at == prev_stop(route@, i as int),
            at < n,
            tot == length_upto(ch, route@, i as int),
        decreases route.len() - i,
    {
        let c = route[i];
        proof {
            lemma_route_bounds(ch, route@, i + 1);
            assert((i + 1) * b <= (2 * n + 2) * b) by (nonlinear_arith)
                requires
                    i + 1 <= n,
                    b >= 0,
            ;
            assert(-(i + 1) * b == -((i + 1) * b)) by (nonlinear_arith);
            assert(length_upto(ch, route@, i + 1) == tot + d@[at as int]@[c as int]);
        }
        tot = tot + d[at][c] as i64;
        at = c;
        i = i + 1;
    }
    proof {
        lemma_route_bounds(ch, route@, i as int);
        assert(i * b <= n * b) by (nonlinear_arith)
            requires
                i <= n,
                b >= 0,
        ;
        assert(-i * b == -(i * b)) by (nonlinear_arith);
        assert(i * b + b <= i64::MAX) by (nonlinear_arith)
            requires
                i <= n,
                b >= 0,
                (2 * n + 2) * b <= i64::MAX,
        ;
        assert(within(ch.distance_matrix@[at as int]@[0], b));
    }
    tot + d[at][0] as i64
}

/// Whether a route is feasible: capacity after every stop, service starting
/// by every due time, and the return to the depot by the depot's due time.
#[verifier::spinoff_prover]
pub(crate) fn route_feasible(
    route: &Vec<usize>,
    d: &Vec<Vec<i32>>,
    ready: &Vec<i32>,
    due: &Vec<i32>,
    demands: &Vec<i32>,
    svc: i32,
    cap: i32,
    Ghost(ch): Ghost<&Challenge>,
) -> (r: bool)
    requires
        well_formed(ch),
        d@ == ch.distance_matrix@,
        ready@ == ch.ready_times@,
        due@ == ch.due_times@,
        demands@ == ch.demands@,
        svc == ch.service_time,
        cap == ch.max_capacity,
        stops_in_range(ch, route@),
    ensures
        r == route_ok(ch, route@),
{
    let ghost n = ch.num_nodes as int;
    let ghost b = value_bound(n);
    let mut load: i64 = 0;
    let mut t: i64 = 0;
    let mut at: usize = 0;
    let mut i: usize = 0;
    proof {
        lemma_bound_room(n, 4 * n + 8);
    }
    while i < route.len()
        invariant
            well_formed(ch),
            d@ == ch.distance_matrix@,
            ready@ == ch.ready_times@,
            due@ == ch.due_times@,
            demands@ == ch.demands@,
            svc == ch.service_time,
            cap == ch.max_capacity,
            stops_in_range(ch, route@),
            n == ch.num_nodes,
            b == value_bound(n),
            (4 * n + 8) * b <= i64::MAX,
            b >= 0,
            i <= route.len(),
            at == prev_stop(route@, i as int),
            at < n,
            load == load_upto(ch, route@, i as int),
            t == time_upto(ch, route@, i as int),
            forall|k: int|
                0 <= k < i ==> #[trigger] load_upto(ch, route@, k + 1) <= ch.max_capacity
                    && start_at(ch, route@, k) <= ch.due_times@[route@[k] as int],
        decreases route.len() - i,
    {
        let c = route[i];
        proof {
            lemma_route_bounds(ch, route@, i as int);
            lemma_route_bounds(ch, route@, i + 1);
            assert((i + 1) * b <= n * b) by (nonlinear_arith)
                requires
                    i + 1 <= n,
                    b >= 0,
            ;
            assert(within(ch.distance_matrix@[at as int]@[c as int], b));
            assert(within(ch.demands@[c as int], b));
            assert(within(ch.ready_times@[c as int], b));
            assert(within(ch.service_time, b));
            assert(-(i + 1) * b == -((i + 1) * b)) by (nonlinear_arith);
            assert(-i * b == -(i * b)) by (nonlinear_arith);
            assert(-2 * i * b == -(2 * i * b)) by (nonlinear_arith);
            assert(2 * i * b <= 2 * n * b) by (nonlinear_arith)
                requires
                    i <= n,
                    b >= 0,
            ;
            assert(load_upto(ch, route@, i + 1) == load + demands@[c as int]);
            assert(2 * i * b + 2 * b <= i64::MAX && 2 * i * b + b <= i64::MAX && i * b + b
                <= i64::MAX) by (nonlinear_arith)
                requires
                    i < n,
                    b >= 0,
                    (4 * n + 8) * b <= i64::MAX,
            ;
        }
        load = load + demands[c] as i64;
        if load > cap as i64 {
            return false;
        }
        let arrive = t + d[at][c] as i64;
        let start = if arrive >= ready[c] as i64 {
            arrive
        } else {
            ready[c] as i64
        };
        if start > due[c] as i64 {
            return false;
        }
        assert(start == start_at(ch, route@, i as int));
        assert(load_upto(ch, route@, i + 1) <= ch.max_capacity && start_at(ch, route@, i as int)
            <= ch.due_times@[route@[i as int] as int]);
        assert(time_upto(ch, route@, i + 1) == start + svc);
        t = start + svc as i64;
        at = c;
        i = i + 1;
    }
    proof {
        lemma_route_bounds(ch, route@, i as int);
        assert(i * b <= n * b) by (nonlinear_arith)
            requires
                i <= n,
                b >= 0,
        ;
        assert(within(ch.distance_matrix@[at as int]@[0], b));
        assert(-2 * i * b == -(2 * i * b)) by (nonlinear_arith);
        assert(2 * i * b + b <= i64::MAX) by (nonlinear_arith)
            requires
                i <= n,
                b >= 0,
                (4 * n + 8) * b <= i64::MAX,
        ;
    }
    let depot_arrive = t + d[at][0] as i64;
    if depot_arrive > due[0] as i64 {
        return false;
    }
    true
}


/// The route with the stops at positions `i..=j` in reverse order.
pub open spec fn reversed_segment(route: Seq<usize>, i: int, j: int) -> Seq<usize> {
    Seq::new(route.len(), |p: int| if i <= p <= j { route[i + j - p] } else { route[p] })
}

/// A candidate is an improvement on a route when it is feasible and strictly
/// shorter.
pub open spec fn improves(ch: &Challenge, route: Seq<usize>, cand: Seq<usize>) -> bool {
    route_ok(ch, cand) && route_length(ch, cand) < route_length(ch, route)
}

/// The first improving segment reversal at or after `(i, j)`, scanning the
/// pairs `0 <= i < j < len` in order of `i`, then `j`.
pub open spec fn scan_from(ch: &Challenge, route: Seq<usize>, i: int, j: int) -> Option<Seq<usize>>
    decreases route.len() - i, route.len() - j,
{
    if i < 0 || j < 0 || i + 1 >= route.len() {
        None
    } else if j >= route.len() {
        scan_from(ch, route, i + 1, i + 2)
    } else {
        let cand = reversed_segment(route, i, j);
        if improves(ch, route, cand) {
            Some(cand)
        } else {
            scan_from(ch, route, i, j + 1)
        }
    }
}

/// The first improving segment reversal of a route, if any.
pub open spec fn first_improvement(ch: &Challenge, route: Seq<usize>) -> Option<Seq<usize>> {
    scan_from(ch, route, 0, 1)
}

/// The lowest length a route within range can have.
pub open spec fn length_floor(ch: &Challenge) -> int {
    -(ch.num_nodes + 1) * value_bound(ch.num_nodes as int)
}

/// The route that 2-opt improvement reaches: routes of fewer than four stops
/// are left alone; otherwise the first improving reversal is taken again and
/// again until there is none.
pub open spec fn two_opt_final(ch: &Challenge, route: Seq<usize>) -> Seq<usize>
    decreases route_length(ch, route) - length_floor(ch),
    when well_formed(ch) && stops_in_range(ch, route)
    via two_opt_final_decreases
{
    if route.len() < 4 {
        route
    } else {
        match first_improvement(ch, route) {
            Some(c) => two_opt_final(ch, c),
            None => route,
        }
    }
}

/// A reversal keeps the stops of a route, each as often as before.
pub proof fn lemma_reversed_segment(ch: &Challenge, route: Seq<usize>, i: int, j: int)
    requires
        0 <= i <= j + 1,
        j < route.len(),
    ensures
        reversed_segment(route, i, j).len() == route.len(),
        reversed_segment(route, i, j).to_multiset() == route.to_multiset(),
        stops_in_range(ch, route) ==> stops_in_range(ch, reversed_segment(route, i, j)),
    decreases j + 1 - i,
{
    let r = reversed_segment(route, i, j);
    if i < j {
        // Swap the ends, then reverse the inside.
        let swapped = route.update(i, route[j]).update(j, route[i]);
        lemma_reversed_segment(ch, swapped, i + 1, j - 1);
        if stops_in_range(ch, route) {
            assert forall|p: int| 0 <= p < swapped.len() implies (#[trigger] swapped[p])
                < ch.num_nodes by {}
        }
        assert(reversed_segment(swapped, i + 1, j - 1) =~= r);
        lemma_swap_multiset(route, i, j);
    } else {
        assert(r =~= route);
    }
    if stops_in_range(ch, route) {
        assert forall|p: int| 0 <= p < r.len() implies (#[trigger] r[p]) < ch.num_nodes by {
            if i <= p <= j {
                assert(r[p] == route[i + j - p]);
            }
        }
    }
}

/// Swapping two entries keeps the multiset of a sequence.
pub proof fn lemma_swap_multiset(s: Seq<usize>, i: int, j: int)
    requires
        0 <= i < j < s.len(),
    ensures
        s.update(i, s[j]).update(j, s[i]).to_multiset() == s.to_multiset(),
{
    let u = s.update(i, s[j]);
    vstd::seq_lib::to_multiset_update(s, i, s[j]);
    vstd::seq_lib::to_multiset_update(u, j, s[i]);
    assert(u[j] == s[j]);
    vstd::seq_lib::to_multiset_contains(s, s[i]);
    assert(s.to_multiset().count(s[i]) > 0) by {
        assert(s.contains(s[i]));
    }
    assert(u.update(j, s[i]).to_multiset() =~= s.to_multiset());
}

/// The first improvement, if any, is an improving reversal of the route.
pub proof fn lemma_scan_from(ch: &Challenge, route: Seq<usize>, i: int, j: int)
    requires
        0 <= i,
        0 <= j,
        i < j || i + 1 >= route.len(),
    ensures
        scan_from(ch, route, i, j) matches Some(c) ==> exists|a: int, b: int|
            0 <= a < b < route.len() && c == reversed_segment(route, a, b) && improves(ch, route, c),
    decreases route.len() - i, route.len() - j,
{
    if i + 1 >= route.len() {
    } else if j >= route.len() {
        lemma_scan_from(ch, route, i + 1, i + 2);
    } else {
        let cand = reversed_segment(route, i, j);
        if improves(ch, route, cand) {
            assert(0 <= i < j < route.len() && cand == reversed_segment(route, i, j));
        } else {
            lemma_scan_from(ch, route, i, j + 1);
        }
    }
}

/// When the scan from `(i, j)` finds no improvement, no reversal of a
/// segment `a..=b` at or after `(i, j)` (in order of `a`, then `b`) is both
/// feasible and strictly shorter.
proof fn lemma_scan_none(ch: &Challenge, route: Seq<usize>, i: int, j: int)
    requires
        0 <= i,
        0 <= j,
        i < j || i + 1 >= route.len(),
        scan_from(ch, route, i, j) is None,
    ensures
        forall|a: int, b: int|
            0 <= a < b < route.len() && (a > i || (a == i && b >= j)) ==> !#[trigger] improves(
                ch,
                route,
                reversed_segment(route, a, b),
            ),
    decreases route.len() - i, route.len() - j,
{
    if i + 1 >= route.len() {
    } else if j >= route.len() {
        lemma_scan_none(ch, route, i + 1, i + 2);
    } else {
        lemma_scan_none(ch, route, i, j + 1);
    }
}

/// 2-opt leaves a route of four or more stops locally optimal: no reversal
/// of any segment `a..=b` of the result is both feasible and strictly
/// shorter than it.
pub proof fn lemma_two_opt_locally_optimal(ch: &Challenge, r: Seq<usize>)
    requires
        well_formed(ch),
        stops_in_range(ch, r),
        r.len() >= 4,
    ensures
        forall|a: int, b: int|
            0 <= a < b < two_opt_final(ch, r).len() ==> !#[trigger] improves(
                ch,
                two_opt_final(ch, r),
                reversed_segment(two_opt_final(ch, r), a, b),
            ),
{
    lemma_two_opt_final(ch, r);
    let f = two_opt_final(ch, r);
    lemma_scan_none(ch, f, 0, 1);
}

/// A route of four or more stops after one or more rounds of 2-opt has no
/// improving segment reversal.
pub proof fn lemma_two_opt_rounds_locally_optimal(ch: &Challenge, r: Seq<usize>, p: nat)
    requires
        well_formed(ch),
        stops_in_range(ch, r),
        r.len() >= 4,
        p >= 1,
    ensures
        forall|a: int, b: int|
            0 <= a < b < two_opt_rounds(ch, r, p).len() ==> !#[trigger] improves(
                ch,
                two_opt_rounds(ch, r, p),
                reversed_segment(two_opt_rounds(ch, r, p), a, b),
            ),
{
    lemma_two_opt_rounds(ch, r, p);
    lemma_two_opt_locally_optimal(ch, r);
}

/// A route within range is no shorter than `length_floor`.
pub proof fn lemma_length_floor(ch: &Challenge, route: Seq<usize>)
    requires
        well_formed(ch),
        stops_in_range(ch, route),
    ensures
        route_length(ch, route) >= length_floor(ch),
{
    let n = ch.num_nodes as int;
    let b = value_bound(n);
    let len = route.len() as int;
    lemma_route_bounds(ch, route, len);
    lemma_bound_room(n, 0);
    let a = prev_stop(route, len);
    assert(0 <= a < n);
    assert(within(ch.distance_matrix@[a]@[0], b));
    assert(-len * b - b >= -(n + 1) * b) by (nonlinear_arith)
        requires
            len <= n,
            b >= 0,
    ;
}

#[via_fn]
proof fn two_opt_final_decreases(ch: &Challenge, route: Seq<usize>) {
    if well_formed(ch) && stops_in_range(ch, route) && route.len() >= 4 {
        lemma_scan_from(ch, route, 0, 1);
        if let Some(c) = first_improvement(ch, route) {
            let (a, b) = choose|a: int, b: int|
                0 <= a < b < route.len() && c == reversed_segment(route, a, b) && improves(
                    ch,
                    route,
                    c,
                );
            lemma_reversed_segment(ch, route, a, b);
            lemma_length_floor(ch, c);
        }
    }
}

/// A copy of the route with the stops at positions `i..=j` reversed.
fn reversed_copy(route: &Vec<usize>, i: usize, j: usize) -> (r: Vec<usize>)
    requires
        i <= j < route.len(),
    ensures
        r@ == reversed_segment(route@, i as int, j as int),
{
    let mut r: Vec<usize> = Vec::new();
    let mut p: usize = 0;
    while p < route.len()
        invariant
            i <= j < route.len(),
            p <= route.len(),
            r@ == reversed_segment(route@, i as int, j as int).subrange(0, p as int),
        decreases route.len() - p,
    {
        if i <= p && p <= j {
            r.push(route[j - (p - i)]);
        } else {
            r.push(route[p]);
        }
        p = p + 1;
        assert(r@ =~= reversed_segment(route@, i as int, j as int).subrange(0, p as int));
    }
    assert(r@ =~= reversed_segment(route@, i as int, j as int));
    r
}

/// 2-opt within one route: while some segment reversal gives a feasible,
/// strictly shorter route, take the first such (scanning `i`, then `j`).
/// Routes of fewer than four stops are left as they are.
pub(crate) fn two_opt_route(
    route: &mut Vec<usize>,
    d: &Vec<Vec<i32>>,
    ready: &Vec<i32>,
    due: &Vec<i32>,
    demands: &Vec<i32>,
    svc: i32,
    cap: i32,
    Ghost(ch): Ghost<&Challenge>,
)
    requires
        well_formed(ch),
        d@ == ch.distance_matrix@,
        ready@ == ch.ready_times@,
        due@ == ch.due_times@,
        demands@ == ch.demands@,
        svc == ch.service_time,
        cap == ch.max_capacity,
        stops_in_range(ch, old(route)@),
    ensures
        final(route)@ == two_opt_final(ch, old(route)@),
        old(route)@.len() >= 4 ==> forall|a: int, b: int|
            0 <= a < b < final(route)@.len() ==> !#[trigger] improves(
                ch,
                final(route)@,
                reversed_segment(final(route)@, a, b),
            ),
{
    let len = route.len();
    if len < 4 {
        return;
    }
    proof {
        lemma_two_opt_locally_optimal(ch, route@);
    }
    let ghost start = route@;
    let mut improved = true;
    proof {
        lemma_length_floor(ch, route@);
    }
    while improved
        invariant
            well_formed(ch),
            d@ == ch.distance_matrix@,
            ready@ == ch.ready_times@,
            due@ == ch.due_times@,
            demands@ == ch.demands@,
            svc == ch.service_time,
            cap == ch.max_capacity,
            stops_in_range(ch, route@),
            route.len() == len,
            len >= 4,
            two_opt_final(ch, route@) == two_opt_final(ch, start),
            !improved ==> first_improvement(ch, route@) is None,
            route_length(ch, route@) >= length_floor(ch),
        decreases route_length(ch, route@) - length_floor(ch) + if improved { 1int } else { 0 },
    {
        improved = false;
        let ghost r0 = route@;
        let ghost len0 = route_length(ch, r0);
        let mut i: usize = 0;
        while i < len - 1
            invariant_except_break
                !improved,
                route@ == r0,
                scan_from(ch, r0, i as int, i + 1) == first_improvement(ch, r0),
            invariant
                well_formed(ch),
                d@ == ch.distance_matrix@,
                ready@ == ch.ready_times@,
                due@ == ch.due_times@,
                demands@ == ch.demands@,
                svc == ch.service_time,
                cap == ch.max_capacity,
                stops_in_range(ch, r0),
                len == r0.len(),
                len >= 4,
                i <= len - 1,
            ensures
                !improved ==> route@ == r0 && first_improvement(ch, r0) is None,
                improved ==> Some(route@) == first_improvement(ch, r0),
            decreases len - i,
        {
            let mut j: usize = i + 1;
            while j < len
                invariant_except_break
                    !improved,
                    route@ == r0,
                    scan_from(ch, r0, i as int, j as int) == first_improvement(ch, r0),
                invariant
                    well_formed(ch),
                    d@ == ch.distance_matrix@,
                    ready@ == ch.ready_times@,
                    due@ == ch.due_times@,
                    demands@ == ch.demands@,
                    svc == ch.service_time,
                    cap == ch.max_capacity,
                    stops_in_range(ch, r0),
                    len == r0.len(),
                    len >= 4,
                    i < len - 1,
                    i < j <= len,
                ensures
                    !improved ==> route@ == r0 && scan_from(ch, r0, i as int, len as int)
                        == first_improvement(ch, r0),
                    improved ==> Some(route@) == first_improvement(ch, r0),
                decreases len - j,
            {
                // Try reversing route[i..=j].
                let candidate = reversed_copy(route, i, j);
                proof {
                    lemma_reversed_segment(ch, r0, i as int, j as int);
                }
                if !route_feasible(&candidate, d, ready, due, demands, svc, cap, Ghost(ch)) {
                    j = j + 1;
                    continue;
                }
                let new_dist = route_distance(&candidate, d, Ghost(ch));
                let old_dist = route_distance(route, d, Ghost(ch));
                if new_dist < old_dist {
                    *route = candidate;
                    improved = true;
                    break;
                }
                j = j + 1;
            }
            if improved {
                break;
            }
            assert(scan_from(ch, r0, i as int, len as int) == scan_from(ch, r0, i + 1, i + 2));
            i = i + 1;
        }
        proof {
            if improved {
                lemma_scan_from(ch, r0, 0, 1);
                let (a, b) = choose|a: int, b: int|
                    0 <= a < b < r0.len() && route@ == reversed_segment(r0, a, b) && improves(
                        ch,
                        r0,
                        route@,
                    );
                lemma_reversed_segment(ch, r0, a, b);
                lemma_length_floor(ch, route@);
                assert(two_opt_final(ch, r0) == two_opt_final(ch, route@));
            }
        }
    }
    proof {
        assert(two_opt_final(ch, route@) == route@);
    }
}

/// Why no solution was produced.
#[derive(Debug, PartialEq, Eq, Structural)]
pub enum RoutingError {
    /// More routes were started than there are vehicles.
    TooManyRoutes { routes: usize, fleet: usize },
    /// Some customer could not be served.
    UnvisitedCustomers,
    /// A route breaks a time window; this is the vehicle coming back to the
    /// depot after the depot's due time, as every stop's own window and the
    /// capacity hold by construction.
    InfeasibleRoute,
}

/// The nearest-neighbour choice over candidates `1..c`: the first unvisited
/// customer that the vehicle can serve next (load within capacity, service
/// starting by the due time) with the strictly smallest distance from where
/// it stands, with that distance.
pub open spec fn nn_fold(
    ch: &Challenge,
    vis: Seq<bool>,
    at: int,
    t: int,
    load: int,
    c: int,
) -> Option<(usize, int)>
    decreases c,
{
    if c <= 1 {
        None
    } else {
        let prev = nn_fold(ch, vis, at, t, load, c - 1);
        let cust = c - 1;
        if vis[cust] || load + ch.demands@[cust] > ch.max_capacity || max_int(
            t + dist(ch, at, cust),
            ch.ready_times@[cust] as int,
        ) > ch.due_times@[cust] {
            prev
        } else {
            let cost = dist(ch, at, cust);
            match prev {
                None => Some((cust as usize, cost)),
                Some(b) => if cost < b.1 {
                    Some((cust as usize, cost))
                } else {
                    prev
                },
            }
        }
    }
}

/// The customer that nearest-neighbour construction visits next from `at` at
/// time `t` with load `load`, if any.
pub open spec fn nn_choice(ch: &Challenge, vis: Seq<bool>, at: int, t: int, load: int) -> Option<
    usize,
> {
    match nn_fold(ch, vis, at, t, load, ch.num_nodes as int) {
        Some(b) => Some(b.0),
        None => None,
    }
}

/// The visited flags after also visiting the stops of `s`.
pub open spec fn vis_with(vis: Seq<bool>, s: Seq<usize>) -> Seq<bool> {
    Seq::new(vis.len(), |c: int| vis[c] || s.contains(c as usize))
}

/// Each stop of `r` is the nearest-neighbour choice made after the stops
/// before it, starting from the visited flags `vis`.
#[verifier::opaque]
pub open spec fn greedy_prefix(ch: &Challenge, vis: Seq<bool>, r: Seq<usize>) -> bool {
    forall|i: int|
        0 <= i < r.len() ==> nn_choice(
            ch,
            vis_with(vis, r.take(i)),
            prev_stop(r, i),
            time_upto(ch, r, i),
            load_upto(ch, r, i),
        ) == Some(#[trigger] r[i])
}

/// A route is the nearest-neighbour route from the visited flags `vis`: each
/// stop is the choice made after the stops before it, and after the last
/// stop no customer can be chosen.
pub open spec fn greedy_route(ch: &Challenge, vis: Seq<bool>, r: Seq<usize>) -> bool {
    &&& forall|i: int|
        0 <= i < r.len() ==> nn_choice(
            ch,
            vis_with(vis, r.take(i)),
            prev_stop(r, i),
            time_upto(ch, r, i),
            load_upto(ch, r, i),
        ) == Some(#[trigger] r[i])
    &&& nn_choice(
        ch,
        vis_with(vis, r),
        prev_stop(r, r.len() as int),
        time_upto(ch, r, r.len() as int),
        load_upto(ch, r, r.len() as int),
    ) is None
}

/// The visited flags of all nodes once the routes have been driven: the
/// depot and every stop of a route.
pub open spec fn visited_after(n: int, routes: Seq<Seq<usize>>) -> Seq<bool> {
    Seq::new(
        n as nat,
        |c: int|
            c == 0 || exists|k: int, i: int|
                0 <= k < routes.len() && 0 <= i < routes[k].len() && #[trigger] routes[k][i] == c,
    )
}

/// Some node is not visited.
pub open spec fn has_unvisited(vis: Seq<bool>) -> bool {
    exists|c: int| 0 <= c < vis.len() && !#[trigger] vis[c]
}

/// The routes are those that nearest-neighbour construction builds, in
/// order: each nonempty and greedy from what the routes before it visited,
/// and a new one started only while some customer was unvisited and there
/// were no more routes than vehicles.
pub open spec fn nn_routes(ch: &Challenge, routes: Seq<Seq<usize>>) -> bool {
    let n = ch.num_nodes as int;
    &&& forall|k: int|
        0 <= k < routes.len() ==> (#[trigger] routes[k]).len() > 0 && greedy_route(
            ch,
            visited_after(n, routes.take(k)),
            routes[k],
        )
    &&& forall|k: int|
        0 <= k < routes.len() ==> has_unvisited(visited_after(n, #[trigger] routes.take(k)))
    &&& forall|k: int| 1 <= k < routes.len() ==> #[trigger] routes.take(k).len() <= ch.fleet_size
}

/// Construction has stopped: every node is visited, more routes were started
/// than there are vehicles, or no customer can be reached from the depot.
pub open spec fn nn_stopped(ch: &Challenge, routes: Seq<Seq<usize>>) -> bool {
    let v = visited_after(ch.num_nodes as int, routes);
    ||| !has_unvisited(v)
    ||| routes.len() > ch.fleet_size
    ||| nn_choice(ch, v, 0, 0, 0) is None
}

/// The route after `p` rounds of 2-opt improvement.
pub open spec fn two_opt_rounds(ch: &Challenge, r: Seq<usize>, p: nat) -> Seq<usize>
    decreases p,
{
    if p == 0 {
        r
    } else {
        two_opt_final(ch, two_opt_rounds(ch, r, (p - 1) as nat))
    }
}

/// The routes of a solution as nested sequences.
pub open spec fn routes_view(v: Vec<Vec<usize>>) -> Seq<Seq<usize>> {
    v@.map_values(|r: Vec<usize>| r@)
}

/// The number of nodes marked visited.
pub open spec fn count_true(v: Seq<bool>) -> int
    decreases v.len(),
{
    if v.len() == 0 {
        0
    } else {
        count_true(v.drop_last()) + if v.last() { 1int } else { 0 }
    }
}

pub proof fn lemma_count_true_bounds(v: Seq<bool>)
    ensures
        0 <= count_true(v) <= v.len(),
    decreases v.len(),
{
    if v.len() > 0 {
        lemma_count_true_bounds(v.drop_last());
    }
}

/// Marking one unvisited node visited adds one to the count.
pub proof fn lemma_count_true_set(v: Seq<bool>, c: int)
    requires
        0 <= c < v.len(),
        !v[c],
    ensures
        count_true(v.update(c, true)) == count_true(v) + 1,
    decreases v.len(),
{
    let u = v.update(c, true);
    if c == v.len() - 1 {
        assert(u.drop_last() =~= v.drop_last());
    } else {
        lemma_count_true_set(v.drop_last(), c);
        assert(u.drop_last() =~= v.drop_last().update(c, true));
    }
}

/// What the nearest-neighbour choice yields: an unvisited customer that the
/// vehicle can serve.
pub proof fn lemma_nn_fold(ch: &Challenge, vis: Seq<bool>, at: int, t: int, load: int, c: int)
    requires
        1 <= c <= vis.len(),
        vis.len() <= usize::MAX,
    ensures
        nn_fold(ch, vis, at, t, load, c) matches Some(b) ==> {
            &&& 1 <= b.0 < c
            &&& !vis[b.0 as int]
            &&& load + ch.demands@[b.0 as int] <= ch.max_capacity
            &&& max_int(t + dist(ch, at, b.0 as int), ch.ready_times@[b.0 as int] as int)
                <= ch.due_times@[b.0 as int]
            &&& b.1 == dist(ch, at, b.0 as int)
        },
    decreases c,
{
    if c > 1 {
        lemma_nn_fold(ch, vis, at, t, load, c - 1);
    }
}

/// The running values at a position depend only on the stops before it.
pub proof fn lemma_prefix_stable(ch: &Challenge, r: Seq<usize>, r2: Seq<usize>, i: int)
    requires
        r.len() <= r2.len(),
        r2.take(r.len() as int) == r,
        0 <= i <= r.len(),
    ensures
        time_upto(ch, r2, i) == time_upto(ch, r, i),
        load_upto(ch, r2, i) == load_upto(ch, r, i),
        prev_stop(r2, i) == prev_stop(r, i),
        r2.take(i) == r.take(i),
        i < r.len() ==> start_at(ch, r2, i) == start_at(ch, r, i),
    decreases i,
{
    assert forall|p: int| 0 <= p < r.len() implies r2[p] == r[p] by {
        assert(r2.take(r.len() as int)[p] == r2[p]);
    }
    if i > 0 {
        lemma_prefix_stable(ch, r, r2, i - 1);
    }
    assert(r2.take(i) =~= r.take(i));
}

/// Driving one more route marks its stops visited.
pub proof fn lemma_visited_push(n: int, routes: Seq<Seq<usize>>, r: Seq<usize>)
    requires
        1 <= n <= usize::MAX,
    ensures
        visited_after(n, routes.push(r)) == vis_with(visited_after(n, routes), r),
{
    let a = visited_after(n, routes.push(r));
    let b = vis_with(visited_after(n, routes), r);
    assert forall|c: int| 0 <= c < n implies a[c] == b[c] by {
        let rs = routes.push(r);
        if a[c] && c != 0 {
            let (k, i) = choose|k: int, i: int|
                0 <= k < rs.len() && 0 <= i < rs[k].len() && #[trigger] rs[k][i] == c;
            if k < routes.len() {
                assert(routes[k][i] == c);
            } else {
                assert(r[i] == c);
                assert(r.contains(c as usize));
            }
        }
        if b[c] && c != 0 {
            if visited_after(n, routes)[c] {
                let (k, i) = choose|k: int, i: int|
                    0 <= k < routes.len() && 0 <= i < routes[k].len() && #[trigger] routes[k][i]
                        == c;
                assert(rs[k][i] == c);
            } else {
                let i = choose|i: int| 0 <= i < r.len() && r[i] == c as usize;
                assert(rs[routes.len() as int][i] == c);
            }
        }
    }
    assert(a =~= b);
}

/// Visiting one more stop.
pub proof fn lemma_vis_with_push(vis: Seq<bool>, r: Seq<usize>, c: usize)
    requires
        c < vis.len(),
        vis.len() <= usize::MAX,
    ensures
        vis_with(vis, r.push(c)) == vis_with(vis, r).update(c as int, true),
{
    let a = vis_with(vis, r.push(c));
    let b = vis_with(vis, r).update(c as int, true);
    assert forall|x: int| 0 <= x < vis.len() implies a[x] == b[x] by {
        if r.push(c).contains(x as usize) && x != c {
            let i = choose|i: int| 0 <= i < r.push(c).len() && r.push(c)[i] == x as usize;
            assert(r[i] == x as usize);
        }
        if r.contains(x as usize) {
            let i = choose|i: int| 0 <= i < r.len() && r[i] == x as usize;
            assert(r.push(c)[i] == x as usize);
        }
        if x == c {
            assert(r.push(c)[r.len() as int] == c);
        }
    }
    assert(a =~= b);
}

/// The nearest customer that the vehicle at `at` (time `t`, load `load`) can
/// serve next, with its distance: the first unvisited customer, in index
/// order, of strictly smallest distance among those within capacity and due
/// time.
fn nearest_feasible(
    visited: &Vec<bool>,
    at: usize,
    t: i64,
    load: i64,
    d: &Vec<Vec<i32>>,
    ready: &Vec<i32>,
    due: &Vec<i32>,
    demands: &Vec<i32>,
    cap: i32,
    Ghost(ch): Ghost<&Challenge>,
) -> (r: Option<(usize, i32)>)
    requires
        well_formed(ch),
        d@ == ch.distance_matrix@,
        ready@ == ch.ready_times@,
        due@ == ch.due_times@,
        demands@ == ch.demands@,
        cap == ch.max_capacity,
        visited.len() == ch.num_nodes,
        at < ch.num_nodes,
        -2 * ch.num_nodes * value_bound(ch.num_nodes as int) <= t <= 2 * ch.num_nodes
            * value_bound(ch.num_nodes as int),
        -ch.num_nodes * value_bound(ch.num_nodes as int) <= load <= ch.num_nodes * value_bound(
            ch.num_nodes as int,
        ),
    ensures
        match r {
            Some(b) => nn_fold(ch, visited@, at as int, t as int, load as int, ch.num_nodes as int)
                == Some((b.0, b.1 as int)),
            None => nn_fold(ch, visited@, at as int, t as int, load as int, ch.num_nodes as int)
                is None,
        },
{
    let n = visited.len();
    let ghost b = value_bound(n as int);
    proof {
        lemma_bound_room(n as int, 4 * n + 8);
        assert(2 * n * b + b <= i64::MAX && n * b + b <= i64::MAX) by (nonlinear_arith)
            requires
                (4 * n + 8) * b <= i64::MAX,
                b >= 0,
        ;
        assert(-2 * n * b == -(2 * n * b)) by (nonlinear_arith);
        assert(-n * b == -(n * b)) by (nonlinear_arith);
    }
    let mut best: Option<(usize, i32)> = None;
    let mut cust: usize = 1;
    while cust < n
        invariant
            well_formed(ch),
            d@ == ch.distance_matrix@,
            ready@ == ch.ready_times@,
            due@ == ch.due_times@,
            demands@ == ch.demands@,
            cap == ch.max_capacity,
            n == ch.num_nodes,
            visited.len() == n,
            at < n,
            b == value_bound(n as int),
            -(2 * n * b) <= t <= 2 * n * b,
            -(n * b) <= load <= n * b,
            2 * n * b + b <= i64::MAX,
            n * b + b <= i64::MAX,
            1 <= cust <= n,
            match best {
                Some(bb) => nn_fold(ch, visited@, at as int, t as int, load as int, cust as int)
                    == Some((bb.0, bb.1 as int)),
                None => nn_fold(ch, visited@, at as int, t as int, load as int, cust as int) is None,
            },
        decreases n - cust,
    {
        if !visited[cust] {
            proof {
                assert(within(ch.demands@[cust as int], b));
                assert(within(ch.distance_matrix@[at as int]@[cust as int], b));
                assert(within(ch.ready_times@[cust as int], b));
            }
            if !(load + demands[cust] as i64 > cap as i64) {
                let arrive = t + d[at][cust] as i64;
                let start_service = if arrive >= ready[cust] as i64 {
                    arrive
                } else {
                    ready[cust] as i64
                };
                if !(start_service > due[cust] as i64) {
                    let cost = d[at][cust];
                    let better = match best {
                        None => true,
                        Some(bb) => cost < bb.1,
                    };
                    if better {
                        best = Some((cust, cost));
                    }
                }
            }
        }
        cust = cust + 1;
    }
    best
}

/// Whether some node is still unvisited.
fn any_unvisited(visited: &Vec<bool>) -> (r: bool)
    ensures
        r == has_unvisited(visited@),
{
    let mut c: usize = 0;
    while c < visited.len()
        invariant
            c <= visited.len(),
            forall|x: int| 0 <= x < c ==> #[trigger] visited@[x],
        decreases visited.len() - c,
    {
        if !visited[c] {
            return true;
        }
        c = c + 1;
    }
    false
}

/// 2-opt improvement keeps the stops of a route, never lengthens it, leaves
/// it either unchanged or feasible, ends where no reversal improves it, and
/// changes nothing when applied again.
pub proof fn lemma_two_opt_final(ch: &Challenge, r: Seq<usize>)
    requires
        well_formed(ch),
        stops_in_range(ch, r),
    ensures
        ({
            let f = two_opt_final(ch, r);
            &&& f.len() == r.len()
            &&& stops_in_range(ch, f)
            &&& f.to_multiset() == r.to_multiset()
            &&& route_length(ch, f) <= route_length(ch, r)
            &&& f == r || route_ok(ch, f)
            &&& r.len() >= 4 ==> first_improvement(ch, f) is None
            &&& two_opt_final(ch, f) == f
        }),
    decreases route_length(ch, r) - length_floor(ch),
{
    lemma_length_floor(ch, r);
    if r.len() >= 4 {
        lemma_scan_from(ch, r, 0, 1);
        if let Some(c) = first_improvement(ch, r) {
            let (a, b) = choose|a: int, b: int|
                0 <= a < b < r.len() && c == reversed_segment(r, a, b) && improves(ch, r, c);
            lemma_reversed_segment(ch, r, a, b);
            lemma_length_floor(ch, c);
            lemma_two_opt_final(ch, c);
        }
    }
}

/// Capacity holds after every stop and service starts at every stop by its
/// due time (the return to the depot aside).
pub open spec fn customer_feasible(ch: &Challenge, r: Seq<usize>) -> bool {
    forall|i: int|
        0 <= i < r.len() ==> #[trigger] load_upto(ch, r, i + 1) <= ch.max_capacity && start_at(
            ch,
            r,
            i,
        ) <= ch.due_times@[r[i] as int]
}

/// Several rounds of 2-opt are one round.
pub proof fn lemma_two_opt_rounds(ch: &Challenge, r: Seq<usize>, p: nat)
    requires
        well_formed(ch),
        stops_in_range(ch, r),
    ensures
        p >= 1 ==> two_opt_rounds(ch, r, p) == two_opt_final(ch, r),
        stops_in_range(ch, two_opt_rounds(ch, r, p)),
    decreases p,
{
    lemma_two_opt_final(ch, r);
    let f = two_opt_final(ch, r);
    if p == 1 {
        assert(two_opt_rounds(ch, r, 0) == r);
        assert(two_opt_rounds(ch, r, 1) == two_opt_final(ch, two_opt_rounds(ch, r, 0)));
    } else if p > 1 {
        lemma_two_opt_rounds(ch, r, (p - 1) as nat);
        assert(two_opt_rounds(ch, r, (p - 1) as nat) == f);
        assert(two_opt_rounds(ch, r, p) == two_opt_final(ch, two_opt_rounds(ch, r, (p - 1) as nat)));
        assert(two_opt_final(ch, f) == f);
    }
}

/// Appending the nearest-neighbour choice to a route built greedily keeps it
/// built greedily, and the running values advance by the new stop.
pub proof fn lemma_greedy_step(ch: &Challenge, v0: Seq<bool>, r: Seq<usize>, c: usize)
    requires
        greedy_prefix(ch, v0, r),
        nn_choice(
            ch,
            vis_with(v0, r),
            prev_stop(r, r.len() as int),
            time_upto(ch, r, r.len() as int),
            load_upto(ch, r, r.len() as int),
        ) == Some(c),
    ensures
        ({
            let r2 = r.push(c);
            &&& greedy_prefix(ch, v0, r2)
            &&& prev_stop(r2, r2.len() as int) == c
            &&& load_upto(ch, r2, r2.len() as int) == load_upto(ch, r, r.len() as int)
                + ch.demands@[c as int]
            &&& time_upto(ch, r2, r2.len() as int) == max_int(
                time_upto(ch, r, r.len() as int) + dist(ch, prev_stop(r, r.len() as int), c as int),
                ch.ready_times@[c as int] as int,
            ) + ch.service_time
        }),
{
    reveal(greedy_prefix);
    let r2 = r.push(c);
    let len = r.len() as int;
    assert(r2.take(len) =~= r);
    assert forall|i: int| 0 <= i <= len implies time_upto(ch, r2, i) == time_upto(ch, r, i)
        && load_upto(ch, r2, i) == load_upto(ch, r, i) && prev_stop(r2, i) == prev_stop(r, i)
        && r2.take(i) == r.take(i) by {
        lemma_prefix_stable(ch, r, r2, i);
    }
    assert forall|i: int| 0 <= i < r2.len() implies nn_choice(
        ch,
        vis_with(v0, r2.take(i)),
        prev_stop(r2, i),
        time_upto(ch, r2, i),
        load_upto(ch, r2, i),
    ) == Some(#[trigger] r2[i]) by {
        if i < len {
            assert(r2[i] == r[i]);
        }
    }
}

/// A node marked visited makes the count positive.
pub proof fn lemma_count_true_pos(v: Seq<bool>, c: int)
    requires
        0 <= c < v.len(),
        v[c],
    ensures
        count_true(v) >= 1,
    decreases v.len(),
{
    lemma_count_true_bounds(v.drop_last());
    if c < v.len() - 1 {
        lemma_count_true_pos(v.drop_last(), c);
    }
}

/// Drives one new route from the depot: again and again the nearest
/// customer that the vehicle can still serve, until there is none.  Marks
/// the stops visited.
fn build_route(
    visited: &mut Vec<bool>,
    d: &Vec<Vec<i32>>,
    ready: &Vec<i32>,
    due: &Vec<i32>,
    demands: &Vec<i32>,
    svc: i32,
    cap: i32,
    Ghost(ch): Ghost<&Challenge>,
) -> (route: Vec<usize>)
    requires
        well_formed(ch),
        d@ == ch.distance_matrix@,
        ready@ == ch.ready_times@,
        due@ == ch.due_times@,
        demands@ == ch.demands@,
        svc == ch.service_time,
        cap == ch.max_capacity,
        old(visited).len() == ch.num_nodes,
        count_true(old(visited)@) >= 1,
    ensures
        greedy_route(ch, old(visited)@, route@),
        final(visited)@ == vis_with(old(visited)@, route@),
        count_true(final(visited)@) == count_true(old(visited)@) + route.len(),
        stops_in_range(ch, route@),
        route.len() < ch.num_nodes,
{
    let n = visited.len();
    let ghost b = value_bound(n as int);
    let ghost v0 = visited@;
    proof {
        lemma_bound_room(n as int, 4 * n + 8);
        lemma_count_true_bounds(v0);
        assert(vis_with(v0, Seq::<usize>::empty()) =~= v0);
        reveal(greedy_prefix);
    }
    let mut route: Vec<usize> = Vec::new();
    let mut load: i64 = 0;
    let mut t: i64 = 0;
    let mut at: usize = 0;
    loop
        invariant
            well_formed(ch),
            n == ch.num_nodes,
            cap == ch.max_capacity,
            svc == ch.service_time,
            d@ == ch.distance_matrix@,
            ready@ == ch.ready_times@,
            due@ == ch.due_times@,
            demands@ == ch.demands@,
            b == value_bound(n as int),
            (4 * n + 8) * b <= i64::MAX,
            b >= 0,
            visited.len() == n,
            v0.len() == n,
            visited@ == vis_with(v0, route@),
            count_true(visited@) == count_true(v0) + route.len(),
            count_true(v0) >= 1,
            count_true(visited@) <= n,
            at == prev_stop(route@, route.len() as int),
            at < n,
            t == time_upto(ch, route@, route.len() as int),
            load == load_upto(ch, route@, route.len() as int),
            forall|i: int| 0 <= i < route.len() ==> (#[trigger] route@[i]) < n,
            greedy_prefix(ch, v0, route@),
        ensures
            greedy_prefix(ch, v0, route@),
            nn_choice(
                ch,
                vis_with(v0, route@),
                prev_stop(route@, route.len() as int),
                time_upto(ch, route@, route.len() as int),
                load_upto(ch, route@, route.len() as int),
            ) is None,
            visited@ == vis_with(v0, route@),
            count_true(visited@) == count_true(v0) + route.len(),
            forall|i: int| 0 <= i < route.len() ==> (#[trigger] route@[i]) < n,
            route.len() < n,
        decreases n - count_true(visited@),
    {
        let len = route.len();
        proof {
            assert(stops_in_range(ch, route@));
            lemma_route_bounds(ch, route@, len as int);
            assert(len * b <= n * b && 2 * len * b <= 2 * n * b) by (nonlinear_arith)
                requires
                    len <= n,
                    b >= 0,
            ;
            assert(-(len as int) * b == -(len * b)) by (nonlinear_arith);
            assert(-2 * (len as int) * b == -(2 * len * b)) by (nonlinear_arith);
            assert(-(n as int) * b == -(n * b)) by (nonlinear_arith);
            assert(-2 * (n as int) * b == -(2 * n * b)) by (nonlinear_arith);
        }
        // The best feasible next customer.
        let next = nearest_feasible(visited, at, t, load, d, ready, due, demands, cap, Ghost(ch));
        if next.is_none() {
            break;
        }
        let cust = next.unwrap().0;
        proof {
            assert(route@.take(len as int) =~= route@);
            lemma_nn_fold(ch, visited@, at as int, t as int, load as int, n as int);
            lemma_count_true_set(visited@, cust as int);
            lemma_count_true_bounds(visited@.update(cust as int, true));
            assert(within(ch.distance_matrix@[at as int]@[cust as int], b));
            assert(within(ch.ready_times@[cust as int], b));
            assert(within(ch.demands@[cust as int], b));
            assert(within(ch.service_time, b));
            assert(2 * len * b + 2 * b <= i64::MAX) by (nonlinear_arith)
                requires
                    len < n,
                    b >= 0,
                    (4 * n + 8) * b <= i64::MAX,
            ;
        }
        let ghost old_route = route@;
        proof {
            lemma_greedy_step(ch, v0, old_route, cust);
        }
        let arrive = t + d[at][cust] as i64;
        let start_service = if arrive >= ready[cust] as i64 {
            arrive
        } else {
            ready[cust] as i64
        };
        assert(-(2 * len * b) <= t <= 2 * len * b);
        assert(-b <= svc <= b);
        assert(-(2 * len * b) - b <= arrive <= 2 * len * b + b);
        assert(-(2 * len * b) - b <= start_service <= 2 * len * b + b);
        assert(-(len * b) <= load <= len * b);
        assert(0 <= len * b <= 2 * len * b) by (nonlinear_arith)
            requires
                b >= 0,
        ;
        t = start_service + svc as i64;
        load = load + demands[cust] as i64;
        visited.set(cust, true);
        route.push(cust);
        at = cust;
        proof {
            lemma_vis_with_push(v0, old_route, cust);
        }
    }
    proof {
        reveal(greedy_prefix);
    }
    route
}

/// Two routes built greedily from the same visited flags agree on their
/// first `i` stops.
#[verifier::spinoff_prover]
#[verifier::rlimit(50)]
proof fn lemma_greedy_prefix_agree(ch: &Challenge, vis: Seq<bool>, r1: Seq<usize>, r2: Seq<usize>, i: int)
    requires
        greedy_route(ch, vis, r1),
        greedy_route(ch, vis, r2),
        0 <= i <= r1.len(),
        i <= r2.len(),
    ensures
        r1.take(i) == r2.take(i),
    decreases i,
{
    if i > 0 {
        let j = i - 1;
        lemma_greedy_prefix_agree(ch, vis, r1, r2, j);
        let p = r1.take(j);
        lemma_prefix_stable(ch, p, r1, j);
        lemma_prefix_stable(ch, p, r2, j);
        assert(nn_choice(ch, vis_with(vis, r1.take(j)), prev_stop(r1, j), time_upto(ch, r1, j), load_upto(ch, r1, j)) == Some(r1[j]));
        assert(nn_choice(ch, vis_with(vis, r2.take(j)), prev_stop(r2, j), time_upto(ch, r2, j), load_upto(ch, r2, j)) == Some(r2[j]));
        assert forall|q: int| 0 <= q < i implies r1.take(i)[q] == r2.take(i)[q] by {
            if q < j {
                assert(r1.take(j)[q] == r2.take(j)[q]);
            }
        }
        assert(r1.take(i) =~= r2.take(i));
    }
}

/// Two routes built greedily from the same visited flags are the same.
pub proof fn lemma_greedy_route_unique(ch: &Challenge, vis: Seq<bool>, r1: Seq<usize>, r2: Seq<usize>)
    requires
        greedy_route(ch, vis, r1),
        greedy_route(ch, vis, r2),
    ensures
        r1 == r2,
{
    let m = if r1.len() <= r2.len() { r1.len() as int } else { r2.len() as int };
    lemma_greedy_prefix_agree(ch, vis, r1, r2, m);
    if r1.len() < r2.len() {
        let l = r1.len() as int;
        assert(r1.take(l) =~= r1);
        lemma_prefix_stable(ch, r1, r2, l);
        assert(nn_choice(ch, vis_with(vis, r2.take(l)), prev_stop(r2, l), time_upto(ch, r2, l), load_upto(ch, r2, l)) == Some(r2[l]));
    } else if r2.len() < r1.len() {
        let l = r2.len() as int;
        assert(r2.take(l) =~= r2);
        lemma_prefix_stable(ch, r2, r1, l);
        assert(nn_choice(ch, vis_with(vis, r1.take(l)), prev_stop(r1, l), time_upto(ch, r1, l), load_upto(ch, r1, l)) == Some(r1[l]));
    } else {
        assert(r1 =~= r1.take(m));
        assert(r2 =~= r2.take(m));
    }
}

/// Route `j` of a list built by nearest neighbour is built greedily from
/// what the routes before it visited.
proof fn lemma_nn_route_at(ch: &Challenge, a: Seq<Seq<usize>>, j: int)
    requires
        nn_routes(ch, a),
        0 <= j < a.len(),
    ensures
        greedy_route(ch, visited_after(ch.num_nodes as int, a.take(j)), a[j]),
{
}

/// One more route on which two lists built by nearest neighbour agree.
#[verifier::spinoff_prover]
proof fn lemma_nn_prefix_step(ch: &Challenge, a: Seq<Seq<usize>>, b: Seq<Seq<usize>>, j: int)
    requires
        greedy_route(ch, visited_after(ch.num_nodes as int, a.take(j)), a[j]),
        greedy_route(ch, visited_after(ch.num_nodes as int, b.take(j)), b[j]),
        0 <= j < a.len(),
        j < b.len(),
        a.take(j) == b.take(j),
    ensures
        a.take(j + 1) == b.take(j + 1),
{
    lemma_greedy_route_unique(ch, visited_after(ch.num_nodes as int, a.take(j)), a[j], b[j]);
    assert(a.take(j + 1) =~= a.take(j).push(a[j]));
    assert(b.take(j + 1) =~= b.take(j).push(b[j]));
}

/// Route lists built by nearest neighbour agree on their first `k` routes.
proof fn lemma_nn_prefix_agree(ch: &Challenge, a: Seq<Seq<usize>>, b: Seq<Seq<usize>>, k: int)
    requires
        nn_routes(ch, a),
        nn_routes(ch, b),
        0 <= k <= a.len(),
        k <= b.len(),
    ensures
        a.take(k) == b.take(k),
    decreases k,
{
    if k > 0 {
        lemma_nn_prefix_agree(ch, a, b, k - 1);
        lemma_nn_route_at(ch, a, k - 1);
        lemma_nn_route_at(ch, b, k - 1);
        lemma_nn_prefix_step(ch, a, b, k - 1);
    } else {
        assert(a.take(0) =~= b.take(0));
    }
}

/// Nearest-neighbour construction has one outcome: two route lists built and
/// stopped as `nn_routes` and `nn_stopped` say are the same.
pub proof fn lemma_nn_routes_unique(ch: &Challenge, a: Seq<Seq<usize>>, b: Seq<Seq<usize>>)
    requires
        nn_routes(ch, a),
        nn_stopped(ch, a),
        nn_routes(ch, b),
        nn_stopped(ch, b),
    ensures
        a == b,
{
    let n = ch.num_nodes as int;
    let m = if a.len() <= b.len() { a.len() as int } else { b.len() as int };
    lemma_nn_prefix_agree(ch, a, b, m);
    if a.len() != b.len() {
        // The shorter list stopped where the longer one started another route.
        let (s, l) = if a.len() < b.len() { (a, b) } else { (b, a) };
        let k = s.len() as int;
        assert(s.take(k) =~= s);
        assert(l.take(k) == s);
        let v = visited_after(n, s);
        let r = l[k];
        assert(r.len() > 0 && greedy_route(ch, visited_after(n, l.take(k)), r));
        assert(has_unvisited(visited_after(n, l.take(k))));
        if k >= 1 {
            assert(l.take(k).len() <= ch.fleet_size);
        }
        assert(vis_with(v, r.take(0)) =~= v);
        assert(nn_choice(ch, vis_with(v, r.take(0)), prev_stop(r, 0), time_upto(ch, r, 0), load_upto(ch, r, 0)) == Some(r[0]));
        assert(nn_stopped(ch, s));
    } else {
        assert(a =~= a.take(m));
        assert(b =~= b.take(m));
    }
}

/// Builds the routes by nearest neighbour: a new route from the depot while
/// some customer is unvisited, until a new route would be empty or more
/// routes were started than there are vehicles.  Returns the routes and the
/// visited flags.
#[verifier::spinoff_prover]
fn nn_construct(challenge: &Challenge) -> (res: (Vec<Vec<usize>>, Vec<bool>))
    requires
        well_formed(challenge),
    ensures
        nn_routes(challenge, routes_view(res.0)),
        nn_stopped(challenge, routes_view(res.0)),
        res.1@ == visited_after(challenge.num_nodes as int, routes_view(res.0)),
        forall|k: int|
            0 <= k < res.0.len() ==> stops_in_range(challenge, #[trigger] routes_view(res.0)[k]),
{
    let n = challenge.num_nodes;
    let cap = challenge.max_capacity;
    let svc = challenge.service_time;
    let d = &challenge.distance_matrix;
    let demands = &challenge.demands;
    let ready = &challenge.ready_times;
    let due = &challenge.due_times;
    let fleet = challenge.fleet_size;
    let ghost ch = challenge;
    // Visited mask; the depot counts as visited.
    let mut visited: Vec<bool> = Vec::new();
    while visited.len() < n
        invariant
            visited.len() <= n,
            forall|c: int| 0 <= c < visited.len() ==> !#[trigger] visited@[c],
        decreases n - visited.len(),
    {
        visited.push(false);
    }
    visited.set(0, true);
    let mut routes: Vec<Vec<usize>> = Vec::new();
    proof {
        assert(visited@ =~= visited_after(n as int, routes_view(routes)));
        lemma_count_true_pos(visited@, 0);
    }
    while any_unvisited(&visited)
        invariant_except_break
            routes.len() <= fleet,
        invariant
            well_formed(ch),
            ch == challenge,
            n == ch.num_nodes,
            cap == ch.max_capacity,
            svc == ch.service_time,
            fleet == ch.fleet_size,
            d@ == ch.distance_matrix@,
            ready@ == ch.ready_times@,
            due@ == ch.due_times@,
            demands@ == ch.demands@,
            visited.len() == n,
            visited@ == visited_after(n as int, routes_view(routes)),
            nn_routes(ch, routes_view(routes)),
            count_true(visited@) >= 1,
            forall|k: int| 0 <= k < routes.len() ==> stops_in_range(ch, #[trigger] routes_view(routes)[k]),
        ensures
            nn_stopped(ch, routes_view(routes)),
        decreases n - count_true(visited@),
    {
        proof {
            lemma_count_true_bounds(visited@);
        }
        let ghost v0 = visited@;
        let ghost rs0 = routes_view(routes);
        let route = build_route(&mut visited, d, ready, due, demands, svc, cap, Ghost(ch));
        if route.len() == 0 {
            proof {
                assert(vis_with(v0, route@) =~= v0);
            }
            break;
        }
        proof {
            lemma_count_true_bounds(visited@);
        }
        let ghost r = route@;
        routes.push(route);
        proof {
            assert(routes_view(routes) =~= rs0.push(r));
            lemma_visited_push(n as int, rs0, r);
            let rs = routes_view(routes);
            assert(rs.take(rs0.len() as int) =~= rs0);
            assert forall|k: int| 0 <= k < rs.len() implies (#[trigger] rs[k]).len() > 0 && greedy_route(
                ch,
                visited_after(n as int, rs.take(k)),
                rs[k],
            ) by {
                if k < rs0.len() {
                    assert(rs.take(k) =~= rs0.take(k));
                }
            }
            assert forall|k: int| 0 <= k < rs.len() implies has_unvisited(
                visited_after(n as int, #[trigger] rs.take(k)),
            ) by {
                if k < rs0.len() {
                    assert(rs.take(k) =~= rs0.take(k));
                }
            }
            assert forall|k: int| 1 <= k < rs.len() implies #[trigger] rs.take(k).len() <= fleet by {}
            assert forall|k: int| 0 <= k < rs.len() implies stops_in_range(ch, #[trigger] rs[k]) by {
                if k < rs0.len() {
                    assert(rs[k] == rs0[k]);
                }
            }
        }
        if routes.len() > fleet {
            break;
        }
    }
    (routes, visited)
}

/// Improves every route by `passes` rounds of 2-opt.
fn improve_routes(routes: &mut Vec<Vec<usize>>, passes: usize, challenge: &Challenge)
    requires
        well_formed(challenge),
        forall|k: int|
            0 <= k < old(routes).len() ==> stops_in_range(
                challenge,
                #[trigger] routes_view(*old(routes))[k],
            ),
    ensures
        final(routes).len() == old(routes).len(),
        forall|k: int|
            0 <= k < old(routes).len() ==> #[trigger] routes_view(*final(routes))[k]
                == two_opt_rounds(challenge, routes_view(*old(routes))[k], passes as nat),
{
    let cap = challenge.max_capacity;
    let svc = challenge.service_time;
    let d = &challenge.distance_matrix;
    let demands = &challenge.demands;
    let ready = &challenge.ready_times;
    let due = &challenge.due_times;
    let ghost ch = challenge;
    let ghost built = routes_view(*routes);
    let ghost built_len = routes.len();
    let mut pass: usize = 0;
    while pass < passes
        invariant
            well_formed(ch),
            d@ == ch.distance_matrix@,
            ready@ == ch.ready_times@,
            due@ == ch.due_times@,
            demands@ == ch.demands@,
            svc == ch.service_time,
            cap == ch.max_capacity,
            routes.len() == built_len,
            built.len() == built_len,
            pass <= passes,
            forall|k: int| 0 <= k < built.len() ==> stops_in_range(ch, #[trigger] built[k]),
            forall|k: int|
                0 <= k < built.len() ==> #[trigger] routes_view(*routes)[k] == two_opt_rounds(
                    ch,
                    built[k],
                    pass as nat,
                ),
        decreases passes - pass,
    {
        let mut r_idx: usize = 0;
        while r_idx < routes.len()
            invariant
                well_formed(ch),
                d@ == ch.distance_matrix@,
                ready@ == ch.ready_times@,
                due@ == ch.due_times@,
                demands@ == ch.demands@,
                svc == ch.service_time,
                cap == ch.max_capacity,
                routes.len() == built_len,
                built.len() == built_len,
                r_idx <= routes.len(),
                forall|k: int| 0 <= k < built.len() ==> stops_in_range(ch, #[trigger] built[k]),
                forall|k: int|
                    r_idx <= k < built.len() ==> #[trigger] routes_view(*routes)[k]
                        == two_opt_rounds(ch, built[k], pass as nat),
                forall|k: int|
                    0 <= k < r_idx ==> #[trigger] routes_view(*routes)[k] == two_opt_rounds(
                        ch,
                        built[k],
                        (pass + 1) as nat,
                    ),
            decreases routes.len() - r_idx,
        {
            proof {
                lemma_two_opt_rounds(ch, built[r_idx as int], pass as nat);
                assert(routes_view(*routes)[r_idx as int] == routes@[r_idx as int]@);
            }
            let ghost before = *routes;
            two_opt_route(&mut routes[r_idx], d, ready, due, demands, svc, cap, Ghost(ch));
            proof {
                assert forall|k: int| 0 <= k < built.len() implies #[trigger] routes_view(*routes)[k]
                    == (if k == r_idx {
                    two_opt_final(ch, routes_view(before)[k])
                } else {
                    routes_view(before)[k]
                }) by {
                    assert(routes_view(*routes)[k] == routes@[k]@);
                    assert(routes_view(before)[k] == before@[k]@);
                }
            }
            r_idx = r_idx + 1;
        }
        pass = pass + 1;
    }
}

/// The stops of all routes, each counted as often as it is visited.
pub open spec fn all_stops(routes: Seq<Seq<usize>>) -> Multiset<usize>
    decreases routes.len(),
{
    if routes.len() == 0 {
        Multiset::empty()
    } else {
        all_stops(routes.drop_last()).add(routes.last().to_multiset())
    }
}

/// What a plan built and improved here guarantees: no more routes than
/// vehicles, no empty route, capacity and due times respected at every stop
/// of every route, and every customer served exactly once (the depot and
/// nodes outside the instance never).
pub open spec fn serves_each_once(ch: &Challenge, routes: Seq<Seq<usize>>) -> bool {
    &&& routes.len() <= ch.fleet_size
    &&& forall|k: int|
        0 <= k < routes.len() ==> (#[trigger] routes[k]).len() > 0 && customer_feasible(
            ch,
            routes[k],
        )
    &&& forall|c: usize|
        #[trigger] all_stops(routes).count(c) == if 1 <= c < ch.num_nodes {
            1nat
        } else {
            0nat
        }
}

/// A route built greedily respects capacity and due times at every stop and
/// visits exactly the customers it marks visited, each once.
pub proof fn lemma_greedy_counts(ch: &Challenge, v: Seq<bool>, r: Seq<usize>)
    requires
        well_formed(ch),
        v.len() == ch.num_nodes,
        greedy_prefix(ch, v, r),
    ensures
        customer_feasible(ch, r),
        forall|c: usize|
            #[trigger] r.to_multiset().count(c) == if c < ch.num_nodes && !v[c as int] && vis_with(
                v,
                r,
            )[c as int] {
                1nat
            } else {
                0nat
            },
    decreases r.len(),
{
    broadcast use vstd::seq_lib::group_to_multiset_ensures;

    let n = ch.num_nodes as int;
    if r.len() == 0 {
        assert(vis_with(v, r) =~= v);
        assert(r.to_multiset() =~= Multiset::empty());
    } else {
        let r0 = r.drop_last();
        let x = r.last();
        let len0 = r0.len() as int;
        assert(r0.push(x) =~= r);
        assert(r.take(len0) =~= r0);
        assert forall|i: int| 0 <= i <= len0 implies time_upto(ch, r, i) == time_upto(ch, r0, i)
            && load_upto(ch, r, i) == load_upto(ch, r0, i) && prev_stop(r, i) == prev_stop(r0, i)
            && r.take(i) == r0.take(i) && (i < len0 ==> start_at(ch, r, i) == start_at(ch, r0, i)) by {
            lemma_prefix_stable(ch, r0, r, i);
        }
        reveal(greedy_prefix);
        assert(greedy_prefix(ch, v, r0)) by {
            assert forall|i: int| 0 <= i < r0.len() implies nn_choice(
                ch,
                vis_with(v, r0.take(i)),
                prev_stop(r0, i),
                time_upto(ch, r0, i),
                load_upto(ch, r0, i),
            ) == Some(#[trigger] r0[i]) by {
                assert(r[i] == r0[i]);
            }
        }
        lemma_greedy_counts(ch, v, r0);
        let w = vis_with(v, r0);
        assert(nn_choice(ch, w, prev_stop(r, len0), time_upto(ch, r, len0), load_upto(ch, r, len0))
            == Some(r[len0]));
        lemma_nn_fold(
            ch,
            w,
            prev_stop(r0, len0),
            time_upto(ch, r0, len0),
            load_upto(ch, r0, len0),
            n,
        );
        assert(1 <= x < n && !w[x as int]);
        lemma_vis_with_push(v, r0, x);
        assert forall|i: int| 0 <= i < r.len() implies #[trigger] load_upto(ch, r, i + 1)
            <= ch.max_capacity && start_at(ch, r, i) <= ch.due_times@[r[i] as int] by {
            if i < len0 {
                assert(r[i] == r0[i]);
                assert(load_upto(ch, r0, i + 1) <= ch.max_capacity);
            }
        }
        assert forall|c: usize|
            #[trigger] r.to_multiset().count(c) == if c < ch.num_nodes && !v[c as int] && vis_with(
                v,
                r,
            )[c as int] {
                1nat
            } else {
                0nat
            } by {
            assert(r.to_multiset() =~= r0.to_multiset().insert(x));
            if c == x {
                assert(r0.to_multiset().count(c) == 0);
            }
        }
    }
}

/// Counted over the first `k` routes built, every customer marked visited is
/// served exactly once and nothing else is visited.
#[verifier::spinoff_prover]
pub proof fn lemma_built_counts(ch: &Challenge, built: Seq<Seq<usize>>, k: int)
    requires
        well_formed(ch),
        nn_routes(ch, built),
        0 <= k <= built.len(),
    ensures
        forall|c: usize|
            #[trigger] all_stops(built.take(k)).count(c) == if c < ch.num_nodes && c != 0
                && visited_after(ch.num_nodes as int, built.take(k))[c as int] {
                1nat
            } else {
                0nat
            },
    decreases k,
{
    let n = ch.num_nodes as int;
    if k == 0 {
        assert(all_stops(built.take(0)) =~= Multiset::empty());
    } else {
        lemma_built_counts(ch, built, k - 1);
        let prev = built.take(k - 1);
        let r = built[k - 1];
        assert(built.take(k) =~= prev.push(r));
        assert(built.take(k).drop_last() =~= prev);
        let v = visited_after(n, prev);
        assert(greedy_route(ch, v, r));
        assert(greedy_prefix(ch, v, r)) by {
            reveal(greedy_prefix);
        }
        lemma_greedy_counts(ch, v, r);
        lemma_visited_push(n, prev, r);
        let w = visited_after(n, built.take(k));
        assert(w == vis_with(v, r));
        assert(v[0]);
        assert forall|c: usize|
            #[trigger] all_stops(built.take(k)).count(c) == if c < ch.num_nodes && c != 0 && w[c as int] {
                1nat
            } else {
                0nat
            } by {
            assert(all_stops(built.take(k)) == all_stops(prev).add(r.to_multiset()));
            assert(all_stops(built.take(k)).count(c) == all_stops(prev).count(c) + r.to_multiset().count(c));
            if c < ch.num_nodes {
                assert(w[c as int] == (v[c as int] || r.contains(c)));
            }
        }
    }
}

/// Routes whose stops agree route by route agree on all stops.
pub proof fn lemma_all_stops_same(a: Seq<Seq<usize>>, b: Seq<Seq<usize>>)
    requires
        a.len() == b.len(),
        forall|k: int| 0 <= k < a.len() ==> (#[trigger] a[k]).to_multiset() == b[k].to_multiset(),
    ensures
        all_stops(a) == all_stops(b),
    decreases a.len(),
{
    if a.len() > 0 {
        lemma_all_stops_same(a.drop_last(), b.drop_last());
        assert(a.last().to_multiset() == b.last().to_multiset());
    }
}

/// Rounds of 2-opt keep the stops of a route and its respect of capacity
/// and due times.
pub proof fn lemma_two_opt_rounds_keep(ch: &Challenge, r: Seq<usize>, p: nat)
    requires
        well_formed(ch),
        stops_in_range(ch, r),
        customer_feasible(ch, r),
    ensures
        two_opt_rounds(ch, r, p).len() == r.len(),
        two_opt_rounds(ch, r, p).to_multiset() == r.to_multiset(),
        customer_feasible(ch, two_opt_rounds(ch, r, p)),
{
    lemma_two_opt_rounds(ch, r, p);
    lemma_two_opt_final(ch, r);
    if p == 0 {
        assert(two_opt_rounds(ch, r, 0) == r);
    }
}

/// The routes built and then improved serve every customer exactly once,
/// respect capacity and due times at every stop, and are no more than the
/// vehicles.
pub proof fn lemma_solution_serves(
    ch: &Challenge,
    built: Seq<Seq<usize>>,
    p: nat,
    sol: Seq<Seq<usize>>,
)
    requires
        well_formed(ch),
        nn_routes(ch, built),
        built.len() <= ch.fleet_size,
        !has_unvisited(visited_after(ch.num_nodes as int, built)),
        forall|k: int| 0 <= k < built.len() ==> stops_in_range(ch, #[trigger] built[k]),
        sol.len() == built.len(),
        forall|k: int| 0 <= k < built.len() ==> #[trigger] sol[k] == two_opt_rounds(ch, built[k], p),
    ensures
        serves_each_once(ch, sol),
{
    let n = ch.num_nodes as int;
    lemma_built_counts(ch, built, built.len() as int);
    assert(built.take(built.len() as int) =~= built);
    assert forall|k: int| 0 <= k < built.len() implies (#[trigger] sol[k]).len() > 0
        && customer_feasible(ch, sol[k]) && sol[k].to_multiset() == built[k].to_multiset() by {
        let v = visited_after(n, built.take(k));
        assert(greedy_route(ch, v, built[k]));
        assert(greedy_prefix(ch, v, built[k])) by {
            reveal(greedy_prefix);
        }
        lemma_greedy_counts(ch, v, built[k]);
        lemma_two_opt_rounds_keep(ch, built[k], p);
    }
    lemma_all_stops_same(sol, built);
    assert forall|c: usize|
        #[trigger] all_stops(sol).count(c) == if 1 <= c < ch.num_nodes {
            1nat
        } else {
            0nat
        } by {
        if 1 <= c < ch.num_nodes {
            assert(visited_after(n, built)[c as int]);
        }
    }
}

/// Builds routes by time-window-aware nearest neighbour, improves each route
/// by `two_opt_passes` rounds of 2-opt (default 3), and checks the result.
///
/// The routes built are those described by `nn_routes` and `nn_stopped`.
/// Errors: `TooManyRoutes` when more routes were started than there are
/// vehicles; otherwise `UnvisitedCustomers` when some customer was left out.
/// Otherwise `InfeasibleRoute` when some improved route comes back to the
/// depot after the depot's due time; otherwise the routes are the built ones
/// after the 2-opt rounds, each feasible.
pub fn solve_challenge(challenge: &Challenge, hyperparameters: &Option<Hyperparameters>) -> (r:
    Result<Solution, RoutingError>)
    requires
        well_formed(challenge),
    ensures
        exists|built: Seq<Seq<usize>>|
            #![trigger nn_routes(challenge, built)]
            {
                let n = challenge.num_nodes as int;
                let fleet = challenge.fleet_size;
                let passes = two_opt_passes_of(hyperparameters);
                &&& nn_routes(challenge, built)
                &&& nn_stopped(challenge, built)
                &&& built.len() > fleet ==> r == Err::<Solution, RoutingError>(
                    RoutingError::TooManyRoutes { routes: built.len() as usize, fleet },
                )
                &&& built.len() <= fleet && has_unvisited(visited_after(n, built)) ==> r == Err::<
                    Solution,
                    RoutingError,
                >(RoutingError::UnvisitedCustomers)
                &&& built.len() <= fleet && !has_unvisited(visited_after(n, built)) && !all_routes_ok(
                    challenge,
                    improved_routes(challenge, built, passes as nat),
                ) ==> r == Err::<Solution, RoutingError>(RoutingError::InfeasibleRoute)
                &&& built.len() <= fleet && !has_unvisited(visited_after(n, built)) && all_routes_ok(
                    challenge,
                    improved_routes(challenge, built, passes as nat),
                ) ==> (r matches Ok(sol) && routes_view(sol.routes) == improved_routes(
                    challenge,
                    built,
                    passes as nat,
                ))
            },
        r matches Ok(sol) ==> serves_each_once(challenge, routes_view(sol.routes)),
        r matches Ok(sol) ==> all_routes_ok(challenge, routes_view(sol.routes)),
{
    let two_opt_passes = match hyperparameters {
        Some(h) => match h.two_opt_passes {
            Some(p) => p,
            None => 3,
        },
        None => 3,
    };
    let fleet = challenge.fleet_size;
    let (mut routes, visited) = nn_construct(challenge);
    let ghost built = routes_view(routes);
    improve_routes(&mut routes, two_opt_passes, challenge);
    proof {
        assert(nn_routes(challenge, built));
    }
    // Validate.
    if routes.len() > fleet {
        return Err(RoutingError::TooManyRoutes { routes: routes.len(), fleet });
    }
    if any_unvisited(&visited) {
        return Err(RoutingError::UnvisitedCustomers);
    }
    proof {
        lemma_solution_serves(challenge, built, two_opt_passes as nat, routes_view(routes));
        assert(routes_view(routes) =~= improved_routes(challenge, built, two_opt_passes as nat));
        assert forall|k: int| 0 <= k < routes.len() implies stops_in_range(
            challenge,
            #[trigger] routes_view(routes)[k],
        ) by {
            lemma_two_opt_rounds(challenge, built[k], two_opt_passes as nat);
        }
    }
    // Every route must be back at the depot in time.
    if !routes_feasible(&routes, challenge) {
        return Err(RoutingError::InfeasibleRoute);
    }
    Ok(Solution { routes })
}

/// Whether every route is feasible, the return to the depot included.
fn routes_feasible(routes: &Vec<Vec<usize>>, challenge: &Challenge) -> (r: bool)
    requires
        well_formed(challenge),
        forall|i: int|
            0 <= i < routes.len() ==> stops_in_range(challenge, #[trigger] routes_view(*routes)[i]),
    ensures
        r == all_routes_ok(challenge, routes_view(*routes)),
{
    let mut k: usize = 0;
    while k < routes.len()
        invariant
            well_formed(challenge),
            k <= routes.len(),
            forall|i: int|
                0 <= i < routes.len() ==> stops_in_range(challenge, #[trigger] routes_view(*routes)[i]),
            forall|i: int| 0 <= i < k ==> route_ok(challenge, #[trigger] routes_view(*routes)[i]),
        decreases routes.len() - k,
    {
        proof {
            assert(routes_view(*routes)[k as int] == routes@[k as int]@);
        }
        if !route_feasible(
            &routes[k],
            &challenge.distance_matrix,
            &challenge.ready_times,
            &challenge.due_times,
            &challenge.demands,
            challenge.service_time,
            challenge.max_capacity,
            Ghost(challenge),
        ) {
            return false;
        }
        k = k + 1;
    }
    true
}

/// The built routes after `p` rounds of 2-opt each.
pub open spec fn improved_routes(ch: &Challenge, built: Seq<Seq<usize>>, p: nat) -> Seq<Seq<usize>> {
    built.map_values(|r: Seq<usize>| two_opt_rounds(ch, r, p))
}

/// Every route is feasible, the return to the depot included.
pub open spec fn all_routes_ok(ch: &Challenge, routes: Seq<Seq<usize>>) -> bool {
    forall|k: int| 0 <= k < routes.len() ==> route_ok(ch, #[trigger] routes[k])
}

/// The number of 2-opt passes the hyperparameters ask for (3 by default).
pub open spec fn two_opt_passes_of(hyperparameters: &Option<Hyperparameters>) -> usize {
    match hyperparameters {
        Some(h) => match h.two_opt_passes {
            Some(p) => p,
            None => 3,
        },
        None => 3,
    }
}

} // verus!
