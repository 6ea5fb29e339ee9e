//! Round-robin start and single-node-move refinement (FM flavour).
//!
//! Nodes start in parts `0, 1, ..., num_parts - 1, 0, 1, ...`.  Each pass
//! visits the nodes in a random order and moves a node to the part that most
//! lowers the counted connectivity change, among parts below the size limit,
//! never emptying its own part; passes stop early when one moves nothing.

use super::{
    connectivity, lemma_connectivity_move, lemma_list_sum_weighted, list_sum, move_term, simple,
    count_between, edge_count, edge_occ, in_part_between, lemma_count_between_bounds, lemma_count_between_mono,
    lemma_in_part_bounds, lemma_in_part_move, lemma_part_count_bounds, lemma_part_count_member, lemma_part_count_move, lemma_round_robin_sizes,
    node_occ, part_count, round_robin_spec, valid_partition, well_formed, Challenge, Solution,
};
use crate::rng::{rng_from_seed, rng_shuffle};
use vstd::prelude::*;

verus! {

/// Tunable parameters: the number of refinement passes (default 3).
pub struct Hyperparameters {
    pub n_passes: Option<usize>,
}

/// The per-hyperedge part counts (hyperedge `e`, part `p` at
/// `slot(e, num_parts, p)`) agree with the partition.
pub open spec fn edge_counts_ok(h: &Challenge, p_of: Seq<u32>, edge_part: Seq<u32>) -> bool {
    let m = h.num_hyperedges as int;
    let np = h.num_parts as int;
    &&& edge_part.len() == m * np
    &&& forall|e: int, p: int|
        0 <= e < m && 0 <= p < np ==> #[trigger] edge_count(h, p_of, e, p) == edge_part[slot(e, np, p)]
}

/// Part sizes and per-hyperedge part counts agree with the partition.
pub open spec fn counts_ok(h: &Challenge, p_of: Seq<u32>, part_size: Seq<usize>, edge_part: Seq<u32>) -> bool {
    let np = h.num_parts as int;
    &&& valid_partition(h, p_of)
    &&& part_size.len() == np
    &&& forall|p: int| 0 <= p < np ==> #[trigger] part_size[p] == part_count(p_of, p, h.num_nodes as int)
    &&& edge_counts_ok(h, p_of, edge_part)
}

/// The position of hyperedge `e`, part `p` in the flat table of part counts.
pub open spec fn slot(e: int, np: int, p: int) -> int {
    e * np + p
}

/// Positions of the flat table: in bounds, and distinct for distinct pairs.
pub proof fn lemma_flat(e: int, p: int, e2: int, p2: int, m: int, np: int)
    requires
        0 <= e < m,
        0 <= p < np,
        0 <= e2 < m,
        0 <= p2 < np,
    ensures
        0 <= slot(e, np, p) < m * np,
        (e != e2 || p != p2) ==> slot(e, np, p) != slot(e2, np, p2),
{
    assert(0 <= e * np + p < m * np) by (nonlinear_arith)
        requires
            0 <= e < m,
            0 <= p < np,
    ;
    if e != e2 {
        assert(e * np + p != e2 * np + p2) by (nonlinear_arith)
            requires
                e != e2,
                0 <= p < np,
                0 <= p2 < np,
        ;
    }
}

/// All positions of the flat table are in bounds and distinct.
pub proof fn lemma_slots(m: int, np: int)
    ensures
        forall|e: int, p: int| 0 <= e < m && 0 <= p < np ==> 0 <= #[trigger] slot(e, np, p) < m * np,
        forall|e: int, p: int, e2: int, p2: int|
            0 <= e < m && 0 <= p < np && 0 <= e2 < m && 0 <= p2 < np && (e != e2 || p != p2) ==> #[trigger] slot(
                e,
                np,
                p,
            ) != #[trigger] slot(e2, np, p2),
{
    assert forall|e: int, p: int| 0 <= e < m && 0 <= p < np implies 0 <= #[trigger] slot(e, np, p) < m * np by {
        lemma_flat(e, p, e, p, m, np);
    }
    assert forall|e: int, p: int, e2: int, p2: int|
        0 <= e < m && 0 <= p < np && 0 <= e2 < m && 0 <= p2 < np && (e != e2 || p != p2) implies #[trigger] slot(
            e,
            np,
            p,
        ) != #[trigger] slot(e2, np, p2) by {
        lemma_flat(e, p, e2, p2, m, np);
    }
}

/// The round-robin partition of `n` nodes over `np` parts.
pub fn round_robin(n: usize, np: usize) -> (r: Vec<u32>)
    requires
        n == 0 || np >= 1,
        np <= u32::MAX,
    ensures
        r@ == round_robin_spec(n as int, np as int),
{
    let mut r: Vec<u32> = Vec::new();
    let mut i: usize = 0;
    while i < n
        invariant
            n == 0 || np >= 1,
            np <= u32::MAX,
            i <= n,
            r@ == round_robin_spec(i as int, np as int),
        decreases n - i,
    {
        let q = i % np;
        assert(q < np);
        r.push(q as u32);
        i = i + 1;
        assert(r@ =~= round_robin_spec(i as int, np as int));
    }
    r
}

/// The part sizes and the per-hyperedge part counts of a partition.
pub fn count_state(h: &Challenge, partition: &Vec<u32>) -> (res: (Vec<usize>, Vec<u32>))
    requires
        well_formed(h),
        valid_partition(h, partition@),
    ensures
        counts_ok(h, partition@, res.0@, res.1@),
{
    let n = h.num_nodes as usize;
    let m = h.num_hyperedges as usize;
    let np = h.num_parts as usize;
    let ghost p_of = partition@;
    let mut part_size: Vec<usize> = Vec::new();
    while part_size.len() < np
        invariant
            part_size.len() <= np,
            forall|p: int| 0 <= p < part_size.len() ==> #[trigger] part_size@[p] == 0,
        decreases np - part_size.len(),
    {
        part_size.push(0);
    }
    let mut i: usize = 0;
    while i < n
        invariant
            well_formed(h),
            n == h.num_nodes,
            np == h.num_parts,
            valid_partition(h, p_of),
            p_of == partition@,
            i <= n,
            part_size.len() == np,
            forall|p: int| 0 <= p < np ==> #[trigger] part_size@[p] == part_count(p_of, p, i as int),
        decreases n - i,
    {
        let p = partition[i] as usize;
        proof {
            lemma_part_count_bounds(p_of, p as int, i as int);
        }
        part_size.set(p, part_size[p] + 1);
        i = i + 1;
    }
    let mut edge_part: Vec<u32> = Vec::new();
    let total = m * np;
    while edge_part.len() < total
        invariant
            edge_part.len() <= total,
            forall|q: int| 0 <= q < edge_part.len() ==> #[trigger] edge_part@[q] == 0,
        decreases total - edge_part.len(),
    {
        edge_part.push(0);
    }
    proof {
        lemma_slots(m as int, np as int);
    }
    let mut e: usize = 0;
    while e < m
        invariant
            well_formed(h),
            n == h.num_nodes,
            m == h.num_hyperedges,
            np == h.num_parts,
            total == m * np,
            valid_partition(h, p_of),
            p_of == partition@,
            e <= m,
            edge_part.len() == total,
            forall|e2: int, p: int|
                0 <= e2 < e && 0 <= p < np ==> #[trigger] edge_count(h, p_of, e2, p) == edge_part@[slot(e2, np as int, p)],
            forall|e2: int, p: int|
                e <= e2 < m && 0 <= p < np ==> #[trigger] edge_part@[slot(e2, np as int, p)] == 0,
        decreases m - e,
    {
        let s = h.hyperedge_offsets[e] as usize;
        let t = h.hyperedge_offsets[e + 1] as usize;
        assert(0 <= h.hyperedge_offsets@[e as int] <= h.hyperedge_offsets@[e + 1] <= h.hyperedge_nodes@.len());
        let mut k: usize = s;
        while k < t
            invariant
                well_formed(h),
                n == h.num_nodes,
                m == h.num_hyperedges,
                np == h.num_parts,
                total == m * np,
                valid_partition(h, p_of),
                p_of == partition@,
                e < m,
                s == h.hyperedge_offsets@[e as int],
                t == h.hyperedge_offsets@[e + 1],
                s <= k <= t,
                t <= h.hyperedge_nodes@.len(),
                t <= i32::MAX,
                edge_part.len() == total,
                forall|e2: int, p: int|
                    0 <= e2 < e && 0 <= p < np ==> #[trigger] edge_count(h, p_of, e2, p) == edge_part@[slot(e2, np as int, p)],
                forall|e2: int, p: int|
                    e < e2 < m && 0 <= p < np ==> #[trigger] edge_part@[slot(e2, np as int, p)] == 0,
                forall|p: int|
                    0 <= p < np ==> #[trigger] edge_part@[slot(e as int, np as int, p)] == in_part_between(
                        h,
                        p_of,
                        s as int,
                        k as int,
                        p,
                    ),
            decreases t - k,
        {
            let node = h.hyperedge_nodes[k] as usize;
            assert(0 <= h.hyperedge_nodes@[k as int] < n);
            let p = partition[node] as usize;
            assert(p < np);
            proof {
                lemma_slots(m as int, np as int);
                lemma_in_part_bounds(h, p_of, s as int, k as int, p as int);
                assert(0 <= slot(e as int, np as int, p as int) < m * np);
            }
            let idx = e * np + p;
            edge_part.set(idx, edge_part[idx] + 1);
            k = k + 1;
        }
        proof {
            lemma_slots(m as int, np as int);
            assert forall|e2: int, p: int| 0 <= e2 < e + 1 && 0 <= p < np implies #[trigger] edge_count(
                h,
                p_of,
                e2,
                p,
            ) == edge_part@[slot(e2, np as int, p)] by {}
        }
        e = e + 1;
    }
    (part_size, edge_part)
}

/// The connectivity change that refinement counts for moving node `x` from
/// part `cur` to part `tp`, over the entries of `x`'s hyperedge list before
/// position `k`: +1 for each listed hyperedge with no node in `tp`, -1 for
/// each with exactly one node in `cur`.
pub open spec fn delta_upto(h: &Challenge, p_of: Seq<u32>, x: int, cur: int, tp: int, k: int) -> int
    decreases k - h.node_offsets@[x],
{
    if k <= h.node_offsets@[x] {
        0
    } else {
        let e = h.node_hyperedges@[k - 1] as int;
        delta_upto(h, p_of, x, cur, tp, k - 1) + (if edge_count(h, p_of, e, tp) == 0 {
            1int
        } else {
            0
        }) - (if edge_count(h, p_of, e, cur) == 1 { 1int } else { 0 })
    }
}

/// The counted connectivity change of moving node `x` from `cur` to `tp`.
pub open spec fn move_delta_spec(h: &Challenge, p_of: Seq<u32>, x: int, cur: int, tp: int) -> int {
    delta_upto(h, p_of, x, cur, tp, h.node_offsets@[x + 1] as int)
}

/// The size limit as the refinement reads it.
pub open spec fn size_limit(h: &Challenge) -> int {
    (h.max_part_size as usize) as int
}

/// The best target among parts `0..t` for node `x` in part `cur`, with its
/// change: the first part, other than `cur` and below the size limit, whose
/// change is negative and strictly below all before it (`(None, 0)` when
/// there is none).
pub open spec fn best_fold(h: &Challenge, p_of: Seq<u32>, x: int, cur: int, t: int) -> (Option<usize>, int)
    decreases t,
{
    if t <= 0 {
        (None, 0)
    } else {
        let prev = best_fold(h, p_of, x, cur, t - 1);
        let tp = t - 1;
        if tp == cur || part_count(p_of, tp, h.num_nodes as int) >= size_limit(h) {
            prev
        } else {
            let d = move_delta_spec(h, p_of, x, cur, tp);
            if d < prev.1 {
                (Some(tp as usize), d)
            } else {
                prev
            }
        }
    }
}

/// The part node `x` moves to in a refinement step, if any: none when its
/// part has no other node, else the best target.
pub open spec fn step_target(h: &Challenge, p_of: Seq<u32>, x: int) -> Option<usize> {
    let cur = p_of[x] as int;
    if part_count(p_of, cur, h.num_nodes as int) == 1 {
        None
    } else {
        best_fold(h, p_of, x, cur, h.num_parts as int).0
    }
}

/// A refinement pass over the nodes of `order`, in turn: the partition
/// after it and the number of moves.
pub open spec fn pass_spec(h: &Challenge, p_of: Seq<u32>, order: Seq<usize>) -> (Seq<u32>, int)
    decreases order.len(),
{
    if order.len() == 0 {
        (p_of, 0)
    } else {
        let prev = pass_spec(h, p_of, order.drop_last());
        let x = order.last() as int;
        match step_target(h, prev.0, x) {
            Some(tp) => (prev.0.update(x, tp as u32), prev.1 + 1),
            None => prev,
        }
    }
}

/// A pass counts its moves from 0 up, and a pass without moves leaves the
/// partition as it was.
pub proof fn lemma_pass_without_moves(h: &Challenge, p_of: Seq<u32>, order: Seq<usize>)
    ensures
        pass_spec(h, p_of, order).1 >= 0,
        pass_spec(h, p_of, order).1 == 0 ==> pass_spec(h, p_of, order).0 == p_of,
    decreases order.len(),
{
    if order.len() > 0 {
        lemma_pass_without_moves(h, p_of, order.drop_last());
    }
}

/// The partition after a refinement pass over each order in turn.
pub open spec fn passes_spec(h: &Challenge, p_of: Seq<u32>, orders: Seq<Seq<usize>>) -> Seq<u32>
    decreases orders.len(),
{
    if orders.len() == 0 {
        p_of
    } else {
        pass_spec(h, passes_spec(h, p_of, orders.drop_last()), orders.last()).0
    }
}

/// What the partitions handed out after each pass are: every node in a part,
/// and, against the round-robin start, no part that had a node left without
/// one and no part grown beyond the larger of its start and the size limit.
#[verifier::opaque]
pub open spec fn partition_kept(h: &Challenge, p_of: Seq<u32>) -> bool {
    let rr = round_robin_spec(h.num_nodes as int, h.num_parts as int);
    &&& valid_partition(h, p_of)
    &&& forall|p: int|
        #![trigger part_count(p_of, p, h.num_nodes as int)]
        0 <= p < h.num_parts ==> {
            let s0 = part_count(rr, p, h.num_nodes as int);
            let s1 = part_count(p_of, p, h.num_nodes as int);
            &&& s0 >= 1 ==> s1 >= 1
            &&& s1 <= s0 || s1 <= size_limit(h)
        }
}

/// Along the passes over `orders` from `start`, each pass either leaves the
/// partition as it was or strictly lowers its connectivity.
pub open spec fn passes_improve(h: &Challenge, start: Seq<u32>, orders: Seq<Seq<usize>>) -> bool {
    forall|k: int|
        0 <= k < orders.len() ==> {
            let a = #[trigger] passes_spec(h, start, orders.take(k));
            let b = passes_spec(h, start, orders.take(k + 1));
            b == a || connectivity(h, b) < connectivity(h, a)
        }
}

/// One more pass keeps `passes_improve` when it leaves the partition as it
/// was or lowers its connectivity.
proof fn lemma_passes_step(h: &Challenge, start: Seq<u32>, orders: Seq<Seq<usize>>, o: Seq<usize>)
    requires
        passes_improve(h, start, orders),
        ({
            let a = passes_spec(h, start, orders);
            let b = pass_spec(h, a, o).0;
            b == a || connectivity(h, b) < connectivity(h, a)
        }),
    ensures
        passes_improve(h, start, orders.push(o)),
        passes_spec(h, start, orders.push(o)) == pass_spec(h, passes_spec(h, start, orders), o).0,
{
    let n = orders.push(o);
    assert(n.drop_last() =~= orders);
    assert forall|k: int| 0 <= k < n.len() implies {
        let a = #[trigger] passes_spec(h, start, n.take(k));
        let b = passes_spec(h, start, n.take(k + 1));
        b == a || connectivity(h, b) < connectivity(h, a)
    } by {
        if k < orders.len() {
            assert(n.take(k) =~= orders.take(k));
            assert(n.take(k + 1) =~= orders.take(k + 1));
        } else {
            assert(n.take(k) =~= orders);
            assert(n.take(k + 1) =~= n);
        }
    }
}

/// The counted connectivity change of moving node `x` from `cur` to `tp`.
fn move_delta(h: &Challenge, p_of: Ghost<Seq<u32>>, edge_part: &Vec<u32>, x: usize, cur: usize, tp: usize) -> (d: i32)
    requires
        well_formed(h),
        valid_partition(h, p_of@),
        edge_counts_ok(h, p_of@, edge_part@),
        x < h.num_nodes,
        cur < h.num_parts,
        tp < h.num_parts,
    ensures
        d == move_delta_spec(h, p_of@, x as int, cur as int, tp as int),
{
    let m = h.num_hyperedges as usize;
    let np = h.num_parts as usize;
    let s = h.node_offsets[x] as usize;
    let t = h.node_offsets[x + 1] as usize;
    assert(0 <= h.node_offsets@[x as int] <= h.node_offsets@[x + 1] <= h.node_hyperedges@.len());
    let mut delta: i32 = 0;
    let mut k: usize = s;
    while k < t
        invariant
            well_formed(h),
            m == h.num_hyperedges,
            np == h.num_parts,
            edge_part.len() == m * np,
            forall|e: int, p: int|
                0 <= e < m && 0 <= p < np ==> #[trigger] edge_count(h, p_of@, e, p) == edge_part@[slot(e, np as int, p)],
            x < h.num_nodes,
            cur < np,
            tp < np,
            s == h.node_offsets@[x as int],
            t == h.node_offsets@[x + 1],
            s <= k <= t,
            t <= h.node_hyperedges@.len(),
            t <= i32::MAX,
            delta == delta_upto(h, p_of@, x as int, cur as int, tp as int, k as int),
            -(k - s) <= delta <= k - s,
        decreases t - k,
    {
        let edge = h.node_hyperedges[k] as usize;
        assert(0 <= h.node_hyperedges@[k as int] < m);
        proof {
            lemma_slots(m as int, np as int);
            assert(edge_count(h, p_of@, edge as int, tp as int) == edge_part@[slot(edge as int, np as int, tp as int)]);
            assert(edge_count(h, p_of@, edge as int, cur as int) == edge_part@[slot(edge as int, np as int, cur as int)]);
        }
        let in_target = edge_part[edge * np + tp];
        let in_cur = edge_part[edge * np + cur];
        if in_target == 0 {
            delta = delta + 1;
        }
        if in_cur == 1 {
            delta = delta - 1;
        }
        k = k + 1;
    }
    delta
}

/// The best target part for node `x` in part `cur`, as `best_fold` says.
fn best_target(
    h: &Challenge,
    p_of: Ghost<Seq<u32>>,
    part_size: &Vec<usize>,
    edge_part: &Vec<u32>,
    x: usize,
    cur: usize,
    max_part_size: usize,
) -> (r: Option<usize>)
    requires
        well_formed(h),
        counts_ok(h, p_of@, part_size@, edge_part@),
        x < h.num_nodes,
        cur < h.num_parts,
        max_part_size == size_limit(h),
    ensures
        r == best_fold(h, p_of@, x as int, cur as int, h.num_parts as int).0,
{
    let np = h.num_parts as usize;
    let mut best: Option<usize> = None;
    let mut best_delta: i32 = 0;
    let mut tp: usize = 0;
    while tp < np
        invariant
            well_formed(h),
            counts_ok(h, p_of@, part_size@, edge_part@),
            np == h.num_parts,
            x < h.num_nodes,
            cur < np,
            max_part_size == size_limit(h),
            tp <= np,
            (best, best_delta as int) == best_fold(h, p_of@, x as int, cur as int, tp as int),
        decreases np - tp,
    {
        if tp != cur && part_size[tp] < max_part_size {
            let delta = move_delta(h, p_of, edge_part, x, cur, tp);
            if delta < best_delta {
                best_delta = delta;
                best = Some(tp);
            }
        }
        tp = tp + 1;
    }
    best
}

/// Moves node `x` to part `tp`, keeping sizes and per-hyperedge counts up to
/// date.
fn apply_move(
    h: &Challenge,
    partition: &mut Vec<u32>,
    part_size: &mut Vec<usize>,
    edge_part: &mut Vec<u32>,
    x: usize,
    tp: usize,
)
    requires
        well_formed(h),
        counts_ok(h, old(partition)@, old(part_size)@, old(edge_part)@),
        x < h.num_nodes,
        tp < h.num_parts,
        old(partition)@[x as int] != tp,
    ensures
        final(partition)@ == old(partition)@.update(x as int, tp as u32),
        counts_ok(h, final(partition)@, final(part_size)@, final(edge_part)@),
{
    let n = h.num_nodes as usize;
    let m = h.num_hyperedges as usize;
    let np = h.num_parts as usize;
    let ghost p0 = partition@;
    let ghost p1 = p0.update(x as int, tp as u32);
    let ghost ep0 = edge_part@;
    let cur = partition[x] as usize;
    let s = h.node_offsets[x] as usize;
    let t = h.node_offsets[x + 1] as usize;
    assert(0 <= h.node_offsets@[x as int] <= h.node_offsets@[x + 1] <= h.node_hyperedges@.len());
    proof {
        lemma_slots(m as int, np as int);
        assert forall|e: int, p: int| 0 <= e < m && 0 <= p < np implies #[trigger] edge_count(h, p1, e, p)
            == edge_count(h, p0, e, p) - (if p == cur { edge_occ(h, e, x as int) } else { 0 }) + (if p
            == tp { edge_occ(h, e, x as int) } else { 0 }) && (p == cur ==> edge_occ(h, e, x as int)
            <= edge_count(h, p0, e, p)) && edge_count(h, p1, e, p) <= i32::MAX by {
            let lo = h.hyperedge_offsets@[e] as int;
            let hi = h.hyperedge_offsets@[e + 1] as int;
            assert(0 <= lo <= hi <= h.hyperedge_nodes@.len());
            assert forall|k: int| lo <= k < hi implies 0 <= #[trigger] h.hyperedge_nodes@[k] < p0.len() by {}
            lemma_in_part_move(h, p0, x as int, tp as u32, lo, hi, p);
            lemma_in_part_bounds(h, p1, lo, hi, p);
        }
    }
    let mut k: usize = s;
    while k < t
        invariant
            well_formed(h),
            n == h.num_nodes,
            m == h.num_hyperedges,
            np == h.num_parts,
            x < n,
            cur < np,
            tp < np,
            cur != tp,
            cur == p0[x as int],
            p1 == p0.update(x as int, tp as u32),
            valid_partition(h, p0),
            s == h.node_offsets@[x as int],
            t == h.node_offsets@[x + 1],
            s <= k <= t,
            t <= h.node_hyperedges@.len(),
            edge_part.len() == m * np,
            forall|e: int, p: int|
                0 <= e < m && 0 <= p < np ==> #[trigger] edge_count(h, p1, e, p) == edge_count(h, p0, e, p)
                    - (if p == cur { edge_occ(h, e, x as int) } else { 0 }) + (if p == tp {
                    edge_occ(h, e, x as int)
                } else {
                    0
                }) && (p == cur ==> edge_occ(h, e, x as int) <= edge_count(h, p0, e, p)) && edge_count(
                    h,
                    p1,
                    e,
                    p,
                ) <= i32::MAX,
            forall|e: int, p: int|
                0 <= e < m && 0 <= p < np ==> #[trigger] edge_part@[slot(e, np as int, p)] == edge_count(
                    h,
                    p0,
                    e,
                    p,
                ) - (if p == cur { count_between(h.node_hyperedges@, s as int, k as int, e) } else { 0 })
                    + (if p == tp { count_between(h.node_hyperedges@, s as int, k as int, e) } else { 0 }),
        decreases t - k,
    {
        let edge = h.node_hyperedges[k] as usize;
        assert(0 <= h.node_hyperedges@[k as int] < m);
        proof {
            lemma_slots(m as int, np as int);
            lemma_count_between_mono(h.node_hyperedges@, s as int, k + 1, t as int, edge as int);
            assert(node_occ(h, x as int, edge as int) == edge_occ(h, edge as int, x as int));
            assert(edge_count(h, p1, edge as int, cur as int) == edge_count(h, p0, edge as int, cur as int)
                - edge_occ(h, edge as int, x as int));
            assert(edge_count(h, p1, edge as int, tp as int) == edge_count(h, p0, edge as int, tp as int)
                + edge_occ(h, edge as int, x as int));
            lemma_count_between_bounds(h.node_hyperedges@, s as int, k as int, edge as int);
            lemma_in_part_bounds(h, p0, h.hyperedge_offsets@[edge as int] as int, h.hyperedge_offsets@[edge + 1] as int, tp as int);
        }
        assert(0 <= slot(edge as int, np as int, cur as int) < m * np);
        assert(0 <= slot(edge as int, np as int, tp as int) < m * np);
        let ic = edge * np + cur;
        let it = edge * np + tp;
        assert(ic == slot(edge as int, np as int, cur as int));
        assert(it == slot(edge as int, np as int, tp as int));
        edge_part.set(ic, edge_part[ic] - 1);
        edge_part.set(it, edge_part[it] + 1);
        k = k + 1;
    }
    proof {
        assert forall|e: int, p: int| 0 <= e < m && 0 <= p < np implies #[trigger] edge_count(h, p1, e, p)
            == edge_part@[slot(e, np as int, p)] by {
            assert(node_occ(h, x as int, e) == edge_occ(h, e, x as int));
        }
        lemma_part_count_move(p0, x as int, tp as u32, cur as int, n as int);
        lemma_part_count_move(p0, x as int, tp as u32, tp as int, n as int);
        lemma_part_count_bounds(p1, tp as int, n as int);
        assert forall|p: int| 0 <= p < np implies part_count(p1, p, n as int) == part_count(p0, p, n as int)
            - (if p == cur { 1int } else { 0 }) + (if p == tp { 1int } else { 0 }) by {
            lemma_part_count_move(p0, x as int, tp as u32, p, n as int);
        }
    }
    part_size.set(cur, part_size[cur] - 1);
    part_size.set(tp, part_size[tp] + 1);
    partition.set(x, tp as u32);
}

/// The counted change sums `move_term` over the listed hyperedges of `x`.
pub proof fn lemma_delta_is_list_sum(h: &Challenge, p_of: Seq<u32>, x: int, cur: int, tp: int, k: int)
    ensures
        delta_upto(h, p_of, x, cur, tp, k) == list_sum(
            h.node_hyperedges@,
            h.node_offsets@[x] as int,
            k,
            |e: int| move_term(h, p_of, cur, tp, e),
        ),
    decreases k - h.node_offsets@[x],
{
    if k > h.node_offsets@[x] {
        lemma_delta_is_list_sum(h, p_of, x, cur, tp, k - 1);
    }
}

/// Moving node `x` to another part raises the connectivity by at most the
/// counted change, and by exactly that when no hyperedge lists a node twice.
pub proof fn lemma_move_connectivity(h: &Challenge, p_of: Seq<u32>, x: int, tp: u32)
    requires
        well_formed(h),
        valid_partition(h, p_of),
        0 <= x < h.num_nodes,
        tp < h.num_parts,
        p_of[x] != tp,
    ensures
        connectivity(h, p_of.update(x, tp)) <= connectivity(h, p_of) + move_delta_spec(
            h,
            p_of,
            x,
            p_of[x] as int,
            tp as int,
        ),
        simple(h) ==> connectivity(h, p_of.update(x, tp)) == connectivity(h, p_of) + move_delta_spec(
            h,
            p_of,
            x,
            p_of[x] as int,
            tp as int,
        ),
{
    let lo = h.node_offsets@[x] as int;
    let hi = h.node_offsets@[x + 1] as int;
    let g = |e: int| move_term(h, p_of, p_of[x] as int, tp as int, e);
    lemma_connectivity_move(h, p_of, x, tp, h.num_hyperedges as int);
    assert(0 <= lo <= hi <= h.node_hyperedges@.len());
    assert forall|k: int| lo <= k < hi implies 0 <= #[trigger] h.node_hyperedges@[k] < h.num_hyperedges by {}
    lemma_list_sum_weighted(h.node_hyperedges@, lo, hi, g, h.num_hyperedges as int);
    lemma_delta_is_list_sum(h, p_of, x, p_of[x] as int, tp as int, hi);
}

/// The best target, if any, is another part among the first `t`.
pub proof fn lemma_best_fold_range(h: &Challenge, p_of: Seq<u32>, x: int, cur: int, t: int)
    requires
        t <= usize::MAX,
    ensures
        best_fold(h, p_of, x, cur, t).0 matches Some(tp) ==> tp < t && tp != cur && part_count(
            p_of,
            tp as int,
            h.num_nodes as int,
        ) < size_limit(h),
        best_fold(h, p_of, x, cur, t).1 <= 0,
        best_fold(h, p_of, x, cur, t).0 matches Some(tp) ==> best_fold(h, p_of, x, cur, t).1
            == move_delta_spec(h, p_of, x, cur, tp as int) && best_fold(h, p_of, x, cur, t).1 < 0,
        best_fold(h, p_of, x, cur, t).0 is None ==> best_fold(h, p_of, x, cur, t).1 == 0,
    decreases t,
{
    if t > 0 {
        lemma_best_fold_range(h, p_of, x, cur, t - 1);
    }
}

/// The change the best-target scan keeps over parts `0..t` is no larger than
/// the change of moving to any of those parts that is not `cur` and is below
/// the size limit.
proof fn lemma_best_fold_min(h: &Challenge, p_of: Seq<u32>, x: int, cur: int, t: int)
    ensures
        forall|q: int|
            0 <= q < t && q != cur && part_count(p_of, q, h.num_nodes as int) < size_limit(h)
                ==> best_fold(h, p_of, x, cur, t).1 <= #[trigger] move_delta_spec(h, p_of, x, cur, q),
    decreases t,
{
    if t > 0 {
        lemma_best_fold_min(h, p_of, x, cur, t - 1);
    }
}

/// The move a refinement step makes is the best improving one: node `x`
/// moves, if at all, to a part other than its own that is below the size
/// limit, with a negative connectivity change no larger than that of any
/// other such part; it stays when its part has no other node or when no such
/// part has a negative change.
pub proof fn lemma_step_target_best(h: &Challenge, p_of: Seq<u32>, x: int)
    requires
        h.num_parts >= 0,
        0 <= x < p_of.len(),
    ensures
        ({
            let cur = p_of[x] as int;
            let admissible = |q: int|
                0 <= q < h.num_parts && q != cur && part_count(p_of, q, h.num_nodes as int)
                    < size_limit(h);
            &&& step_target(h, p_of, x) matches Some(tp) ==> {
                &&& admissible(tp as int)
                &&& move_delta_spec(h, p_of, x, cur, tp as int) < 0
                &&& forall|q: int|
                    admissible(q) ==> move_delta_spec(h, p_of, x, cur, tp as int)
                        <= #[trigger] move_delta_spec(h, p_of, x, cur, q)
            }
            &&& step_target(h, p_of, x) is None ==> part_count(p_of, cur, h.num_nodes as int) == 1
                || forall|q: int| admissible(q) ==> #[trigger] move_delta_spec(h, p_of, x, cur, q) >= 0
        }),
{
    let cur = p_of[x] as int;
    let t = h.num_parts as int;
    lemma_best_fold_range(h, p_of, x, cur, t);
    lemma_best_fold_min(h, p_of, x, cur, t);
}

/// No part that had a node loses its last one, and no part grows beyond
/// the larger of its old size and the limit.
pub open spec fn sizes_kept(s0: Seq<usize>, s1: Seq<usize>, limit: int) -> bool {
    &&& s1.len() == s0.len()
    &&& forall|p: int|
        0 <= p < s0.len() ==> (s0[p] >= 1 ==> #[trigger] s1[p] >= 1) && (s1[p] <= s0[p] || s1[p]
            <= limit)
}

/// Counts that match the partition and sizes kept against the round-robin
/// start make the partition one that may be handed out.
proof fn lemma_partition_kept(h: &Challenge, p_of: Seq<u32>, part_size: Seq<usize>, s0: Seq<usize>)
    requires
        valid_partition(h, p_of),
        part_size.len() == h.num_parts,
        forall|p: int|
            0 <= p < h.num_parts ==> #[trigger] part_size[p] == part_count(p_of, p, h.num_nodes as int),
        s0.len() == h.num_parts,
        forall|p: int|
            0 <= p < h.num_parts ==> #[trigger] s0[p] == part_count(
                round_robin_spec(h.num_nodes as int, h.num_parts as int),
                p,
                h.num_nodes as int,
            ),
        sizes_kept(s0, part_size, size_limit(h)),
    ensures
        partition_kept(h, p_of),
{
    reveal(partition_kept);
    assert forall|p: int| 0 <= p < h.num_parts implies {
        let s0p = part_count(round_robin_spec(h.num_nodes as int, h.num_parts as int), p, h.num_nodes as int);
        let s1 = #[trigger] part_count(p_of, p, h.num_nodes as int);
        &&& s0p >= 1 ==> s1 >= 1
        &&& s1 <= s0p || s1 <= size_limit(h)
    } by {
        assert(part_size[p] == part_count(p_of, p, h.num_nodes as int));
        assert(s0[p] >= 1 ==> part_size[p] >= 1);
    }
}

/// One refinement pass over the nodes of `order`: each node whose part has
/// another node moves to its best target, if any.  Returns the number of
/// moves; each lowers the connectivity by at least one.
pub fn refine_pass(
    h: &Challenge,
    partition: &mut Vec<u32>,
    part_size: &mut Vec<usize>,
    edge_part: &mut Vec<u32>,
    order: &Vec<usize>,
) -> (moves: usize)
    requires
        well_formed(h),
        counts_ok(h, old(partition)@, old(part_size)@, old(edge_part)@),
        forall|i: int| 0 <= i < order.len() ==> (#[trigger] order@[i]) < h.num_nodes,
    ensures
        counts_ok(h, final(partition)@, final(part_size)@, final(edge_part)@),
        (final(partition)@, moves as int) == pass_spec(h, old(partition)@, order@),
        sizes_kept(old(part_size)@, final(part_size)@, size_limit(h)),
        connectivity(h, final(partition)@) + moves <= connectivity(h, old(partition)@),
        moves == 0 ==> final(partition)@ == old(partition)@,
        moves > 0 ==> connectivity(h, final(partition)@) < connectivity(h, old(partition)@),
{
    proof {
        lemma_pass_without_moves(h, partition@, order@);
    }
    let np = h.num_parts as usize;
    let max_part_size = h.max_part_size as usize;
    let ghost p0 = partition@;
    let ghost s0 = part_size@;
    let mut moves: usize = 0;
    let mut i: usize = 0;
    while i < order.len()
        invariant
            well_formed(h),
            np == h.num_parts,
            max_part_size == size_limit(h),
            forall|j: int| 0 <= j < order.len() ==> (#[trigger] order@[j]) < h.num_nodes,
            i <= order.len(),
            moves <= i,
            counts_ok(h, partition@, part_size@, edge_part@),
            (partition@, moves as int) == pass_spec(h, p0, order@.take(i as int)),
            sizes_kept(s0, part_size@, size_limit(h)),
            connectivity(h, partition@) + moves <= connectivity(h, p0),
        decreases order.len() - i,
    {
        let node = order[i];
        let ghost before = partition@;
        let ghost sb = part_size@;
        assert(order@.take(i + 1).drop_last() =~= order@.take(i as int));
        let cur = partition[node] as usize;
        assert(cur < np);
        proof {
            lemma_part_count_bounds(before, cur as int, h.num_nodes as int);
            lemma_part_count_member(before, node as int, h.num_nodes as int);
        }
        if part_size[cur] != 1 {
            let target = best_target(h, Ghost(partition@), part_size, edge_part, node, cur, max_part_size);
            proof {
                lemma_best_fold_range(h, before, node as int, cur as int, np as int);
            }
            match target {
                Some(tp) => {
                    apply_move(h, partition, part_size, edge_part, node, tp);
                    moves = moves + 1;
                    proof {
                        lemma_move_connectivity(h, before, node as int, tp as u32);
                        assert(part_count(before, tp as int, h.num_nodes as int) < size_limit(h));
                        assert(sb[cur as int] != 1 && sb[cur as int] >= 1);
                        assert forall|p: int| 0 <= p < np implies (s0[p] >= 1 ==> #[trigger] part_size@[p]
                            >= 1) && (part_size@[p] <= s0[p] || part_size@[p] <= size_limit(h)) by {
                            lemma_part_count_move(before, node as int, tp as u32, p, h.num_nodes as int);
                            assert(sb[p] == part_count(before, p, h.num_nodes as int));
                            assert(part_size@[p] == part_count(partition@, p, h.num_nodes as int));
                            assert(s0[p] >= 1 ==> sb[p] >= 1);
                            assert(sb[p] <= s0[p] || sb[p] <= size_limit(h));
                        }
                    }
                },
                None => {},
            }
        }
        i = i + 1;
    }
    assert(order@.take(i as int) =~= order@);
    moves
}

/// The number of passes the hyperparameters ask for (3 by default).
pub open spec fn passes_of(hyperparameters: &Option<Hyperparameters>) -> usize {
    match hyperparameters {
        Some(hp) => match hp.n_passes {
            Some(p) => p,
            None => 3,
        },
        None => 3,
    }
}

/// An order of the nodes `0..n`: each exactly once.
pub open spec fn node_order(order: Seq<usize>, n: int) -> bool {
    order.to_multiset() == Seq::new(n as nat, |i: int| i as usize).to_multiset()
}

/// Round-robin start, then up to `n_passes` refinement passes (default 3),
/// each over the nodes in an order drawn from the generator seeded by the
/// instance's seed, stopping after a pass without moves.  Whatever orders
/// were drawn, the partition is the one those passes produce, every node has
/// a part, its connectivity is no higher than the round-robin start's, no
/// part that started with a node ends without one, and no part ends above
/// the larger of its starting size and the size limit.  After every pass the
/// partition reached is handed to `save`, which is only ever handed such a
/// partition (`partition_kept`); each pass leaves the partition as it was or
/// strictly lowers its connectivity (`passes_improve`).
pub fn solve_challenge<F: Fn(&Vec<u32>)>(
    h: &Challenge,
    hyperparameters: &Option<Hyperparameters>,
    save: &F,
) -> (sol: Solution)
    requires
        forall|p: &Vec<u32>|
            #![trigger save.requires((p,))]
            partition_kept(h, p@) ==> save.requires((p,)),
        well_formed(h),
    ensures
        exists|orders: Seq<Seq<usize>>|
            #![trigger passes_spec(h, round_robin_spec(h.num_nodes as int, h.num_parts as int), orders)]
            {
                let rr = round_robin_spec(h.num_nodes as int, h.num_parts as int);
                &&& orders.len() <= passes_of(hyperparameters)
                &&& forall|j: int| 0 <= j < orders.len() ==> node_order(#[trigger] orders[j], h.num_nodes as int)
                &&& sol.partition@ == passes_spec(h, rr, orders)
                &&& passes_improve(h, rr, orders)
                &&& orders.len() < passes_of(hyperparameters) ==> orders.len() >= 1 && pass_spec(
                    h,
                    passes_spec(h, rr, orders.drop_last()),
                    orders.last(),
                ).1 == 0
            },
        valid_partition(h, sol.partition@),
        connectivity(h, sol.partition@) <= connectivity(
            h,
            round_robin_spec(h.num_nodes as int, h.num_parts as int),
        ),
        forall|p: int|
            #![trigger part_count(sol.partition@, p, h.num_nodes as int)]
            0 <= p < h.num_parts ==> {
                let s0 = part_count(round_robin_spec(h.num_nodes as int, h.num_parts as int), p, h.num_nodes as int);
                let s1 = part_count(sol.partition@, p, h.num_nodes as int);
                &&& s0 >= 1 ==> s1 >= 1
                &&& s1 <= s0 || s1 <= size_limit(h)
                &&& h.num_nodes >= h.num_parts ==> s1 >= 1
                &&& (h.num_nodes + h.num_parts - 1) / (h.num_parts as int) <= size_limit(h) ==> s1
                    <= size_limit(h)
            },
{
    broadcast use vstd::seq_lib::group_to_multiset_ensures;

    let n_passes = match hyperparameters {
        Some(hp) => match hp.n_passes {
            Some(p) => p,
            None => 3,
        },
        None => 3,
    };
    let n = h.num_nodes as usize;
    let np = h.num_parts as usize;
    let ghost rr = round_robin_spec(n as int, np as int);
    let mut partition = round_robin(n, np);
    proof {
        assert forall|x: int| 0 <= x < partition.len() implies (#[trigger] partition@[x]) < h.num_parts by {
            assert(partition@[x] == (x % (np as int)) as u32);
        }
    }
    let (mut part_size, mut edge_part) = count_state(h, &partition);
    let ghost s0 = part_size@;
    let mut rng = rng_from_seed(h.seed);
    let ghost mut orders: Seq<Seq<usize>> = seq![];
    let mut pass: usize = 0;
    while pass < n_passes
        invariant_except_break
            orders.len() == pass,
        invariant
            well_formed(h),
            n == h.num_nodes,
            np == h.num_parts,
            pass <= n_passes,
            n_passes == passes_of(hyperparameters),
            forall|p: &Vec<u32>|
                #![trigger save.requires((p,))]
                partition_kept(h, p@) ==> save.requires((p,)),
            passes_improve(h, rr, orders),
            rr == round_robin_spec(h.num_nodes as int, h.num_parts as int),
            counts_ok(h, partition@, part_size@, edge_part@),
            s0.len() == np,
            forall|p: int| 0 <= p < np ==> #[trigger] s0[p] == part_count(rr, p, n as int),
            sizes_kept(s0, part_size@, size_limit(h)),
            forall|j: int| 0 <= j < orders.len() ==> node_order(#[trigger] orders[j], n as int),
            partition@ == passes_spec(h, rr, orders),
            connectivity(h, partition@) <= connectivity(h, rr),
            orders.len() <= pass + 1,
            orders.len() <= n_passes,
        ensures
            orders.len() < n_passes ==> orders.len() >= 1 && pass_spec(
                h,
                passes_spec(h, rr, orders.drop_last()),
                orders.last(),
            ).1 == 0,
        decreases n_passes - pass,
    {
        let mut order: Vec<usize> = Vec::new();
        while order.len() < n
            invariant
                order.len() <= n,
                order@ == Seq::new(order.len() as nat, |i: int| i as usize),
            decreases n - order.len(),
        {
            let ghost before = order@;
            order.push(order.len());
            assert(order@ =~= Seq::new(order.len() as nat, |i: int| i as usize));
        }
        let ghost ids = order@;
        rng_shuffle(&mut order, &mut rng);
        proof {
            assert forall|i: int| 0 <= i < order.len() implies (#[trigger] order@[i]) < h.num_nodes by {
                let v = order@[i];
                assert(order@.contains(v));
                vstd::seq_lib::to_multiset_contains(order@, v);
                vstd::seq_lib::to_multiset_contains(ids, v);
                assert(ids.contains(v));
                let j = choose|j: int| 0 <= j < ids.len() && ids[j] == v;
                assert(ids[j] == j as usize);
            }
        }
        let ghost before = partition@;
        let ghost sb = part_size@;
        let moves = refine_pass(h, &mut partition, &mut part_size, &mut edge_part, &order);
        proof {
            let prev_orders = orders;
            lemma_passes_step(h, rr, prev_orders, order@);
            orders = orders.push(order@);
            assert(orders.drop_last() =~= prev_orders);
            assert forall|p: int| 0 <= p < np implies (s0[p] >= 1 ==> #[trigger] part_size@[p] >= 1) && (
            part_size@[p] <= s0[p] || part_size@[p] <= size_limit(h)) by {
                assert(sb[p] >= 1 ==> part_size@[p] >= 1);
            }
            lemma_partition_kept(h, partition@, part_size@, s0);
        }
        save(&partition);
        if moves == 0 {
            break;
        }
        pass = pass + 1;
    }
    proof {
        assert forall|p: int| 0 <= p < h.num_parts implies (part_count(rr, p, h.num_nodes as int) >= 1
            ==> #[trigger] part_count(partition@, p, h.num_nodes as int) >= 1) && (part_count(partition@, p, h.num_nodes as int) <= part_count(rr, p, h.num_nodes as int) || part_count(partition@, p, h.num_nodes as int) <= size_limit(h)) by {
            assert(part_size@[p] == part_count(partition@, p, n as int));
        }
        assert forall|p: int| 0 <= p < h.num_parts implies (h.num_nodes >= h.num_parts ==> #[trigger] part_count(
            partition@,
            p,
            h.num_nodes as int,
        ) >= 1) && ((h.num_nodes + h.num_parts - 1) / (h.num_parts as int) <= size_limit(h) ==> part_count(
            partition@,
            p,
            h.num_nodes as int,
        ) <= size_limit(h)) by {
            lemma_round_robin_sizes(n as int, np as int, p);
            assert(part_size@[p] == part_count(partition@, p, n as int));
        }
    }
    Solution { partition }
}

} // verus!
