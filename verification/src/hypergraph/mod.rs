//! Hypergraph partitioning: nodes are split into `num_parts` parts so that
//! few hyperedges span many parts, with no part above `max_part_size`.
//!
//! The incidence structure is given twice, in compressed-row form: for each
//! hyperedge the nodes on it, and for each node the hyperedges through it.

use vstd::prelude::*;

pub mod fm_v1;

verus! {

/// A partitioning instance, with its incidence lists.
pub struct Challenge {
    pub seed: [u8; 32],
    pub num_nodes: i32,
    pub num_hyperedges: i32,
    pub num_parts: i32,
    pub max_part_size: i32,
    /// Hyperedge `e` holds the nodes at positions
    /// `hyperedge_offsets[e]..hyperedge_offsets[e + 1]` of `hyperedge_nodes`.
    pub hyperedge_offsets: Vec<i32>,
    pub hyperedge_nodes: Vec<i32>,
    /// Node `x` lies on the hyperedges at positions
    /// `node_offsets[x]..node_offsets[x + 1]` of `node_hyperedges`.
    pub node_offsets: Vec<i32>,
    pub node_hyperedges: Vec<i32>,
}

/// The part of each node.
pub struct Solution {
    pub partition: Vec<u32>,
}

/// How often `x` occurs among the entries `lo..hi` of `s`.
pub open spec fn count_between(s: Seq<i32>, lo: int, hi: int, x: int) -> int
    decreases hi - lo,
{
    if hi <= lo {
        0
    } else {
        count_between(s, lo, hi - 1, x) + if s[hi - 1] == x { 1int } else { 0 }
    }
}

/// Compressed rows: `rows` ranges of `entries`, each within bounds and in
/// order, and every entry a column index.
pub open spec fn csr_ok(off: Seq<i32>, entries: Seq<i32>, rows: int, cols: int) -> bool {
    &&& off.len() >= rows + 1
    &&& forall|r: int| 0 <= r < rows ==> 0 <= #[trigger] off[r] <= off[r + 1] <= entries.len()
    &&& forall|k: int| 0 <= k < entries.len() ==> 0 <= #[trigger] entries[k] < cols
}

/// How often node `x` is listed on hyperedge `e`.
pub open spec fn edge_occ(h: &Challenge, e: int, x: int) -> int {
    count_between(h.hyperedge_nodes@, h.hyperedge_offsets@[e] as int, h.hyperedge_offsets@[e + 1] as int, x)
}

/// How often hyperedge `e` is listed for node `x`.
pub open spec fn node_occ(h: &Challenge, x: int, e: int) -> int {
    count_between(h.node_hyperedges@, h.node_offsets@[x] as int, h.node_offsets@[x + 1] as int, e)
}

/// The counts are nonnegative, there is a part when there is a node, the
/// table of per-hyperedge part counts fits in memory, both incidence lists
/// are well-formed, and they agree: each node is listed on each hyperedge as
/// often as the hyperedge is listed for the node.
pub open spec fn well_formed(h: &Challenge) -> bool {
    let n = h.num_nodes as int;
    let m = h.num_hyperedges as int;
    let np = h.num_parts as int;
    &&& n >= 0 && m >= 0 && np >= 0
    &&& n == 0 || np >= 1
    &&& m * np <= usize::MAX
    &&& csr_ok(h.hyperedge_offsets@, h.hyperedge_nodes@, m, n)
    &&& csr_ok(h.node_offsets@, h.node_hyperedges@, n, m)
    &&& forall|x: int, e: int|
        0 <= x < n && 0 <= e < m ==> #[trigger] node_occ(h, x, e) == edge_occ(h, e, x)
}

/// How many of the entries `lo..hi` of the hyperedge node list lie in part
/// `part`.
pub open spec fn in_part_between(h: &Challenge, p_of: Seq<u32>, lo: int, hi: int, part: int) -> int
    decreases hi - lo,
{
    if hi <= lo {
        0
    } else {
        in_part_between(h, p_of, lo, hi - 1, part) + if p_of[h.hyperedge_nodes@[hi - 1] as int]
            == part {
            1int
        } else {
            0
        }
    }
}

/// How many of hyperedge `e`'s listed nodes lie in part `part`.
pub open spec fn edge_count(h: &Challenge, p_of: Seq<u32>, e: int, part: int) -> int {
    in_part_between(h, p_of, h.hyperedge_offsets@[e] as int, h.hyperedge_offsets@[e + 1] as int, part)
}

/// How many of the first `c` nodes lie in part `part`.
pub open spec fn part_count(p_of: Seq<u32>, part: int, c: int) -> int
    decreases c,
{
    if c <= 0 {
        0
    } else {
        part_count(p_of, part, c - 1) + if p_of[c - 1] == part { 1int } else { 0 }
    }
}

/// Every node has a part.
pub open spec fn valid_partition(h: &Challenge, p_of: Seq<u32>) -> bool {
    &&& p_of.len() == h.num_nodes
    &&& forall|x: int| 0 <= x < p_of.len() ==> (#[trigger] p_of[x]) < h.num_parts
}

/// The round-robin partition: node `i` in part `i mod num_parts`.
pub open spec fn round_robin_spec(n: int, np: int) -> Seq<u32> {
    Seq::new(n as nat, |i: int| (i % np) as u32)
}

pub proof fn lemma_count_between_bounds(s: Seq<i32>, lo: int, hi: int, x: int)
    ensures
        0 <= count_between(s, lo, hi, x),
        lo <= hi ==> count_between(s, lo, hi, x) <= hi - lo,
    decreases hi - lo,
{
    if hi > lo {
        lemma_count_between_bounds(s, lo, hi - 1, x);
    }
}

pub proof fn lemma_in_part_bounds(h: &Challenge, p_of: Seq<u32>, lo: int, hi: int, part: int)
    ensures
        0 <= in_part_between(h, p_of, lo, hi, part),
        lo <= hi ==> in_part_between(h, p_of, lo, hi, part) <= hi - lo,
    decreases hi - lo,
{
    if hi > lo {
        lemma_in_part_bounds(h, p_of, lo, hi - 1, part);
    }
}

/// Moving node `x` to part `tp` shifts, on each range of the hyperedge node
/// list, the count of its old part down and that of `tp` up by the number of
/// times `x` is listed there.
pub proof fn lemma_in_part_move(h: &Challenge, p_of: Seq<u32>, x: int, tp: u32, lo: int, hi: int, part: int)
    requires
        0 <= x < p_of.len(),
        p_of[x] != tp,
        forall|k: int| lo <= k < hi ==> 0 <= #[trigger] h.hyperedge_nodes@[k] < p_of.len(),
    ensures
        in_part_between(h, p_of.update(x, tp), lo, hi, part) == in_part_between(h, p_of, lo, hi, part)
            - (if part == p_of[x] { count_between(h.hyperedge_nodes@, lo, hi, x) } else { 0 })
            + (if part == tp { count_between(h.hyperedge_nodes@, lo, hi, x) } else { 0 }),
        part == p_of[x] ==> count_between(h.hyperedge_nodes@, lo, hi, x) <= in_part_between(
            h,
            p_of,
            lo,
            hi,
            part,
        ),
    decreases hi - lo,
{
    if hi > lo {
        lemma_in_part_move(h, p_of, x, tp, lo, hi - 1, part);
        assert(lo <= hi - 1 < hi);
        let y = h.hyperedge_nodes@[hi - 1] as int;
        assert(0 <= y < p_of.len());
    }
}

/// Moving node `x` to part `tp` changes only the sizes of its old part (one
/// less) and of `tp` (one more).
pub proof fn lemma_part_count_move(p_of: Seq<u32>, x: int, tp: u32, part: int, c: int)
    requires
        0 <= x < p_of.len(),
        p_of[x] != tp,
        0 <= c <= p_of.len(),
    ensures
        part_count(p_of.update(x, tp), part, c) == part_count(p_of, part, c) - (if part == p_of[x]
            && x < c { 1int } else { 0 }) + (if part == tp && x < c { 1int } else { 0 }),
        part == p_of[x] && x < c ==> part_count(p_of, part, c) >= 1,
    decreases c,
{
    if c > 0 {
        lemma_part_count_move(p_of, x, tp, part, c - 1);
        lemma_part_count_bounds(p_of, part, c - 1);
    }
}

pub proof fn lemma_part_count_bounds(p_of: Seq<u32>, part: int, c: int)
    requires
        0 <= c,
    ensures
        0 <= part_count(p_of, part, c) <= c,
    decreases c,
{
    if c > 0 {
        lemma_part_count_bounds(p_of, part, c - 1);
    }
}

/// Counting over a shorter prefix counts no more.
pub proof fn lemma_count_between_mono(s: Seq<i32>, lo: int, k: int, hi: int, x: int)
    requires
        lo <= k <= hi,
    ensures
        count_between(s, lo, k, x) <= count_between(s, lo, hi, x),
    decreases hi - k,
{
    if k < hi {
        lemma_count_between_mono(s, lo, k, hi - 1, x);
    }
}

/// A node's own part holds at least that node.
pub proof fn lemma_part_count_member(p_of: Seq<u32>, x: int, c: int)
    requires
        0 <= x < c,
    ensures
        part_count(p_of, p_of[x] as int, c) >= 1,
    decreases c,
{
    lemma_part_count_bounds(p_of, p_of[x] as int, c - 1);
    if x < c - 1 {
        lemma_part_count_member(p_of, x, c - 1);
    }
}

/// Round-robin puts `c / np` of the first `c` nodes in each part, and one
/// more in each of the first `c % np` parts.
pub proof fn lemma_round_robin_count(n: int, np: int, c: int, p: int)
    requires
        1 <= np <= u32::MAX,
        0 <= c <= n,
        0 <= p < np,
    ensures
        part_count(round_robin_spec(n, np), p, c) == c / np + if p < c % np { 1int } else { 0 },
    decreases c,
{
    let rr = round_robin_spec(n, np);
    if c == 0 {
        assert(0int / np == 0 && 0int % np == 0) by (nonlinear_arith)
            requires
                np >= 1,
        ;
    } else {
        let d = c - 1;
        lemma_round_robin_count(n, np, d, p);
        let q = d / np;
        let r = d % np;
        assert(d == q * np + r && 0 <= r < np) by (nonlinear_arith)
            requires
                np >= 1,
                d >= 0,
                q == d / np,
                r == d % np,
        ;
        assert(rr[d] == r as u32);
        if r == np - 1 {
            assert(c / np == q + 1 && c % np == 0) by (nonlinear_arith)
                requires
                    c == q * np + r + 1,
                    r == np - 1,
                    np >= 1,
                    q >= 0,
            ;
        } else {
            assert(c / np == q && c % np == r + 1) by (nonlinear_arith)
                requires
                    c == q * np + r + 1,
                    0 <= r < np - 1,
                    np >= 1,
                    q >= 0,
            ;
        }
    }
}

/// With at least as many nodes as parts, round-robin leaves no part empty;
/// its parts hold at most `ceil(n / np)` nodes each.
pub proof fn lemma_round_robin_sizes(n: int, np: int, p: int)
    requires
        1 <= np <= u32::MAX,
        0 <= n,
        0 <= p < np,
    ensures
        n >= np ==> part_count(round_robin_spec(n, np), p, n) >= 1,
        part_count(round_robin_spec(n, np), p, n) <= (n + np - 1) / np,
        part_count(round_robin_spec(n, np), p, n) >= n / np,
{
    lemma_round_robin_count(n, np, n, p);
    let q = n / np;
    let r = n % np;
    assert(n == q * np + r && 0 <= r < np && q >= 0) by (nonlinear_arith)
        requires
            np >= 1,
            n >= 0,
            q == n / np,
            r == n % np,
    ;
    if n >= np {
        assert(q >= 1) by (nonlinear_arith)
            requires
                n == q * np + r,
                r < np,
                n >= np,
                np >= 1,
        ;
    }
    if r > 0 {
        assert((n + np - 1) / np == q + 1) by (nonlinear_arith)
            requires
                n == q * np + r,
                0 < r < np,
                q >= 0,
        ;
    } else {
        assert((n + np - 1) / np == q) by (nonlinear_arith)
            requires
                n == q * np,
                np >= 1,
                q >= 0,
        ;
    }
}

/// The number of parts among `0..q` that hold a node of hyperedge `e`.
pub open spec fn parts_used(h: &Challenge, p_of: Seq<u32>, e: int, q: int) -> int
    decreases q,
{
    if q <= 0 {
        0
    } else {
        parts_used(h, p_of, e, q - 1) + if edge_count(h, p_of, e, q - 1) > 0 { 1int } else { 0 }
    }
}

/// What hyperedge `e` adds to the connectivity: one less than the number of
/// parts it touches (0 when it has no node).
pub open spec fn edge_cost(h: &Challenge, p_of: Seq<u32>, e: int) -> int {
    let u = parts_used(h, p_of, e, h.num_parts as int);
    if u > 0 {
        u - 1
    } else {
        0
    }
}

/// The connectivity over the first `k` hyperedges.
pub open spec fn connectivity_upto(h: &Challenge, p_of: Seq<u32>, k: int) -> int
    decreases k,
{
    if k <= 0 {
        0
    } else {
        connectivity_upto(h, p_of, k - 1) + edge_cost(h, p_of, k - 1)
    }
}

/// The connectivity of a partition: over all hyperedges, one less than the
/// number of parts each touches.
pub open spec fn connectivity(h: &Challenge, p_of: Seq<u32>) -> int {
    connectivity_upto(h, p_of, h.num_hyperedges as int)
}

/// No hyperedge lists a node twice.
pub open spec fn simple(h: &Challenge) -> bool {
    forall|e: int, x: int|
        0 <= e < h.num_hyperedges && 0 <= x < h.num_nodes ==> #[trigger] edge_occ(h, e, x) <= 1
}

/// The sum of `g` over the entries `lo..hi` of `s`.
pub open spec fn list_sum(s: Seq<i32>, lo: int, hi: int, g: spec_fn(int) -> int) -> int
    decreases hi - lo,
{
    if hi <= lo {
        0
    } else {
        list_sum(s, lo, hi - 1, g) + g(s[hi - 1] as int)
    }
}

/// The sum over values `0..k` of `g` times how often the value occurs among
/// the entries `lo..hi` of `s`.
pub open spec fn weighted_sum(s: Seq<i32>, lo: int, hi: int, g: spec_fn(int) -> int, k: int) -> int
    decreases k,
{
    if k <= 0 {
        0
    } else {
        weighted_sum(s, lo, hi, g, k - 1) + count_between(s, lo, hi, k - 1) * g(k - 1)
    }
}

/// Adding one entry `v` to the range adds `g(v)` to the weighted sum over
/// values below `k` when `v` is one of them.
proof fn lemma_weighted_step(s: Seq<i32>, lo: int, hi: int, g: spec_fn(int) -> int, k: int)
    requires
        lo < hi,
    ensures
        weighted_sum(s, lo, hi, g, k) == weighted_sum(s, lo, hi - 1, g, k) + if 0 <= s[hi - 1] < k {
            g(s[hi - 1] as int)
        } else {
            0
        },
    decreases k,
{
    if k > 0 {
        lemma_weighted_step(s, lo, hi, g, k - 1);
        let c0 = count_between(s, lo, hi - 1, k - 1);
        let gv = g(k - 1);
        assert((c0 + 1) * gv == c0 * gv + gv) by (nonlinear_arith);
    }
}

/// A sum over the entries of a range equals the weighted sum over the values
/// they take.
pub proof fn lemma_list_sum_weighted(s: Seq<i32>, lo: int, hi: int, g: spec_fn(int) -> int, m: int)
    requires
        forall|k: int| lo <= k < hi ==> 0 <= #[trigger] s[k] < m,
    ensures
        list_sum(s, lo, hi, g) == weighted_sum(s, lo, hi, g, m),
    decreases hi - lo,
{
    if hi <= lo {
        assert(weighted_sum(s, lo, hi, g, m) == 0) by {
            lemma_weighted_empty(s, lo, hi, g, m);
        }
    } else {
        lemma_list_sum_weighted(s, lo, hi - 1, g, m);
        lemma_weighted_step(s, lo, hi, g, m);
    }
}

proof fn lemma_weighted_empty(s: Seq<i32>, lo: int, hi: int, g: spec_fn(int) -> int, k: int)
    requires
        hi <= lo,
    ensures
        weighted_sum(s, lo, hi, g, k) == 0,
    decreases k,
{
    if k > 0 {
        lemma_weighted_empty(s, lo, hi, g, k - 1);
    }
}

/// A part holding a node of the hyperedge counts among the parts used.
pub proof fn lemma_parts_used_member(h: &Challenge, p_of: Seq<u32>, e: int, q: int, p: int)
    requires
        0 <= p < q,
        edge_count(h, p_of, e, p) > 0,
    ensures
        parts_used(h, p_of, e, q) >= 1,
    decreases q,
{
    lemma_parts_used_nonneg(h, p_of, e, q - 1);
    if p < q - 1 {
        lemma_parts_used_member(h, p_of, e, q - 1, p);
    }
}

proof fn lemma_parts_used_nonneg(h: &Challenge, p_of: Seq<u32>, e: int, q: int)
    ensures
        parts_used(h, p_of, e, q) >= 0,
    decreases q,
{
    if q > 0 {
        lemma_parts_used_nonneg(h, p_of, e, q - 1);
    }
}

/// Moving node `x` (listed `o` times on hyperedge `e`) from part `cur` to
/// part `tp` changes the number of parts `e` uses, when `o` is positive, by
/// (whether `tp` was unused) minus (whether `cur` held only those `o`).
pub proof fn lemma_parts_used_move(
    h: &Challenge,
    p0: Seq<u32>,
    p1: Seq<u32>,
    e: int,
    cur: int,
    tp: int,
    o: int,
    q: int,
)
    requires
        cur != tp,
        0 <= o,
        edge_count(h, p0, e, cur) >= o,
        edge_count(h, p0, e, tp) >= 0,
        forall|p: int|
            #[trigger] edge_count(h, p1, e, p) == edge_count(h, p0, e, p) - (if p == cur { o } else {
                0
            }) + (if p == tp { o } else { 0 }),
    ensures
        parts_used(h, p1, e, q) == parts_used(h, p0, e, q) + if o >= 1 {
            (if 0 <= tp < q && edge_count(h, p0, e, tp) == 0 { 1int } else { 0 }) - (if 0 <= cur < q
                && edge_count(h, p0, e, cur) == o { 1int } else { 0 })
        } else {
            0
        },
    decreases q,
{
    if q > 0 {
        lemma_parts_used_move(h, p0, p1, e, cur, tp, o, q - 1);
        let p = q - 1;
        let c0 = edge_count(h, p0, e, p);
        let c1 = edge_count(h, p1, e, p);
        assert(c1 == c0 - (if p == cur { o } else { 0 }) + (if p == tp { o } else { 0 }));
        if p == tp {
            assert(c1 == c0 + o);
        } else if p == cur {
            assert(c1 == c0 - o);
        } else {
            assert(c1 == c0);
        }
    }
}

/// The change in hyperedge `e`'s cost that moving one of its nodes from
/// part `cur` to part `tp` makes: +1 when `tp` held none of its nodes, -1
/// when the node was `cur`'s only one there.
pub open spec fn move_term(h: &Challenge, p0: Seq<u32>, cur: int, tp: int, e: int) -> int {
    (if edge_count(h, p0, e, tp) == 0 { 1int } else { 0 }) - (if edge_count(h, p0, e, cur) == 1 {
        1int
    } else {
        0
    })
}

/// Moving node `x` from part `cur` to part `tp` changes hyperedge `e`'s cost
/// by at most `move_term` times the number of times `e` lists `x`, and by
/// exactly that when `e` lists `x` at most once.
pub proof fn lemma_edge_cost_move(h: &Challenge, p0: Seq<u32>, x: int, tp: u32, e: int)
    requires
        well_formed(h),
        valid_partition(h, p0),
        0 <= x < h.num_nodes,
        tp < h.num_parts,
        p0[x] != tp,
        0 <= e < h.num_hyperedges,
    ensures
        edge_cost(h, p0.update(x, tp), e) - edge_cost(h, p0, e) <= edge_occ(h, e, x) * move_term(
            h,
            p0,
            p0[x] as int,
            tp as int,
            e,
        ),
        edge_occ(h, e, x) <= 1 ==> edge_cost(h, p0.update(x, tp), e) - edge_cost(h, p0, e)
            == edge_occ(h, e, x) * move_term(h, p0, p0[x] as int, tp as int, e),
{
    let p1 = p0.update(x, tp);
    let cur = p0[x] as int;
    let o = edge_occ(h, e, x);
    let lo = h.hyperedge_offsets@[e] as int;
    let hi = h.hyperedge_offsets@[e + 1] as int;
    let np = h.num_parts as int;
    assert(0 <= lo <= hi <= h.hyperedge_nodes@.len());
    assert forall|k: int| lo <= k < hi implies 0 <= #[trigger] h.hyperedge_nodes@[k] < p0.len() by {}
    lemma_count_between_bounds(h.hyperedge_nodes@, lo, hi, x);
    assert forall|p: int| #[trigger] edge_count(h, p1, e, p) == edge_count(h, p0, e, p) - (if p == cur {
        o
    } else {
        0
    }) + (if p == tp as int { o } else { 0 }) by {
        lemma_in_part_move(h, p0, x, tp, lo, hi, p);
    }
    lemma_in_part_move(h, p0, x, tp, lo, hi, cur);
    lemma_in_part_bounds(h, p0, lo, hi, tp as int);
    assert(cur < np);
    lemma_parts_used_move(h, p0, p1, e, cur, tp as int, o, np);
    lemma_parts_used_nonneg(h, p0, e, np);
    lemma_parts_used_nonneg(h, p1, e, np);
    let t = move_term(h, p0, cur, tp as int, e);
    if o >= 1 {
        lemma_parts_used_member(h, p0, e, np, cur);
        lemma_in_part_bounds(h, p0, lo, hi, tp as int);
        lemma_parts_used_member(h, p1, e, np, tp as int);
        let a = if edge_count(h, p0, e, tp as int) == 0 { 1int } else { 0 };
        let b1 = if edge_count(h, p0, e, cur) == 1 { 1int } else { 0 };
        let bo = if edge_count(h, p0, e, cur) == o { 1int } else { 0 };
        if o == 1 {
            assert(o * t == t) by (nonlinear_arith)
                requires
                    o == 1,
            ;
        } else {
            assert(b1 == 0);
            assert(t == a - b1);
            assert(o * t == o * a) by (nonlinear_arith)
                requires
                    t == a,
            ;
            assert(o * a >= a) by (nonlinear_arith)
                requires
                    o >= 2,
                    0 <= a <= 1,
            ;
        }
    } else {
        assert(o == 0);
        assert(o * t == 0) by (nonlinear_arith)
            requires
                o == 0,
        ;
    }
}

/// Moving node `x` from part `cur` to part `tp` changes the connectivity
/// over the first `k` hyperedges by at most the sum of `move_term` over the
/// hyperedges listed for `x` (each as often as listed), and by exactly that
/// when no hyperedge lists a node twice.
pub proof fn lemma_connectivity_move(h: &Challenge, p0: Seq<u32>, x: int, tp: u32, k: int)
    requires
        well_formed(h),
        valid_partition(h, p0),
        0 <= x < h.num_nodes,
        tp < h.num_parts,
        p0[x] != tp,
        0 <= k <= h.num_hyperedges,
    ensures
        connectivity_upto(h, p0.update(x, tp), k) - connectivity_upto(h, p0, k) <= weighted_sum(
            h.node_hyperedges@,
            h.node_offsets@[x] as int,
            h.node_offsets@[x + 1] as int,
            |e: int| move_term(h, p0, p0[x] as int, tp as int, e),
            k,
        ),
        simple(h) ==> connectivity_upto(h, p0.update(x, tp), k) - connectivity_upto(h, p0, k)
            == weighted_sum(
            h.node_hyperedges@,
            h.node_offsets@[x] as int,
            h.node_offsets@[x + 1] as int,
            |e: int| move_term(h, p0, p0[x] as int, tp as int, e),
            k,
        ),
    decreases k,
{
    if k > 0 {
        lemma_connectivity_move(h, p0, x, tp, k - 1);
        let e = k - 1;
        lemma_edge_cost_move(h, p0, x, tp, e);
        assert(node_occ(h, x, e) == edge_occ(h, e, x));
    }
}

} // verus!
