use vstd::prelude::*;

use vstd::arithmetic::div_mod::lemma_fundamental_div_mod;
use vstd::arithmetic::div_mod::lemma_fundamental_div_mod_converse;
use vstd::arithmetic::div_mod::lemma_mod_pos_bound;

use crate::edge::GpugEdge;
use crate::generators::adjacency::AdjMatrix;
use crate::generators::adjacency::emit_all;
use crate::generators::adjacency::ent;
use crate::generators::adjacency::lemma_count_bounds;
use crate::generators::adjacency::lemma_count_emit_empty;
use crate::generators::adjacency::lemma_emit_props;
use crate::generators::adjacency::lemma_flat_bounds;
use crate::generators::adjacency::pair_count;
use crate::generators::adjacency::spec_set_pair;
use crate::generators::utils::spec_rand_unit;
use crate::generators::utils::spec_rng_next;
use crate::generators::utils::lemma_unit_frac_bounds;
use crate::generators::utils::rand_unit;
use crate::generators::utils::spec_unit_frac;

verus! {

/// The ring degree actually used: the requested `k` clamped to
/// `[1, floor((n - 1) / 2)]` (the upper bound itself clamped up to 1), and 0
/// when there are fewer than two nodes or `k` is 0.
pub open spec fn spec_effective_k(n: int, k: int) -> int {
    if n < 2 {
        0
    } else {
        let mk = (n - 1) / 2;
        let mk1 = if mk < 1 {
            1int
        } else {
            mk
        };
        if k < mk1 {
            k
        } else {
            mk1
        }
    }
}

/// Exec computation of the effective ring degree.
pub fn effective_degree(n: usize, k: usize) -> (ke: usize)
    ensures
        ke == spec_effective_k(n as int, k as int),
        ke <= k,
        n >= 2 ==> ke < n,
{
    if n < 2 {
        0
    } else {
        let mk = (n - 1) / 2;
        let mk1 = if mk < 1 {
            1
        } else {
            mk
        };
        if k < mk1 {
            k
        } else {
            mk1
        }
    }
}

/// Ring-lattice adjacency: two distinct nodes are connected when their
/// circular distance is at most `ke`.
pub open spec fn ring_adj(n: int, ke: int, a: int, b: int) -> bool {
    let d = if a <= b {
        b - a
    } else {
        a - b
    };
    a != b && (d <= ke || n - d <= ke)
}

/// The ring lattice as a flat row-major adjacency matrix.
pub open spec fn spec_ring_matrix(n: int, ke: int) -> Seq<bool> {
    Seq::new((n * n) as nat, |idx: int| ring_adj(n, ke, idx / n, idx % n))
}

/// The edge list of the ring lattice for `(n, k)`, canonically ordered.
pub open spec fn spec_ring_edges(n: int, k: int) -> Seq<GpugEdge> {
    emit_all(spec_ring_matrix(n, spec_effective_k(n, k)), n)
}

/// How many edges the ring lattice for `(n, k)` has. Rewiring preserves this
/// count: every removed edge is either replaced or restored.
pub open spec fn spec_ring_edge_count(n: int, k: int) -> int {
    pair_count(spec_ring_matrix(n, spec_effective_k(n, k)), n)
}

/// The (unordered) pair laid down when node `s` connects forward by `o`.
pub open spec fn ring_pair(n: int, s: int, o: int, a: int, b: int) -> bool {
    (a == s && b == (s + o) % n) || (b == s && a == (s + o) % n)
}

/// The adjacency laid down by the ring build after every `(s2, o2)` step
/// strictly before `(s, o)` in build order.
pub open spec fn ring_built(n: int, ke: int, s: int, o: int, a: int, b: int) -> bool {
    exists|s2: int, o2: int|
        1 <= o2 <= ke && 0 <= s2 && (s2 < s || (s2 == s && o2 < o)) && #[trigger] ring_pair(
            n,
            s2,
            o2,
            a,
            b,
        )
}

/// One rewiring retry sequence: up to `left` draws look for a target that
/// is neither the source nor already adjacent; each failed draw advances the
/// state; exhausting the budget restores the original edge. Returns the
/// matrix and PRNG state afterwards.
pub open spec fn spec_rw_try(
    m: Seq<bool>,
    st: u64,
    n: int,
    source: int,
    old_target: int,
    left: nat,
) -> (Seq<bool>, u64)
    decreases left,
{
    if left == 0 {
        (spec_set_pair(m, n, source, old_target, true), st)
    } else {
        let r = spec_rand_unit(st);
        let st2 = spec_rng_next(st);
        let cand = spec_unit_frac(r, n);
        if cand != source && !ent(m, n, source, cand) {
            (spec_set_pair(m, n, source, cand, true), st2)
        } else {
            spec_rw_try(m, st2, n, source, old_target, (left - 1) as nat)
        }
    }
}

/// Reconsidering one original forward edge: one draw decides whether to
/// rewire; if so and the edge is still present, it is removed and the retry
/// sequence runs with a budget of `cap` draws.
pub open spec fn spec_rw_edge(
    m: Seq<bool>,
    st: u64,
    n: int,
    beta: u32,
    cap: nat,
    source: int,
    e: int,
) -> (Seq<bool>, u64) {
    let r = spec_rand_unit(st);
    let st2 = spec_rng_next(st);
    if r < beta {
        let old_target = (source + e + 1) % n;
        if ent(m, n, source, old_target) {
            spec_rw_try(
                spec_set_pair(m, n, source, old_target, false),
                st2,
                n,
                source,
                old_target,
                cap,
            )
        } else {
            (m, st2)
        }
    } else {
        (m, st2)
    }
}

/// The first `e_end` forward edges of `source`, reconsidered in order.
pub open spec fn spec_rw_edges(
    m: Seq<bool>,
    st: u64,
    n: int,
    beta: u32,
    cap: nat,
    source: int,
    e_end: int,
) -> (Seq<bool>, u64)
    decreases e_end,
{
    if e_end <= 0 {
        (m, st)
    } else {
        let prev = spec_rw_edges(m, st, n, beta, cap, source, e_end - 1);
        spec_rw_edge(prev.0, prev.1, n, beta, cap, source, e_end - 1)
    }
}

/// All forward edges of the first `s_end` sources, reconsidered in order.
pub open spec fn spec_rw_sources(
    m: Seq<bool>,
    st: u64,
    n: int,
    beta: u32,
    cap: nat,
    ke: int,
    s_end: int,
) -> (Seq<bool>, u64)
    decreases s_end,
{
    if s_end <= 0 {
        (m, st)
    } else {
        let prev = spec_rw_sources(m, st, n, beta, cap, ke, s_end - 1);
        spec_rw_edges(prev.0, prev.1, n, beta, cap, s_end - 1, ke)
    }
}

/// The adjacency matrix of the whole construction: the ring lattice, then,
/// when `beta > 0`, the complete rewiring pass seeded with `seed`.
pub open spec fn spec_ws_matrix(n: int, k: int, beta: u32, seed: u64) -> Seq<bool> {
    let ke = spec_effective_k(n, k);
    let ring = spec_ring_matrix(n, ke);
    if beta > 0 {
        spec_rw_sources(ring, seed, n, beta, (n * 8) as nat, ke, n).0
    } else {
        ring
    }
}

/// The edge list the generator returns, pinned for every input: equal
/// `(n, k, beta, seed)` always give equal edge lists.
pub open spec fn spec_ws_edges(n: int, k: int, beta: u32, seed: u64) -> Seq<GpugEdge> {
    if n < 2 || spec_effective_k(n, k) == 0 {
        Seq::empty()
    } else {
        emit_all(spec_ws_matrix(n, k, beta, seed), n)
    }
}

/// For `0 <= x < 2n`, reduction modulo `n` subtracts `n` at most once.
proof fn lemma_mod_small_range(x: int, n: int)
    requires
        1 <= n,
        0 <= x < 2 * n,
    ensures
        x % n == if x < n {
            x
        } else {
            x - n
        },
{
    if x < n {
        lemma_fundamental_div_mod_converse(x, n, 0, x);
    } else {
        lemma_fundamental_div_mod_converse(x, n, 1, x - n);
    }
}

/// After the whole build (all sources below `n`), the laid-down adjacency is
/// exactly ring adjacency.
proof fn lemma_ring_built_full(n: int, ke: int, a: int, b: int)
    requires
        2 <= n,
        1 <= ke,
        ke < n,
        0 <= a < n,
        0 <= b < n,
    ensures
        ring_built(n, ke, n, 1, a, b) == ring_adj(n, ke, a, b),
{
    if ring_built(n, ke, n, 1, a, b) {
        let (s2, o2) = choose|s2: int, o2: int|
            1 <= o2 <= ke && 0 <= s2 && (s2 < n || (s2 == n && o2 < 1)) && #[trigger] ring_pair(
                n,
                s2,
                o2,
                a,
                b,
            );
        lemma_mod_small_range(s2 + o2, n);
        assert(ring_adj(n, ke, a, b));
    }
    if ring_adj(n, ke, a, b) {
        let lo = if a < b {
            a
        } else {
            b
        };
        let hi = if a < b {
            b
        } else {
            a
        };
        let d = hi - lo;
        if d <= ke {
            lemma_mod_small_range(lo + d, n);
            assert(ring_pair(n, lo, d, a, b));
            assert(ring_built(n, ke, n, 1, a, b));
        } else {
            lemma_mod_small_range(hi + (n - d), n);
            assert(ring_pair(n, hi, n - d, a, b));
            assert(ring_built(n, ke, n, 1, a, b));
        }
    }
}

/// A degenerate request (`n < 2` or `k == 0`) has an empty ring lattice.
proof fn lemma_ring_degenerate(n: int, k: int)
    requires
        0 <= n,
        spec_effective_k(n, k) == 0,
    ensures
        spec_ring_edge_count(n, k) == 0,
        spec_ring_edges(n, k) == Seq::<GpugEdge>::empty(),
{
    let ke = spec_effective_k(n, k);
    let rm = spec_ring_matrix(n, ke);
    assert forall|r: int, t: int| 0 <= r < n && r < t < n implies !ent(rm, n, r, t) by {
        assert(0 <= r * n + t < n * n) by (nonlinear_arith)
            requires 0 <= r < n, 0 <= t < n;
        lemma_fundamental_div_mod_converse(r * n + t, n, r, t);
    }
    lemma_count_emit_empty(rm, n, n);
    assert(spec_ring_edges(n, k) =~= Seq::<GpugEdge>::empty());
}

/// The entries of the ring matrix are ring adjacency.
proof fn lemma_ring_matrix_entry(n: int, ke: int, a: int, b: int)
    requires
        0 <= a < n,
        0 <= b < n,
    ensures
        ent(spec_ring_matrix(n, ke), n, a, b) == ring_adj(n, ke, a, b),
{
    assert(0 <= a * n + b < n * n) by (nonlinear_arith)
        requires 0 <= a < n, 0 <= b < n;
    lemma_fundamental_div_mod_converse(a * n + b, n, a, b);
}

/// Partial count of ring neighbors of row `r` among `(r, j)`: the forward
/// ring targets up to `ke` away, plus the wrap-around partners.
proof fn lemma_ring_row_partial(n: int, ke: int, r: int, j: int)
    requires
        1 <= ke,
        2 * ke + 1 <= n,
        0 <= r < n,
        r + 1 <= j <= n,
    ensures
        crate::generators::adjacency::row_count_pre(spec_ring_matrix(n, ke), n, r, j) == (if j - r
            - 1 > ke {
            ke
        } else {
            j - r - 1
        }) + (if j - r - n + ke > 0 {
            j - r - n + ke
        } else {
            0int
        }),
    decreases j - r,
{
    if j > r + 1 {
        lemma_ring_row_partial(n, ke, r, j - 1);
        lemma_ring_matrix_entry(n, ke, r, j - 1);
    }
}

/// The closed form of one full row's ring neighbor count above the
/// diagonal.
spec fn ring_row_closed(n: int, ke: int, r: int) -> int {
    if r < ke {
        2 * ke - r
    } else if r <= n - 1 - ke {
        ke
    } else {
        n - 1 - r
    }
}

spec fn ring_rows_sum(n: int, ke: int, i: int) -> int
    decreases i,
{
    if i <= 0 {
        0
    } else {
        ring_rows_sum(n, ke, i - 1) + ring_row_closed(n, ke, i - 1)
    }
}

proof fn lemma_ring_count_rows(n: int, ke: int, i: int)
    requires
        1 <= ke,
        2 * ke + 1 <= n,
        0 <= i <= n,
    ensures
        crate::generators::adjacency::count_pre(spec_ring_matrix(n, ke), n, i) == ring_rows_sum(
            n,
            ke,
            i,
        ),
    decreases i,
{
    if i > 0 {
        lemma_ring_count_rows(n, ke, i - 1);
        lemma_ring_row_partial(n, ke, i - 1, n);
    }
}

proof fn lemma_ring_rows_sum_closed(n: int, ke: int, i: int)
    requires
        1 <= ke,
        2 * ke + 1 <= n,
        0 <= i <= n,
    ensures
        2 * ring_rows_sum(n, ke, i) == (if i <= ke {
            4 * ke * i - i * (i - 1)
        } else if i <= n - ke {
            ke * ke + ke + 2 * ke * i
        } else {
            2 * ke * n - (n - i) * (n - i - 1)
        }),
    decreases i,
{
    if i > 0 {
        lemma_ring_rows_sum_closed(n, ke, i - 1);
        let prev = ring_rows_sum(n, ke, i - 1);
        let row = ring_row_closed(n, ke, i - 1);
        assert(ring_rows_sum(n, ke, i) == prev + row);
        if i <= ke {
            assert(row == 2 * ke - (i - 1));
            assert(2 * prev == 4 * ke * (i - 1) - (i - 1) * (i - 2));
            assert(2 * prev + 2 * row == 4 * ke * i - i * (i - 1)) by (nonlinear_arith)
                requires
                    2 * prev == 4 * ke * (i - 1) - (i - 1) * (i - 2),
                    row == 2 * ke - (i - 1);
            assert(2 * ring_rows_sum(n, ke, i) == 4 * ke * i - i * (i - 1));
        } else if i == ke + 1 {
            assert(row == ke);
            assert(2 * prev == 4 * ke * (i - 1) - (i - 1) * (i - 2));
            assert(2 * prev + 2 * row == ke * ke + ke + 2 * ke * i) by (nonlinear_arith)
                requires
                    2 * prev == 4 * ke * (i - 1) - (i - 1) * (i - 2),
                    row == ke,
                    i == ke + 1;
            assert(2 * ring_rows_sum(n, ke, i) == ke * ke + ke + 2 * ke * i);
        } else if i <= n - ke {
            assert(row == ke);
            assert(2 * prev == ke * ke + ke + 2 * ke * (i - 1));
            assert(2 * prev + 2 * row == ke * ke + ke + 2 * ke * i) by (nonlinear_arith)
                requires
                    2 * prev == ke * ke + ke + 2 * ke * (i - 1),
                    row == ke;
            assert(2 * ring_rows_sum(n, ke, i) == ke * ke + ke + 2 * ke * i);
        } else if i == n - ke + 1 {
            assert(row == n - i);
            assert(2 * prev == ke * ke + ke + 2 * ke * (i - 1));
            assert(2 * prev + 2 * row == 2 * ke * n - (n - i) * (n - i - 1)) by (nonlinear_arith)
                requires
                    2 * prev == ke * ke + ke + 2 * ke * (i - 1),
                    row == n - i,
                    i == n - ke + 1;
            assert(2 * ring_rows_sum(n, ke, i) == 2 * ke * n - (n - i) * (n - i - 1));
        } else {
            assert(row == n - i);
            assert(2 * prev == 2 * ke * n - (n - (i - 1)) * (n - (i - 1) - 1));
            assert(2 * prev + 2 * row == 2 * ke * n - (n - i) * (n - i - 1)) by (nonlinear_arith)
                requires
                    2 * prev == 2 * ke * n - (n - (i - 1)) * (n - (i - 1) - 1),
                    row == n - i;
            assert(2 * ring_rows_sum(n, ke, i) == 2 * ke * n - (n - i) * (n - i - 1));
        }
    } else {
        assert(ring_rows_sum(n, ke, 0) == 0);
    }
}

/// The closed form of the ring-lattice edge count: with at least three
/// nodes it is exactly `n * effective_k`; with two nodes it is the single
/// possible edge; degenerate inputs give zero.
pub proof fn lemma_ring_edge_count_value(n: int, k: int)
    requires
        0 <= n,
        0 <= k,
    ensures
        spec_ring_edge_count(n, k) == (if spec_effective_k(n, k) == 0 {
            0int
        } else if n == 2 {
            1int
        } else {
            n * spec_effective_k(n, k)
        }),
{
    let ke = spec_effective_k(n, k);
    if ke == 0 {
        lemma_ring_degenerate(n, k);
    } else if n == 2 {
        let rm = spec_ring_matrix(2, ke);
        lemma_ring_matrix_entry(2, ke, 0, 1);
        assert(ring_adj(2, ke, 0, 1));
        assert(crate::generators::adjacency::row_count_pre(rm, 2, 0, 1) == 0);
        assert(crate::generators::adjacency::row_count_pre(rm, 2, 0, 2) == 1);
        assert(crate::generators::adjacency::row_count_pre(rm, 2, 1, 2) == 0);
        assert(crate::generators::adjacency::count_pre(rm, 2, 0) == 0);
        assert(crate::generators::adjacency::count_pre(rm, 2, 1) == 1);
        assert(crate::generators::adjacency::count_pre(rm, 2, 2) == 1);
    } else {
        assert(1 <= ke);
        assert(2 * ke + 1 <= n) by {
            assert(ke <= (n - 1) / 2);
            vstd::arithmetic::div_mod::lemma_fundamental_div_mod(n - 1, 2);
            vstd::arithmetic::div_mod::lemma_mod_division_less_than_divisor(n - 1, 2);
        }
        lemma_ring_count_rows(n, ke, n);
        lemma_ring_rows_sum_closed(n, ke, n);
        assert(2 * ke * n - (n - n) * (n - n - 1) == 2 * (n * ke)) by (nonlinear_arith);
    }
}

/// Builds a Watts–Strogatz small-world edge list.
///
/// First the ring lattice for the effective degree is laid down; then, when
/// `beta > 0`, every original forward edge is rewired with probability
/// `beta / 2^32` (the drawn 32-bit sample is compared against `beta`): the
/// edge is removed and up to `n * 8` uniform draws look for a target that is
/// neither the source nor already adjacent to it; if none is found the
/// original edge is restored. Degenerate inputs give an empty list.
///
/// The whole result is pinned to `spec_ws_edges`, so equal
/// `(n, k, beta, seed)` always give identical edge lists. It always holds
/// `spec_ring_edge_count(n, k)` edges, each with `source < target < n`, in
/// strictly increasing lexicographic order (hence no self-loops and no
/// duplicate unordered pairs); with `beta == 0` it is exactly the canonical
/// ring-lattice list.
pub fn generate_watts_strogatz_graph(n: usize, k: usize, beta: u32, seed: u64) -> (edges: Vec<
    GpugEdge,
>)
    requires
        n <= 0xFFFF,
    ensures
        edges@.len() == spec_ring_edge_count(n as int, k as int),
        forall|t: int|
            0 <= t < edges@.len() ==> (#[trigger] edges@[t]).source < edges@[t].target < n,
        forall|t1: int, t2: int|
            #![trigger edges@[t1], edges@[t2]]
            0 <= t1 < t2 < edges@.len() ==> (edges@[t1].source < edges@[t2].source || (
            edges@[t1].source == edges@[t2].source && edges@[t1].target < edges@[t2].target)),
        beta == 0 ==> edges@ == spec_ring_edges(n as int, k as int),
        edges@ == spec_ws_edges(n as int, k as int, beta, seed),
        n < 2 ==> edges@.len() == 0,
{
    let ke = effective_degree(n, k);
    if n < 2 || ke == 0 {
        proof {
            lemma_ring_degenerate(n as int, k as int);
        }
        return Vec::new();
    }
    let ghost ni = n as int;
    let ghost kei = ke as int;

    // Ring lattice: each node connects to its next `ke` nodes in circular
    // order.
    let mut adj = AdjMatrix::new(n);
    let mut count: u64 = 0;
    for source in 0..n
        invariant
            adj.wf(),
            adj.n == n,
            2 <= n <= 0xFFFF,
            1 <= ke,
            kei == ke as int,
            ni == n as int,
            kei < ni,
            count == adj.pairs(),
            forall|a: int, b: int|
                0 <= a < ni && 0 <= b < ni ==> #[trigger] adj.at(a, b) == ring_built(
                    ni,
                    kei,
                    source as int,
                    1,
                    a,
                    b,
                ),
    {
        for offset in 1..(ke + 1)
            invariant
                adj.wf(),
                adj.n == n,
                2 <= n <= 0xFFFF,
                1 <= ke,
                kei == ke as int,
                ni == n as int,
                kei < ni,
                source < n,
                1 <= offset,
                count == adj.pairs(),
                forall|a: int, b: int|
                    0 <= a < ni && 0 <= b < ni ==> #[trigger] adj.at(a, b) == ring_built(
                        ni,
                        kei,
                        source as int,
                        offset as int,
                        a,
                        b,
                    ),
        {
            proof {
                lemma_mod_small_range((source + offset) as int, ni);
                lemma_mod_pos_bound((source + offset) as int, ni);
            }
            let target = (source + offset) % n;
            let was = adj.contains(source, target);
            if !was {
                proof {
                    lemma_count_bounds(adj.cells@, ni, ni);
                    lemma_flat_bounds(ni, 0, 0);
                }
                adj.insert(source, target);
                count = count + 1;
            }
            proof {
                let si = source as int;
                let oi = offset as int;
                let ti = target as int;
                assert(ring_pair(ni, si, oi, si, ti) && ring_pair(ni, si, oi, ti, si));
                assert forall|a: int, b: int|
                    0 <= a < ni && 0 <= b < ni implies #[trigger] adj.at(a, b) == ring_built(
                    ni,
                    kei,
                    si,
                    oi + 1,
                    a,
                    b,
                ) by {
                    if (a == si && b == ti) || (a == ti && b == si) {
                        assert(adj.at(si, ti));
                        assert(adj.at(ti, si) == adj.at(si, ti));
                        assert(ring_pair(ni, si, oi, a, b));
                        assert(ring_built(ni, kei, si, oi + 1, a, b));
                    } else {
                        if ring_built(ni, kei, si, oi + 1, a, b) {
                            let (s2, o2) = choose|s2: int, o2: int|
                                1 <= o2 <= kei && 0 <= s2 && (s2 < si || (s2 == si && o2 < oi + 1))
                                    && #[trigger] ring_pair(ni, s2, o2, a, b);
                            if s2 == si && o2 == oi {
                                assert(false);
                            } else {
                                assert(ring_built(ni, kei, si, oi, a, b));
                            }
                        }
                        if ring_built(ni, kei, si, oi, a, b) {
                            let (s3, o3) = choose|s3: int, o3: int|
                                1 <= o3 <= kei && 0 <= s3 && (s3 < si || (s3 == si && o3 < oi))
                                    && #[trigger] ring_pair(ni, s3, o3, a, b);
                            assert(ring_built(ni, kei, si, oi + 1, a, b));
                        }
                    }
                }
            }
        }
        proof {
            let si = source as int;
            assert forall|a: int, b: int|
                0 <= a < ni && 0 <= b < ni implies #[trigger] adj.at(a, b) == ring_built(
                ni,
                kei,
                si + 1,
                1,
                a,
                b,
            ) by {
                if ring_built(ni, kei, si, kei + 1, a, b) {
                    let (s2, o2) = choose|s2: int, o2: int|
                        1 <= o2 <= kei && 0 <= s2 && (s2 < si || (s2 == si && o2 < kei + 1))
                            && #[trigger] ring_pair(ni, s2, o2, a, b);
                    assert(ring_built(ni, kei, si + 1, 1, a, b));
                }
                if ring_built(ni, kei, si + 1, 1, a, b) {
                    let (s3, o3) = choose|s3: int, o3: int|
                        1 <= o3 <= kei && 0 <= s3 && (s3 < si + 1 || (s3 == si + 1 && o3 < 1))
                            && #[trigger] ring_pair(ni, s3, o3, a, b);
                    assert(ring_built(ni, kei, si, kei + 1, a, b));
                }
            }
        }
    }

    // The built matrix is exactly the ring lattice, which pins the edge
    // count for the rest of the run.
    proof {
        assert forall|a: int, b: int|
            0 <= a < ni && 0 <= b < ni implies #[trigger] adj.at(a, b) == ring_adj(
            ni,
            kei,
            a,
            b,
        ) by {
            lemma_ring_built_full(ni, kei, a, b);
        }
        let rm = spec_ring_matrix(ni, kei);
        assert forall|idx: int| 0 <= idx < ni * ni implies adj.cells@[idx] == rm[idx] by {
            lemma_fundamental_div_mod(idx, ni);
            lemma_mod_pos_bound(idx, ni);
            let a = idx / ni;
            let b = idx % ni;
            assert(0 <= a < ni) by (nonlinear_arith)
                requires idx == ni * a + b, 0 <= b < ni, 0 <= idx < ni * ni;
            assert(adj.at(a, b) == ring_adj(ni, kei, a, b));
            assert(a * ni + b == idx);
            assert(ent(adj.cells@, ni, a, b) == adj.cells@[idx]);
        }
        assert(adj.cells@ =~= rm);
        assert(kei == spec_effective_k(ni, k as int));
        assert(count as int == spec_ring_edge_count(ni, k as int));
    }

    // Rewiring: each original forward edge is reconsidered in build order.
    let ghost ring_m = adj.cells@;
    if beta > 0 {
        let attempt_cap: usize = n * 8;
        let ghost capn = (ni * 8) as nat;
        let mut st: u64 = seed;
        for source in 0..n
            invariant
                adj.wf(),
                adj.n == n,
                2 <= n <= 0xFFFF,
                1 <= ke,
                kei == ke as int,
                ni == n as int,
                kei < ni,
                count == adj.pairs(),
                count as int == spec_ring_edge_count(ni, k as int),
                attempt_cap == n * 8,
                capn == (ni * 8) as nat,
                adj.cells@ == spec_rw_sources(ring_m, seed, ni, beta, capn, kei, source as int).0,
                st == spec_rw_sources(ring_m, seed, ni, beta, capn, kei, source as int).1,
        {
            let ghost src_pair = spec_rw_sources(ring_m, seed, ni, beta, capn, kei, source as int);
            for edge_index in 0..ke
                invariant
                    adj.wf(),
                    adj.n == n,
                    2 <= n <= 0xFFFF,
                    1 <= ke,
                    kei == ke as int,
                    ni == n as int,
                    kei < ni,
                    source < n,
                    count == adj.pairs(),
                    count as int == spec_ring_edge_count(ni, k as int),
                    attempt_cap == n * 8,
                    capn == (ni * 8) as nat,
                    src_pair == spec_rw_sources(ring_m, seed, ni, beta, capn, kei, source as int),
                    adj.cells@ == spec_rw_edges(
                        src_pair.0,
                        src_pair.1,
                        ni,
                        beta,
                        capn,
                        source as int,
                        edge_index as int,
                    ).0,
                    st == spec_rw_edges(
                        src_pair.0,
                        src_pair.1,
                        ni,
                        beta,
                        capn,
                        source as int,
                        edge_index as int,
                    ).1,
            {
                let ghost edge_pair = spec_rw_edges(
                    src_pair.0,
                    src_pair.1,
                    ni,
                    beta,
                    capn,
                    source as int,
                    edge_index as int,
                );
                let r = rand_unit(&mut st);
                if r < beta {
                    proof {
                        lemma_mod_small_range((source + edge_index + 1) as int, ni);
                        lemma_mod_pos_bound((source + edge_index + 1) as int, ni);
                    }
                    let old_target = (source + edge_index + 1) % n;
                    if adj.contains(source, old_target) {
                        adj.remove(source, old_target);
                        proof {
                            lemma_count_bounds(adj.cells@, ni, ni);
                        }
                        count = count - 1;
                        let ghost m1 = adj.cells@;
                        let ghost st2 = st;
                        let mut attempts: usize = 0;
                        let mut placed = false;
                        while !placed && attempts < attempt_cap
                            invariant
                                adj.wf(),
                                adj.n == n,
                                2 <= n <= 0xFFFF,
                                ni == n as int,
                                source < n,
                                old_target < n,
                                old_target != source,
                                attempts <= attempt_cap,
                                attempt_cap == n * 8,
                                capn == (ni * 8) as nat,
                                count == adj.pairs(),
                                placed ==> count as int == spec_ring_edge_count(ni, k as int),
                                !placed ==> count as int == spec_ring_edge_count(ni, k as int) - 1,
                                !placed ==> !adj.at(source as int, old_target as int),
                                placed ==> (adj.cells@ == spec_rw_try(
                                    m1,
                                    st2,
                                    ni,
                                    source as int,
                                    old_target as int,
                                    capn,
                                ).0 && st == spec_rw_try(
                                    m1,
                                    st2,
                                    ni,
                                    source as int,
                                    old_target as int,
                                    capn,
                                ).1),
                                !placed ==> (adj.cells@ == m1 && spec_rw_try(
                                    m1,
                                    st2,
                                    ni,
                                    source as int,
                                    old_target as int,
                                    capn,
                                ) == spec_rw_try(
                                    m1,
                                    st,
                                    ni,
                                    source as int,
                                    old_target as int,
                                    (capn - attempts) as nat,
                                )),
                            decreases attempt_cap - attempts,
                        {
                            let ghost st_before = st;
                            let ghost left = (capn - attempts) as nat;
                            attempts = attempts + 1;
                            let r2 = rand_unit(&mut st);
                            proof {
                                lemma_unit_frac_bounds(r2, ni);
                            }
                            let candidate = (((r2 as u64) * (n as u64)) / 0x1_0000_0000u64)
                                as usize;
                            assert(candidate as int == spec_unit_frac(r2, ni));
                            if candidate != source && !adj.contains(source, candidate) {
                                proof {
                                    lemma_count_bounds(adj.cells@, ni, ni);
                                    lemma_flat_bounds(ni, 0, 0);
                                }
                                adj.insert(source, candidate);
                                count = count + 1;
                                placed = true;
                                proof {
                                    assert(spec_rw_try(
                                        m1,
                                        st_before,
                                        ni,
                                        source as int,
                                        old_target as int,
                                        left,
                                    ) == (adj.cells@, st));
                                }
                            } else {
                                proof {
                                    assert(spec_rw_try(
                                        m1,
                                        st_before,
                                        ni,
                                        source as int,
                                        old_target as int,
                                        left,
                                    ) == spec_rw_try(
                                        m1,
                                        st,
                                        ni,
                                        source as int,
                                        old_target as int,
                                        (left - 1) as nat,
                                    ));
                                }
                            }
                        }
                        if !placed {
                            proof {
                                lemma_count_bounds(adj.cells@, ni, ni);
                                lemma_flat_bounds(ni, 0, 0);
                                assert(spec_rw_try(
                                    m1,
                                    st,
                                    ni,
                                    source as int,
                                    old_target as int,
                                    0,
                                ) == (
                                    spec_set_pair(m1, ni, source as int, old_target as int, true),
                                    st,
                                ));
                            }
                            adj.insert(source, old_target);
                            count = count + 1;
                        }
                        proof {
                            assert(adj.cells@ == spec_rw_try(
                                m1,
                                st2,
                                ni,
                                source as int,
                                old_target as int,
                                capn,
                            ).0);
                        }
                    }
                }
                proof {
                    assert(adj.cells@ == spec_rw_edge(
                        edge_pair.0,
                        edge_pair.1,
                        ni,
                        beta,
                        capn,
                        source as int,
                        edge_index as int,
                    ).0 && st == spec_rw_edge(
                        edge_pair.0,
                        edge_pair.1,
                        ni,
                        beta,
                        capn,
                        source as int,
                        edge_index as int,
                    ).1);
                }
            }
        }
    }

    proof {
        assert(adj.cells@ == spec_ws_matrix(ni, k as int, beta, seed));
    }

    // Emit each adjacent unordered pair once, `source < target`, in
    // lexicographic order.
    let edges = adj.emit();
    proof {
        lemma_emit_props(adj.cells@, ni, ni);
    }
    edges
}

} // verus!
