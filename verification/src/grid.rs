use vstd::prelude::*;

use std::collections::HashMap;

use vstd::arithmetic::div_mod::lemma_fundamental_div_mod;
use vstd::arithmetic::div_mod::lemma_fundamental_div_mod_converse;
use vstd::arithmetic::div_mod::lemma_mod_division_less_than_divisor;

use crate::num::COORD_LIMIT;
use crate::num::floor_div_i64;

verus! {

/// The grid cell a coordinate falls into: floor of `p / cell_size`.
pub open spec fn spec_cell(p: int, cs: int) -> int {
    p / cs
}

/// A cell coordinate pair packed into one integer; injective for cells in
/// `[-2^32 + 1, 2^32 - 1]`, which covers every cell of the world box and its
/// neighbors.
pub open spec fn spec_key(cx: int, cy: int) -> int {
    (cx + 0x1_0000_0000) * 0x2_0000_0000 + (cy + 0x1_0000_0000)
}

/// Cells in range give distinct keys for distinct cells.
pub proof fn lemma_key_injective(cx1: int, cy1: int, cx2: int, cy2: int)
    requires
        -0x1_0000_0000 < cx1 < 0x1_0000_0000,
        -0x1_0000_0000 < cy1 < 0x1_0000_0000,
        -0x1_0000_0000 < cx2 < 0x1_0000_0000,
        -0x1_0000_0000 < cy2 < 0x1_0000_0000,
        spec_key(cx1, cy1) == spec_key(cx2, cy2),
    ensures
        cx1 == cx2,
        cy1 == cy2,
{
    lemma_fundamental_div_mod_converse(
        spec_key(cx1, cy1),
        0x2_0000_0000,
        cx1 + 0x1_0000_0000,
        cy1 + 0x1_0000_0000,
    );
    lemma_fundamental_div_mod_converse(
        spec_key(cx2, cy2),
        0x2_0000_0000,
        cx2 + 0x1_0000_0000,
        cy2 + 0x1_0000_0000,
    );
}

/// A coordinate inside the world box lands in a cell inside it too.
pub proof fn lemma_cell_bounds(p: int, cs: int)
    requires
        1 <= cs,
        -COORD_LIMIT <= p <= COORD_LIMIT,
    ensures
        -COORD_LIMIT <= spec_cell(p, cs) <= COORD_LIMIT,
{
    lemma_fundamental_div_mod(p, cs);
    lemma_mod_division_less_than_divisor(p, cs);
    let q = p / cs;
    let r = p % cs;
    assert(-COORD_LIMIT <= q <= COORD_LIMIT) by (nonlinear_arith)
        requires
            p == cs * q + r,
            0 <= r < cs,
            1 <= cs,
            -COORD_LIMIT <= p <= COORD_LIMIT,
            COORD_LIMIT == 0x7FFF_FFFFi64;
}

/// Two nodes interact when their cells are at Chebyshev distance at most 1.
pub open spec fn spec_near(xs: Seq<i64>, ys: Seq<i64>, cs: int, i: int, j: int) -> bool {
    let dx = spec_cell(xs[j] as int, cs) - spec_cell(xs[i] as int, cs);
    let dy = spec_cell(ys[j] as int, cs) - spec_cell(ys[i] as int, cs);
    -1 <= dx <= 1 && -1 <= dy <= 1
}

/// The packed key of node `j`'s cell, as stored in the bins map.
pub open spec fn spec_pos_key(xs: Seq<i64>, ys: Seq<i64>, cs: int, j: int) -> u128 {
    spec_key(spec_cell(xs[j] as int, cs), spec_cell(ys[j] as int, cs)) as u128
}

/// Whether node `j` falls in cell `(cx, cy)`.
pub open spec fn in_cell(xs: Seq<i64>, ys: Seq<i64>, cs: int, cx: int, cy: int, j: int) -> bool {
    spec_cell(xs[j] as int, cs) == cx && spec_cell(ys[j] as int, cs) == cy
}

/// The indices `j` with `i < j < j_end` whose cell is exactly `(cx, cy)`, in
/// increasing order.
pub open spec fn spec_cell_members(
    xs: Seq<i64>,
    ys: Seq<i64>,
    cs: int,
    cx: int,
    cy: int,
    i: int,
    j_end: int,
) -> Seq<usize>
    decreases j_end - i,
{
    if j_end <= i + 1 {
        Seq::empty()
    } else {
        spec_cell_members(xs, ys, cs, cx, cy, i, j_end - 1) + (if in_cell(
            xs,
            ys,
            cs,
            cx,
            cy,
            j_end - 1,
        ) {
            seq![(j_end - 1) as usize]
        } else {
            Seq::empty()
        })
    }
}

/// A strictly increasing sequence holding exactly the qualifying indices is
/// the canonical member list.
pub proof fn lemma_sorted_members(
    s: Seq<usize>,
    xs: Seq<i64>,
    ys: Seq<i64>,
    cs: int,
    cx: int,
    cy: int,
    i: int,
    j_end: int,
)
    requires
        -1 <= i,
        j_end <= usize::MAX,
        forall|t: int|
            0 <= t < s.len() ==> i < (#[trigger] s[t]) < j_end && in_cell(
                xs,
                ys,
                cs,
                cx,
                cy,
                s[t] as int,
            ),
        forall|t1: int, t2: int| 0 <= t1 < t2 < s.len() ==> s[t1] < s[t2],
        forall|j: int|
            i < j < j_end && in_cell(xs, ys, cs, cx, cy, j) ==> s.contains(j as usize),
    ensures
        s == spec_cell_members(xs, ys, cs, cx, cy, i, j_end),
    decreases j_end - i,
{
    if j_end <= i + 1 {
        if s.len() > 0 {
            assert(i < s[0] < j_end);
        }
        assert(s =~= spec_cell_members(xs, ys, cs, cx, cy, i, j_end));
    } else {
        if in_cell(xs, ys, cs, cx, cy, j_end - 1) {
            assert(s.contains((j_end - 1) as usize));
            let idx = choose|idx: int| 0 <= idx < s.len() && s[idx] == (j_end - 1) as usize;
            if idx < s.len() - 1 {
                assert(s[idx] < s[s.len() - 1]);
                assert(i < s[s.len() - 1] < j_end);
                assert(false);
            }
            let s2 = s.take(s.len() - 1);
            assert forall|t: int|
                0 <= t < s2.len() implies i < (#[trigger] s2[t]) < j_end - 1 && in_cell(
                xs,
                ys,
                cs,
                cx,
                cy,
                s2[t] as int,
            ) by {
                assert(s2[t] == s[t]);
                assert(s[t] < s[s.len() - 1]);
            }
            assert forall|j: int|
                i < j < j_end - 1 && in_cell(xs, ys, cs, cx, cy, j) implies s2.contains(
                j as usize,
            ) by {
                assert(s.contains(j as usize));
                let t = choose|t: int| 0 <= t < s.len() && s[t] == j as usize;
                if t == s.len() - 1 {
                    assert(false);
                }
                assert(s2[t] == j as usize);
            }
            lemma_sorted_members(s2, xs, ys, cs, cx, cy, i, j_end - 1);
            assert(s =~= s2 + seq![(j_end - 1) as usize]);
        } else {
            assert forall|t: int| 0 <= t < s.len() implies i < (#[trigger] s[t]) < j_end - 1 by {
                assert(s[t] as int != j_end - 1);
            }
            lemma_sorted_members(s, xs, ys, cs, cx, cy, i, j_end - 1);
        }
    }
}

/// Which indices of `spec_cell_members` exist: exactly the qualifying ones.
pub proof fn lemma_members_contains(
    xs: Seq<i64>,
    ys: Seq<i64>,
    cs: int,
    cx: int,
    cy: int,
    i: int,
    j_end: int,
    j: int,
)
    requires
        -1 <= i,
        0 <= j <= usize::MAX,
        j_end <= usize::MAX,
    ensures
        spec_cell_members(xs, ys, cs, cx, cy, i, j_end).contains(j as usize) <==> (i < j < j_end
            && in_cell(xs, ys, cs, cx, cy, j)),
    decreases j_end - i,
{
    let ms = spec_cell_members(xs, ys, cs, cx, cy, i, j_end);
    if j_end <= i + 1 {
    } else {
        lemma_members_contains(xs, ys, cs, cx, cy, i, j_end - 1, j);
        let pre = spec_cell_members(xs, ys, cs, cx, cy, i, j_end - 1);
        if i < j < j_end && in_cell(xs, ys, cs, cx, cy, j) {
            if j == j_end - 1 {
                assert(ms[ms.len() - 1] == j as usize);
                assert(ms.contains(j as usize));
            } else {
                let t = choose|t: int| 0 <= t < pre.len() && pre[t] == j as usize;
                assert(ms[t] == j as usize);
                assert(ms.contains(j as usize));
            }
        }
        if ms.contains(j as usize) {
            let t = choose|t: int| 0 <= t < ms.len() && ms[t] == j as usize;
            if t < pre.len() {
                assert(pre[t] == j as usize);
                assert(pre.contains(j as usize));
            }
        }
    }
}

/// The candidate partners of node `i`: for each of the nine cells of the
/// 3 by 3 block around `i`'s cell, in row order, the members with a strictly
/// greater index.
pub open spec fn spec_near_prefix(xs: Seq<i64>, ys: Seq<i64>, cs: int, i: int, t: int) -> Seq<
    usize,
>
    decreases t,
{
    let cx = spec_cell(xs[i] as int, cs);
    let cy = spec_cell(ys[i] as int, cs);
    if t <= 0 {
        Seq::empty()
    } else {
        spec_near_prefix(xs, ys, cs, i, t - 1) + spec_cell_members(
            xs,
            ys,
            cs,
            cx + (t - 1) % 3 - 1,
            cy + (t - 1) / 3 - 1,
            i,
            xs.len() as int,
        )
    }
}

/// All candidate partners of node `i`, each exactly once.
pub open spec fn spec_near_seq(xs: Seq<i64>, ys: Seq<i64>, cs: int, i: int) -> Seq<usize> {
    spec_near_prefix(xs, ys, cs, i, 9)
}

/// A uniform grid over a fixed snapshot of positions. `xs` and `ys` record
/// that snapshot in ghost form; `cells` holds each node's cell and `bins`
/// maps a packed cell key to the members of that cell in increasing order.
pub struct SpatialGrid {
    pub cell_size: i64,
    pub cells: Vec<(i64, i64)>,
    pub bins: HashMap<u128, Vec<usize>>,
    pub xs: Ghost<Seq<i64>>,
    pub ys: Ghost<Seq<i64>>,
}

impl SpatialGrid {
    /// The packed key of node `j`'s cell.
    pub open spec fn node_key(&self, j: int) -> u128 {
        spec_pos_key(self.xs@, self.ys@, self.cell_size as int, j)
    }

    /// Every member of bin `kk` is a node of that cell, and members are
    /// strictly increasing.
    pub open spec fn bin_ok(&self, kk: u128) -> bool {
        let b = self.bins@[kk]@;
        &&& forall|t: int|
            0 <= t < b.len() ==> (#[trigger] b[t]) < self.xs@.len() && self.node_key(
                b[t] as int,
            ) == kk
        &&& forall|t1: int, t2: int| 0 <= t1 < t2 < b.len() ==> b[t1] < b[t2]
    }

    pub open spec fn wf(&self) -> bool {
        let n = self.xs@.len();
        &&& self.ys@.len() == n
        &&& self.cell_size >= 1
        &&& forall|j: int|
            0 <= j < n ==> (-COORD_LIMIT <= #[trigger] self.xs@[j] <= COORD_LIMIT && -COORD_LIMIT
                <= self.ys@[j] <= COORD_LIMIT)
        &&& self.cells@.len() == n
        &&& forall|j: int|
            0 <= j < n ==> ((#[trigger] self.cells@[j]).0 == spec_cell(
                self.xs@[j] as int,
                self.cell_size as int,
            ) && self.cells@[j].1 == spec_cell(self.ys@[j] as int, self.cell_size as int))
        &&& forall|kk: u128| #[trigger] self.bins@.contains_key(kk) ==> self.bin_ok(kk)
        &&& forall|j: int|
            0 <= j < n ==> (self.bins@.contains_key(#[trigger] self.node_key(j))
                && self.bins@[self.node_key(j)]@.contains(j as usize))
    }
}

/// Computes the cell of one coordinate.
fn cell_of(p: i64, cs: i64) -> (c: i64)
    requires
        1 <= cs,
        -COORD_LIMIT <= p <= COORD_LIMIT,
    ensures
        c == spec_cell(p as int, cs as int),
        -COORD_LIMIT <= c <= COORD_LIMIT,
{
    proof {
        lemma_cell_bounds(p as int, cs as int);
    }
    floor_div_i64(p, cs)
}

/// Packs a cell pair into a key.
fn key_of(cx: i64, cy: i64) -> (kk: u128)
    requires
        -0x1_0000_0000 < cx < 0x1_0000_0000,
        -0x1_0000_0000 < cy < 0x1_0000_0000,
    ensures
        kk == spec_key(cx as int, cy as int),
{
    ((cx + 0x1_0000_0000) as u128) * 0x2_0000_0000u128 + ((cy + 0x1_0000_0000) as u128)
}

/// Builds the grid for one snapshot of positions: every node is placed in
/// the bin of its cell, in index order.
pub fn build_grid(xs: &Vec<i64>, ys: &Vec<i64>, cell_size: i64) -> (g: SpatialGrid)
    requires
        xs@.len() == ys@.len(),
        1 <= cell_size,
        forall|j: int|
            0 <= j < xs@.len() ==> (-COORD_LIMIT <= #[trigger] xs@[j] <= COORD_LIMIT && -COORD_LIMIT
                <= ys@[j] <= COORD_LIMIT),
    ensures
        g.wf(),
        g.xs@ == xs@,
        g.ys@ == ys@,
        g.cell_size == cell_size,
{
    let n = xs.len();
    let mut cells: Vec<(i64, i64)> = Vec::with_capacity(n);
    let mut bins: HashMap<u128, Vec<usize>> = HashMap::new();
    let ghost gxs = xs@;
    let ghost gys = ys@;
    let ghost csi = cell_size as int;
    for j in 0..n
        invariant
            n == gxs.len(),
            n == gys.len(),
            gxs == xs@,
            gys == ys@,
            csi == cell_size as int,
            1 <= cell_size,
            forall|j2: int|
                0 <= j2 < n ==> (-COORD_LIMIT <= #[trigger] gxs[j2] <= COORD_LIMIT && -COORD_LIMIT
                    <= gys[j2] <= COORD_LIMIT),
            cells@.len() == j,
            forall|j2: int|
                0 <= j2 < j ==> ((#[trigger] cells@[j2]).0 == spec_cell(gxs[j2] as int, csi)
                    && cells@[j2].1 == spec_cell(gys[j2] as int, csi)),
            forall|kk2: u128, t: int|
                bins@.contains_key(kk2) && 0 <= t < bins@[kk2]@.len() ==> (#[trigger] bins@[kk2]@[t])
                    < j && spec_pos_key(gxs, gys, csi, bins@[kk2]@[t] as int) == kk2,
            forall|kk2: u128, t1: int, t2: int|
                #![trigger bins@[kk2]@[t1], bins@[kk2]@[t2]]
                bins@.contains_key(kk2) && 0 <= t1 < t2 < bins@[kk2]@.len() ==> bins@[kk2]@[t1]
                    < bins@[kk2]@[t2],
            forall|j2: int|
                0 <= j2 < j ==> (bins@.contains_key(#[trigger] spec_pos_key(gxs, gys, csi, j2))
                    && bins@[spec_pos_key(gxs, gys, csi, j2)]@.contains(j2 as usize)),
    {
        let cx = cell_of(xs[j], cell_size);
        let cy = cell_of(ys[j], cell_size);
        let kk = key_of(cx, cy);
        proof {
            assert(kk == spec_pos_key(gxs, gys, csi, j as int));
        }
        cells.push((cx, cy));
        let ghost bins0 = bins@;
        let mut bucket: Vec<usize> = match bins.remove(&kk) {
            Some(b) => b,
            None => Vec::new(),
        };
        let ghost oldb = bucket@;
        proof {
            assert(oldb == if bins0.contains_key(kk) {
                bins0[kk]@
            } else {
                Seq::<usize>::empty()
            });
        }
        bucket.push(j);
        bins.insert(kk, bucket);
        proof {
            // the new map only differs from the old one at key `kk`
            assert forall|k2: u128| k2 != kk implies bins@.contains_key(k2) == bins0.contains_key(
                k2,
            ) && (bins0.contains_key(k2) ==> bins@[k2] == bins0[k2]) by {}
            assert(bins@.contains_key(kk));
            assert(bins@[kk]@ == oldb.push(j));
            // bin soundness and sortedness
            assert forall|kk2: u128, t: int|
                bins@.contains_key(kk2) && 0 <= t < bins@[kk2]@.len() implies (
            #[trigger] bins@[kk2]@[t]) < j + 1 && spec_pos_key(gxs, gys, csi, bins@[kk2]@[t] as int)
                == kk2 by {
                if kk2 == kk {
                    if t < oldb.len() {
                        assert(bins@[kk2]@[t] == oldb[t]);
                        assert(bins0.contains_key(kk) ==> oldb == bins0[kk]@);
                    } else {
                        assert(bins@[kk2]@[t] == j as usize);
                    }
                }
            }
            assert forall|kk2: u128, t1: int, t2: int|
                #![trigger bins@[kk2]@[t1], bins@[kk2]@[t2]]
                bins@.contains_key(kk2) && 0 <= t1 < t2 < bins@[kk2]@.len() implies bins@[kk2]@[t1]
                < bins@[kk2]@[t2] by {
                if kk2 == kk {
                    if t2 < oldb.len() {
                        assert(bins@[kk2]@[t1] == oldb[t1]);
                        assert(bins@[kk2]@[t2] == oldb[t2]);
                    } else {
                        assert(bins@[kk2]@[t2] == j as usize);
                        if t1 < oldb.len() {
                            assert(bins@[kk2]@[t1] == oldb[t1]);
                        }
                    }
                }
            }
            // completeness
            assert forall|j2: int|
                0 <= j2 < j + 1 implies (bins@.contains_key(
                #[trigger] spec_pos_key(gxs, gys, csi, j2),
            ) && bins@[spec_pos_key(gxs, gys, csi, j2)]@.contains(j2 as usize)) by {
                let kj = spec_pos_key(gxs, gys, csi, j2);
                if j2 == j as int {
                    assert(bins@[kk]@[oldb.len() as int] == j as usize);
                } else {
                    if kj == kk {
                        let t = choose|t: int| 0 <= t < oldb.len() && oldb[t] == j2 as usize;
                        assert(bins@[kk]@[t] == j2 as usize);
                    }
                }
            }
        }
    }
    SpatialGrid { cell_size, cells, bins, xs: Ghost(xs@), ys: Ghost(ys@) }
}


/// The members of a bin prefix that lie strictly above `i`, in bin order.
pub open spec fn filter_gt(b: Seq<usize>, i: int, p: int) -> Seq<usize>
    decreases p,
{
    if p <= 0 {
        Seq::empty()
    } else {
        filter_gt(b, i, p - 1) + (if b[p - 1] > i {
            seq![b[p - 1]]
        } else {
            Seq::empty()
        })
    }
}

/// Filtering a strictly increasing sequence keeps order, keeps exactly the
/// elements above `i`, and invents nothing.
pub proof fn lemma_filter_gt_props(b: Seq<usize>, i: int, p: int)
    requires
        p <= b.len(),
        forall|t1: int, t2: int| 0 <= t1 < t2 < b.len() ==> b[t1] < b[t2],
    ensures
        forall|t: int|
            0 <= t < filter_gt(b, i, p).len() ==> i < (#[trigger] filter_gt(b, i, p)[t])
                && (exists|u: int| 0 <= u < p && b[u] == filter_gt(b, i, p)[t]),
        forall|t1: int, t2: int|
            #![trigger filter_gt(b, i, p)[t1], filter_gt(b, i, p)[t2]]
            0 <= t1 < t2 < filter_gt(b, i, p).len() ==> filter_gt(b, i, p)[t1] < filter_gt(
                b,
                i,
                p,
            )[t2],
        forall|u: int| 0 <= u < p && (#[trigger] b[u]) > i ==> filter_gt(b, i, p).contains(b[u]),
    decreases p,
{
    if p > 0 {
        lemma_filter_gt_props(b, i, p - 1);
        let pre = filter_gt(b, i, p - 1);
        let f = filter_gt(b, i, p);
        assert forall|t: int|
            0 <= t < f.len() implies i < (#[trigger] f[t]) && (exists|u: int|
            0 <= u < p && b[u] == f[t]) by {
            if t < pre.len() {
                assert(f[t] == pre[t]);
                let u = choose|u: int| 0 <= u < p - 1 && b[u] == pre[t];
                assert(0 <= u < p && b[u] == f[t]);
            } else {
                assert(f[t] == b[p - 1]);
                assert(0 <= p - 1 < p && b[p - 1] == f[t]);
            }
        }
        assert forall|t1: int, t2: int|
            #![trigger f[t1], f[t2]]
            0 <= t1 < t2 < f.len() implies f[t1] < f[t2] by {
            if t2 < pre.len() {
                assert(f[t1] == pre[t1]);
                assert(f[t2] == pre[t2]);
            } else if t2 == f.len() - 1 && f.len() > pre.len() {
                assert(f[t2] == b[p - 1]);
                assert(f[t1] == pre[t1]);
                let u = choose|u: int| 0 <= u < p - 1 && b[u] == pre[t1];
                assert(b[u] < b[p - 1]);
            }
        }
        assert forall|u: int|
            0 <= u < p && (#[trigger] b[u]) > i implies filter_gt(b, i, p).contains(b[u]) by {
            if u < p - 1 {
                assert(pre.contains(b[u]));
                let t = choose|t: int| 0 <= t < pre.len() && pre[t] == b[u];
                assert(f[t] == b[u]);
            } else {
                assert(f[f.len() - 1] == b[p - 1]);
            }
        }
    }
}

impl SpatialGrid {
    /// Enumerates the candidate partners of node `i`: the members of the
    /// nine cells around `i`'s cell whose index is strictly greater than
    /// `i`. The result is pinned to `spec_near_seq`, so each unordered near
    /// pair is visited exactly once over all `i`.
    pub fn neighbors_after(&self, i: usize) -> (cand: Vec<usize>)
        requires
            self.wf(),
            i < self.xs@.len(),
        ensures
            cand@ == spec_near_seq(self.xs@, self.ys@, self.cell_size as int, i as int),
    {
        let ghost gxs = self.xs@;
        let ghost gys = self.ys@;
        let ghost csi = self.cell_size as int;
        let n = self.cells.len();
        let (cx, cy) = self.cells[i];
        proof {
            lemma_cell_bounds(gxs[i as int] as int, csi);
            lemma_cell_bounds(gys[i as int] as int, csi);
        }
        let mut cand: Vec<usize> = Vec::new();
        for t in 0..9usize
            invariant
                self.wf(),
                gxs == self.xs@,
                gys == self.ys@,
                csi == self.cell_size as int,
                i < gxs.len(),
                n == gxs.len(),
                cx == spec_cell(gxs[i as int] as int, csi),
                cy == spec_cell(gys[i as int] as int, csi),
                -COORD_LIMIT <= cx <= COORD_LIMIT,
                -COORD_LIMIT <= cy <= COORD_LIMIT,
                cand@ == spec_near_prefix(gxs, gys, csi, i as int, t as int),
        {
            let ncx = cx + ((t % 3) as i64) - 1;
            let ncy = cy + ((t / 3) as i64) - 1;
            let kk = key_of(ncx, ncy);
            let ghost pre = cand@;
            match self.bins.get(&kk) {
                Some(bin) => {
                    let ghost b = bin@;
                    proof {
                        assert(self.bins@.contains_key(kk));
                        assert(self.bin_ok(kk));
                    }
                    let blen = bin.len();
                    for p in 0..blen
                        invariant
                            self.wf(),
                            gxs == self.xs@,
                            gys == self.ys@,
                            csi == self.cell_size as int,
                            i < gxs.len(),
                            n == gxs.len(),
                            b == bin@,
                            blen == b.len(),
                            self.bins@.contains_key(kk),
                            b == self.bins@[kk]@,
                            cand@ == pre + filter_gt(b, i as int, p as int),
                    {
                        let j = bin[p];
                        if j > i {
                            cand.push(j);
                        }
                        proof {
                            assert(cand@ =~= pre + filter_gt(b, i as int, p as int + 1));
                        }
                    }
                    proof {
                        let f = filter_gt(b, i as int, b.len() as int);
                        lemma_filter_gt_props(b, i as int, b.len() as int);
                        assert forall|t2: int|
                            0 <= t2 < f.len() implies i < (#[trigger] f[t2]) < n && in_cell(
                            gxs,
                            gys,
                            csi,
                            ncx as int,
                            ncy as int,
                            f[t2] as int,
                        ) by {
                            let u = choose|u: int| 0 <= u < b.len() && b[u] == f[t2];
                            assert(self.node_key(b[u] as int) == kk);
                            lemma_cell_bounds(gxs[b[u] as int] as int, csi);
                            lemma_cell_bounds(gys[b[u] as int] as int, csi);
                            lemma_key_injective(
                                spec_cell(gxs[b[u] as int] as int, csi),
                                spec_cell(gys[b[u] as int] as int, csi),
                                ncx as int,
                                ncy as int,
                            );
                        }
                        assert forall|j: int|
                            i < j < n && in_cell(gxs, gys, csi, ncx as int, ncy as int, j)
                            implies f.contains(j as usize) by {
                            assert(self.node_key(j) == spec_key(ncx as int, ncy as int));
                            assert(self.bins@.contains_key(self.node_key(j)));
                            assert(self.bins@[self.node_key(j)]@.contains(j as usize));
                            let u = choose|u: int| 0 <= u < b.len() && b[u] == j as usize;
                            assert(b[u] > i);
                        }
                        lemma_sorted_members(
                            f,
                            gxs,
                            gys,
                            csi,
                            ncx as int,
                            ncy as int,
                            i as int,
                            n as int,
                        );
                        assert(cand@ == pre + spec_cell_members(
                            gxs,
                            gys,
                            csi,
                            ncx as int,
                            ncy as int,
                            i as int,
                            n as int,
                        ));
                    }
                },
                None => {
                    proof {
                        assert forall|j: int|
                            i < j < n && in_cell(gxs, gys, csi, ncx as int, ncy as int, j)
                            implies Seq::<usize>::empty().contains(j as usize) by {
                            assert(self.node_key(j) == spec_key(ncx as int, ncy as int));
                            assert(self.bins@.contains_key(self.node_key(j)));
                        }
                        lemma_sorted_members(
                            Seq::<usize>::empty(),
                            gxs,
                            gys,
                            csi,
                            ncx as int,
                            ncy as int,
                            i as int,
                            n as int,
                        );
                        assert(cand@ =~= pre + spec_cell_members(
                            gxs,
                            gys,
                            csi,
                            ncx as int,
                            ncy as int,
                            i as int,
                            n as int,
                        ));
                    }
                },
            }
            proof {
                assert((t % 3) as int == (t as int) % 3);
                assert((t / 3) as int == (t as int) / 3);
                assert(cand@ == spec_near_prefix(gxs, gys, csi, i as int, t as int + 1));
            }
        }
        cand
    }
}


/// Member lists are strictly increasing.
pub proof fn lemma_members_increasing(
    xs: Seq<i64>,
    ys: Seq<i64>,
    cs: int,
    cx: int,
    cy: int,
    i: int,
    j_end: int,
)
    requires
        -1 <= i,
        j_end <= usize::MAX,
    ensures
        forall|t1: int, t2: int|
            #![trigger spec_cell_members(xs, ys, cs, cx, cy, i, j_end)[t1],
                spec_cell_members(xs, ys, cs, cx, cy, i, j_end)[t2]]
            0 <= t1 < t2 < spec_cell_members(xs, ys, cs, cx, cy, i, j_end).len()
                ==> spec_cell_members(xs, ys, cs, cx, cy, i, j_end)[t1] < spec_cell_members(
                xs,
                ys,
                cs,
                cx,
                cy,
                i,
                j_end,
            )[t2],
    decreases j_end - i,
{
    let ms = spec_cell_members(xs, ys, cs, cx, cy, i, j_end);
    if j_end > i + 1 {
        lemma_members_increasing(xs, ys, cs, cx, cy, i, j_end - 1);
        let pre = spec_cell_members(xs, ys, cs, cx, cy, i, j_end - 1);
        assert forall|t1: int, t2: int|
            #![trigger ms[t1], ms[t2]]
            0 <= t1 < t2 < ms.len() implies ms[t1] < ms[t2] by {
            if t2 < pre.len() {
                assert(ms[t1] == pre[t1]);
                assert(ms[t2] == pre[t2]);
            } else if t2 == pre.len() {
                assert(ms[t1] == pre[t1]);
                assert(pre.contains(pre[t1]));
                lemma_members_contains(xs, ys, cs, cx, cy, i, j_end - 1, pre[t1] as int);
                assert(ms[t2] == (j_end - 1) as usize);
            }
        }
    }
}

/// Which indices the candidate enumeration of node `i` holds, over the first
/// `t` of the nine cells.
pub proof fn lemma_near_prefix_contains(
    xs: Seq<i64>,
    ys: Seq<i64>,
    cs: int,
    i: int,
    t: int,
    j: int,
)
    requires
        0 <= i < xs.len(),
        xs.len() <= usize::MAX,
        0 <= j <= usize::MAX,
        0 <= t <= 9,
    ensures
        spec_near_prefix(xs, ys, cs, i, t).contains(j as usize) <==> (i < j < xs.len() && exists|
            u: int,
        |
            0 <= u < t && in_cell(
                xs,
                ys,
                cs,
                spec_cell(xs[i] as int, cs) + #[trigger] (u % 3) - 1,
                spec_cell(ys[i] as int, cs) + u / 3 - 1,
                j,
            )),
    decreases t,
{
    let cx = spec_cell(xs[i] as int, cs);
    let cy = spec_cell(ys[i] as int, cs);
    let np = spec_near_prefix(xs, ys, cs, i, t);
    if t > 0 {
        lemma_near_prefix_contains(xs, ys, cs, i, t - 1, j);
        let pre = spec_near_prefix(xs, ys, cs, i, t - 1);
        let ms = spec_cell_members(
            xs,
            ys,
            cs,
            cx + (t - 1) % 3 - 1,
            cy + (t - 1) / 3 - 1,
            i,
            xs.len() as int,
        );
        lemma_members_contains(
            xs,
            ys,
            cs,
            cx + (t - 1) % 3 - 1,
            cy + (t - 1) / 3 - 1,
            i,
            xs.len() as int,
            j,
        );
        if np.contains(j as usize) {
            let p = choose|p: int| 0 <= p < np.len() && np[p] == j as usize;
            if p < pre.len() {
                assert(pre[p] == j as usize);
                assert(pre.contains(j as usize));
            } else {
                assert(ms[p - pre.len()] == j as usize);
                assert(ms.contains(j as usize));
            }
        }
        if i < j < xs.len() {
            if exists|u: int|
                0 <= u < t && in_cell(xs, ys, cs, cx + #[trigger] (u % 3) - 1, cy + u / 3 - 1, j) {
                let u = choose|u: int|
                    0 <= u < t && in_cell(xs, ys, cs, cx + #[trigger] (u % 3) - 1, cy + u / 3 - 1, j);
                if u < t - 1 {
                    assert(pre.contains(j as usize));
                    let p = choose|p: int| 0 <= p < pre.len() && pre[p] == j as usize;
                    assert(np[p] == j as usize);
                    assert(np.contains(j as usize));
                } else {
                    assert(ms.contains(j as usize));
                    let p = choose|p: int| 0 <= p < ms.len() && ms[p] == j as usize;
                    assert(np[pre.len() + p] == j as usize);
                    assert(np.contains(j as usize));
                }
            }
        }
    }
}

/// Neighbor completeness and soundness: the enumeration for node `i` holds
/// exactly the nodes above `i` whose cell is within one cell of `i`'s in
/// both axes. In particular, nodes sharing one cell are always enumerated.
pub proof fn lemma_near_seq_contains(xs: Seq<i64>, ys: Seq<i64>, cs: int, i: int, j: int)
    requires
        0 <= i < xs.len(),
        xs.len() <= usize::MAX,
        0 <= j <= usize::MAX,
    ensures
        spec_near_seq(xs, ys, cs, i).contains(j as usize) <==> (i < j < xs.len() && spec_near(
            xs,
            ys,
            cs,
            i,
            j,
        )),
{
    lemma_near_prefix_contains(xs, ys, cs, i, 9, j);
    let cx = spec_cell(xs[i] as int, cs);
    let cy = spec_cell(ys[i] as int, cs);
    if spec_near_seq(xs, ys, cs, i).contains(j as usize) {
        let u = choose|u: int|
            0 <= u < 9 && in_cell(xs, ys, cs, cx + #[trigger] (u % 3) - 1, cy + u / 3 - 1, j);
        lemma_fundamental_div_mod(u, 3);
        lemma_mod_division_less_than_divisor(u, 3);
        assert(0 <= u / 3 < 3) by (nonlinear_arith)
            requires u == 3 * (u / 3) + u % 3, 0 <= u % 3 < 3, 0 <= u < 9;
    }
    if i < j < xs.len() && spec_near(xs, ys, cs, i, j) {
        let dx = spec_cell(xs[j] as int, cs) - cx;
        let dy = spec_cell(ys[j] as int, cs) - cy;
        let u = (dy + 1) * 3 + (dx + 1);
        lemma_fundamental_div_mod_converse(u, 3, dy + 1, dx + 1);
        assert(in_cell(xs, ys, cs, cx + u % 3 - 1, cy + u / 3 - 1, j));
        assert(0 <= u < 9);
    }
}

/// Each candidate appears exactly once in the enumeration of node `i`.
pub proof fn lemma_near_seq_distinct(xs: Seq<i64>, ys: Seq<i64>, cs: int, i: int, t: int)
    requires
        0 <= i < xs.len(),
        xs.len() <= usize::MAX,
        0 <= t <= 9,
    ensures
        forall|p1: int, p2: int|
            #![trigger spec_near_prefix(xs, ys, cs, i, t)[p1],
                spec_near_prefix(xs, ys, cs, i, t)[p2]]
            0 <= p1 < p2 < spec_near_prefix(xs, ys, cs, i, t).len() ==> spec_near_prefix(
                xs,
                ys,
                cs,
                i,
                t,
            )[p1] != spec_near_prefix(xs, ys, cs, i, t)[p2],
    decreases t,
{
    let cx = spec_cell(xs[i] as int, cs);
    let cy = spec_cell(ys[i] as int, cs);
    let np = spec_near_prefix(xs, ys, cs, i, t);
    if t > 0 {
        lemma_near_seq_distinct(xs, ys, cs, i, t - 1);
        let pre = spec_near_prefix(xs, ys, cs, i, t - 1);
        let ncx = cx + (t - 1) % 3 - 1;
        let ncy = cy + (t - 1) / 3 - 1;
        let ms = spec_cell_members(xs, ys, cs, ncx, ncy, i, xs.len() as int);
        lemma_members_increasing(xs, ys, cs, ncx, ncy, i, xs.len() as int);
        assert forall|p1: int, p2: int|
            #![trigger np[p1], np[p2]]
            0 <= p1 < p2 < np.len() implies np[p1] != np[p2] by {
            if p2 < pre.len() {
                assert(np[p1] == pre[p1]);
                assert(np[p2] == pre[p2]);
            } else if p1 >= pre.len() {
                assert(np[p1] == ms[p1 - pre.len()]);
                assert(np[p2] == ms[p2 - pre.len()]);
            } else {
                let e1 = np[p1];
                let e2 = np[p2];
                assert(pre[p1] == e1);
                assert(ms[p2 - pre.len()] == e2);
                assert(pre.contains(e1));
                assert(ms.contains(e2));
                lemma_near_prefix_contains(xs, ys, cs, i, t - 1, e1 as int);
                lemma_members_contains(xs, ys, cs, ncx, ncy, i, xs.len() as int, e2 as int);
                if e1 == e2 {
                    let u = choose|u: int|
                        0 <= u < t - 1 && in_cell(
                            xs,
                            ys,
                            cs,
                            cx + #[trigger] (u % 3) - 1,
                            cy + u / 3 - 1,
                            e1 as int,
                        );
                    lemma_fundamental_div_mod(u, 3);
                    lemma_fundamental_div_mod((t - 1) as int, 3);
                    assert(u % 3 == (t - 1) % 3 && u / 3 == (t - 1) / 3);
                    assert(false);
                }
            }
        }
    }
}

} // verus!
