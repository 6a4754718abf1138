use vstd::prelude::*;

use vstd::arithmetic::div_mod::lemma_fundamental_div_mod_converse;

use crate::edge::GpugEdge;

verus! {

/// Entry `(i, j)` of a row-major `n` by `n` boolean matrix.
pub open spec fn ent(m: Seq<bool>, n: int, i: int, j: int) -> bool {
    m[i * n + j]
}

/// Row-major indices are unique per cell: `i * n + j` determines `(i, j)`.
pub proof fn lemma_flat_injective(n: int, i1: int, j1: int, i2: int, j2: int)
    requires
        0 <= i1 < n,
        0 <= j1 < n,
        0 <= i2 < n,
        0 <= j2 < n,
        i1 * n + j1 == i2 * n + j2,
    ensures
        i1 == i2,
        j1 == j2,
{
    lemma_fundamental_div_mod_converse(i1 * n + j1, n, i1, j1);
    lemma_fundamental_div_mod_converse(i2 * n + j2, n, i2, j2);
}

/// Row-major indices stay inside the matrix and inside `usize` range.
pub proof fn lemma_flat_bounds(n: int, i: int, j: int)
    requires
        0 <= i < n,
        0 <= j < n,
        n <= 0xFFFF,
    ensures
        0 <= i * n + j < n * n,
        i * n + j < 0xFFFF_FFFF,
        n * n <= 0xFFFF_FFFF,
{
    assert(0 <= i * n + j && i * n + j < n * n && n * n <= 0xFFFF * 0xFFFF) by (nonlinear_arith)
        requires 0 <= i < n, 0 <= j < n, n <= 0xFFFF;
}

/// How many entries `(i, t)` with `i < t < j` are set in row `i`.
pub open spec fn row_count_pre(m: Seq<bool>, n: int, i: int, j: int) -> int
    decreases j - i,
{
    if j <= i + 1 {
        0
    } else {
        row_count_pre(m, n, i, j - 1) + (if ent(m, n, i, j - 1) {
            1int
        } else {
            0int
        })
    }
}

/// How many strictly-upper-triangle entries are set in rows `0 .. i`.
pub open spec fn count_pre(m: Seq<bool>, n: int, i: int) -> int
    decreases i,
{
    if i <= 0 {
        0
    } else {
        count_pre(m, n, i - 1) + row_count_pre(m, n, i - 1, n)
    }
}

/// The number of set unordered pairs in a symmetric matrix.
pub open spec fn pair_count(m: Seq<bool>, n: int) -> int {
    count_pre(m, n, n)
}

/// The edges of row `i` whose target `t` satisfies `i < t < j`, in
/// increasing target order.
pub open spec fn emit_row_pre(m: Seq<bool>, n: int, i: int, j: int) -> Seq<GpugEdge>
    decreases j - i,
{
    if j <= i + 1 {
        Seq::empty()
    } else {
        emit_row_pre(m, n, i, j - 1) + (if ent(m, n, i, j - 1) {
            seq![GpugEdge { source: i as usize, target: (j - 1) as usize }]
        } else {
            Seq::empty()
        })
    }
}

/// The edges of rows `0 .. i`, each row complete, rows in increasing order.
pub open spec fn emit_pre(m: Seq<bool>, n: int, i: int) -> Seq<GpugEdge>
    decreases i,
{
    if i <= 0 {
        Seq::empty()
    } else {
        emit_pre(m, n, i - 1) + emit_row_pre(m, n, i - 1, n)
    }
}

/// The canonical edge list of a symmetric matrix: each set unordered pair
/// once, as `(source, target)` with `source < target`, in lexicographic
/// order.
pub open spec fn emit_all(m: Seq<bool>, n: int) -> Seq<GpugEdge> {
    emit_pre(m, n, n)
}

pub proof fn lemma_row_count_bounds(m: Seq<bool>, n: int, i: int, j: int)
    ensures
        0 <= row_count_pre(m, n, i, j),
        row_count_pre(m, n, i, j) <= (if j >= i + 1 {
            j - i - 1
        } else {
            0
        }),
    decreases j - i,
{
    if j > i + 1 {
        lemma_row_count_bounds(m, n, i, j - 1);
    }
}

pub proof fn lemma_count_bounds(m: Seq<bool>, n: int, i: int)
    requires
        0 <= i,
        i <= n,
    ensures
        0 <= count_pre(m, n, i),
        count_pre(m, n, i) <= i * n,
    decreases i,
{
    if i > 0 {
        lemma_count_bounds(m, n, i - 1);
        lemma_row_count_bounds(m, n, i - 1, n);
        assert((i - 1) * n + n == i * n) by (nonlinear_arith);
    }
}

/// Row counts only read the row's own strictly-upper entries.
pub proof fn lemma_row_count_congruent(m1: Seq<bool>, m2: Seq<bool>, n: int, i: int, j: int)
    requires
        forall|t: int| i < t < j ==> ent(m1, n, i, t) == ent(m2, n, i, t),
    ensures
        row_count_pre(m1, n, i, j) == row_count_pre(m2, n, i, j),
    decreases j - i,
{
    if j > i + 1 {
        lemma_row_count_congruent(m1, m2, n, i, j - 1);
    }
}

/// A single changed entry `(i, t0)` changes the row count by its delta.
pub proof fn lemma_row_count_delta(m1: Seq<bool>, m2: Seq<bool>, n: int, i: int, j: int, t0: int)
    requires
        i < t0 < j,
        forall|t: int| i < t < j && t != t0 ==> ent(m1, n, i, t) == ent(m2, n, i, t),
    ensures
        row_count_pre(m2, n, i, j) == row_count_pre(m1, n, i, j) + (if ent(m2, n, i, t0) {
            1int
        } else {
            0int
        }) - (if ent(m1, n, i, t0) {
            1int
        } else {
            0int
        }),
    decreases j - i,
{
    if j - 1 == t0 {
        lemma_row_count_congruent(m1, m2, n, i, j - 1);
    } else {
        lemma_row_count_delta(m1, m2, n, i, j - 1, t0);
    }
}

/// A single changed unordered pair `(a, b)` with `a < b` changes the pair
/// count over rows `0 .. i` by its delta once row `a` is included. Entries
/// outside the strict upper triangle may differ arbitrarily.
pub proof fn lemma_count_delta(m1: Seq<bool>, m2: Seq<bool>, n: int, i: int, a: int, b: int)
    requires
        0 <= a < b < n,
        i <= n,
        forall|r: int, t: int|
            0 <= r < n && r < t < n && !(r == a && t == b) ==> ent(m1, n, r, t) == ent(
                m2,
                n,
                r,
                t,
            ),
    ensures
        count_pre(m2, n, i) == count_pre(m1, n, i) + (if i > a {
            (if ent(m2, n, a, b) {
                1int
            } else {
                0int
            }) - (if ent(m1, n, a, b) {
                1int
            } else {
                0int
            })
        } else {
            0int
        }),
    decreases i,
{
    if i > 0 {
        lemma_count_delta(m1, m2, n, i - 1, a, b);
        if i - 1 == a {
            lemma_row_count_delta(m1, m2, n, a, n, b);
        } else {
            lemma_row_count_congruent(m1, m2, n, i - 1, n);
        }
    }
}

/// An all-clear upper triangle has pair count zero and emits nothing.
pub proof fn lemma_count_emit_empty(m: Seq<bool>, n: int, i: int)
    requires
        i <= n,
        forall|r: int, t: int| 0 <= r < n && r < t < n ==> !ent(m, n, r, t),
    ensures
        count_pre(m, n, i) == 0,
        emit_pre(m, n, i) =~= Seq::<GpugEdge>::empty(),
    decreases i,
{
    if i > 0 {
        lemma_count_emit_empty(m, n, i - 1);
        lemma_row_empty(m, n, i - 1, n);
    }
}

proof fn lemma_row_empty(m: Seq<bool>, n: int, i: int, j: int)
    requires
        j <= n,
        forall|t: int| i < t < n ==> !ent(m, n, i, t),
    ensures
        row_count_pre(m, n, i, j) == 0,
        emit_row_pre(m, n, i, j) =~= Seq::<GpugEdge>::empty(),
    decreases j - i,
{
    if j > i + 1 {
        lemma_row_empty(m, n, i, j - 1);
    }
}

/// The emitted list has exactly `pair count` entries.
pub proof fn lemma_emit_len(m: Seq<bool>, n: int, i: int)
    ensures
        emit_pre(m, n, i).len() == count_pre(m, n, i),
    decreases i,
{
    if i > 0 {
        lemma_emit_len(m, n, i - 1);
        lemma_emit_row_len(m, n, i - 1, n);
    }
}

proof fn lemma_emit_row_len(m: Seq<bool>, n: int, i: int, j: int)
    ensures
        emit_row_pre(m, n, i, j).len() == row_count_pre(m, n, i, j),
    decreases j - i,
{
    if j > i + 1 {
        lemma_emit_row_len(m, n, i, j - 1);
    }
}

/// Every edge emitted from row `i` has source `i` and a target in `(i, j)`,
/// and targets are strictly increasing.
pub proof fn lemma_emit_row_props(m: Seq<bool>, n: int, i: int, j: int)
    requires
        0 <= i,
        i < j,
        j <= n,
        n <= 0xFFFF,
    ensures
        forall|t: int|
            0 <= t < emit_row_pre(m, n, i, j).len() ==> {
                let e = #[trigger] emit_row_pre(m, n, i, j)[t];
                e.source == i && i < e.target < j
            },
        forall|t1: int, t2: int|
            #![trigger emit_row_pre(m, n, i, j)[t1], emit_row_pre(m, n, i, j)[t2]]
            0 <= t1 < t2 < emit_row_pre(m, n, i, j).len() ==> emit_row_pre(m, n, i, j)[t1].target
                < emit_row_pre(m, n, i, j)[t2].target,
    decreases j - i,
{
    if j > i + 1 {
        lemma_emit_row_props(m, n, i, j - 1);
        let pre = emit_row_pre(m, n, i, j - 1);
        assert forall|t: int| 0 <= t < emit_row_pre(m, n, i, j).len() implies {
            let e = #[trigger] emit_row_pre(m, n, i, j)[t];
            e.source == i && i < e.target < j
        } by {
            if t < pre.len() {
                assert(emit_row_pre(m, n, i, j)[t] == pre[t]);
            } else {
                assert(emit_row_pre(m, n, i, j)[t] == GpugEdge {
                    source: i as usize,
                    target: (j - 1) as usize,
                });
            }
        }
        assert forall|t1: int, t2: int|
            #![trigger emit_row_pre(m, n, i, j)[t1], emit_row_pre(m, n, i, j)[t2]]
            0 <= t1 < t2 < emit_row_pre(m, n, i, j).len() implies emit_row_pre(m, n, i, j)[t1].target
            < emit_row_pre(m, n, i, j)[t2].target by {
            if t1 < pre.len() {
                assert(emit_row_pre(m, n, i, j)[t1] == pre[t1]);
            }
            if t2 < pre.len() {
                assert(emit_row_pre(m, n, i, j)[t2] == pre[t2]);
            } else {
                assert(emit_row_pre(m, n, i, j)[t2] == GpugEdge {
                    source: i as usize,
                    target: (j - 1) as usize,
                });
            }
        }
    }
}

/// Every emitted edge satisfies `source < target < n`, and the whole list is
/// strictly increasing in `(source, target)` lexicographic order.
pub proof fn lemma_emit_props(m: Seq<bool>, n: int, i: int)
    requires
        0 <= i,
        i <= n,
        n <= 0xFFFF,
    ensures
        forall|t: int|
            0 <= t < emit_pre(m, n, i).len() ==> {
                let e = #[trigger] emit_pre(m, n, i)[t];
                e.source < e.target < n && e.source < i
            },
        forall|t1: int, t2: int|
            #![trigger emit_pre(m, n, i)[t1], emit_pre(m, n, i)[t2]]
            0 <= t1 < t2 < emit_pre(m, n, i).len() ==> {
                let e1 = emit_pre(m, n, i)[t1];
                let e2 = emit_pre(m, n, i)[t2];
                e1.source < e2.source || (e1.source == e2.source && e1.target < e2.target)
            },
    decreases i,
{
    if i > 0 {
        lemma_emit_props(m, n, i - 1);
        lemma_emit_row_props(m, n, i - 1, n);
        let pre = emit_pre(m, n, i - 1);
        let row = emit_row_pre(m, n, i - 1, n);
        assert(emit_pre(m, n, i) == pre + row);
        assert forall|t: int| 0 <= t < emit_pre(m, n, i).len() implies {
            let e = #[trigger] emit_pre(m, n, i)[t];
            e.source < e.target < n && e.source < i
        } by {
            if t < pre.len() {
                assert(emit_pre(m, n, i)[t] == pre[t]);
            } else {
                assert(emit_pre(m, n, i)[t] == row[t - pre.len()]);
            }
        }
        assert forall|t1: int, t2: int|
            #![trigger emit_pre(m, n, i)[t1], emit_pre(m, n, i)[t2]]
            0 <= t1 < t2 < emit_pre(m, n, i).len() implies {
            let e1 = emit_pre(m, n, i)[t1];
            let e2 = emit_pre(m, n, i)[t2];
            e1.source < e2.source || (e1.source == e2.source && e1.target < e2.target)
        } by {
            if t2 < pre.len() {
                assert(emit_pre(m, n, i)[t1] == pre[t1]);
                assert(emit_pre(m, n, i)[t2] == pre[t2]);
            } else if t1 < pre.len() {
                assert(emit_pre(m, n, i)[t1] == pre[t1]);
                assert(emit_pre(m, n, i)[t2] == row[t2 - pre.len()]);
            } else {
                assert(emit_pre(m, n, i)[t1] == row[t1 - pre.len()]);
                assert(emit_pre(m, n, i)[t2] == row[t2 - pre.len()]);
            }
        }
    }
}

/// The matrix with the unordered pair `(i, j)` set to `v`, both directions.
pub open spec fn spec_set_pair(m: Seq<bool>, n: int, i: int, j: int, v: bool) -> Seq<bool> {
    m.update(i * n + j, v).update(j * n + i, v)
}

/// A symmetric boolean adjacency matrix over node indices `0 .. n`, stored
/// row-major in one flat vector.
pub struct AdjMatrix {
    pub n: usize,
    pub cells: Vec<bool>,
}

impl AdjMatrix {
    /// Entry `(i, j)` as the adjacency relation.
    pub open spec fn at(&self, i: int, j: int) -> bool {
        ent(self.cells@, self.n as int, i, j)
    }

    /// The number of set unordered pairs.
    pub open spec fn pairs(&self) -> int {
        pair_count(self.cells@, self.n as int)
    }

    /// Well-formedness: sized `n * n`, symmetric, and irreflexive.
    pub open spec fn wf(&self) -> bool {
        &&& self.n <= 0xFFFF
        &&& self.cells@.len() == self.n * self.n
        &&& forall|i: int, j: int|
            0 <= i < self.n && 0 <= j < self.n ==> #[trigger] self.at(i, j) == self.at(j, i)
        &&& forall|i: int| 0 <= i < self.n ==> !(#[trigger] self.at(i, i))
    }

    /// An empty adjacency over `n` nodes.
    pub fn new(n: usize) -> (a: AdjMatrix)
        requires
            n <= 0xFFFF,
        ensures
            a.wf(),
            a.n == n,
            forall|i: int, j: int| 0 <= i < n && 0 <= j < n ==> !(#[trigger] a.at(i, j)),
            a.pairs() == 0,
    {
        proof {
            assert((n as int) * (n as int) <= 0xFFFF * 0xFFFF) by (nonlinear_arith)
                requires n <= 0xFFFF;
        }
        let total: usize = n * n;
        let mut cells: Vec<bool> = Vec::with_capacity(total);
        let mut c: usize = 0;
        while c < total
            invariant
                c <= total,
                cells@.len() == c,
                forall|t: int| 0 <= t < c ==> !cells@[t],
            decreases total - c,
        {
            cells.push(false);
            c = c + 1;
        }
        let a = AdjMatrix { n, cells };
        proof {
            assert forall|i: int, j: int| 0 <= i < n && 0 <= j < n implies !(#[trigger] a.at(
                i,
                j,
            )) by {
                lemma_flat_bounds(n as int, i, j);
            }
            assert forall|r: int, t: int| 0 <= r < n && r < t < n implies !ent(
                a.cells@,
                n as int,
                r,
                t,
            ) by {
                lemma_flat_bounds(n as int, r, t);
            }
            lemma_count_emit_empty(a.cells@, n as int, n as int);
        }
        a
    }

    /// Looks up whether `i` and `j` are adjacent.
    pub fn contains(&self, i: usize, j: usize) -> (r: bool)
        requires
            self.wf(),
            i < self.n,
            j < self.n,
        ensures
            r == self.at(i as int, j as int),
    {
        proof {
            lemma_flat_bounds(self.n as int, i as int, j as int);
        }
        self.cells[i * self.n + j]
    }

    /// Connects `i` and `j` (both directions); the pair must be absent.
    pub fn insert(&mut self, i: usize, j: usize)
        requires
            old(self).wf(),
            i != j,
            i < old(self).n,
            j < old(self).n,
            !old(self).at(i as int, j as int),
        ensures
            final(self).wf(),
            final(self).n == old(self).n,
            final(self).at(i as int, j as int),
            forall|a: int, b: int|
                0 <= a < old(self).n && 0 <= b < old(self).n && !(a == i && b == j) && !(a == j
                    && b == i) ==> #[trigger] final(self).at(a, b) == old(self).at(a, b),
            final(self).pairs() == old(self).pairs() + 1,
            final(self).cells@ == spec_set_pair(
                old(self).cells@,
                old(self).n as int,
                i as int,
                j as int,
                true,
            ),
    {
        self.set_pair(i, j, true);
    }

    /// Disconnects `i` and `j` (both directions); the pair must be present.
    pub fn remove(&mut self, i: usize, j: usize)
        requires
            old(self).wf(),
            i != j,
            i < old(self).n,
            j < old(self).n,
            old(self).at(i as int, j as int),
        ensures
            final(self).wf(),
            final(self).n == old(self).n,
            !final(self).at(i as int, j as int),
            forall|a: int, b: int|
                0 <= a < old(self).n && 0 <= b < old(self).n && !(a == i && b == j) && !(a == j
                    && b == i) ==> #[trigger] final(self).at(a, b) == old(self).at(a, b),
            final(self).pairs() == old(self).pairs() - 1,
            final(self).cells@ == spec_set_pair(
                old(self).cells@,
                old(self).n as int,
                i as int,
                j as int,
                false,
            ),
    {
        self.set_pair(i, j, false);
    }

    fn set_pair(&mut self, i: usize, j: usize, v: bool)
        requires
            old(self).wf(),
            i != j,
            i < old(self).n,
            j < old(self).n,
            old(self).at(i as int, j as int) != v,
        ensures
            final(self).wf(),
            final(self).n == old(self).n,
            final(self).at(i as int, j as int) == v,
            forall|a: int, b: int|
                0 <= a < old(self).n && 0 <= b < old(self).n && !(a == i && b == j) && !(a == j
                    && b == i) ==> #[trigger] final(self).at(a, b) == old(self).at(a, b),
            final(self).pairs() == old(self).pairs() + (if v {
                1int
            } else {
                -1int
            }),
            final(self).cells@ == spec_set_pair(
                old(self).cells@,
                old(self).n as int,
                i as int,
                j as int,
                v,
            ),
    {
        let n = self.n;
        let ghost m1 = self.cells@;
        proof {
            lemma_flat_bounds(n as int, i as int, j as int);
            lemma_flat_bounds(n as int, j as int, i as int);
        }
        let idx1: usize = i * n + j;
        let idx2: usize = j * n + i;
        self.cells[idx1] = v;
        self.cells[idx2] = v;
        proof {
            let m2 = self.cells@;
            let ni = n as int;
            let ii = i as int;
            let ji = j as int;
            if ii * ni + ji == ji * ni + ii {
                lemma_flat_injective(ni, ii, ji, ji, ii);
            }
            assert(ii * ni + ji != ji * ni + ii);
            assert(ent(m2, ni, ii, ji) == v);
            assert(ent(m2, ni, ji, ii) == v);
            // every cell outside the updated pair is unchanged
            assert forall|a: int, b: int|
                0 <= a < ni && 0 <= b < ni && !(a == ii && b == ji) && !(a == ji && b == ii)
                    implies #[trigger] ent(m2, ni, a, b) == ent(m1, ni, a, b) by {
                lemma_flat_bounds(ni, a, b);
                if a * ni + b == ii * ni + ji {
                    lemma_flat_injective(ni, a, b, ii, ji);
                }
                if a * ni + b == ji * ni + ii {
                    lemma_flat_injective(ni, a, b, ji, ii);
                }
            }
            // symmetry and irreflexivity are preserved
            assert forall|a: int, b: int| 0 <= a < ni && 0 <= b < ni implies #[trigger] self.at(
                a,
                b,
            ) == self.at(b, a) by {
                if !((a == ii && b == ji) || (a == ji && b == ii)) {
                    assert(old(self).at(a, b) == old(self).at(b, a));
                    assert(ent(m2, ni, a, b) == ent(m1, ni, a, b));
                    assert(ent(m2, ni, b, a) == ent(m1, ni, b, a));
                }
            }
            assert forall|a: int| 0 <= a < ni implies !(#[trigger] self.at(a, a)) by {
                assert(!old(self).at(a, a));
                assert(ent(m2, ni, a, a) == ent(m1, ni, a, a));
            }
            // the pair count moves by exactly the delta of the (lo, hi) cell
            let lo = if ii < ji {
                ii
            } else {
                ji
            };
            let hi = if ii < ji {
                ji
            } else {
                ii
            };
            assert(ent(m1, ni, lo, hi) == old(self).at(ii, ji));
            assert(ent(m2, ni, lo, hi) == v);
            assert forall|r: int, t: int|
                0 <= r < ni && r < t < ni && !(r == lo && t == hi) implies ent(m1, ni, r, t) == ent(
                m2,
                ni,
                r,
                t,
            ) by {
                assert(!(r == ii && t == ji) && !(r == ji && t == ii));
            }
            lemma_count_delta(m1, m2, ni, ni, lo, hi);
        }
    }

    /// Emits the canonical edge list: every set pair once, `source < target`,
    /// lexicographically sorted.
    pub fn emit(&self) -> (edges: Vec<GpugEdge>)
        requires
            self.wf(),
        ensures
            edges@ == emit_all(self.cells@, self.n as int),
            edges@.len() == self.pairs(),
    {
        let n = self.n;
        let mut edges: Vec<GpugEdge> = Vec::new();
        let ghost m = self.cells@;
        for s in 0..n
            invariant
                self.wf(),
                n == self.n,
                m == self.cells@,
                edges@ == emit_pre(m, n as int, s as int),
        {
            let mut t = s + 1;
            while t < n
                invariant
                    self.wf(),
                    n == self.n,
                    m == self.cells@,
                    s < t <= n || (t == s + 1 && t >= n),
                    s < n,
                    edges@ == emit_pre(m, n as int, s as int) + emit_row_pre(
                        m,
                        n as int,
                        s as int,
                        t as int,
                    ),
                decreases n - t,
            {
                if self.contains(s, t) {
                    edges.push(GpugEdge { source: s, target: t });
                }
                proof {
                    assert(edges@ =~= emit_pre(m, n as int, s as int) + emit_row_pre(
                        m,
                        n as int,
                        s as int,
                        t as int + 1,
                    ));
                }
                t = t + 1;
            }
            proof {
                assert(edges@ =~= emit_pre(m, n as int, s as int + 1));
            }
        }
        proof {
            lemma_emit_len(m, n as int, n as int);
        }
        edges
    }
}

} // verus!
