use vstd::prelude::*;

use vstd::arithmetic::div_mod::lemma_fundamental_div_mod;
use vstd::arithmetic::div_mod::lemma_mod_division_less_than_divisor;

use crate::edge::GpugEdge;
use crate::node::GpugNode;
use crate::num::COORD_LIMIT;
use crate::num::FRAC_ONE;
use crate::num::spec_sqrt_ceil;
use crate::num::spec_tdiv;
use crate::num::lemma_tdiv_bound;
use crate::num::sqrt_ceil_u128;
use crate::num::tdiv_i128;
use crate::grid::spec_near_seq;

verus! {

/// Per-axis saturation point of the integrator, far beyond any displacement
/// that the clamp below lets through: it only guards the squaring step
/// against overflow on absurd force magnitudes.
pub const DISP_AXIS_CAP: i128 = 0x4000_0000_0000_0000;

/// Constant parameters of one simulation run. The fractional coefficients
/// (`attraction`, `gravity`, `damping`, `dt`) are numerators over
/// `FRAC_ONE`; coordinates are world units.
#[derive(Clone, Copy, PartialEq, Eq, Structural, Debug)]
pub struct SimParams {
    pub repulsion: u64,
    pub attraction: u32,
    pub gravity: u32,
    pub damping: u32,
    pub dt: u32,
    pub max_disp: u32,
    pub center_x: i64,
    pub center_y: i64,
    pub eps: u64,
    pub cell_size: i64,
}

impl SimParams {
    /// Well-formed parameters: positive softening and cell size, a center
    /// inside the world box, damping at most 1, and a time step at most 4.
    pub open spec fn wf(&self) -> bool {
        &&& 1 <= self.eps
        &&& 1 <= self.cell_size
        &&& -COORD_LIMIT <= self.center_x <= COORD_LIMIT
        &&& -COORD_LIMIT <= self.center_y <= COORD_LIMIT
        &&& self.damping <= FRAC_ONE
        &&& self.dt <= 4 * FRAC_ONE
    }

    /// Run-time check for `wf`, for callers outside verified code.
    pub fn check(&self) -> (b: bool)
        ensures
            b == self.wf(),
    {
        1 <= self.eps && 1 <= self.cell_size && -COORD_LIMIT <= self.center_x && self.center_x
            <= COORD_LIMIT && -COORD_LIMIT <= self.center_y && self.center_y <= COORD_LIMIT
            && self.damping <= FRAC_ONE && self.dt <= 4 * FRAC_ONE
    }
}

/// The x coordinates of a node sequence.
pub open spec fn xs_of(nodes: Seq<GpugNode>) -> Seq<i64> {
    nodes.map(|i: int, nd: GpugNode| nd.x)
}

/// The y coordinates of a node sequence.
pub open spec fn ys_of(nodes: Seq<GpugNode>) -> Seq<i64> {
    nodes.map(|i: int, nd: GpugNode| nd.y)
}

/// Squared distance between nodes `i` and `j`.
pub open spec fn spec_dist2(xs: Seq<i64>, ys: Seq<i64>, i: int, j: int) -> int {
    (xs[j] - xs[i]) * (xs[j] - xs[i]) + (ys[j] - ys[i]) * (ys[j] - ys[i])
}

/// The x component of the repulsion a visited pair `(i, j)` exerts: the
/// separation scaled by `repulsion / (distance^2 + eps)`. Positive pushes
/// `j` to the right; `i` receives the opposite.
pub open spec fn spec_pair_rep_x(xs: Seq<i64>, ys: Seq<i64>, p: SimParams, i: int, j: int) -> int {
    spec_tdiv(p.repulsion * (xs[j] - xs[i]), spec_dist2(xs, ys, i, j) + p.eps)
}

pub open spec fn spec_pair_rep_y(xs: Seq<i64>, ys: Seq<i64>, p: SimParams, i: int, j: int) -> int {
    spec_tdiv(p.repulsion * (ys[j] - ys[i]), spec_dist2(xs, ys, i, j) + p.eps)
}

/// What visiting pair `(i, j)` adds to the x force accumulator of node `m`.
pub open spec fn spec_rep_contrib_x(
    xs: Seq<i64>,
    ys: Seq<i64>,
    p: SimParams,
    i: int,
    j: int,
    m: int,
) -> int {
    (if m == j {
        spec_pair_rep_x(xs, ys, p, i, j)
    } else {
        0int
    }) + (if m == i {
        -spec_pair_rep_x(xs, ys, p, i, j)
    } else {
        0int
    })
}

pub open spec fn spec_rep_contrib_y(
    xs: Seq<i64>,
    ys: Seq<i64>,
    p: SimParams,
    i: int,
    j: int,
    m: int,
) -> int {
    (if m == j {
        spec_pair_rep_y(xs, ys, p, i, j)
    } else {
        0int
    }) + (if m == i {
        -spec_pair_rep_y(xs, ys, p, i, j)
    } else {
        0int
    })
}

/// Repulsion accumulated on node `m` by the first `t` candidates of node
/// `i`'s neighbor enumeration.
pub open spec fn spec_rep_row_x(
    xs: Seq<i64>,
    ys: Seq<i64>,
    p: SimParams,
    i: int,
    t: int,
    m: int,
) -> int
    decreases t,
{
    if t <= 0 {
        0
    } else {
        spec_rep_row_x(xs, ys, p, i, t - 1, m) + spec_rep_contrib_x(
            xs,
            ys,
            p,
            i,
            spec_near_seq(xs, ys, p.cell_size as int, i)[t - 1] as int,
            m,
        )
    }
}

pub open spec fn spec_rep_row_y(
    xs: Seq<i64>,
    ys: Seq<i64>,
    p: SimParams,
    i: int,
    t: int,
    m: int,
) -> int
    decreases t,
{
    if t <= 0 {
        0
    } else {
        spec_rep_row_y(xs, ys, p, i, t - 1, m) + spec_rep_contrib_y(
            xs,
            ys,
            p,
            i,
            spec_near_seq(xs, ys, p.cell_size as int, i)[t - 1] as int,
            m,
        )
    }
}

/// Repulsion accumulated on node `m` once the pair sweep has processed the
/// enumerations of nodes `0 .. i_end`.
pub open spec fn spec_rep_pre_x(
    xs: Seq<i64>,
    ys: Seq<i64>,
    p: SimParams,
    i_end: int,
    m: int,
) -> int
    decreases i_end,
{
    if i_end <= 0 {
        0
    } else {
        spec_rep_pre_x(xs, ys, p, i_end - 1, m) + spec_rep_row_x(
            xs,
            ys,
            p,
            i_end - 1,
            spec_near_seq(xs, ys, p.cell_size as int, i_end - 1).len() as int,
            m,
        )
    }
}

pub open spec fn spec_rep_pre_y(
    xs: Seq<i64>,
    ys: Seq<i64>,
    p: SimParams,
    i_end: int,
    m: int,
) -> int
    decreases i_end,
{
    if i_end <= 0 {
        0
    } else {
        spec_rep_pre_y(xs, ys, p, i_end - 1, m) + spec_rep_row_y(
            xs,
            ys,
            p,
            i_end - 1,
            spec_near_seq(xs, ys, p.cell_size as int, i_end - 1).len() as int,
            m,
        )
    }
}

/// The x spring force of edge `e`: `attraction * (x_target - x_source)`,
/// scaled by `FRAC_ONE`. Applied positively to the source, negatively to
/// the target.
pub open spec fn spec_edge_force_x(xs: Seq<i64>, p: SimParams, e: GpugEdge) -> int {
    spec_tdiv(p.attraction * (xs[e.target as int] - xs[e.source as int]), FRAC_ONE as int)
}

pub open spec fn spec_edge_force_y(ys: Seq<i64>, p: SimParams, e: GpugEdge) -> int {
    spec_tdiv(p.attraction * (ys[e.target as int] - ys[e.source as int]), FRAC_ONE as int)
}

/// What edge `e` adds to the x accumulator of node `m`; an edge with an
/// out-of-range endpoint is skipped defensively.
pub open spec fn spec_att_contrib_x(
    xs: Seq<i64>,
    p: SimParams,
    e: GpugEdge,
    n: int,
    m: int,
) -> int {
    if e.source < n && e.target < n {
        (if m == e.source {
            spec_edge_force_x(xs, p, e)
        } else {
            0int
        }) + (if m == e.target {
            -spec_edge_force_x(xs, p, e)
        } else {
            0int
        })
    } else {
        0
    }
}

pub open spec fn spec_att_contrib_y(
    ys: Seq<i64>,
    p: SimParams,
    e: GpugEdge,
    n: int,
    m: int,
) -> int {
    if e.source < n && e.target < n {
        (if m == e.source {
            spec_edge_force_y(ys, p, e)
        } else {
            0int
        }) + (if m == e.target {
            -spec_edge_force_y(ys, p, e)
        } else {
            0int
        })
    } else {
        0
    }
}

/// Attraction accumulated on node `m` from the first `t` edges.
pub open spec fn spec_att_pre_x(
    xs: Seq<i64>,
    edges: Seq<GpugEdge>,
    p: SimParams,
    n: int,
    t: int,
    m: int,
) -> int
    decreases t,
{
    if t <= 0 {
        0
    } else {
        spec_att_pre_x(xs, edges, p, n, t - 1, m) + spec_att_contrib_x(xs, p, edges[t - 1], n, m)
    }
}

pub open spec fn spec_att_pre_y(
    ys: Seq<i64>,
    edges: Seq<GpugEdge>,
    p: SimParams,
    n: int,
    t: int,
    m: int,
) -> int
    decreases t,
{
    if t <= 0 {
        0
    } else {
        spec_att_pre_y(ys, edges, p, n, t - 1, m) + spec_att_contrib_y(ys, p, edges[t - 1], n, m)
    }
}

/// The centering force on node `m`: `gravity * (center - position)`, scaled
/// by `FRAC_ONE`.
pub open spec fn spec_grav_x(xs: Seq<i64>, p: SimParams, m: int) -> int {
    spec_tdiv(p.gravity * (p.center_x - xs[m]), FRAC_ONE as int)
}

pub open spec fn spec_grav_y(ys: Seq<i64>, p: SimParams, m: int) -> int {
    spec_tdiv(p.gravity * (p.center_y - ys[m]), FRAC_ONE as int)
}

/// The total x force on node `m` in one tick: repulsion over the visited
/// near pairs, spring attraction over the edges, and centering gravity.
pub open spec fn spec_force_x(
    nodes: Seq<GpugNode>,
    edges: Seq<GpugEdge>,
    p: SimParams,
    m: int,
) -> int {
    let xs = xs_of(nodes);
    let ys = ys_of(nodes);
    spec_rep_pre_x(xs, ys, p, nodes.len() as int, m) + spec_att_pre_x(
        xs,
        edges,
        p,
        nodes.len() as int,
        edges.len() as int,
        m,
    ) + spec_grav_x(xs, p, m)
}

pub open spec fn spec_force_y(
    nodes: Seq<GpugNode>,
    edges: Seq<GpugEdge>,
    p: SimParams,
    m: int,
) -> int {
    let xs = xs_of(nodes);
    let ys = ys_of(nodes);
    spec_rep_pre_y(xs, ys, p, nodes.len() as int, m) + spec_att_pre_y(
        ys,
        edges,
        p,
        nodes.len() as int,
        edges.len() as int,
        m,
    ) + spec_grav_y(ys, p, m)
}

/// The unclamped displacement of node `m`: `force * dt * damping`, the two
/// fractions applied in sequence as the integrator computes them.
pub open spec fn spec_raw_disp_x(
    nodes: Seq<GpugNode>,
    edges: Seq<GpugEdge>,
    p: SimParams,
    m: int,
) -> int {
    spec_tdiv(
        spec_tdiv(spec_force_x(nodes, edges, p, m) * p.dt, FRAC_ONE as int) * p.damping,
        FRAC_ONE as int,
    )
}

pub open spec fn spec_raw_disp_y(
    nodes: Seq<GpugNode>,
    edges: Seq<GpugEdge>,
    p: SimParams,
    m: int,
) -> int {
    spec_tdiv(
        spec_tdiv(spec_force_y(nodes, edges, p, m) * p.dt, FRAC_ONE as int) * p.damping,
        FRAC_ONE as int,
    )
}

/// Saturates one displacement axis at `DISP_AXIS_CAP`.
pub open spec fn spec_axis_cap(v: int) -> int {
    if v > DISP_AXIS_CAP {
        DISP_AXIS_CAP as int
    } else if v < -DISP_AXIS_CAP {
        -DISP_AXIS_CAP as int
    } else {
        v
    }
}

/// The per-tick displacement clamp: a displacement whose squared magnitude
/// exceeds `max_disp^2` is rescaled by `max_disp / ceil(sqrt(magnitude^2))`,
/// preserving its direction; a smaller one passes unchanged.
pub open spec fn spec_clamp_disp(dx: int, dy: int, md: int) -> (int, int) {
    let cx = spec_axis_cap(dx);
    let cy = spec_axis_cap(dy);
    let s = cx * cx + cy * cy;
    if s <= md * md {
        (cx, cy)
    } else {
        let m = spec_sqrt_ceil(s);
        (spec_tdiv(cx * md, m), spec_tdiv(cy * md, m))
    }
}

/// Clamps one coordinate into the world box.
pub open spec fn spec_world_clamp(v: int) -> int {
    if v < -COORD_LIMIT {
        -COORD_LIMIT as int
    } else if v > COORD_LIMIT {
        COORD_LIMIT as int
    } else {
        v
    }
}

/// The node that one tick produces at index `i`: position plus clamped
/// displacement, kept inside the world box; the identifier is unchanged.
pub open spec fn spec_tick_node(
    nodes: Seq<GpugNode>,
    edges: Seq<GpugEdge>,
    p: SimParams,
    i: int,
) -> GpugNode {
    let d = spec_clamp_disp(
        spec_raw_disp_x(nodes, edges, p, i),
        spec_raw_disp_y(nodes, edges, p, i),
        p.max_disp as int,
    );
    GpugNode {
        id: nodes[i].id,
        x: spec_world_clamp(nodes[i].x + d.0) as i64,
        y: spec_world_clamp(nodes[i].y + d.1) as i64,
    }
}

/// One pair's repulsion never exceeds the repulsion coefficient per axis:
/// the separation is dominated by the softened squared distance.
proof fn lemma_pair_rep_bound(xs: Seq<i64>, ys: Seq<i64>, p: SimParams, i: int, j: int)
    requires
        1 <= p.eps,
    ensures
        -(p.repulsion as int) <= spec_pair_rep_x(xs, ys, p, i, j) <= p.repulsion as int,
        -(p.repulsion as int) <= spec_pair_rep_y(xs, ys, p, i, j) <= p.repulsion as int,
{
    let dx = xs[j] as int - xs[i] as int;
    let dy = ys[j] as int - ys[i] as int;
    let q = spec_dist2(xs, ys, i, j) + p.eps;
    let rep = p.repulsion as int;
    assert(dx <= q && -dx <= q && dy <= q && -dy <= q && 1 <= q) by (nonlinear_arith)
        requires q == dx * dx + dy * dy + p.eps, 1 <= p.eps;
    assert(-(rep * q) <= rep * dx <= rep * q && -(rep * q) <= rep * dy <= rep * q)
        by (nonlinear_arith)
        requires dx <= q, -dx <= q, dy <= q, -dy <= q, 0 <= rep;
    lemma_tdiv_bound(rep * dx, q, rep);
    lemma_tdiv_bound(rep * dy, q, rep);
}

/// A row adds nothing to a node that is neither the row's origin nor among
/// the candidates seen so far.
proof fn lemma_rep_row_zero(xs: Seq<i64>, ys: Seq<i64>, p: SimParams, i: int, t: int, m: int)
    requires
        m != i,
        forall|u: int|
            0 <= u < t ==> (#[trigger] spec_near_seq(xs, ys, p.cell_size as int, i)[u]) as int
                != m,
    ensures
        spec_rep_row_x(xs, ys, p, i, t, m) == 0,
        spec_rep_row_y(xs, ys, p, i, t, m) == 0,
    decreases t,
{
    if t > 0 {
        lemma_rep_row_zero(xs, ys, p, i, t - 1, m);
    }
}

/// A row's total on a node other than its origin is at most one pair force,
/// provided the candidate list has no duplicates.
proof fn lemma_rep_row_bound_other(xs: Seq<i64>, ys: Seq<i64>, p: SimParams, i: int, t: int, m: int)
    requires
        1 <= p.eps,
        m != i,
        t <= spec_near_seq(xs, ys, p.cell_size as int, i).len(),
        forall|u1: int, u2: int|
            #![trigger spec_near_seq(xs, ys, p.cell_size as int, i)[u1],
                spec_near_seq(xs, ys, p.cell_size as int, i)[u2]]
            0 <= u1 < u2 < spec_near_seq(xs, ys, p.cell_size as int, i).len() ==> spec_near_seq(
                xs,
                ys,
                p.cell_size as int,
                i,
            )[u1] != spec_near_seq(xs, ys, p.cell_size as int, i)[u2],
    ensures
        -(p.repulsion as int) <= spec_rep_row_x(xs, ys, p, i, t, m) <= p.repulsion as int,
        -(p.repulsion as int) <= spec_rep_row_y(xs, ys, p, i, t, m) <= p.repulsion as int,
    decreases t,
{
    let cand = spec_near_seq(xs, ys, p.cell_size as int, i);
    if t > 0 {
        lemma_rep_row_bound_other(xs, ys, p, i, t - 1, m);
        let j = cand[t - 1] as int;
        if j == m {
            assert forall|u: int| 0 <= u < t - 1 implies (#[trigger] cand[u]) as int != m by {
                assert(cand[u] != cand[t - 1]);
            }
            lemma_rep_row_zero(xs, ys, p, i, t - 1, m);
            lemma_pair_rep_bound(xs, ys, p, i, j);
        }
    }
}

/// A row's total on its own origin is at most one pair force per candidate.
proof fn lemma_rep_row_bound_self(xs: Seq<i64>, ys: Seq<i64>, p: SimParams, i: int, t: int)
    requires
        1 <= p.eps,
        0 <= t,
    ensures
        -(t * (p.repulsion as int)) <= spec_rep_row_x(xs, ys, p, i, t, i),
        spec_rep_row_x(xs, ys, p, i, t, i) <= t * (p.repulsion as int),
        -(t * (p.repulsion as int)) <= spec_rep_row_y(xs, ys, p, i, t, i),
        spec_rep_row_y(xs, ys, p, i, t, i) <= t * (p.repulsion as int),
    decreases t,
{
    let rep = p.repulsion as int;
    if t > 0 {
        lemma_rep_row_bound_self(xs, ys, p, i, t - 1);
        let j = spec_near_seq(xs, ys, p.cell_size as int, i)[t - 1] as int;
        lemma_pair_rep_bound(xs, ys, p, i, j);
        assert((t - 1) * rep + rep == t * rep) by (nonlinear_arith);
    }
}

/// The length of a cell member list is at most the width of its index range.
proof fn lemma_members_len(
    xs: Seq<i64>,
    ys: Seq<i64>,
    cs: int,
    cx: int,
    cy: int,
    i: int,
    j_end: int,
)
    ensures
        crate::grid::spec_cell_members(xs, ys, cs, cx, cy, i, j_end).len() <= (if j_end >= i + 1 {
            j_end - i - 1
        } else {
            0
        }),
    decreases j_end - i,
{
    if j_end > i + 1 {
        lemma_members_len(xs, ys, cs, cx, cy, i, j_end - 1);
    }
}

/// A candidate enumeration holds at most `9 n` entries.
proof fn lemma_near_prefix_len(xs: Seq<i64>, ys: Seq<i64>, cs: int, i: int, t: int)
    requires
        0 <= t <= 9,
        -1 <= i,
    ensures
        crate::grid::spec_near_prefix(xs, ys, cs, i, t).len() <= t * (xs.len() as int),
    decreases t,
{
    let cx = crate::grid::spec_cell(xs[i] as int, cs);
    let cy = crate::grid::spec_cell(ys[i] as int, cs);
    if t > 0 {
        lemma_near_prefix_len(xs, ys, cs, i, t - 1);
        lemma_members_len(
            xs,
            ys,
            cs,
            cx + (t - 1) % 3 - 1,
            cy + (t - 1) / 3 - 1,
            i,
            xs.len() as int,
        );
        assert((t - 1) * (xs.len() as int) + xs.len() as int == t * (xs.len() as int))
            by (nonlinear_arith);
    }
}

/// The accumulated repulsion on any node: one pair force per processed row,
/// plus one full row once the sweep has passed the node's own row.
proof fn lemma_rep_pre_bound(xs: Seq<i64>, ys: Seq<i64>, p: SimParams, i_end: int, m: int)
    requires
        1 <= p.eps,
        0 <= i_end <= xs.len(),
        xs.len() == ys.len(),
        xs.len() <= usize::MAX,
    ensures
        -((i_end + (if i_end > m {
            9 * (xs.len() as int)
        } else {
            0
        })) * (p.repulsion as int)) <= spec_rep_pre_x(xs, ys, p, i_end, m),
        spec_rep_pre_x(xs, ys, p, i_end, m) <= (i_end + (if i_end > m {
            9 * (xs.len() as int)
        } else {
            0
        })) * (p.repulsion as int),
        -((i_end + (if i_end > m {
            9 * (xs.len() as int)
        } else {
            0
        })) * (p.repulsion as int)) <= spec_rep_pre_y(xs, ys, p, i_end, m),
        spec_rep_pre_y(xs, ys, p, i_end, m) <= (i_end + (if i_end > m {
            9 * (xs.len() as int)
        } else {
            0
        })) * (p.repulsion as int),
    decreases i_end,
{
    let rep = p.repulsion as int;
    let n = xs.len() as int;
    let cs = p.cell_size as int;
    if i_end > 0 {
        lemma_rep_pre_bound(xs, ys, p, i_end - 1, m);
        let i = i_end - 1;
        let cand = spec_near_seq(xs, ys, cs, i);
        lemma_near_prefix_len(xs, ys, cs, i, 9);
        let prev = if i > m {
            i + 9 * n
        } else {
            i
        };
        let cur = if i_end > m {
            i_end + 9 * n
        } else {
            i_end
        };
        if i == m {
            lemma_rep_row_bound_self(xs, ys, p, i, cand.len() as int);
            assert(prev * rep + (cand.len() as int) * rep <= cur * rep) by (nonlinear_arith)
                requires
                    0 <= rep,
                    prev == i,
                    cur == i_end + 9 * n,
                    i_end == i + 1,
                    cand.len() as int <= 9 * n;
        } else {
            if 0 <= i < xs.len() {
                crate::grid::lemma_near_seq_distinct(xs, ys, cs, i, 9);
            }
            lemma_rep_row_bound_other(xs, ys, p, i, cand.len() as int, m);
            assert(prev * rep + rep <= cur * rep) by (nonlinear_arith)
                requires 0 <= rep, prev + 1 <= cur;
        }
    }
}

/// One edge's spring force per axis is bounded by the attraction
/// coefficient times the world width.
proof fn lemma_att_contrib_bound(
    xs: Seq<i64>,
    ys: Seq<i64>,
    p: SimParams,
    e: GpugEdge,
    n: int,
    m: int,
)
    requires
        n <= xs.len(),
        n <= ys.len(),
        forall|q: int|
            0 <= q < n ==> (-COORD_LIMIT <= (#[trigger] xs[q]) <= COORD_LIMIT && -COORD_LIMIT
                <= ys[q] <= COORD_LIMIT),
    ensures
        -((p.attraction as int) * 0x2_0000) <= spec_att_contrib_x(xs, p, e, n, m),
        spec_att_contrib_x(xs, p, e, n, m) <= (p.attraction as int) * 0x2_0000,
        -((p.attraction as int) * 0x2_0000) <= spec_att_contrib_y(ys, p, e, n, m),
        spec_att_contrib_y(ys, p, e, n, m) <= (p.attraction as int) * 0x2_0000,
{
    let att = p.attraction as int;
    if e.source < n && e.target < n {
        let dx = xs[e.target as int] as int - xs[e.source as int] as int;
        let dy = ys[e.target as int] as int - ys[e.source as int] as int;
        assert(-(att * 0x2_0000 * 0x1_0000) <= att * dx <= att * 0x2_0000 * 0x1_0000 && -(att
            * 0x2_0000 * 0x1_0000) <= att * dy <= att * 0x2_0000 * 0x1_0000) by (nonlinear_arith)
            requires
                -0x2_0000_0000 <= dx <= 0x2_0000_0000,
                -0x2_0000_0000 <= dy <= 0x2_0000_0000,
                0 <= att;
        lemma_tdiv_bound(att * dx, 0x1_0000, att * 0x2_0000);
        lemma_tdiv_bound(att * dy, 0x1_0000, att * 0x2_0000);
        assert(0 <= att * 0x2_0000) by (nonlinear_arith)
            requires 0 <= att;
    } else {
        assert(0 <= att * 0x2_0000) by (nonlinear_arith)
            requires 0 <= att;
    }
}

/// Accumulated attraction grows by at most one bounded spring force per
/// edge.
proof fn lemma_att_pre_bound(
    xs: Seq<i64>,
    ys: Seq<i64>,
    edges: Seq<GpugEdge>,
    p: SimParams,
    n: int,
    t: int,
    m: int,
)
    requires
        0 <= t <= edges.len(),
        n <= xs.len(),
        n <= ys.len(),
        forall|q: int|
            0 <= q < n ==> (-COORD_LIMIT <= (#[trigger] xs[q]) <= COORD_LIMIT && -COORD_LIMIT
                <= ys[q] <= COORD_LIMIT),
    ensures
        -(t * ((p.attraction as int) * 0x2_0000)) <= spec_att_pre_x(xs, edges, p, n, t, m),
        spec_att_pre_x(xs, edges, p, n, t, m) <= t * ((p.attraction as int) * 0x2_0000),
        -(t * ((p.attraction as int) * 0x2_0000)) <= spec_att_pre_y(ys, edges, p, n, t, m),
        spec_att_pre_y(ys, edges, p, n, t, m) <= t * ((p.attraction as int) * 0x2_0000),
    decreases t,
{
    let c = (p.attraction as int) * 0x2_0000;
    if t > 0 {
        lemma_att_pre_bound(xs, ys, edges, p, n, t - 1, m);
        lemma_att_contrib_bound(xs, ys, p, edges[t - 1], n, m);
        assert((t - 1) * c + c == t * c) by (nonlinear_arith);
    }
}

/// The centering force is bounded by the gravity coefficient times the
/// world width.
proof fn lemma_grav_bound(xs: Seq<i64>, ys: Seq<i64>, p: SimParams, m: int)
    requires
        0 <= m < xs.len(),
        0 <= m < ys.len(),
        -COORD_LIMIT <= xs[m] <= COORD_LIMIT,
        -COORD_LIMIT <= ys[m] <= COORD_LIMIT,
        -COORD_LIMIT <= p.center_x <= COORD_LIMIT,
        -COORD_LIMIT <= p.center_y <= COORD_LIMIT,
    ensures
        -((p.gravity as int) * 0x2_0000) <= spec_grav_x(xs, p, m),
        spec_grav_x(xs, p, m) <= (p.gravity as int) * 0x2_0000,
        -((p.gravity as int) * 0x2_0000) <= spec_grav_y(ys, p, m),
        spec_grav_y(ys, p, m) <= (p.gravity as int) * 0x2_0000,
{
    let g = p.gravity as int;
    let dx = p.center_x as int - xs[m] as int;
    let dy = p.center_y as int - ys[m] as int;
    assert(-(g * 0x2_0000 * 0x1_0000) <= g * dx <= g * 0x2_0000 * 0x1_0000 && -(g * 0x2_0000
        * 0x1_0000) <= g * dy <= g * 0x2_0000 * 0x1_0000) by (nonlinear_arith)
        requires
            -0x2_0000_0000 <= dx <= 0x2_0000_0000,
            -0x2_0000_0000 <= dy <= 0x2_0000_0000,
            0 <= g;
    lemma_tdiv_bound(g * dx, 0x1_0000, g * 0x2_0000);
    lemma_tdiv_bound(g * dy, 0x1_0000, g * 0x2_0000);
}

/// Applies the displacement clamp. However large the incoming force-derived
/// displacement is, the result's squared magnitude never exceeds
/// `max_disp^2`, and a displacement already within the bound is returned
/// unchanged.
pub fn clamp_displacement(dx: i128, dy: i128, max_disp: u32) -> (r: (i64, i64))
    ensures
        r.0 as int == spec_clamp_disp(dx as int, dy as int, max_disp as int).0,
        r.1 as int == spec_clamp_disp(dx as int, dy as int, max_disp as int).1,
        (r.0 as int) * (r.0 as int) + (r.1 as int) * (r.1 as int) <= (max_disp as int) * (
        max_disp as int),
        -(max_disp as int) <= r.0 as int <= max_disp as int,
        -(max_disp as int) <= r.1 as int <= max_disp as int,
{
    let cx: i128 = if dx > DISP_AXIS_CAP {
        DISP_AXIS_CAP
    } else if dx < -DISP_AXIS_CAP {
        -DISP_AXIS_CAP
    } else {
        dx
    };
    let cy: i128 = if dy > DISP_AXIS_CAP {
        DISP_AXIS_CAP
    } else if dy < -DISP_AXIS_CAP {
        -DISP_AXIS_CAP
    } else {
        dy
    };
    proof {
        let ci = cx as int;
        let di = cy as int;
        assert(ci * ci + di * di <= 0x20000000000000000000000000000000) by (nonlinear_arith)
            requires
                -0x4000_0000_0000_0000 <= ci <= 0x4000_0000_0000_0000,
                -0x4000_0000_0000_0000 <= di <= 0x4000_0000_0000_0000;
        assert(ci * ci >= 0 && di * di >= 0) by (nonlinear_arith);
    }
    let s: u128 = (cx * cx + cy * cy) as u128;
    let md: u32 = max_disp;
    proof {
        assert((md as u128) * (md as u128) <= 0xFFFF_FFFFu128 * 0xFFFF_FFFFu128)
            by (nonlinear_arith)
            requires md as u128 <= 0xFFFF_FFFFu128;
    }
    let md2: u128 = (md as u128) * (md as u128);
    if s <= md2 {
        proof {
            let ci = cx as int;
            let di = cy as int;
            let mi = md as int;
            assert(-mi <= ci <= mi && -mi <= di <= mi) by (nonlinear_arith)
                requires ci * ci + di * di <= mi * mi, 0 <= mi;
        }
        (cx as i64, cy as i64)
    } else {
        let m = sqrt_ceil_u128(s);
        proof {
            let ci = cx as int;
            let di = cy as int;
            let mi = md as int;
            let sq = m as int;
            assert(1 <= sq) by (nonlinear_arith)
                requires s as int <= sq * sq, s as int >= 1, 0 <= sq;
            assert(ci * ci <= s as int && di * di <= s as int) by (nonlinear_arith)
                requires ci * ci + di * di == s as int;
            assert(-sq <= ci <= sq && -sq <= di <= sq) by (nonlinear_arith)
                requires
                    ci * ci <= sq * sq,
                    di * di <= sq * sq,
                    0 <= sq;
            assert(-(mi * sq) <= ci * mi <= mi * sq) by (nonlinear_arith)
                requires -sq <= ci <= sq, 0 <= mi;
            assert(-(mi * sq) <= di * mi <= mi * sq) by (nonlinear_arith)
                requires -sq <= di <= sq, 0 <= mi;
            lemma_tdiv_bound(ci * mi, sq, mi);
            lemma_tdiv_bound(di * mi, sq, mi);
            assert(-0x400000000000000000000000 <= ci * mi <= 0x400000000000000000000000
                && -0x400000000000000000000000 <= di * mi <= 0x400000000000000000000000)
                by (nonlinear_arith)
                requires
                    -0x4000_0000_0000_0000 <= ci <= 0x4000_0000_0000_0000,
                    -0x4000_0000_0000_0000 <= di <= 0x4000_0000_0000_0000,
                    0 <= mi < 0x1_0000_0000;
        }
        let rx = tdiv_i128(cx * (md as i128), m as i128);
        let ry = tdiv_i128(cy * (md as i128), m as i128);
        proof {
            let ci = cx as int;
            let di = cy as int;
            let mi = md as int;
            let sq = m as int;
            let rxi = rx as int;
            let ryi = ry as int;
            lemma_tdiv_mul_le(ci * mi, sq, rxi);
            lemma_tdiv_mul_le(di * mi, sq, ryi);
            assert(rxi * rxi * (sq * sq) <= (ci * mi) * (ci * mi)) by (nonlinear_arith)
                requires
                    -(ci * mi) <= rxi * sq <= ci * mi || ci * mi <= rxi * sq <= -(ci * mi),
                    1 <= sq;
            assert(ryi * ryi * (sq * sq) <= (di * mi) * (di * mi)) by (nonlinear_arith)
                requires
                    -(di * mi) <= ryi * sq <= di * mi || di * mi <= ryi * sq <= -(di * mi),
                    1 <= sq;
            assert((ci * mi) * (ci * mi) + (di * mi) * (di * mi) == (s as int) * (mi * mi))
                by (nonlinear_arith)
                requires s as int == ci * ci + di * di;
            assert((rxi * rxi + ryi * ryi) * (sq * sq) <= (sq * sq) * (mi * mi))
                by (nonlinear_arith)
                requires
                    rxi * rxi * (sq * sq) <= (ci * mi) * (ci * mi),
                    ryi * ryi * (sq * sq) <= (di * mi) * (di * mi),
                    (ci * mi) * (ci * mi) + (di * mi) * (di * mi) == (s as int) * (mi * mi),
                    s as int <= sq * sq,
                    0 <= mi;
            assert(rxi * rxi + ryi * ryi <= mi * mi) by (nonlinear_arith)
                requires
                    (rxi * rxi + ryi * ryi) * (sq * sq) <= (sq * sq) * (mi * mi),
                    1 <= sq;
        }
        (rx as i64, ry as i64)
    }
}

/// Truncating division multiplied back never overshoots the dividend in
/// magnitude.
proof fn lemma_tdiv_mul_le(a: int, b: int, q: int)
    requires
        1 <= b,
        q == spec_tdiv(a, b),
    ensures
        -a <= q * b <= a || a <= q * b <= -a,
{
    if a >= 0 {
        lemma_fundamental_div_mod(a, b);
        lemma_mod_division_less_than_divisor(a, b);
        assert(0 <= (a / b) * b <= a) by (nonlinear_arith)
            requires a == b * (a / b) + a % b, 0 <= a % b < b, 1 <= b, 0 <= a;
    } else {
        lemma_fundamental_div_mod(-a, b);
        lemma_mod_division_less_than_divisor(-a, b);
        assert(0 <= ((-a) / b) * b <= -a) by (nonlinear_arith)
            requires -a == b * ((-a) / b) + (-a) % b, 0 <= (-a) % b < b, 1 <= b, 0 <= -a;
        assert(q * b == -(((-a) / b) * b)) by (nonlinear_arith)
            requires q == -((-a) / b);
    }
}


/// One simulation tick, as a pure function of the current nodes, the edge
/// set and the parameters: repulsion over the grid-enumerated near pairs,
/// spring attraction over the edges, centering gravity, then a damped Euler
/// step whose displacement magnitude is clamped to `max_disp` and whose
/// result is kept inside the world box. The whole output is pinned to
/// `spec_tick_node`: equal inputs always give equal output, and inputs are
/// not mutated.
pub fn tick(nodes: &Vec<GpugNode>, edges: &Vec<GpugEdge>, params: &SimParams) -> (out: Vec<
    GpugNode,
>)
    requires
        params.wf(),
        nodes@.len() <= 0x1_0000_0000,
        edges@.len() <= 0x1_0000_0000,
        forall|i: int|
            0 <= i < nodes@.len() ==> (-COORD_LIMIT <= (#[trigger] nodes@[i]).x <= COORD_LIMIT
                && -COORD_LIMIT <= nodes@[i].y <= COORD_LIMIT),
    ensures
        out@.len() == nodes@.len(),
        forall|i: int|
            0 <= i < nodes@.len() ==> (#[trigger] out@[i]) == spec_tick_node(
                nodes@,
                edges@,
                *params,
                i,
            ),
        forall|i: int|
            0 <= i < nodes@.len() ==> (-COORD_LIMIT <= (#[trigger] out@[i]).x <= COORD_LIMIT
                && -COORD_LIMIT <= out@[i].y <= COORD_LIMIT && out@[i].id == nodes@[i].id),
        forall|i: int|
            0 <= i < nodes@.len() ==> ((#[trigger] out@[i]).x - nodes@[i].x) * (out@[i].x
                - nodes@[i].x) + (out@[i].y - nodes@[i].y) * (out@[i].y - nodes@[i].y) <= (
            params.max_disp as int) * (params.max_disp as int),
{
    let pp = *params;
    let ghost gp = *params;
    let n = nodes.len();
    let ghost gnodes = nodes@;
    let ghost gedges = edges@;
    let mut xs: Vec<i64> = Vec::with_capacity(n);
    let mut ys: Vec<i64> = Vec::with_capacity(n);
    for i in 0..n
        invariant
            n == gnodes.len(),
            gnodes == nodes@,
            xs@.len() == i,
            ys@.len() == i,
            forall|q: int| 0 <= q < i ==> (#[trigger] xs@[q]) == gnodes[q].x,
            forall|q: int| 0 <= q < i ==> (#[trigger] ys@[q]) == gnodes[q].y,
    {
        xs.push(nodes[i].x);
        ys.push(nodes[i].y);
    }
    let ghost gxs = xs_of(gnodes);
    let ghost gys = ys_of(gnodes);
    let ghost csi = gp.cell_size as int;
    proof {
        assert(xs@ =~= gxs);
        assert(ys@ =~= gys);
        assert forall|q: int|
            0 <= q < n implies (-COORD_LIMIT <= (#[trigger] gxs[q]) <= COORD_LIMIT && -COORD_LIMIT
            <= gys[q] <= COORD_LIMIT) by {
            assert(gxs[q] == gnodes[q].x);
            assert(gys[q] == gnodes[q].y);
        }
    }
    let grid = crate::grid::build_grid(&xs, &ys, pp.cell_size);
    let mut fx: Vec<i128> = Vec::with_capacity(n);
    let mut fy: Vec<i128> = Vec::with_capacity(n);
    for i in 0..n
        invariant
            fx@.len() == i,
            fy@.len() == i,
            forall|q: int| 0 <= q < i ==> (#[trigger] fx@[q]) == 0,
            forall|q: int| 0 <= q < i ==> (#[trigger] fy@[q]) == 0,
    {
        fx.push(0);
        fy.push(0);
    }

    // Repulsion over each node's candidate enumeration; equal and opposite
    // contributions per visited pair.
    for i in 0..n
        invariant
            pp == gp,
            gp.wf(),
            grid.wf(),
            grid.xs@ == gxs,
            grid.ys@ == gys,
            grid.cell_size == gp.cell_size,
            csi == gp.cell_size as int,
            n == gnodes.len(),
            gxs.len() == n,
            gys.len() == n,
            n <= 0x1_0000_0000,
            xs@ == gxs,
            ys@ == gys,
            forall|q: int|
                0 <= q < n ==> (-COORD_LIMIT <= (#[trigger] gxs[q]) <= COORD_LIMIT && -COORD_LIMIT
                    <= gys[q] <= COORD_LIMIT),
            fx@.len() == n,
            fy@.len() == n,
            forall|m: int|
                0 <= m < n ==> (#[trigger] fx@[m]) == spec_rep_pre_x(gxs, gys, gp, i as int, m),
            forall|m: int|
                0 <= m < n ==> (#[trigger] fy@[m]) == spec_rep_pre_y(gxs, gys, gp, i as int, m),
    {
        let cand = grid.neighbors_after(i);
        let clen = cand.len();
        let ghost gcand = spec_near_seq(gxs, gys, csi, i as int);
        proof {
            lemma_near_prefix_len(gxs, gys, csi, i as int, 9);
        }
        for t in 0..clen
            invariant
                pp == gp,
                gp.wf(),
                csi == gp.cell_size as int,
                n == gnodes.len(),
                gxs.len() == n,
                gys.len() == n,
                n <= 0x1_0000_0000,
                xs@ == gxs,
                ys@ == gys,
                forall|q: int|
                    0 <= q < n ==> (-COORD_LIMIT <= (#[trigger] gxs[q]) <= COORD_LIMIT
                        && -COORD_LIMIT <= gys[q] <= COORD_LIMIT),
                fx@.len() == n,
                fy@.len() == n,
                i < n,
                cand@ == gcand,
                gcand == spec_near_seq(gxs, gys, csi, i as int),
                clen == gcand.len(),
                gcand.len() <= 9 * (n as int),
                forall|m: int|
                    0 <= m < n ==> (#[trigger] fx@[m]) == spec_rep_pre_x(gxs, gys, gp, i as int, m)
                        + spec_rep_row_x(gxs, gys, gp, i as int, t as int, m),
                forall|m: int|
                    0 <= m < n ==> (#[trigger] fy@[m]) == spec_rep_pre_y(gxs, gys, gp, i as int, m)
                        + spec_rep_row_y(gxs, gys, gp, i as int, t as int, m),
        {
            let j = cand[t];
            proof {
                assert(gcand[t as int] == j);
                assert(gcand.contains(j));
                crate::grid::lemma_near_seq_contains(gxs, gys, csi, i as int, j as int);
            }
            let dxv: i128 = (xs[j] as i128) - (xs[i] as i128);
            let dyv: i128 = (ys[j] as i128) - (ys[i] as i128);
            proof {
                assert(0 <= dxv * dxv <= 0x4_0000_0000_0000_0000 && 0 <= dyv * dyv
                    <= 0x4_0000_0000_0000_0000) by (nonlinear_arith)
                    requires
                        -0x2_0000_0000 <= dxv <= 0x2_0000_0000,
                        -0x2_0000_0000 <= dyv <= 0x2_0000_0000;
            }
            let d2: i128 = dxv * dxv + dyv * dyv;
            let denom: i128 = d2 + (pp.eps as i128);
            proof {
                let rep = gp.repulsion as int;
                assert(-0x2_0000_0000_0000_0000_0000_0000 <= rep * dxv
                    && rep * dxv <= 0x2_0000_0000_0000_0000_0000_0000
                    && -0x2_0000_0000_0000_0000_0000_0000 <= rep * dyv
                    && rep * dyv <= 0x2_0000_0000_0000_0000_0000_0000) by (nonlinear_arith)
                    requires
                        -0x2_0000_0000 <= dxv <= 0x2_0000_0000,
                        -0x2_0000_0000 <= dyv <= 0x2_0000_0000,
                        0 <= rep < 0x1_0000_0000_0000_0000;
            }
            let fxp = tdiv_i128((pp.repulsion as i128) * dxv, denom);
            let fyp = tdiv_i128((pp.repulsion as i128) * dyv, denom);
            proof {
                assert(d2 == spec_dist2(gxs, gys, i as int, j as int));
                assert(fxp == spec_pair_rep_x(gxs, gys, gp, i as int, j as int));
                assert(fyp == spec_pair_rep_y(gxs, gys, gp, i as int, j as int));
                lemma_pair_rep_bound(gxs, gys, gp, i as int, j as int);
                lemma_rep_pre_bound(gxs, gys, gp, i as int, i as int);
                lemma_rep_pre_bound(gxs, gys, gp, i as int, j as int);
                lemma_rep_row_bound_self(gxs, gys, gp, i as int, t as int);
                crate::grid::lemma_near_seq_distinct(gxs, gys, csi, i as int, 9);
                lemma_rep_row_bound_other(gxs, gys, gp, i as int, t as int, j as int);
                let rep = gp.repulsion as int;
                let ni = n as int;
                let ii = i as int;
                let ti = t as int;
                assert(ii * rep + ti * rep + rep <= 0x100_0000_0000_0000_0000_0000_0000 && (ii
                    + 9 * ni) * rep + rep + rep <= 0x100_0000_0000_0000_0000_0000_0000)
                    by (nonlinear_arith)
                    requires
                        0 <= ii <= ni,
                        0 <= ti <= 9 * ni,
                        ni <= 0x1_0000_0000,
                        0 <= rep < 0x1_0000_0000_0000_0000;
            }
            let cfxi = fx[i];
            fx[i] = cfxi - fxp;
            let cfxj = fx[j];
            fx[j] = cfxj + fxp;
            let cfyi = fy[i];
            fy[i] = cfyi - fyp;
            let cfyj = fy[j];
            fy[j] = cfyj + fyp;
            proof {
                let ii = i as int;
                let ji = j as int;
                let ti = t as int;
                assert forall|m: int|
                    0 <= m < n implies (#[trigger] fx@[m]) == spec_rep_pre_x(gxs, gys, gp, ii, m)
                    + spec_rep_row_x(gxs, gys, gp, ii, ti + 1, m) by {
                    assert(spec_rep_row_x(gxs, gys, gp, ii, ti + 1, m) == spec_rep_row_x(
                        gxs,
                        gys,
                        gp,
                        ii,
                        ti,
                        m,
                    ) + spec_rep_contrib_x(gxs, gys, gp, ii, ji, m));
                }
                assert forall|m: int|
                    0 <= m < n implies (#[trigger] fy@[m]) == spec_rep_pre_y(gxs, gys, gp, ii, m)
                    + spec_rep_row_y(gxs, gys, gp, ii, ti + 1, m) by {
                    assert(spec_rep_row_y(gxs, gys, gp, ii, ti + 1, m) == spec_rep_row_y(
                        gxs,
                        gys,
                        gp,
                        ii,
                        ti,
                        m,
                    ) + spec_rep_contrib_y(gxs, gys, gp, ii, ji, m));
                }
            }
        }
        proof {
            let ii = i as int;
            assert forall|m: int|
                0 <= m < n implies (#[trigger] fx@[m]) == spec_rep_pre_x(gxs, gys, gp, ii + 1, m)
                by {
                assert(spec_rep_pre_x(gxs, gys, gp, ii + 1, m) == spec_rep_pre_x(gxs, gys, gp, ii, m)
                    + spec_rep_row_x(gxs, gys, gp, ii, gcand.len() as int, m));
            }
            assert forall|m: int|
                0 <= m < n implies (#[trigger] fy@[m]) == spec_rep_pre_y(gxs, gys, gp, ii + 1, m)
                by {
                assert(spec_rep_pre_y(gxs, gys, gp, ii + 1, m) == spec_rep_pre_y(gxs, gys, gp, ii, m)
                    + spec_rep_row_y(gxs, gys, gp, ii, gcand.len() as int, m));
            }
        }
    }

    // Spring attraction along each edge; an out-of-range endpoint skips the
    // edge for this tick.
    let elen = edges.len();
    for t in 0..elen
        invariant
            pp == gp,
            gp.wf(),
            n == gnodes.len(),
            gxs.len() == n,
            gys.len() == n,
            n <= 0x1_0000_0000,
            xs@ == gxs,
            ys@ == gys,
            gedges == edges@,
            elen == gedges.len(),
            gedges.len() <= 0x1_0000_0000,
            forall|q: int|
                0 <= q < n ==> (-COORD_LIMIT <= (#[trigger] gxs[q]) <= COORD_LIMIT && -COORD_LIMIT
                    <= gys[q] <= COORD_LIMIT),
            fx@.len() == n,
            fy@.len() == n,
            forall|m: int|
                0 <= m < n ==> (#[trigger] fx@[m]) == spec_rep_pre_x(gxs, gys, gp, n as int, m)
                    + spec_att_pre_x(gxs, gedges, gp, n as int, t as int, m),
            forall|m: int|
                0 <= m < n ==> (#[trigger] fy@[m]) == spec_rep_pre_y(gxs, gys, gp, n as int, m)
                    + spec_att_pre_y(gys, gedges, gp, n as int, t as int, m),
    {
        let e = edges[t];
        if e.source < n && e.target < n {
            let dxv: i128 = (xs[e.target] as i128) - (xs[e.source] as i128);
            let dyv: i128 = (ys[e.target] as i128) - (ys[e.source] as i128);
            proof {
                let att = gp.attraction as int;
                assert(-(att * 0x2_0000 * 0x1_0000) <= att * dxv && att * dxv <= att * 0x2_0000
                    * 0x1_0000 && -(att * 0x2_0000 * 0x1_0000) <= att * dyv && att * dyv <= att
                    * 0x2_0000 * 0x1_0000) by (nonlinear_arith)
                    requires
                        -0x2_0000_0000 <= dxv <= 0x2_0000_0000,
                        -0x2_0000_0000 <= dyv <= 0x2_0000_0000,
                        0 <= att;
                assert(att * 0x2_0000 * 0x1_0000 <= 0x2_0000_0000_0000_0000) by (nonlinear_arith)
                    requires 0 <= att < 0x1_0000_0000;
                lemma_tdiv_bound(att * dxv, 0x1_0000, att * 0x2_0000);
                lemma_tdiv_bound(att * dyv, 0x1_0000, att * 0x2_0000);
                lemma_rep_pre_bound(gxs, gys, gp, n as int, e.source as int);
                lemma_rep_pre_bound(gxs, gys, gp, n as int, e.target as int);
                lemma_att_pre_bound(gxs, gys, gedges, gp, n as int, t as int, e.source as int);
                lemma_att_pre_bound(gxs, gys, gedges, gp, n as int, t as int, e.target as int);
                let rep = gp.repulsion as int;
                let ni = n as int;
                assert((ni + 9 * ni) * rep + (t as int) * (att * 0x2_0000) + att * 0x2_0000
                    <= 0x1000_0000_0000_0000_0000_0000_0000) by (nonlinear_arith)
                    requires
                        0 <= ni <= 0x1_0000_0000,
                        0 <= rep < 0x1_0000_0000_0000_0000,
                        0 <= att < 0x1_0000_0000,
                        0 <= t as int <= 0x1_0000_0000;
            }
            let fax = tdiv_i128((pp.attraction as i128) * dxv, 0x1_0000);
            let fay = tdiv_i128((pp.attraction as i128) * dyv, 0x1_0000);
            proof {
                assert(fax == spec_edge_force_x(gxs, gp, gedges[t as int]));
                assert(fay == spec_edge_force_y(gys, gp, gedges[t as int]));
            }
            let cfs = fx[e.source];
            fx[e.source] = cfs + fax;
            let cft = fx[e.target];
            fx[e.target] = cft - fax;
            let cgs = fy[e.source];
            fy[e.source] = cgs + fay;
            let cgt = fy[e.target];
            fy[e.target] = cgt - fay;
        }
        proof {
            let ti = t as int;
            assert forall|m: int|
                0 <= m < n implies (#[trigger] fx@[m]) == spec_rep_pre_x(gxs, gys, gp, n as int, m)
                + spec_att_pre_x(gxs, gedges, gp, n as int, ti + 1, m) by {
                assert(spec_att_pre_x(gxs, gedges, gp, n as int, ti + 1, m) == spec_att_pre_x(
                    gxs,
                    gedges,
                    gp,
                    n as int,
                    ti,
                    m,
                ) + spec_att_contrib_x(gxs, gp, gedges[ti], n as int, m));
            }
            assert forall|m: int|
                0 <= m < n implies (#[trigger] fy@[m]) == spec_rep_pre_y(gxs, gys, gp, n as int, m)
                + spec_att_pre_y(gys, gedges, gp, n as int, ti + 1, m) by {
                assert(spec_att_pre_y(gys, gedges, gp, n as int, ti + 1, m) == spec_att_pre_y(
                    gys,
                    gedges,
                    gp,
                    n as int,
                    ti,
                    m,
                ) + spec_att_contrib_y(gys, gp, gedges[ti], n as int, m));
            }
        }
    }

    // Gravity, integration, clamping, and the synchronous write-back.
    let mut out: Vec<GpugNode> = Vec::with_capacity(n);
    for i in 0..n
        invariant
            pp == gp,
            gp.wf(),
            n == gnodes.len(),
            gnodes == nodes@,
            gedges == edges@,
            gxs.len() == n,
            gys.len() == n,
            n <= 0x1_0000_0000,
            xs@ == gxs,
            ys@ == gys,
            gxs == xs_of(gnodes),
            gys == ys_of(gnodes),
            gedges.len() <= 0x1_0000_0000,
            forall|q: int|
                0 <= q < n ==> (-COORD_LIMIT <= (#[trigger] gxs[q]) <= COORD_LIMIT && -COORD_LIMIT
                    <= gys[q] <= COORD_LIMIT),
            fx@.len() == n,
            fy@.len() == n,
            forall|m: int|
                0 <= m < n ==> (#[trigger] fx@[m]) == spec_rep_pre_x(gxs, gys, gp, n as int, m)
                    + spec_att_pre_x(gxs, gedges, gp, n as int, gedges.len() as int, m),
            forall|m: int|
                0 <= m < n ==> (#[trigger] fy@[m]) == spec_rep_pre_y(gxs, gys, gp, n as int, m)
                    + spec_att_pre_y(gys, gedges, gp, n as int, gedges.len() as int, m),
            out@.len() == i,
            forall|q: int|
                0 <= q < i ==> (#[trigger] out@[q]) == spec_tick_node(gnodes, gedges, gp, q),
            forall|q: int|
                0 <= q < i ==> (-COORD_LIMIT <= (#[trigger] out@[q]).x <= COORD_LIMIT
                    && -COORD_LIMIT <= out@[q].y <= COORD_LIMIT && out@[q].id == gnodes[q].id),
            forall|q: int|
                0 <= q < i ==> ((#[trigger] out@[q]).x - gnodes[q].x) * (out@[q].x - gnodes[q].x)
                    + (out@[q].y - gnodes[q].y) * (out@[q].y - gnodes[q].y) <= (
                gp.max_disp as int) * (gp.max_disp as int),
    {
        proof {
            let g = gp.gravity as int;
            let dgx = gp.center_x as int - gxs[i as int] as int;
            let dgy = gp.center_y as int - gys[i as int] as int;
            assert(-(g * 0x2_0000 * 0x1_0000) <= g * dgx && g * dgx <= g * 0x2_0000 * 0x1_0000
                && -(g * 0x2_0000 * 0x1_0000) <= g * dgy && g * dgy <= g * 0x2_0000 * 0x1_0000)
                by (nonlinear_arith)
                requires
                    -0x2_0000_0000 <= dgx <= 0x2_0000_0000,
                    -0x2_0000_0000 <= dgy <= 0x2_0000_0000,
                    0 <= g;
            assert(g * 0x2_0000 * 0x1_0000 <= 0x2_0000_0000_0000_0000) by (nonlinear_arith)
                requires 0 <= g < 0x1_0000_0000;
        }
        let gvx = tdiv_i128(
            (pp.gravity as i128) * ((pp.center_x as i128) - (xs[i] as i128)),
            0x1_0000,
        );
        let gvy = tdiv_i128(
            (pp.gravity as i128) * ((pp.center_y as i128) - (ys[i] as i128)),
            0x1_0000,
        );
        proof {
            assert(gvx == spec_grav_x(gxs, gp, i as int));
            assert(gvy == spec_grav_y(gys, gp, i as int));
            lemma_grav_bound(gxs, gys, gp, i as int);
            lemma_rep_pre_bound(gxs, gys, gp, n as int, i as int);
            lemma_att_pre_bound(gxs, gys, gedges, gp, n as int, gedges.len() as int, i as int);
            let rep = gp.repulsion as int;
            let att = gp.attraction as int;
            let g = gp.gravity as int;
            let ni = n as int;
            let ei = gedges.len() as int;
            assert((ni + 9 * ni) * rep + ei * (att * 0x2_0000) + g * 0x2_0000
                <= 0x1000_0000_0000_0000_0000_0000_0000) by (nonlinear_arith)
                requires
                    0 <= ni <= 0x1_0000_0000,
                    0 <= ei <= 0x1_0000_0000,
                    0 <= rep < 0x1_0000_0000_0000_0000,
                    0 <= att < 0x1_0000_0000,
                    0 <= g < 0x1_0000_0000;
        }
        let ftx: i128 = fx[i] + gvx;
        let fty: i128 = fy[i] + gvy;
        proof {
            assert(ftx == spec_force_x(gnodes, gedges, gp, i as int));
            assert(fty == spec_force_y(gnodes, gedges, gp, i as int));
            let dti = gp.dt as int;
            assert(-0x4000_0000_0000_0000_0000_0000_0000_0000 <= ftx * dti
                && ftx * dti <= 0x4000_0000_0000_0000_0000_0000_0000_0000
                && -0x4000_0000_0000_0000_0000_0000_0000_0000 <= fty * dti
                && fty * dti <= 0x4000_0000_0000_0000_0000_0000_0000_0000
                && 0x4000_0000_0000_0000_0000_0000_0000 * 0x1_0000
                    == 0x4000_0000_0000_0000_0000_0000_0000_0000) by (nonlinear_arith)
                requires
                    -0x1000_0000_0000_0000_0000_0000_0000 <= ftx
                        <= 0x1000_0000_0000_0000_0000_0000_0000,
                    -0x1000_0000_0000_0000_0000_0000_0000 <= fty
                        <= 0x1000_0000_0000_0000_0000_0000_0000,
                    0 <= dti <= 0x4_0000;
            lemma_tdiv_bound(ftx * dti, 0x1_0000, 0x4000_0000_0000_0000_0000_0000_0000);
            lemma_tdiv_bound(fty * dti, 0x1_0000, 0x4000_0000_0000_0000_0000_0000_0000);
        }
        let d1x = tdiv_i128(ftx * (pp.dt as i128), 0x1_0000);
        let d1y = tdiv_i128(fty * (pp.dt as i128), 0x1_0000);
        proof {
            let dmp = gp.damping as int;
            assert(-0x4000_0000_0000_0000_0000_0000_0000_0000 <= d1x * dmp
                && d1x * dmp <= 0x4000_0000_0000_0000_0000_0000_0000_0000
                && -0x4000_0000_0000_0000_0000_0000_0000_0000 <= d1y * dmp
                && d1y * dmp <= 0x4000_0000_0000_0000_0000_0000_0000_0000) by (nonlinear_arith)
                requires
                    -0x4000_0000_0000_0000_0000_0000_0000 <= d1x
                        <= 0x4000_0000_0000_0000_0000_0000_0000,
                    -0x4000_0000_0000_0000_0000_0000_0000 <= d1y
                        <= 0x4000_0000_0000_0000_0000_0000_0000,
                    0 <= dmp <= 0x1_0000;
        }
        let ddx = tdiv_i128(d1x * (pp.damping as i128), 0x1_0000);
        let ddy = tdiv_i128(d1y * (pp.damping as i128), 0x1_0000);
        proof {
            assert(ddx == spec_raw_disp_x(gnodes, gedges, gp, i as int));
            assert(ddy == spec_raw_disp_y(gnodes, gedges, gp, i as int));
        }
        let (cdx, cdy) = clamp_displacement(ddx, ddy, pp.max_disp);
        let nx0: i64 = xs[i] + cdx;
        let ny0: i64 = ys[i] + cdy;
        let nx: i64 = if nx0 < -COORD_LIMIT {
            -COORD_LIMIT
        } else if nx0 > COORD_LIMIT {
            COORD_LIMIT
        } else {
            nx0
        };
        let ny: i64 = if ny0 < -COORD_LIMIT {
            -COORD_LIMIT
        } else if ny0 > COORD_LIMIT {
            COORD_LIMIT
        } else {
            ny0
        };
        out.push(GpugNode { id: nodes[i].id, x: nx, y: ny });
        proof {
            assert(out@[i as int] == spec_tick_node(gnodes, gedges, gp, i as int));
            // the world clamp can only shrink each axis of the (already
            // magnitude-clamped) displacement
            let ox = gnodes[i as int].x as int;
            let oy = gnodes[i as int].y as int;
            let ax = nx as int - ox;
            let ay = ny as int - oy;
            assert(-(cdx as int) <= ax <= cdx as int || cdx as int <= ax <= -(cdx as int));
            assert(-(cdy as int) <= ay <= cdy as int || cdy as int <= ay <= -(cdy as int));
            assert(ax * ax + ay * ay <= (gp.max_disp as int) * (gp.max_disp as int))
                by (nonlinear_arith)
                requires
                    -(cdx as int) <= ax <= cdx as int || cdx as int <= ax <= -(cdx as int),
                    -(cdy as int) <= ay <= cdy as int || cdy as int <= ay <= -(cdy as int),
                    (cdx as int) * (cdx as int) + (cdy as int) * (cdy as int) <= (
                    gp.max_disp as int) * (gp.max_disp as int);
        }
    }
    out
}

} // verus!
