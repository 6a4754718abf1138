use vstd::prelude::*;

use crate::edge::GpugEdge;
use crate::generators::watts_strogatz::generate_watts_strogatz_graph;
use crate::generators::watts_strogatz::spec_effective_k;
use crate::generators::watts_strogatz::spec_ring_edge_count;
use crate::node::GpugNode;
use crate::num::COORD_LIMIT;
use crate::sim::SimParams;
use crate::sim::spec_tick_node;
use crate::sim::tick;

verus! {

/// What the ring degree control clamps a requested value to: at least 1 and
/// at most `max(floor((n - 1) / 2), 1)`.
pub open spec fn spec_max_k(n: int) -> int {
    let mk = if n <= 0 {
        0int
    } else {
        (n - 1) / 2
    };
    if mk < 1 {
        1
    } else {
        mk
    }
}

/// A ring-lattice edge count fits comfortably below the simulator's edge
/// limit for any generator-sized node count.
proof fn lemma_ring_count_small(n: int, k: int)
    requires
        0 <= n <= 0xFFFF,
    ensures
        0 <= spec_ring_edge_count(n, k) <= 0x1_0000_0000,
{
    crate::generators::adjacency::lemma_count_bounds(
        crate::generators::watts_strogatz::spec_ring_matrix(n, spec_effective_k(n, k)),
        n,
        n,
    );
    assert(n * n <= 0xFFFF * 0xFFFF) by (nonlinear_arith)
        requires 0 <= n <= 0xFFFF;
}

/// The layout engine: it owns the node positions and the edge set, steps
/// the simulation while running, and regenerates the whole edge set when a
/// topology parameter changes.
pub struct Graph {
    pub nodes: Vec<GpugNode>,
    pub edges: Vec<GpugEdge>,
    pub k: usize,
    pub beta: u32,
    pub topology_seed: u64,
    pub sim_tick: u64,
    pub playing: bool,
}

impl Graph {
    /// The engine's invariant: a node count the generator accepts, all
    /// positions inside the world box, and an edge list the simulator can
    /// sweep.
    pub open spec fn wf(&self) -> bool {
        &&& self.nodes@.len() <= 0xFFFF
        &&& self.edges@.len() <= 0x1_0000_0000
        &&& forall|i: int|
            0 <= i < self.nodes@.len() ==> (-COORD_LIMIT <= (#[trigger] self.nodes@[i]).x
                <= COORD_LIMIT && -COORD_LIMIT <= self.nodes@[i].y <= COORD_LIMIT)
    }

    /// Builds an engine around already-generated nodes and edges. The
    /// engine starts paused, with its tick counter at zero.
    pub fn new(
        nodes: Vec<GpugNode>,
        edges: Vec<GpugEdge>,
        k: usize,
        beta: u32,
        topology_seed: u64,
    ) -> (g: Graph)
        requires
            nodes@.len() <= 0xFFFF,
            edges@.len() <= 0x1_0000_0000,
            forall|i: int|
                0 <= i < nodes@.len() ==> (-COORD_LIMIT <= (#[trigger] nodes@[i]).x <= COORD_LIMIT
                    && -COORD_LIMIT <= nodes@[i].y <= COORD_LIMIT),
        ensures
            g.wf(),
            g.nodes@ == nodes@,
            g.edges@ == edges@,
            g.k == k,
            g.beta == beta,
            g.topology_seed == topology_seed,
            g.sim_tick == 0,
            !g.playing,
    {
        Graph { nodes, edges, k, beta, topology_seed, sim_tick: 0, playing: false }
    }

    /// The largest ring degree the current node count permits.
    pub fn max_k(&self) -> (mk: usize)
        ensures
            mk == spec_max_k(self.nodes@.len() as int),
    {
        let n = self.nodes.len();
        let m = if n == 0 {
            0
        } else {
            (n - 1) / 2
        };
        if m < 1 {
            1
        } else {
            m
        }
    }

    /// Starts or pauses the simulation; nothing else changes. While paused,
    /// `step` mutates no position.
    pub fn set_running(&mut self, running: bool)
        ensures
            final(self).playing == running,
            final(self).nodes@ == old(self).nodes@,
            final(self).edges@ == old(self).edges@,
            final(self).k == old(self).k,
            final(self).beta == old(self).beta,
            final(self).topology_seed == old(self).topology_seed,
            final(self).sim_tick == old(self).sim_tick,
    {
        self.playing = running;
    }

    /// Moves the ring degree by `delta`, clamped to `[1, max_k]`, and
    /// regenerates the whole edge set when the degree actually changes.
    /// With fewer than two nodes, or when the clamped value equals the
    /// current one, nothing changes.
    pub fn adjust_k(&mut self, delta: i64)
        requires
            old(self).wf(),
            old(self).k <= 0xFFFF,
        ensures
            final(self).wf(),
            final(self).nodes@ == old(self).nodes@,
            final(self).beta == old(self).beta,
            final(self).topology_seed == old(self).topology_seed,
            final(self).sim_tick == old(self).sim_tick,
            final(self).playing == old(self).playing,
            old(self).nodes@.len() < 2 ==> (final(self).k == old(self).k && final(self).edges@
                == old(self).edges@),
            old(self).nodes@.len() >= 2 ==> {
                let mk = spec_max_k(old(self).nodes@.len() as int);
                let nk = if old(self).k + delta < 1 {
                    1int
                } else if old(self).k + delta > mk {
                    mk
                } else {
                    old(self).k + delta
                };
                &&& final(self).k == nk
                &&& (nk == old(self).k ==> final(self).edges@ == old(self).edges@)
                &&& (nk != old(self).k ==> (final(self).edges@.len() == spec_ring_edge_count(
                    old(self).nodes@.len() as int,
                    nk,
                ) && final(self).edges@ == crate::generators::watts_strogatz::spec_ws_edges(
                    old(self).nodes@.len() as int,
                    nk,
                    old(self).beta,
                    old(self).topology_seed,
                )))
            },
    {
        let node_count = self.nodes.len();
        if node_count < 2 {
            return ;
        }
        let mk = self.max_k();
        let cur: i64 = self.k as i64;
        let moved: i64 = if delta >= 0 {
            if cur <= 0x7FFF_FFFF_FFFF_FFFF - delta {
                cur + delta
            } else {
                0x7FFF_FFFF_FFFF_FFFF
            }
        } else {
            if cur >= -0x7FFF_FFFF_FFFF_FFFF - delta {
                cur + delta
            } else {
                -0x7FFF_FFFF_FFFF_FFFF
            }
        };
        proof {
            assert(moved == old(self).k + delta || (moved == 0x7FFF_FFFF_FFFF_FFFF && old(self).k
                + delta >= 0x7FFF_FFFF_FFFF_FFFF) || (moved == -0x7FFF_FFFF_FFFF_FFFF
                && old(self).k + delta <= -0x7FFF_FFFF_FFFF_FFFF));
        }
        let new_k: usize = if moved < 1 {
            1
        } else if moved > mk as i64 {
            mk
        } else {
            moved as usize
        };
        if new_k == self.k {
            return ;
        }
        self.k = new_k;
        let regenerated = generate_watts_strogatz_graph(
            node_count,
            new_k,
            self.beta,
            self.topology_seed,
        );
        self.edges = regenerated;
        proof {
            lemma_ring_count_small(node_count as int, new_k as int);
        }
    }

    /// Moves the rewiring probability by `delta` (in units of 2^-32),
    /// clamped to the full probability range, and regenerates the whole
    /// edge set when the value actually changes and at least two nodes
    /// exist.
    pub fn adjust_beta(&mut self, delta: i64)
        requires
            old(self).wf(),
        ensures
            final(self).wf(),
            final(self).nodes@ == old(self).nodes@,
            final(self).k == old(self).k,
            final(self).topology_seed == old(self).topology_seed,
            final(self).sim_tick == old(self).sim_tick,
            final(self).playing == old(self).playing,
            ({
                let nb = if old(self).beta + delta < 0 {
                    0int
                } else if old(self).beta + delta > 0xFFFF_FFFF {
                    0xFFFF_FFFFint
                } else {
                    old(self).beta + delta
                };
                &&& final(self).beta == nb
                &&& (nb == old(self).beta || old(self).nodes@.len() < 2 ==> final(self).edges@
                    == old(self).edges@)
                &&& (nb != old(self).beta && old(self).nodes@.len() >= 2
                    ==> (final(self).edges@.len() == spec_ring_edge_count(
                    old(self).nodes@.len() as int,
                    old(self).k as int,
                ) && final(self).edges@ == crate::generators::watts_strogatz::spec_ws_edges(
                    old(self).nodes@.len() as int,
                    old(self).k as int,
                    nb as u32,
                    old(self).topology_seed,
                )))
            }),
    {
        let cur: i64 = self.beta as i64;
        let moved: i64 = if delta >= 0 {
            if cur <= 0x7FFF_FFFF_FFFF_FFFF - delta {
                cur + delta
            } else {
                0x7FFF_FFFF_FFFF_FFFF
            }
        } else {
            cur + delta
        };
        let new_beta: u32 = if moved < 0 {
            0
        } else if moved > 0xFFFF_FFFF {
            0xFFFF_FFFF
        } else {
            moved as u32
        };
        if new_beta == self.beta {
            return ;
        }
        self.beta = new_beta;
        let node_count = self.nodes.len();
        if node_count < 2 {
            return ;
        }
        let regenerated = generate_watts_strogatz_graph(
            node_count,
            self.k,
            new_beta,
            self.topology_seed,
        );
        self.edges = regenerated;
        proof {
            lemma_ring_count_small(node_count as int, self.k as int);
        }
    }

    /// Replaces both topology parameters at once and regenerates the whole
    /// edge set from the engine's seed; the degree is clamped by the
    /// generator itself. Positions and the run state are untouched, so a
    /// tick never observes a partially updated edge set.
    pub fn set_topology_params(&mut self, k: usize, beta: u32)
        requires
            old(self).wf(),
        ensures
            final(self).wf(),
            final(self).nodes@ == old(self).nodes@,
            final(self).topology_seed == old(self).topology_seed,
            final(self).sim_tick == old(self).sim_tick,
            final(self).playing == old(self).playing,
            final(self).k == k,
            final(self).beta == beta,
            final(self).edges@.len() == spec_ring_edge_count(
                old(self).nodes@.len() as int,
                k as int,
            ),
            final(self).edges@ == crate::generators::watts_strogatz::spec_ws_edges(
                old(self).nodes@.len() as int,
                k as int,
                beta,
                old(self).topology_seed,
            ),
    {
        self.k = k;
        self.beta = beta;
        let node_count = self.nodes.len();
        let regenerated = generate_watts_strogatz_graph(node_count, k, beta, self.topology_seed);
        self.edges = regenerated;
        proof {
            lemma_ring_count_small(node_count as int, k as int);
        }
    }

    /// One external tick request. While running, the positions advance by
    /// exactly one simulation step and the tick counter moves forward;
    /// while paused, nothing changes at all.
    pub fn step(&mut self, params: &SimParams)
        requires
            old(self).wf(),
            params.wf(),
        ensures
            final(self).wf(),
            final(self).edges@ == old(self).edges@,
            final(self).k == old(self).k,
            final(self).beta == old(self).beta,
            final(self).topology_seed == old(self).topology_seed,
            final(self).playing == old(self).playing,
            !old(self).playing ==> (final(self).nodes@ == old(self).nodes@ && final(self).sim_tick
                == old(self).sim_tick),
            old(self).playing ==> {
                &&& final(self).nodes@.len() == old(self).nodes@.len()
                &&& forall|i: int|
                    0 <= i < old(self).nodes@.len() ==> (#[trigger] final(self).nodes@[i])
                        == spec_tick_node(old(self).nodes@, old(self).edges@, *params, i)
                &&& final(self).sim_tick == (if old(self).sim_tick == u64::MAX {
                    0
                } else {
                    old(self).sim_tick + 1
                })
            },
    {
        if !self.playing {
            return ;
        }
        let updated = tick(&self.nodes, &self.edges, params);
        self.nodes = updated;
        self.sim_tick = if self.sim_tick == u64::MAX {
            0
        } else {
            self.sim_tick + 1
        };
    }
}

} // verus!
