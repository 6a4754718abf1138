use vstd::prelude::*;

use vstd::arithmetic::div_mod::lemma_fundamental_div_mod;
use vstd::arithmetic::div_mod::lemma_mod_pos_bound;

use crate::node::GpugNode;
use crate::num::COORD_LIMIT;

verus! {

/// Fallback state used when the generator is seeded with zero, which is the
/// one absorbing state of the xorshift transform and must never persist.
pub const RNG_ZERO_FALLBACK: u64 = 0x9E3779B97F4A7C15;

/// The three shift/xor rounds of a 64-bit xorshift step.
pub open spec fn spec_rng_mix(x0: u64) -> u64 {
    let x1 = x0 ^ (x0 << 13u64);
    let x2 = x1 ^ (x1 >> 7u64);
    x2 ^ (x2 << 17u64)
}

/// One full draw: a zero state is first replaced by the nonzero fallback,
/// then the xorshift rounds are applied.
pub open spec fn spec_rng_next(s: u64) -> u64 {
    if s == 0 {
        spec_rng_mix(RNG_ZERO_FALLBACK)
    } else {
        spec_rng_mix(s)
    }
}

/// Advances the caller-owned PRNG state by one xorshift draw and returns the
/// drawn value, which is also the new state. Equal input states always give
/// equal outputs: every draw is pinned to `spec_rng_next`.
pub fn rng_next(seed: &mut u64) -> (r: u64)
    ensures
        r == spec_rng_next(*old(seed)),
        *final(seed) == spec_rng_next(*old(seed)),
{
    let mut x = *seed;
    if x == 0 {
        x = RNG_ZERO_FALLBACK;
    }
    x = x ^ (x << 13u64);
    x = x ^ (x >> 7u64);
    x = x ^ (x << 17u64);
    *seed = x;
    x
}

/// The 32-bit uniform sample taken from one draw: bits 11..43 of the drawn
/// 64-bit value. Interpreted as a fraction of 2^32, it is uniform in [0, 1).
pub open spec fn spec_rand_unit(s: u64) -> u32 {
    ((spec_rng_next(s) >> 11u64) & 0xFFFF_FFFFu64) as u32
}

/// Draws one uniform 32-bit sample and advances the state by one draw.
pub fn rand_unit(seed: &mut u64) -> (r: u32)
    ensures
        r == spec_rand_unit(*old(seed)),
        *final(seed) == spec_rng_next(*old(seed)),
{
    let d = rng_next(seed);
    let t = (d >> 11u64) & 0xFFFF_FFFFu64;
    assert((d >> 11u64) & 0xFFFF_FFFFu64 < 0x1_0000_0000u64) by (bit_vector);
    t as u32
}

/// The rectangle that initial positions are scattered into, in world units.
#[derive(Clone, Copy, PartialEq, Eq, Structural, Debug)]
pub struct Viewport {
    pub left: i64,
    pub top: i64,
    pub width: i64,
    pub height: i64,
}

impl Viewport {
    /// A viewport is well formed when it is non-degenerate and lies inside
    /// the world box, so every scattered position does too.
    pub open spec fn wf(&self) -> bool {
        &&& 0 <= self.width
        &&& 0 <= self.height
        &&& -COORD_LIMIT <= self.left
        &&& self.left + self.width <= COORD_LIMIT
        &&& -COORD_LIMIT <= self.top
        &&& self.top + self.height <= COORD_LIMIT
    }

    /// Run-time check for `wf`, for callers outside verified code.
    pub fn check(&self) -> (b: bool)
        ensures
            b == self.wf(),
    {
        0 <= self.width && 0 <= self.height && -COORD_LIMIT <= self.left
            && self.left <= COORD_LIMIT - self.width && -COORD_LIMIT <= self.top
            && self.top <= COORD_LIMIT - self.height
    }
}

/// `r` read as a fraction of 2^32, applied to a span `w`: `(r * w) / 2^32`.
pub open spec fn spec_unit_frac(r: u32, w: int) -> int {
    (r * w) / 0x1_0000_0000
}

pub proof fn lemma_unit_frac_bounds(r: u32, w: int)
    requires
        0 <= w,
    ensures
        0 <= spec_unit_frac(r, w) <= w,
        w >= 1 ==> spec_unit_frac(r, w) < w,
{
    let p = r as int * w;
    let b: int = 0x1_0000_0000;
    assert(0 <= r as int * w && r as int * w <= (0x1_0000_0000 - 1) * w) by (nonlinear_arith)
        requires 0 <= (r as int), (r as int) < 0x1_0000_0000, 0 <= w;
    lemma_fundamental_div_mod(p, b);
    lemma_mod_pos_bound(p, b);
    let e = p / b;
    assert(0 <= e && e <= w && (w >= 1 ==> e < w)) by (nonlinear_arith)
        requires
            p == b * e + p % b,
            0 <= p % b < b,
            0 <= p <= (b - 1) * w,
            0 <= w;
}

/// Exec computation of `spec_unit_frac`.
fn unit_frac(r: u32, w: i64) -> (f: i64)
    requires
        0 <= w,
    ensures
        f == spec_unit_frac(r, w as int),
        0 <= f <= w,
        w >= 1 ==> f < w,
{
    let ru: u128 = r as u128;
    let wu: u128 = w as u128;
    assert(ru * wu <= 0xFFFF_FFFFu128 * 0x7FFF_FFFF_FFFF_FFFFu128) by (nonlinear_arith)
        requires ru <= 0xFFFF_FFFFu128, wu <= 0x7FFF_FFFF_FFFF_FFFFu128;
    let p: u128 = ru * wu;
    let e: u128 = p / 0x1_0000_0000u128;
    proof {
        lemma_unit_frac_bounds(r, w as int);
    }
    e as i64
}

/// The PRNG state after `i` draws from `seed`.
pub open spec fn spec_scatter_state(seed: u64, i: nat) -> u64
    decreases i,
{
    if i == 0 {
        seed
    } else {
        spec_rng_next(spec_scatter_state(seed, (i - 1) as nat))
    }
}

/// The node the scatterer places at index `i`: two draws per node, x first.
pub open spec fn spec_node_at(seed: u64, vp: Viewport, i: int) -> GpugNode {
    GpugNode {
        id: (i + 1) as u64,
        x: (vp.left + spec_unit_frac(
            spec_rand_unit(spec_scatter_state(seed, (2 * i) as nat)),
            vp.width as int,
        )) as i64,
        y: (vp.top + spec_unit_frac(
            spec_rand_unit(spec_scatter_state(seed, (2 * i + 1) as nat)),
            vp.height as int,
        )) as i64,
    }
}

/// Scatters `n` nodes uniformly inside `vp`, two PRNG draws per node
/// (x then y). The whole output is pinned to `spec_node_at`: the same
/// `(n, seed, vp)` always gives the same positions.
pub fn generate_nodes(n: usize, seed: u64, vp: &Viewport) -> (nodes: Vec<GpugNode>)
    requires
        vp.wf(),
    ensures
        nodes@.len() == n,
        forall|i: int| 0 <= i < n ==> nodes@[i] == spec_node_at(seed, *vp, i),
        forall|i: int|
            0 <= i < n ==> (vp.left <= #[trigger] nodes@[i].x <= vp.left + vp.width
                && vp.top <= nodes@[i].y <= vp.top + vp.height),
{
    let mut nodes: Vec<GpugNode> = Vec::with_capacity(n);
    let mut s: u64 = seed;
    for i in 0..n
        invariant
            vp.wf(),
            nodes@.len() == i,
            s == spec_scatter_state(seed, (2 * i) as nat),
            forall|j: int| 0 <= j < i ==> nodes@[j] == spec_node_at(seed, *vp, j),
            forall|j: int|
                0 <= j < i ==> (vp.left <= #[trigger] nodes@[j].x <= vp.left + vp.width
                    && vp.top <= nodes@[j].y <= vp.top + vp.height),
    {
        let rx = rand_unit(&mut s);
        let ry = rand_unit(&mut s);
        let x = vp.left + unit_frac(rx, vp.width);
        let y = vp.top + unit_frac(ry, vp.height);
        nodes.push(GpugNode { id: (i as u64) + 1, x, y });
        proof {
            assert(spec_scatter_state(seed, (2 * i + 1) as nat)
                == spec_rng_next(spec_scatter_state(seed, (2 * i) as nat)));
            assert(spec_scatter_state(seed, (2 * i + 2) as nat)
                == spec_rng_next(spec_scatter_state(seed, (2 * i + 1) as nat)));
            assert(nodes@[i as int] == spec_node_at(seed, *vp, i as int));
        }
    }
    nodes
}

} // verus!
