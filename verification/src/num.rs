use vstd::prelude::*;

use vstd::arithmetic::div_mod::lemma_fundamental_div_mod;
use vstd::arithmetic::div_mod::lemma_fundamental_div_mod_converse;

verus! {

/// Half-width of the world box: every coordinate handled by the simulation
/// lies in `[-COORD_LIMIT, COORD_LIMIT]`. Keeping positions inside a fixed
/// box keeps every intermediate of the force arithmetic inside `i128`.
pub const COORD_LIMIT: i64 = 0x7FFF_FFFF;

/// Denominator of the fractional simulation parameters (attraction, gravity,
/// damping, time step): a parameter value `v` stands for `v / FRAC_ONE`.
pub const FRAC_ONE: u32 = 65536;

/// Truncating (round toward zero) division, as Rust's `/` computes it.
/// Matches Euclidean `/` for a non-negative dividend.
pub open spec fn spec_tdiv(a: int, b: int) -> int {
    if a >= 0 {
        a / b
    } else {
        -((-a) / b)
    }
}

/// Floor division by a positive divisor, i.e. Euclidean `/` on `int`.
/// Used to assign a coordinate to a grid cell.
pub fn floor_div_i64(a: i64, b: i64) -> (q: i64)
    requires
        1 <= b,
        i64::MIN < a,
    ensures
        q == a as int / b as int,
{
    if a >= 0 {
        ((a as u64) / (b as u64)) as i64
    } else {
        let na: u64 = (-(a as i128)) as u64;
        let bu: u64 = b as u64;
        let qn: u64 = (na + (bu - 1)) / bu;
        proof {
            let x = a as int;
            let d = b as int;
            let q0 = (na as int) / d;
            let r0 = (na as int) % d;
            lemma_fundamental_div_mod(na as int, d);
            if r0 == 0 {
                assert(na as int + d - 1 == q0 * d + (d - 1)) by (nonlinear_arith)
                    requires na as int == d * q0 + r0, r0 == 0;
                lemma_fundamental_div_mod_converse(na as int + d - 1, d, q0, d - 1);
                assert(x == (-q0) * d + 0) by (nonlinear_arith)
                    requires x == -(na as int), na as int == d * q0 + r0, r0 == 0;
                lemma_fundamental_div_mod_converse(x, d, -q0, 0);
            } else {
                assert(na as int + d - 1 == (q0 + 1) * d + (r0 - 1)) by (nonlinear_arith)
                    requires na as int == d * q0 + r0;
                lemma_fundamental_div_mod_converse(na as int + d - 1, d, q0 + 1, r0 - 1);
                assert(x == (-q0 - 1) * d + (d - r0)) by (nonlinear_arith)
                    requires x == -(na as int), na as int == d * q0 + r0;
                lemma_fundamental_div_mod_converse(x, d, -q0 - 1, d - r0);
            }
            assert(qn == (na as int + d - 1) / d);
            lemma_fundamental_div_mod(na as int + d - 1, d);
            vstd::arithmetic::div_mod::lemma_mod_pos_bound(na as int + d - 1, d);
            assert(qn as int <= na as int) by (nonlinear_arith)
                requires
                    na as int + d - 1 == d * (qn as int) + ((na as int + d - 1) % d),
                    0 <= (na as int + d - 1) % d,
                    d >= 1,
                    na as int >= 1;
        }
        let qi: i64 = -((qn) as i64);
        qi
    }
}

/// Truncating division on `i128` by a positive divisor, computed on
/// magnitudes so that its value is pinned to `spec_tdiv`.
pub fn tdiv_i128(a: i128, b: i128) -> (q: i128)
    requires
        1 <= b,
        i128::MIN < a,
    ensures
        q == spec_tdiv(a as int, b as int),
        -(a as int) <= q <= a as int || a as int <= q <= -(a as int),
{
    if a >= 0 {
        let qu: u128 = (a as u128) / (b as u128);
        proof {
            vstd::arithmetic::div_mod::lemma_div_is_ordered_by_denominator(a as int, 1, b as int);
            vstd::arithmetic::div_mod::lemma_div_by_self(1);
        }
        qu as i128
    } else {
        let na: u128 = (-a) as u128;
        let qn: u128 = na / (b as u128);
        proof {
            vstd::arithmetic::div_mod::lemma_div_is_ordered_by_denominator(na as int, 1, b as int);
            vstd::arithmetic::div_mod::lemma_div_by_self(1);
        }
        -(qn as i128)
    }
}

/// The greatest `r >= 0` with `r * r <= s`, as a specification value.
pub open spec fn spec_isqrt(s: int) -> int
    decreases s,
{
    if s <= 0 {
        0
    } else {
        let r = spec_isqrt(s - 1);
        if (r + 1) * (r + 1) <= s {
            r + 1
        } else {
            r
        }
    }
}

/// `spec_isqrt` is sandwiched between the two nearest squares.
pub proof fn lemma_isqrt_sandwich(s: int)
    requires
        0 <= s,
    ensures
        0 <= spec_isqrt(s),
        spec_isqrt(s) * spec_isqrt(s) <= s,
        s < (spec_isqrt(s) + 1) * (spec_isqrt(s) + 1),
    decreases s,
{
    if s > 0 {
        lemma_isqrt_sandwich(s - 1);
        let r0 = spec_isqrt(s - 1);
        if (r0 + 1) * (r0 + 1) <= s {
            assert(s < (r0 + 2) * (r0 + 2)) by (nonlinear_arith)
                requires s - 1 < (r0 + 1) * (r0 + 1), 0 <= r0;
        }
    }
}

/// The least `r >= 0` with `s <= r * r`, as a specification value.
pub open spec fn spec_sqrt_ceil(s: int) -> int {
    if spec_isqrt(s) * spec_isqrt(s) == s {
        spec_isqrt(s)
    } else {
        spec_isqrt(s) + 1
    }
}

/// Truncating division by a positive divisor respects a scaled bound.
pub proof fn lemma_tdiv_bound(a: int, b: int, c: int)
    requires
        1 <= b,
        0 <= c,
        -(c * b) <= a <= c * b,
    ensures
        -c <= spec_tdiv(a, b) <= c,
{
    if a >= 0 {
        lemma_fundamental_div_mod(a, b);
        vstd::arithmetic::div_mod::lemma_mod_division_less_than_divisor(a, b);
        assert(0 <= a / b <= c) by (nonlinear_arith)
            requires
                a == b * (a / b) + a % b,
                0 <= a % b < b,
                1 <= b,
                0 <= c,
                0 <= a <= c * b;
    } else {
        lemma_fundamental_div_mod(-a, b);
        vstd::arithmetic::div_mod::lemma_mod_division_less_than_divisor(-a, b);
        assert(0 <= (-a) / b <= c) by (nonlinear_arith)
            requires
                -a == b * ((-a) / b) + (-a) % b,
                0 <= (-a) % b < b,
                1 <= b,
                0 <= c,
                0 <= -a <= c * b;
    }
}

/// Integer square root: the greatest `r` with `r * r <= s`.
pub fn isqrt_u128(s: u128) -> (r: u128)
    ensures
        r * r <= s,
        s < (r + 1) * (r + 1),
        r < 0x1_0000_0000_0000_0000u128,
        r as int == spec_isqrt(s as int),
{
    let mut lo: u128 = 0;
    let mut hi: u128 = 0x1_0000_0000_0000_0000;
    proof {
        assert((0x1_0000_0000_0000_0000 as int) * (0x1_0000_0000_0000_0000 as int) > s as int)
            by (nonlinear_arith)
            requires s <= u128::MAX;
    }
    while lo + 1 < hi
        invariant
            lo < hi <= 0x1_0000_0000_0000_0000u128,
            (lo as int) * (lo as int) <= s as int,
            (hi as int) * (hi as int) > s as int,
        decreases hi - lo,
    {
        let mid: u128 = lo + (hi - lo) / 2;
        assert(lo < mid < hi);
        assert((mid as int) * (mid as int) < 0x1_0000_0000_0000_0000_0000_0000_0000_0000)
            by (nonlinear_arith)
            requires mid < 0x1_0000_0000_0000_0000u128;
        if mid * mid <= s {
            lo = mid;
        } else {
            hi = mid;
        }
    }
    proof {
        lemma_isqrt_sandwich(s as int);
        let r2 = spec_isqrt(s as int);
        let li = lo as int;
        let si = s as int;
        assert(li == r2) by (nonlinear_arith)
            requires
                li * li <= si,
                si < (li + 1) * (li + 1),
                r2 * r2 <= si,
                si < (r2 + 1) * (r2 + 1),
                0 <= r2,
                0 <= li;
    }
    lo
}

/// Ceiling square root: the least `r` with `s <= r * r`.
pub fn sqrt_ceil_u128(s: u128) -> (r: u128)
    ensures
        s <= r * r,
        r >= 1 ==> (r - 1) * (r - 1) < s,
        r <= 0x1_0000_0000_0000_0000u128,
        r as int == spec_sqrt_ceil(s as int),
{
    let f = isqrt_u128(s);
    if f * f < s {
        f + 1
    } else {
        proof {
            if f >= 1 {
                assert((f as int - 1) * (f as int - 1) < (f as int) * (f as int))
                    by (nonlinear_arith)
                    requires f as int >= 1;
            }
        }
        f
    }
}

} // verus!
