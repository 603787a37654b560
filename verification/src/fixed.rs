//! Fixed-point arithmetic kernels: truncating division, floor square, cube
//! and fifth roots, and the small lemma library the conversions are proved
//! against.

use vstd::prelude::*;
use vstd::arithmetic::div_mod::{
    lemma_div_is_ordered, lemma_div_pos_is_pos, lemma_div_nonincreasing,
    lemma_div_multiples_vanish, lemma_remainder,
};

verus! {

/// Magnitude of an integer.
pub open spec fn mag(n: int) -> int {
    if n >= 0 {
        n
    } else {
        -n
    }
}

/// Number of fixed-point units in 1.0: every channel value is an `i64` count
/// of units of `1e-7`.
pub const SCALE: i64 = 10_000_000;

/// Quotient of `n` by `d` rounded toward zero, the rounding used by every
/// conversion in this crate. Total: 0 when `d == 0`, though no caller divides
/// by zero.
pub open spec fn tdiv(n: int, d: int) -> int {
    if d == 0 {
        0
    } else if (n >= 0) == (d > 0) {
        mag(n) / mag(d)
    } else {
        -(mag(n) / mag(d))
    }
}

pub open spec fn pow2(r: int) -> int {
    r * r
}

pub open spec fn pow3(r: int) -> int {
    r * r * r
}

pub open spec fn pow5(r: int) -> int {
    r * r * r * r * r
}

/// Truncating division never grows the magnitude of the dividend.
pub proof fn lemma_tdiv_abs_le(n: int, d: int)
    requires
        d != 0,
    ensures
        mag(tdiv(n, d)) <= mag(n),
{
    lemma_div_nonincreasing(mag(n), mag(d));
    lemma_div_pos_is_pos(mag(n), mag(d));
}

/// A quotient is bounded by any bound on the dividend, scaled down by the
/// divisor.
pub proof fn lemma_tdiv_abs_bound(n: int, d: int, bound: int)
    requires
        d > 0,
        0 <= bound,
        mag(n) <= bound * d,
    ensures
        mag(tdiv(n, d)) <= bound,
{
    assert(bound * d == d * bound) by (nonlinear_arith);
    lemma_div_is_ordered(mag(n), d * bound, d);
    lemma_div_multiples_vanish(bound, d);
    lemma_div_pos_is_pos(mag(n), d);
}

/// A nonnegative dividend and positive divisor give a nonnegative quotient.
pub proof fn lemma_tdiv_nonneg(n: int, d: int)
    requires
        n >= 0,
        d > 0,
    ensures
        0 <= tdiv(n, d),
{
    lemma_div_pos_is_pos(mag(n), mag(d));
}

/// The quotient times the divisor sits within one divisor of the dividend.
pub proof fn lemma_tdiv_mul_bounds(n: int, d: int)
    requires
        d > 0,
    ensures
        n >= 0 ==> n - d < tdiv(n, d) * d <= n,
        n <= 0 ==> n <= tdiv(n, d) * d < n + d,
{
    lemma_remainder(mag(n), d);
    if n < 0 {
        assert(tdiv(n, d) * d == -((mag(n) / d) * d)) by (nonlinear_arith)
            requires tdiv(n, d) == -(mag(n) / d);
    }
}

/// Truncating division is monotone in the dividend for a positive divisor.
pub proof fn lemma_tdiv_mono(n1: int, n2: int, d: int)
    requires
        d > 0,
        n1 <= n2,
    ensures
        tdiv(n1, d) <= tdiv(n2, d),
{
    if n1 >= 0 {
        lemma_div_is_ordered(n1, n2, d);
    } else if n2 < 0 {
        lemma_div_is_ordered(-n2, -n1, d);
    } else {
        lemma_div_pos_is_pos(-n1, d);
        lemma_div_pos_is_pos(n2, d);
    }
}

/// Dividing an exact multiple recovers the factor.
pub proof fn lemma_tdiv_exact(k: int, d: int)
    requires
        d > 0,
    ensures
        tdiv(k * d, d) == k,
{
    if k >= 0 {
        lemma_div_multiples_vanish(k, d);
        assert(k * d >= 0 && k * d == d * k) by (nonlinear_arith)
            requires 0 <= k, 0 < d;
        assert(mag(k * d) == d * k);
    } else {
        lemma_div_multiples_vanish(-k, d);
        assert(k * d < 0 && -(k * d) == d * (-k)) by (nonlinear_arith)
            requires k < 0, 0 < d;
        assert(mag(k * d) == d * (-k));
    }
}

/// Truncating division on `i128`, through unsigned magnitudes.
pub(crate) fn div_i128(n: i128, d: i128) -> (q: i128)
    requires
        d != 0,
        n > i128::MIN,
        d > i128::MIN,
    ensures
        q == tdiv(n as int, d as int),
        mag(q as int) <= mag(n as int),
{
    let nn: u128 = if n >= 0 { n as u128 } else { (-n) as u128 };
    let dd: u128 = if d >= 0 { d as u128 } else { (-d) as u128 };
    let qq: u128 = nn / dd;
    proof {
        assert(nn == mag(n as int));
        assert(dd == mag(d as int));
        lemma_div_nonincreasing(nn as int, dd as int);
        lemma_div_pos_is_pos(nn as int, dd as int);
    }
    if (n >= 0) == (d >= 0) {
        qq as i128
    } else {
        -(qq as i128)
    }
}

/// `a * b / d` with the quotient truncated toward zero; the product is exact
/// in `i128`, so only the quotient must fit the result type.
pub(crate) fn mul_div(a: i64, b: i64, d: i64) -> (r: i64)
    requires
        d != 0,
        -(i64::MAX as int) <= tdiv(a as int * b as int, d as int) <= i64::MAX as int,
    ensures
        r == tdiv(a as int * b as int, d as int),
{
    proof {
        assert(-0x4000_0000_0000_0000_0000_0000_0000_0000
            <= a as int * b as int
            <= 0x4000_0000_0000_0000_0000_0000_0000_0000) by (nonlinear_arith)
            requires
                -0x8000_0000_0000_0000 <= a as int <= 0x7fff_ffff_ffff_ffff,
                -0x8000_0000_0000_0000 <= b as int <= 0x7fff_ffff_ffff_ffff;
    }
    let n: i128 = (a as i128) * (b as i128);
    let q = div_i128(n, d as i128);
    q as i64
}

/// Largest `r` with `r * r <= v` (0 for negative `v`).
pub open spec fn sqrt_floor(v: int) -> int
    decreases v,
{
    if v <= 0 {
        0
    } else {
        let p = sqrt_floor(v - 1);
        if pow2(p + 1) <= v {
            p + 1
        } else {
            p
        }
    }
}

/// Largest `r` with `r * r * r <= v` (0 for negative `v`).
pub open spec fn cbrt_floor(v: int) -> int
    decreases v,
{
    if v <= 0 {
        0
    } else {
        let p = cbrt_floor(v - 1);
        if pow3(p + 1) <= v {
            p + 1
        } else {
            p
        }
    }
}

/// Largest `r` with `r^5 <= v` (0 for negative `v`).
pub open spec fn root5_floor(v: int) -> int
    decreases v,
{
    if v <= 0 {
        0
    } else {
        let p = root5_floor(v - 1);
        if pow5(p + 1) <= v {
            p + 1
        } else {
            p
        }
    }
}

pub proof fn lemma_sqrt_floor_bracket(v: int)
    requires
        v >= 0,
    ensures
        0 <= sqrt_floor(v),
        pow2(sqrt_floor(v)) <= v,
        v < pow2(sqrt_floor(v) + 1),
    decreases v,
{
    if v > 0 {
        lemma_sqrt_floor_bracket(v - 1);
        let p = sqrt_floor(v - 1);
        if pow2(p + 1) <= v {
            assert(pow2(p + 1) < pow2(p + 2)) by (nonlinear_arith)
                requires p >= 0;
        }
    }
}

pub proof fn lemma_cbrt_floor_bracket(v: int)
    requires
        v >= 0,
    ensures
        0 <= cbrt_floor(v),
        pow3(cbrt_floor(v)) <= v,
        v < pow3(cbrt_floor(v) + 1),
    decreases v,
{
    if v > 0 {
        lemma_cbrt_floor_bracket(v - 1);
        let p = cbrt_floor(v - 1);
        if pow3(p + 1) <= v {
            assert(pow3(p + 1) < pow3(p + 2)) by (nonlinear_arith)
                requires p >= 0;
        }
    }
}

pub proof fn lemma_root5_floor_bracket(v: int)
    requires
        v >= 0,
    ensures
        0 <= root5_floor(v),
        pow5(root5_floor(v)) <= v,
        v < pow5(root5_floor(v) + 1),
    decreases v,
{
    if v > 0 {
        lemma_root5_floor_bracket(v - 1);
        let p = root5_floor(v - 1);
        if pow5(p + 1) <= v {
            assert(pow5(p + 1) < pow5(p + 2)) by (nonlinear_arith)
                requires p >= 0;
        }
    }
}

/// The bracket `r^2 <= v < (r+1)^2` pins `r` as the floor square root.
pub proof fn lemma_sqrt_floor_of(v: int, r: int)
    requires
        v >= 0,
        0 <= r,
        pow2(r) <= v,
        v < pow2(r + 1),
    ensures
        r == sqrt_floor(v),
{
    lemma_sqrt_floor_bracket(v);
    let s = sqrt_floor(v);
    if r < s {
        assert(pow2(r + 1) <= pow2(s)) by (nonlinear_arith)
            requires 0 <= r + 1 <= s;
    }
    if s < r {
        assert(pow2(s + 1) <= pow2(r)) by (nonlinear_arith)
            requires 0 <= s + 1 <= r;
    }
}

/// The bracket `r^3 <= v < (r+1)^3` pins `r` as the floor cube root.
pub proof fn lemma_cbrt_floor_of(v: int, r: int)
    requires
        v >= 0,
        0 <= r,
        pow3(r) <= v,
        v < pow3(r + 1),
    ensures
        r == cbrt_floor(v),
{
    lemma_cbrt_floor_bracket(v);
    let s = cbrt_floor(v);
    if r < s {
        assert(pow3(r + 1) <= pow3(s)) by (nonlinear_arith)
            requires 0 <= r + 1 <= s;
    }
    if s < r {
        assert(pow3(s + 1) <= pow3(r)) by (nonlinear_arith)
            requires 0 <= s + 1 <= r;
    }
}

/// The bracket `r^5 <= v < (r+1)^5` pins `r` as the floor fifth root.
pub proof fn lemma_root5_floor_of(v: int, r: int)
    requires
        v >= 0,
        0 <= r,
        pow5(r) <= v,
        v < pow5(r + 1),
    ensures
        r == root5_floor(v),
{
    lemma_root5_floor_bracket(v);
    let s = root5_floor(v);
    if r < s {
        assert(pow5(r + 1) <= pow5(s)) by (nonlinear_arith)
            requires 0 <= r + 1 <= s;
    }
    if s < r {
        assert(pow5(s + 1) <= pow5(r)) by (nonlinear_arith)
            requires 0 <= s + 1 <= r;
    }
}

/// The quotient bound holds for either sign of the divisor.
pub proof fn lemma_tdiv_abs_bound_any(n: int, d: int, bound: int)
    requires
        d != 0,
        0 <= bound,
        mag(n) <= bound * mag(d),
    ensures
        mag(tdiv(n, d)) <= bound,
{
    assert(bound * mag(d) == mag(d) * bound) by (nonlinear_arith);
    lemma_div_is_ordered(mag(n), mag(d) * bound, mag(d));
    lemma_div_multiples_vanish(bound, mag(d));
    lemma_div_pos_is_pos(mag(n), mag(d));
}

/// A weighted sum of three channels, scaled back down: one row of a 3x3
/// conversion matrix in fixed point.
pub(crate) fn dot3(a: i64, k1: i64, b: i64, k2: i64, c: i64, k3: i64) -> (r: i64)
    requires
        mag(a as int) <= 1_000_000_000_000_000,
        mag(b as int) <= 1_000_000_000_000_000,
        mag(c as int) <= 1_000_000_000_000_000,
        mag(k1 as int) <= 100_000_000,
        mag(k2 as int) <= 100_000_000,
        mag(k3 as int) <= 100_000_000,
    ensures
        r == tdiv(
            a as int * k1 as int + b as int * k2 as int + c as int * k3 as int,
            SCALE as int,
        ),
        mag(r as int) <= 30_000_000_000_000_000,
        a >= 0 && b >= 0 && c >= 0 && k1 >= 0 && k2 >= 0 && k3 >= 0 ==> r >= 0,
{
    proof {
        assert(mag(a as int * k1 as int) <= 100_000_000_000_000_000_000_000
            && mag(b as int * k2 as int) <= 100_000_000_000_000_000_000_000
            && mag(c as int * k3 as int) <= 100_000_000_000_000_000_000_000)
            by (nonlinear_arith)
            requires
                mag(a as int) <= 1_000_000_000_000_000,
                mag(b as int) <= 1_000_000_000_000_000,
                mag(c as int) <= 1_000_000_000_000_000,
                mag(k1 as int) <= 100_000_000,
                mag(k2 as int) <= 100_000_000,
                mag(k3 as int) <= 100_000_000;
        lemma_tdiv_abs_bound(
            a as int * k1 as int + b as int * k2 as int + c as int * k3 as int,
            SCALE as int,
            30_000_000_000_000_000,
        );
        if a >= 0 && b >= 0 && c >= 0 && k1 >= 0 && k2 >= 0 && k3 >= 0 {
            assert(a as int * k1 as int >= 0 && b as int * k2 as int >= 0
                && c as int * k3 as int >= 0) by (nonlinear_arith)
                requires
                    a as int >= 0, b as int >= 0, c as int >= 0,
                    k1 as int >= 0, k2 as int >= 0, k3 as int >= 0;
        }
    }
    let n: i128 = (a as i128) * (k1 as i128) + (b as i128) * (k2 as i128)
        + (c as i128) * (k3 as i128);
    let q = div_i128(n, SCALE as i128);
    q as i64
}

/// A bound on the radicand bounds the floor square root.
pub proof fn lemma_sqrt_floor_below(v: int, b: int)
    requires
        0 <= v,
        0 <= b,
        v < pow2(b),
    ensures
        sqrt_floor(v) < b,
{
    lemma_sqrt_floor_bracket(v);
    let s = sqrt_floor(v);
    if s >= b {
        assert(pow2(b) <= pow2(s)) by (nonlinear_arith)
            requires 0 <= b <= s;
    }
}

/// A bound on the radicand bounds the floor cube root.
pub proof fn lemma_cbrt_floor_below(v: int, b: int)
    requires
        0 <= v,
        0 <= b,
        v < pow3(b),
    ensures
        cbrt_floor(v) < b,
{
    lemma_cbrt_floor_bracket(v);
    let s = cbrt_floor(v);
    if s >= b {
        assert(pow3(b) <= pow3(s)) by (nonlinear_arith)
            requires 0 <= b <= s;
    }
}

/// A bound on the radicand bounds the floor fifth root.
pub proof fn lemma_root5_floor_below(v: int, b: int)
    requires
        0 <= v,
        0 <= b,
        v < pow5(b),
    ensures
        root5_floor(v) < b,
{
    lemma_root5_floor_bracket(v);
    let s = root5_floor(v);
    if s >= b {
        assert(pow5(b) <= pow5(s)) by (nonlinear_arith)
            requires 0 <= b <= s;
    }
}

/// The floor square root is monotone in the radicand.
pub proof fn lemma_sqrt_floor_mono(v1: int, v2: int)
    requires
        0 <= v1 <= v2,
    ensures
        sqrt_floor(v1) <= sqrt_floor(v2),
{
    lemma_sqrt_floor_bracket(v1);
    lemma_sqrt_floor_bracket(v2);
    let s1 = sqrt_floor(v1);
    let s2 = sqrt_floor(v2);
    if s2 < s1 {
        assert(pow2(s2 + 1) <= pow2(s1)) by (nonlinear_arith)
            requires 0 <= s2 + 1 <= s1;
    }
}

/// The floor cube root is monotone in the radicand.
pub proof fn lemma_cbrt_floor_mono(v1: int, v2: int)
    requires
        0 <= v1 <= v2,
    ensures
        cbrt_floor(v1) <= cbrt_floor(v2),
{
    lemma_cbrt_floor_bracket(v1);
    lemma_cbrt_floor_bracket(v2);
    let s1 = cbrt_floor(v1);
    let s2 = cbrt_floor(v2);
    if s2 < s1 {
        assert(pow3(s2 + 1) <= pow3(s1)) by (nonlinear_arith)
            requires 0 <= s2 + 1 <= s1;
    }
}

/// Floor square root by bisection.
pub(crate) fn isqrt_u(v: u128) -> (r: u64)
    requires
        v < 0x4000_0000_0000_0000_0000_0000_0000_0000,
    ensures
        r == sqrt_floor(v as int),
{
    let mut lo: u64 = 0;
    let mut hi: u64 = 0x8000_0000_0000_0000;
    proof {
        assert(pow2(hi as int) == 0x4000_0000_0000_0000_0000_0000_0000_0000);
    }
    while hi - lo > 1
        invariant
            lo < hi,
            hi <= 0x8000_0000_0000_0000,
            pow2(lo as int) <= v as int,
            (v as int) < pow2(hi as int),
        decreases hi - lo,
    {
        let mid: u64 = lo + (hi - lo) / 2;
        proof {
            assert((mid as int) * (mid as int)
                < 0x4000_0000_0000_0000_0000_0000_0000_0000) by (nonlinear_arith)
                requires 0 <= mid as int, (mid as int) < 0x8000_0000_0000_0000;
        }
        let m: u128 = (mid as u128) * (mid as u128);
        if m <= v {
            lo = mid;
        } else {
            hi = mid;
        }
    }
    proof {
        lemma_sqrt_floor_of(v as int, lo as int);
    }
    lo
}

/// Floor cube root by bisection.
pub(crate) fn icbrt_u(v: u128) -> (r: u64)
    requires
        v < 0x4000_0000_0000_0000_0000_0000_0000_0000,
    ensures
        r == cbrt_floor(v as int),
{
    let mut lo: u64 = 0;
    let mut hi: u64 = 0x400_0000_0000;
    proof {
        assert(pow3(hi as int) == 0x4000_0000_0000_0000_0000_0000_0000_0000);
        assert((v as int) < pow3(hi as int));
    }
    while hi - lo > 1
        invariant
            lo < hi,
            hi <= 0x400_0000_0000,
            pow3(lo as int) <= v as int,
            (v as int) < pow3(hi as int),
        decreases hi - lo,
    {
        let mid: u64 = lo + (hi - lo) / 2;
        proof {
            assert((mid as int) * (mid as int) < 0x8000_0000_0000_0000_0000_0000_0000_0000
                && (mid as int) * (mid as int) * (mid as int)
                    < 0x8000_0000_0000_0000_0000_0000_0000_0000) by (nonlinear_arith)
                requires 0 <= mid as int, (mid as int) < 0x400_0000_0000;
        }
        let m: u128 = (mid as u128) * (mid as u128) * (mid as u128);
        if m <= v {
            lo = mid;
        } else {
            hi = mid;
        }
    }
    proof {
        lemma_cbrt_floor_of(v as int, lo as int);
    }
    lo
}

/// Floor fifth root by bisection.
pub(crate) fn iroot5_u(v: u128) -> (r: u64)
    requires
        v < 0x2000_0000_0000_0000_0000_0000_0000_0000,
    ensures
        r == root5_floor(v as int),
{
    let mut lo: u64 = 0;
    let mut hi: u64 = 0x200_0000;
    proof {
        assert(pow5(hi as int) == 0x2000_0000_0000_0000_0000_0000_0000_0000);
        assert((v as int) < pow5(hi as int));
    }
    while hi - lo > 1
        invariant
            lo < hi,
            hi <= 0x200_0000,
            pow5(lo as int) <= v as int,
            (v as int) < pow5(hi as int),
        decreases hi - lo,
    {
        let mid: u64 = lo + (hi - lo) / 2;
        proof {
            assert((mid as int) * (mid as int) < 0x8000_0000_0000_0000_0000_0000_0000_0000
                && (mid as int) * (mid as int) * (mid as int)
                    < 0x8000_0000_0000_0000_0000_0000_0000_0000
                && (mid as int) * (mid as int) * (mid as int) * (mid as int)
                    < 0x8000_0000_0000_0000_0000_0000_0000_0000
                && (mid as int) * (mid as int) * (mid as int) * (mid as int) * (mid as int)
                    < 0x8000_0000_0000_0000_0000_0000_0000_0000) by (nonlinear_arith)
                requires 0 <= mid as int, (mid as int) < 0x200_0000;
        }
        let m: u128 = (mid as u128) * (mid as u128) * (mid as u128) * (mid as u128)
            * (mid as u128);
        if m <= v {
            lo = mid;
        } else {
            hi = mid;
        }
    }
    proof {
        lemma_root5_floor_of(v as int, lo as int);
    }
    lo
}

} // verus!
