//! Scalar transfer functions: sRGB companding and decompanding, and linear
//! interpolation.
//!
//! The gamma exponent 2.4 is handled exactly in fixed point: `x^2.4` is
//! `x^2 * (x^2)^(1/5)` and `x^(1/2.4) = x^(5/12)` is
//! `sqrt(sqrt(cbrt(x^5)))`, each root taken as a floor root at the working
//! scale.

use vstd::prelude::*;
use crate::fixed::{
    SCALE, mag, tdiv, pow2, pow3, pow5, mul_div, iroot5_u, icbrt_u, isqrt_u,
    sqrt_floor, cbrt_floor, root5_floor,
    lemma_tdiv_abs_le, lemma_tdiv_abs_bound, lemma_tdiv_exact, lemma_tdiv_mono,
    lemma_tdiv_nonneg, lemma_sqrt_floor_mono, lemma_cbrt_floor_mono,
    lemma_sqrt_floor_of, lemma_cbrt_floor_of,
    lemma_sqrt_floor_below, lemma_cbrt_floor_below, lemma_root5_floor_below,
    lemma_sqrt_floor_bracket, lemma_cbrt_floor_bracket, lemma_root5_floor_bracket,
};

verus! {

/// Largest magnitude accepted for an sRGB channel handed to decompanding:
/// 20.0, far beyond the nominal [0.0, 1.0] range.
pub const SRGB_IN_LIMIT: i64 = 200_000_000;

/// Largest magnitude accepted for a channel handed to `lerp`: 100_000_000.0.
pub const CHANNEL_LIMIT: i64 = 1_000_000_000_000_000;

/// Largest magnitude accepted for the interpolation parameter `t`: 100.0,
/// which leaves generous room for extrapolation outside [0.0, 1.0].
pub const T_LIMIT: i64 = 1_000_000_000;

/// sRGB decompanding: `c / 12.92` below the knee at 0.04045, else
/// `((c + 0.055) / 1.055)^2.4`, in fixed point with every division and root
/// truncated.
pub open spec fn srgb_to_linear_s(c: int) -> int {
    if c <= 404_500 {
        tdiv(c * 25, 323)
    } else {
        let t = tdiv((c + 550_000) * 200, 211);
        let t2 = tdiv(t * t, SCALE as int);
        let g = root5_floor(t2 * 10_000_000_000_000_000_000_000_000_000);
        tdiv(t2 * g, SCALE as int)
    }
}

/// sRGB companding with the final clamp to [0.0, 1.0] folded in: `12.92 * c`
/// below the knee at 0.0031308, else `1.055 * c^(1/2.4) - 0.055`. The root
/// `c^(5/12)` is `sqrt(sqrt(cbrt(c^5)))` with the three roots carried at one
/// hundred times the working scale, so no intermediate floor costs more than
/// a few last-place units.
pub open spec fn linear_to_srgb_clamped_s(c: int) -> int {
    if c <= 0 {
        0
    } else if c <= 31_308 {
        tdiv(c * 323, 25)
    } else if c >= SCALE as int {
        SCALE as int
    } else {
        let g = cbrt_floor(tdiv(pow5(c), 100_000_000));
        let h = sqrt_floor(g * 1_000_000_000);
        let k = sqrt_floor(h * 1_000_000_000);
        let e = tdiv(k * 211, 20_000) - 550_000;
        if e <= 0 {
            0
        } else if e >= SCALE as int {
            SCALE as int
        } else {
            e
        }
    }
}

/// Linear interpolation `start + t * (end - start)` at the working scale.
pub open spec fn lerp_s(start: int, end: int, t: int) -> int {
    start + tdiv(t * (end - start), SCALE as int)
}

/// Convert a gamma-encoded sRGB channel to linear light.
pub fn srgb_to_linear(c: i64) -> (r: i64)
    requires
        mag(c as int) <= SRGB_IN_LIMIT as int,
    ensures
        r == srgb_to_linear_s(c as int),
        mag(r as int) <= 12_000_000_000,
        c >= 0 ==> r >= 0,
{
    if c <= 404_500 {
        proof {
            assert(mag(c as int * 25) <= 5_000_000_000) by (nonlinear_arith)
                requires mag(c as int) <= 200_000_000;
            lemma_tdiv_abs_le(c as int * 25, 323);
            if c >= 0 {
                assert(c as int * 25 >= 0) by (nonlinear_arith)
                    requires c as int >= 0;
            }
        }
        mul_div(c, 25, 323)
    } else {
        proof {
            assert(mag((c as int + 550_000) * 200) <= 190_200_000 * 211) by (nonlinear_arith)
                requires 404_500 < c as int <= 200_000_000;
            lemma_tdiv_abs_bound((c as int + 550_000) * 200, 211, 190_200_000);
        }
        let t = mul_div(c + 550_000, 200, 211);
        proof {
            assert(t as int * t as int >= 0 && mag(t as int * t as int)
                <= 3_620_000_000 * SCALE as int) by (nonlinear_arith)
                requires mag(t as int) <= 190_200_000;
            lemma_tdiv_abs_bound(t as int * t as int, SCALE as int, 3_620_000_000);
        }
        let t2 = mul_div(t, t, SCALE);
        proof {
            assert(t2 >= 0);
            assert((t2 as int) * 10_000_000_000_000_000_000_000_000_000
                <= 36_200_000_000_000_000_000_000_000_000_000_000_000) by (nonlinear_arith)
                requires 0 <= t2 as int <= 3_620_000_000;
        }
        let g64 = iroot5_u((t2 as u128) * 10_000_000_000_000_000_000_000_000_000u128);
        proof {
            assert(pow5(33_000_000) > 36_200_000_000_000_000_000_000_000_000_000_000_000)
                by (nonlinear_arith);
            lemma_root5_floor_below(
                (t2 as int) * 10_000_000_000_000_000_000_000_000_000,
                33_000_000,
            );
            lemma_root5_floor_bracket((t2 as int) * 10_000_000_000_000_000_000_000_000_000);
        }
        let g = g64 as i64;
        proof {
            assert(t2 as int * g as int >= 0 && mag(t2 as int * g as int)
                <= 12_000_000_000 * SCALE as int) by (nonlinear_arith)
                requires 0 <= t2 as int <= 3_620_000_000, 0 <= g as int <= 33_000_000;
            lemma_tdiv_abs_bound(t2 as int * g as int, SCALE as int, 12_000_000_000);
        }
        mul_div(t2, g, SCALE)
    }
}

/// Convert a linear-light channel to gamma-encoded sRGB, with the clamp to
/// [0.0, 1.0] that every conversion applies after companding folded in:
/// total, and every out-of-range input lands on the nearest bound.
pub fn linear_to_srgb_clamped(c: i64) -> (r: i64)
    ensures
        r == linear_to_srgb_clamped_s(c as int),
        0 <= r <= SCALE,
{
    if c <= 0 {
        0
    } else if c <= 31_308 {
        proof {
            assert(0 <= c as int * 323 && c as int * 323 <= 404_500 * 25) by (nonlinear_arith)
                requires 0 < c as int <= 31_308;
            lemma_tdiv_abs_bound(c as int * 323, 25, 404_500);
        }
        mul_div(c, 323, 25)
    } else if c >= SCALE {
        SCALE
    } else {
        proof {
            assert(0 < pow2(c as int) < 100_000_000_000_000
                && 0 < pow3(c as int) < 1_000_000_000_000_000_000_000
                && pow2(c as int) * pow2(c as int)
                    < 10_000_000_000_000_000_000_000_000_000
                && 0 < pow5(c as int) < 100_000_000_000_000_000_000_000_000_000_000_000)
                by (nonlinear_arith)
                requires 0 < c as int, (c as int) < 10_000_000;
        }
        let cu = c as u128;
        let c2: u128 = cu * cu;
        let c4: u128 = c2 * c2;
        proof {
            assert((c4 as int) * (cu as int) < 100_000_000_000_000_000_000_000_000_000_000_000)
                by (nonlinear_arith)
                requires
                    0 <= c4 as int,
                    (c4 as int) < 10_000_000_000_000_000_000_000_000_000,
                    0 <= cu as int,
                    (cu as int) < 10_000_000;
        }
        let c5: u128 = c4 * cu;
        proof {
            assert(c5 == pow5(c as int)) by (nonlinear_arith)
                requires
                    c2 == c as int * c as int,
                    c4 == c2 * c2,
                    c5 == c4 * c as int;
        }
        let q: u128 = c5 / 100_000_000u128;
        proof {
            assert(q == tdiv(pow5(c as int), 100_000_000));
            assert((q as int) < 1_000_000_000_000_000_000_000_000_000) by (nonlinear_arith)
                requires
                    q == pow5(c as int) / 100_000_000,
                    pow5(c as int) < 100_000_000_000_000_000_000_000_000_000_000_000;
            assert(pow3(1_000_000_000) == 1_000_000_000_000_000_000_000_000_000)
                by (nonlinear_arith);
        }
        let g = icbrt_u(q);
        proof {
            lemma_cbrt_floor_below(q as int, 1_000_000_000);
            lemma_cbrt_floor_bracket(q as int);
            assert(pow2(1_000_000_000) == 1_000_000_000_000_000_000) by (nonlinear_arith);
        }
        let h = isqrt_u((g as u128) * 1_000_000_000u128);
        proof {
            lemma_sqrt_floor_below((g as int) * 1_000_000_000, 1_000_000_000);
            lemma_sqrt_floor_bracket((g as int) * 1_000_000_000);
        }
        let k = isqrt_u((h as u128) * 1_000_000_000u128);
        proof {
            lemma_sqrt_floor_below((h as int) * 1_000_000_000, 1_000_000_000);
            lemma_sqrt_floor_bracket((h as int) * 1_000_000_000);
            assert(0 <= k as int * 211 && k as int * 211 <= 11_000_000 * 20_000)
                by (nonlinear_arith)
                requires 0 <= k as int <= 1_000_000_000;
            lemma_tdiv_abs_bound(k as int * 211, 20_000, 11_000_000);
        }
        let e = mul_div(k as i64, 211, 20_000) - 550_000;
        if e <= 0 {
            0
        } else if e >= SCALE {
            SCALE
        } else {
            e
        }
    }
}

/// Decompanding maps the sRGB gamut into the linear gamut: a channel in
/// [0.0, 1.0] comes out in [0.0, 1.0].
pub proof fn lemma_srgb_to_linear_gamut(c: int)
    requires
        0 <= c <= SCALE as int,
    ensures
        0 <= srgb_to_linear_s(c) <= SCALE as int,
{
    if c <= 404_500 {
        lemma_tdiv_nonneg(c * 25, 323);
        lemma_tdiv_exact(31_309, 323);
        lemma_tdiv_mono(c * 25, 10_112_807, 323);
    } else {
        lemma_tdiv_nonneg((c + 550_000) * 200, 211);
        lemma_tdiv_exact(10_000_000, 211);
        lemma_tdiv_mono((c + 550_000) * 200, 2_110_000_000, 211);
        let t = tdiv((c + 550_000) * 200, 211);
        assert(0 <= t * t && t * t <= 100_000_000_000_000) by (nonlinear_arith)
            requires 0 <= t, t <= 10_000_000;
        lemma_tdiv_nonneg(t * t, SCALE as int);
        lemma_tdiv_exact(10_000_000, SCALE as int);
        lemma_tdiv_mono(t * t, 100_000_000_000_000, SCALE as int);
        let t2 = tdiv(t * t, SCALE as int);
        assert(pow5(10_000_001) > 100_000_000_000_000_000_000_000_000_000_000_000)
            by (nonlinear_arith);
        lemma_root5_floor_below(t2 * 10_000_000_000_000_000_000_000_000_000, 10_000_001);
        lemma_root5_floor_bracket(t2 * 10_000_000_000_000_000_000_000_000_000);
        let g = root5_floor(t2 * 10_000_000_000_000_000_000_000_000_000);
        assert(0 <= t2 * g && t2 * g <= 100_000_000_000_000) by (nonlinear_arith)
            requires 0 <= t2, t2 <= 10_000_000, 0 <= g, g <= 10_000_000;
        lemma_tdiv_nonneg(t2 * g, SCALE as int);
        lemma_tdiv_mono(t2 * g, 100_000_000_000_000, SCALE as int);
    }
}

/// Companding keeps every result inside [0.0, 1.0].
pub proof fn lemma_linear_to_srgb_clamped_range(c: int)
    ensures
        0 <= linear_to_srgb_clamped_s(c) <= SCALE as int,
{
    if 0 < c && c <= 31_308 {
        lemma_tdiv_nonneg(c * 323, 25);
        lemma_tdiv_mono(c * 323, 10_112_500, 25);
        lemma_tdiv_exact(404_500, 25);
    }
}

/// On the power branch the companded value is at least the value one step
/// past the knee, which itself exceeds the top of the linear branch.
proof fn lemma_power_branch_low(c: int)
    requires
        31_308 < c,
        c < SCALE as int,
    ensures
        404_510 <= linear_to_srgb_clamped_s(c),
{
    assert(pow5(31_309) == 30084720635478036955549) by (nonlinear_arith);
    assert(pow5(31_309) <= pow5(c)) by (nonlinear_arith)
        requires 0 < 31_309 <= c;
    lemma_tdiv_exact(300_847_206_354_780, 100_000_000);
    lemma_tdiv_mono(30_084_720_635_478_000_000_000, pow5(c), 100_000_000);
    let q = tdiv(pow5(c), 100_000_000);
    assert(pow3(67_006) == 300843809236216) by (nonlinear_arith);
    assert(pow3(67_007) > pow3(67_006)) by (nonlinear_arith);
    lemma_cbrt_floor_of(pow3(67_006), 67_006);
    lemma_cbrt_floor_mono(pow3(67_006), q);
    let g = cbrt_floor(q);
    assert(pow2(8_185_719) == 67005995546961) by (nonlinear_arith);
    assert(pow2(8_185_720) > pow2(8_185_719)) by (nonlinear_arith);
    lemma_sqrt_floor_of(pow2(8_185_719), 8_185_719);
    lemma_sqrt_floor_mono(pow2(8_185_719), g * 1_000_000_000);
    let h = sqrt_floor(g * 1_000_000_000);
    assert(pow2(90_474_963) == 8185718929851369) by (nonlinear_arith);
    assert(pow2(90_474_964) > pow2(90_474_963)) by (nonlinear_arith);
    lemma_sqrt_floor_of(pow2(90_474_963), 90_474_963);
    lemma_sqrt_floor_mono(pow2(90_474_963), h * 1_000_000_000);
    let k = sqrt_floor(h * 1_000_000_000);
    lemma_tdiv_exact(954_510, 20_000);
    lemma_tdiv_mono(19_090_200_000, k * 211, 20_000);
}

/// Within the power branch the companded value is monotone in the input.
proof fn lemma_power_branch_mono(c1: int, c2: int)
    requires
        31_308 < c1,
        c1 <= c2,
        c2 < SCALE as int,
    ensures
        linear_to_srgb_clamped_s(c1) <= linear_to_srgb_clamped_s(c2),
{
    assert(0 < pow5(c1) && pow5(c1) <= pow5(c2)) by (nonlinear_arith)
        requires 0 < c1, c1 <= c2;
    lemma_tdiv_nonneg(pow5(c1), 100_000_000);
    lemma_tdiv_mono(pow5(c1), pow5(c2), 100_000_000);
    let q1 = tdiv(pow5(c1), 100_000_000);
    let q2 = tdiv(pow5(c2), 100_000_000);
    lemma_cbrt_floor_bracket(q1);
    lemma_cbrt_floor_mono(q1, q2);
    let g1 = cbrt_floor(q1);
    let g2 = cbrt_floor(q2);
    lemma_sqrt_floor_bracket(g1 * 1_000_000_000);
    lemma_sqrt_floor_mono(g1 * 1_000_000_000, g2 * 1_000_000_000);
    let h1 = sqrt_floor(g1 * 1_000_000_000);
    let h2 = sqrt_floor(g2 * 1_000_000_000);
    lemma_sqrt_floor_mono(h1 * 1_000_000_000, h2 * 1_000_000_000);
    let k1 = sqrt_floor(h1 * 1_000_000_000);
    let k2 = sqrt_floor(h2 * 1_000_000_000);
    lemma_tdiv_mono(k1 * 211, k2 * 211, 20_000);
}

/// Companding is monotone: a brighter linear channel never compands to a
/// darker sRGB channel, across the knee, both curve branches and the clamp.
pub proof fn lemma_linear_to_srgb_clamped_mono(c1: int, c2: int)
    requires
        c1 <= c2,
    ensures
        linear_to_srgb_clamped_s(c1) <= linear_to_srgb_clamped_s(c2),
{
    lemma_linear_to_srgb_clamped_range(c1);
    lemma_linear_to_srgb_clamped_range(c2);
    if c1 <= 0 || c1 >= SCALE as int {
        // the floor at 0, or both ends clamped to full scale
    } else if c2 <= 31_308 {
        lemma_tdiv_mono(c1 * 323, c2 * 323, 25);
    } else if c1 <= 31_308 {
        lemma_tdiv_mono(c1 * 323, 10_112_500, 25);
        lemma_tdiv_exact(404_500, 25);
        if c2 < SCALE as int {
            lemma_power_branch_low(c2);
        }
    } else if c2 >= SCALE as int {
        // the power branch is clamped to full scale from above
    } else {
        lemma_power_branch_mono(c1, c2);
    }
}

/// Interpolation is monotone in `t`: it moves toward `end` without ever
/// turning back, whichever side `end` lies on.
pub proof fn lemma_lerp_monotone(start: int, end: int, t1: int, t2: int)
    requires
        t1 <= t2,
    ensures
        start <= end ==> lerp_s(start, end, t1) <= lerp_s(start, end, t2),
        end <= start ==> lerp_s(start, end, t2) <= lerp_s(start, end, t1),
{
    let d = end - start;
    if d == 0 {
        assert(t1 * d == 0 && t2 * d == 0) by (nonlinear_arith)
            requires d == 0;
    } else if d > 0 {
        assert(t1 * d <= t2 * d) by (nonlinear_arith)
            requires t1 <= t2, d >= 0;
        lemma_tdiv_mono(t1 * d, t2 * d, SCALE as int);
    } else {
        assert(t2 * d <= t1 * d) by (nonlinear_arith)
            requires t1 <= t2, d < 0;
        lemma_tdiv_mono(t2 * d, t1 * d, SCALE as int);
    }
}

/// For `t` within [0.0, 1.0] the interpolant never overshoots: it stays
/// between `start` and `end`.
pub proof fn lemma_lerp_bounded(start: int, end: int, t: int)
    requires
        0 <= t <= SCALE as int,
    ensures
        start <= end ==> start <= lerp_s(start, end, t) <= end,
        end <= start ==> end <= lerp_s(start, end, t) <= start,
{
    let d = end - start;
    assert(0 * d == 0) by (nonlinear_arith);
    assert(lerp_s(start, end, 0) == start);
    assert(d * SCALE as int == SCALE as int * d) by (nonlinear_arith);
    lemma_tdiv_exact(d, SCALE as int);
    assert(lerp_s(start, end, SCALE as int) == end);
    lemma_lerp_monotone(start, end, 0, t);
    lemma_lerp_monotone(start, end, t, SCALE as int);
}

/// Linear interpolation between `start` and `end`: `t` at 0.0 returns
/// `start`, at 1.0 returns `end`, and is not clamped, so values outside
/// [0.0, 1.0] extrapolate.
pub fn lerp(start: i64, end: i64, t: i64) -> (r: i64)
    requires
        mag(start as int) <= CHANNEL_LIMIT as int,
        mag(end as int) <= CHANNEL_LIMIT as int,
        mag(t as int) <= T_LIMIT as int,
    ensures
        r == lerp_s(start as int, end as int, t as int),
        t == 0 ==> r == start,
        t == SCALE ==> r == end,
{
    proof {
        assert(mag(t as int * (end as int - start as int))
            <= 200_000_000_000_000_000 * SCALE as int) by (nonlinear_arith)
            requires
                mag(t as int) <= 1_000_000_000,
                mag(end as int - start as int) <= 2_000_000_000_000_000;
        lemma_tdiv_abs_bound(
            t as int * (end as int - start as int),
            SCALE as int,
            200_000_000_000_000_000,
        );
        if t == 0 {
            assert(t as int * (end as int - start as int) == 0) by (nonlinear_arith)
                requires t as int == 0;
        }
        if t == SCALE {
            assert(t as int * (end as int - start as int)
                == (end as int - start as int) * SCALE as int) by (nonlinear_arith)
                requires t as int == SCALE as int;
            lemma_tdiv_exact(end as int - start as int, SCALE as int);
        }
    }
    let d = end - start;
    let q = mul_div(t, d, SCALE);
    start + q
}

} // verus!
