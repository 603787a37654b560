//! Sine and cosine of an angle in degrees, for the cylindrical HCL form.
//!
//! The half-turn is covered by the classical rational approximation of the
//! sine, `4 d (180 - d) / (40500 - d (180 - d))` for `d` in [0, 180], which
//! is exact at 0, 90 and 180 degrees, stays within about 0.002 of the sine
//! everywhere, and never leaves [0, 1]. The second half-turn negates it, and
//! the cosine is the sine shifted a quarter turn.
//!
//! Accuracy, stated plainly because the contracts say only which rational
//! function is computed: the worst error of the approximation is about
//! 0.0016 (near 12 and 168 degrees), so the squared sum of sine and cosine
//! stays within about 0.4% of one, and the chroma of a color built from HCL
//! is recovered by `CIELUV::chroma` only to within about 0.2% of the HCL
//! chroma -- not to the last unit of the working scale.

use vstd::prelude::*;
use crate::fixed::{SCALE, mag, tdiv, div_i128, lemma_tdiv_abs_bound};

verus! {

/// The rational sine approximation on [0, 180] degrees, at the working
/// scale.
pub open spec fn sin_half_s(d: int) -> int {
    let p = d * (180 * SCALE as int - d);
    tdiv(4 * p * SCALE as int, 40500 * SCALE as int * SCALE as int - p)
}

/// Sine of an angle in [0, 360] degrees at the working scale.
pub open spec fn sin_deg_s(h: int) -> int {
    if h <= 180 * SCALE as int {
        sin_half_s(h)
    } else {
        -sin_half_s(h - 180 * SCALE as int)
    }
}

/// Cosine of an angle in [0, 360] degrees: the sine a quarter turn ahead.
pub open spec fn cos_deg_s(h: int) -> int {
    if h + 90 * SCALE as int <= 360 * SCALE as int {
        sin_deg_s(h + 90 * SCALE as int)
    } else {
        sin_deg_s(h - 270 * SCALE as int)
    }
}

fn sin_half(d: i64) -> (r: i64)
    requires
        0 <= d <= 180 * SCALE as int,
    ensures
        r as int == sin_half_s(d as int),
        0 <= r <= SCALE,
{
    proof {
        assert(0 <= d as int * (180 * SCALE as int - d as int)
            && d as int * (180 * SCALE as int - d as int)
                <= 810_000_000_000_000_000) by (nonlinear_arith)
            requires 0 <= d as int <= 180 * SCALE as int, SCALE as int == 10_000_000;
    }
    let p: i128 = (d as i128) * ((180 * SCALE - d) as i128);
    let num: i128 = 4 * p * (SCALE as i128);
    let den: i128 = 40500 * (SCALE as i128) * (SCALE as i128) - p;
    proof {
        assert(mag(num as int) <= SCALE as int * den as int) by (nonlinear_arith)
            requires
                num as int == 4 * (p as int) * SCALE as int,
                den as int == 40500 * SCALE as int * SCALE as int - p as int,
                0 <= p as int <= 810_000_000_000_000_000,
                SCALE as int == 10_000_000;
        lemma_tdiv_abs_bound(num as int, den as int, SCALE as int);
    }
    let q = div_i128(num, den);
    q as i64
}

/// Sine of an angle in degrees; the angle must lie in [0.0, 360.0].
pub fn sin_deg(h: i64) -> (r: i64)
    requires
        0 <= h <= 360 * SCALE as int,
    ensures
        r as int == sin_deg_s(h as int),
        -SCALE <= r <= SCALE,
{
    if h <= 180 * SCALE {
        sin_half(h)
    } else {
        -sin_half(h - 180 * SCALE)
    }
}

/// Cosine of an angle in degrees; the angle must lie in [0.0, 360.0].
pub fn cos_deg(h: i64) -> (r: i64)
    requires
        0 <= h <= 360 * SCALE as int,
    ensures
        r as int == cos_deg_s(h as int),
        -SCALE <= r <= SCALE,
{
    if h + 90 * SCALE <= 360 * SCALE {
        sin_deg(h + 90 * SCALE)
    } else {
        sin_deg(h - 270 * SCALE)
    }
}

} // verus!
