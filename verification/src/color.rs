//! The color-space value types and the conversions between them.
//!
//! XYZ is the hub space: every conversion route passes through it. CIELUV is
//! the perceptual space in which gradients interpolate. Channels are fixed
//! point at `SCALE` units per 1.0 (see the crate root).

use vstd::prelude::*;
use crate::fixed::{
    SCALE, mag, tdiv, pow2, pow3, dot3, mul_div, icbrt_u, cbrt_floor, isqrt_u, sqrt_floor,
    lemma_tdiv_abs_bound, lemma_tdiv_abs_bound_any, lemma_tdiv_mono,
    lemma_tdiv_exact, lemma_tdiv_nonneg, lemma_tdiv_mul_bounds,
    lemma_cbrt_floor_of, lemma_cbrt_floor_mono,
    lemma_cbrt_floor_below, lemma_cbrt_floor_bracket,
    lemma_sqrt_floor_below, lemma_sqrt_floor_bracket,
};
use crate::trig::{sin_deg, cos_deg, sin_deg_s, cos_deg_s};
use crate::transfer::{
    SRGB_IN_LIMIT, CHANNEL_LIMIT, T_LIMIT, srgb_to_linear, srgb_to_linear_s,
    linear_to_srgb_clamped, linear_to_srgb_clamped_s, lerp, lerp_s,
    lemma_srgb_to_linear_gamut,
    lemma_lerp_monotone, lemma_lerp_bounded,
};

verus! {

/// A gamma-encoded sRGB color; channels nominally in [0.0, 1.0], that is
/// [0, `SCALE`].
#[derive(Default, Debug, Clone, Copy, PartialEq, Eq, Structural)]
pub struct RGB {
    pub r: i64,
    pub g: i64,
    pub b: i64,
}

/// CIE 1931 XYZ with the D65 white point, linear light; `y` is luminance.
#[derive(Default, Debug, Clone, Copy, PartialEq, Eq, Structural)]
pub struct XYZ {
    pub x: i64,
    pub y: i64,
    pub z: i64,
}

impl RGB {
    /// Channels admitted by the conversions: anything up to 20.0 in
    /// magnitude, far beyond the nominal [0.0, 1.0] gamut.
    pub open spec fn admissible(self) -> bool {
        mag(self.r as int) <= SRGB_IN_LIMIT as int
            && mag(self.g as int) <= SRGB_IN_LIMIT as int
            && mag(self.b as int) <= SRGB_IN_LIMIT as int
    }

    /// All channels within the nominal sRGB gamut [0.0, 1.0].
    pub open spec fn in_gamut(self) -> bool {
        0 <= self.r <= SCALE && 0 <= self.g <= SCALE && 0 <= self.b <= SCALE
    }

    pub fn black() -> (c: RGB)
        ensures c == (RGB { r: 0, g: 0, b: 0 }),
    {
        RGB { r: 0, g: 0, b: 0 }
    }

    pub fn red() -> (c: RGB)
        ensures c == (RGB { r: SCALE, g: 0, b: 0 }),
    {
        RGB { r: SCALE, g: 0, b: 0 }
    }

    pub fn green() -> (c: RGB)
        ensures c == (RGB { r: 0, g: SCALE, b: 0 }),
    {
        RGB { r: 0, g: SCALE, b: 0 }
    }

    pub fn blue() -> (c: RGB)
        ensures c == (RGB { r: 0, g: 0, b: SCALE }),
    {
        RGB { r: 0, g: 0, b: SCALE }
    }

    pub fn white() -> (c: RGB)
        ensures c == (RGB { r: SCALE, g: SCALE, b: SCALE }),
    {
        RGB { r: SCALE, g: SCALE, b: SCALE }
    }
}

/// One row of the forward sRGB-to-XYZ matrix (sRGB working space, D65)
/// applied to decompanded channels.
pub open spec fn xyz_row_s(r: int, g: int, b: int, k1: int, k2: int, k3: int) -> int {
    tdiv(
        srgb_to_linear_s(r) * k1 + srgb_to_linear_s(g) * k2 + srgb_to_linear_s(b) * k3,
        SCALE as int,
    )
}

/// One row of the inverse matrix (sYCC, IEC 61966-2-1 Amendment 1, seven
/// decimals) applied to an XYZ value: an un-companded linear-light channel.
pub open spec fn linear_row_s(x: int, y: int, z: int, k1: int, k2: int, k3: int) -> int {
    tdiv(x * k1 + y * k2 + z * k3, SCALE as int)
}

/// The same row followed by companding and the clamp to [0.0, 1.0].
pub open spec fn rgb_row_s(x: int, y: int, z: int, k1: int, k2: int, k3: int) -> int {
    linear_to_srgb_clamped_s(linear_row_s(x, y, z, k1, k2, k3))
}

impl XYZ {
    /// Magnitudes admitted by the conversions out of XYZ.
    pub open spec fn admissible(self) -> bool {
        mag(self.x as int) <= 500_000_000_000_000
            && mag(self.y as int) <= 500_000_000_000_000
            && mag(self.z as int) <= 500_000_000_000_000
    }

    /// Convert sRGB to XYZ: decompand each channel, then apply the fixed
    /// sRGB/D65 matrix. White lands near XYZ{0.9505, 1.0, 1.089}.
    pub fn from_rgb(rgb: RGB) -> (xyz: XYZ)
        requires
            rgb.admissible(),
        ensures
            xyz.x as int == xyz_row_s(
                rgb.r as int, rgb.g as int, rgb.b as int, 4124564, 3575761, 1804375,
            ),
            xyz.y as int == xyz_row_s(
                rgb.r as int, rgb.g as int, rgb.b as int, 2126729, 7151522, 721750,
            ),
            xyz.z as int == xyz_row_s(
                rgb.r as int, rgb.g as int, rgb.b as int, 193339, 1191920, 9503041,
            ),
            mag(xyz.x as int) <= 40_000_000_000,
            mag(xyz.y as int) <= 40_000_000_000,
            mag(xyz.z as int) <= 40_000_000_000,
            rgb.r >= 0 && rgb.g >= 0 && rgb.b >= 0 ==> xyz.x >= 0 && xyz.y >= 0 && xyz.z >= 0,
    {
        let lr = srgb_to_linear(rgb.r);
        let lg = srgb_to_linear(rgb.g);
        let lb = srgb_to_linear(rgb.b);
        let x = dot3(lr, 4124564, lg, 3575761, lb, 1804375);
        let y = dot3(lr, 2126729, lg, 7151522, lb, 721750);
        let z = dot3(lr, 193339, lg, 1191920, lb, 9503041);
        proof {
            lemma_row_bound(lr as int, lg as int, lb as int, 4124564, 3575761, 1804375);
            lemma_row_bound(lr as int, lg as int, lb as int, 2126729, 7151522, 721750);
            lemma_row_bound(lr as int, lg as int, lb as int, 193339, 1191920, 9503041);
        }
        XYZ { x, y, z }
    }
}

/// A decompanded channel lies within 1200.0 of zero, so one matrix row lies
/// within 1200.0 * (largest coefficient column sum) of zero.
proof fn lemma_row_bound(lr: int, lg: int, lb: int, k1: int, k2: int, k3: int)
    requires
        mag(lr) <= 12_000_000_000,
        mag(lg) <= 12_000_000_000,
        mag(lb) <= 12_000_000_000,
        0 <= k1 <= 10_000_000,
        0 <= k2 <= 10_000_000,
        0 <= k3 <= 10_000_000,
    ensures
        mag(tdiv(lr * k1 + lg * k2 + lb * k3, SCALE as int)) <= 40_000_000_000,
{
    assert(mag(lr * k1) <= 120_000_000_000_000_000
        && mag(lg * k2) <= 120_000_000_000_000_000
        && mag(lb * k3) <= 120_000_000_000_000_000) by (nonlinear_arith)
        requires
            mag(lr) <= 12_000_000_000,
            mag(lg) <= 12_000_000_000,
            mag(lb) <= 12_000_000_000,
            0 <= k1 <= 10_000_000,
            0 <= k2 <= 10_000_000,
            0 <= k3 <= 10_000_000;
    lemma_tdiv_abs_bound(lr * k1 + lg * k2 + lb * k3, SCALE as int, 40_000_000_000);
}

/// A perceptual color in CIE 1976 L*u*v*. `l` is lightness, `u` and `v` the
/// chromaticity axes; none is clamped.
#[derive(Default, Debug, Clone, Copy, PartialEq, Eq, Structural)]
pub struct CIELUV {
    pub l: i64,
    pub u: i64,
    pub v: i64,
}

/// Reference chromaticity of the D65 white point: u' at the working scale.
pub const U_PRIME_REF: i64 = 1_978_300;

/// Reference chromaticity of the D65 white point: v' at the working scale.
pub const V_PRIME_REF: i64 = 4_683_200;

/// Lightness from the XYZ luminance `y`: the cube-root law above the CIE
/// threshold 216/24389 of the reference white, the linear continuity branch
/// `(24389/27) * y_ref` below it.
pub open spec fn luv_l_s(y: int) -> int {
    let yr = tdiv(y, 100);
    if yr * 24389 > 216 * SCALE as int {
        116 * cbrt_floor(yr * 100_000_000_000_000) - 160_000_000
    } else {
        tdiv(yr * 24389, 27)
    }
}

/// The u' chromaticity of an XYZ value with chromaticity denominator `d`.
pub open spec fn u_prime_s(x: int, d: int) -> int {
    tdiv(4 * x * SCALE as int, d)
}

/// The v' chromaticity of an XYZ value with chromaticity denominator `d`.
pub open spec fn v_prime_s(y: int, d: int) -> int {
    tdiv(9 * y * SCALE as int, d)
}

/// A CIELUV chromaticity channel: `13 * L * (prime - prime_ref)`.
pub open spec fn luv_uv_s(l: int, prime: int, prime_ref: int) -> int {
    tdiv(13 * l * (prime - prime_ref), SCALE as int)
}

/// XYZ to CIELUV, all three channels, with the all-zero guard.
pub open spec fn cieluv_from_xyz_s(x: int, y: int, z: int) -> (int, int, int) {
    if x == 0 && y == 0 && z == 0 {
        (0, 0, 0)
    } else {
        let d = x + 15 * y + 3 * z;
        let l = luv_l_s(y);
        (
            l,
            luv_uv_s(l, u_prime_s(x, d), U_PRIME_REF as int),
            luv_uv_s(l, v_prime_s(y, d), V_PRIME_REF as int),
        )
    }
}

/// Inputs admitted by the conversion to CIELUV: channels within 10000.0 of
/// zero, and a chromaticity denominator that keeps u' and v' within 100.0 of
/// zero -- satisfied by every color with nonnegative channels.
pub open spec fn xyz_luv_admissible_s(x: int, y: int, z: int) -> bool {
    mag(x) <= 100_000_000_000
        && mag(y) <= 100_000_000_000
        && mag(z) <= 100_000_000_000
        && (
            (x == 0 && y == 0 && z == 0)
            || {
                let d = x + 15 * y + 3 * z;
                d != 0 && 4 * mag(x) <= 100 * mag(d) && 9 * mag(y) <= 100 * mag(d)
            }
        )
}

impl XYZ {
    /// Inputs admitted by the conversion to CIELUV.
    pub open spec fn luv_admissible(self) -> bool {
        xyz_luv_admissible_s(self.x as int, self.y as int, self.z as int)
    }
}

impl CIELUV {
    /// Convert XYZ to CIELUV. All-zero XYZ maps to all-zero CIELUV exactly;
    /// otherwise the CIE forward formulas apply, with the low-luminance
    /// linear branch for lightness continuity near black.
    pub fn from_xyz(xyz: XYZ) -> (luv: CIELUV)
        requires
            xyz.luv_admissible(),
        ensures
            (luv.l as int, luv.u as int, luv.v as int)
                == cieluv_from_xyz_s(xyz.x as int, xyz.y as int, xyz.z as int),
            xyz.x == 0 && xyz.y == 0 && xyz.z == 0 ==> luv == (CIELUV { l: 0, u: 0, v: 0 }),
            mag(luv.l as int) <= 1_000_000_000_000,
            mag(luv.u as int) <= 2_000_000_000_000_000,
            mag(luv.v as int) <= 2_000_000_000_000_000,
    {
        if xyz.x == 0 && xyz.y == 0 && xyz.z == 0 {
            return CIELUV { l: 0, u: 0, v: 0 };
        }
        let d = xyz.x + 15 * xyz.y + 3 * xyz.z;
        proof {
            lemma_tdiv_abs_bound_any(4 * xyz.x as int * SCALE as int, d as int, 1_000_000_000);
            lemma_tdiv_abs_bound_any(9 * xyz.y as int * SCALE as int, d as int, 1_000_000_000);
            lemma_tdiv_abs_bound(xyz.y as int * 1, 100, 1_000_000_000);
        }
        let up = mul_div(4 * xyz.x, SCALE, d);
        let vp = mul_div(9 * xyz.y, SCALE, d);
        let yr = mul_div(xyz.y, 1, 100);
        let l: i64;
        if yr * 24389 > 216 * SCALE {
            let cr = icbrt_u((yr as u128) * 100_000_000_000_000u128);
            proof {
                assert(pow3(47_000_000) > (yr as int) * 100_000_000_000_000)
                    by (nonlinear_arith)
                    requires 0 <= yr as int <= 1_000_000_000;
                lemma_cbrt_floor_below((yr as int) * 100_000_000_000_000, 47_000_000);
                lemma_cbrt_floor_bracket((yr as int) * 100_000_000_000_000);
            }
            l = 116 * (cr as i64) - 160_000_000;
        } else {
            proof {
                lemma_tdiv_abs_bound(yr as int * 24389, 27, 910_000_000_000);
            }
            l = mul_div(yr, 24389, 27);
        }
        proof {
            assert(mag(13 * l as int * (up as int - U_PRIME_REF as int))
                <= 2_000_000_000_000_000 * SCALE as int) by (nonlinear_arith)
                requires
                    mag(l as int) <= 910_000_000_000,
                    mag(up as int - U_PRIME_REF as int) <= 1_010_000_000;
            assert(mag(13 * l as int * (vp as int - V_PRIME_REF as int))
                <= 2_000_000_000_000_000 * SCALE as int) by (nonlinear_arith)
                requires
                    mag(l as int) <= 910_000_000_000,
                    mag(vp as int - V_PRIME_REF as int) <= 1_010_000_000;
            lemma_tdiv_abs_bound(
                13 * l as int * (up as int - U_PRIME_REF as int),
                SCALE as int,
                2_000_000_000_000_000,
            );
            lemma_tdiv_abs_bound(
                13 * l as int * (vp as int - V_PRIME_REF as int),
                SCALE as int,
                2_000_000_000_000_000,
            );
        }
        let u = mul_div(13 * l, up - U_PRIME_REF, SCALE);
        let v = mul_div(13 * l, vp - V_PRIME_REF, SCALE);
        CIELUV { l, u, v }
    }
}

/// The u' chromaticity recovered from a CIELUV value: `u / (13 L) + u'_ref`.
pub open spec fn rev_u_prime_s(l: int, u: int) -> int {
    tdiv(u * SCALE as int, 13 * l) + U_PRIME_REF as int
}

/// The v' chromaticity recovered from a CIELUV value: `v / (13 L) + v'_ref`.
pub open spec fn rev_v_prime_s(l: int, v: int) -> int {
    tdiv(v * SCALE as int, 13 * l) + V_PRIME_REF as int
}

/// Luminance recovered from lightness: the cubic law above L = 8, else the
/// linear branch `100 * L / 903.3`.
pub open spec fn rev_y_s(l: int) -> int {
    if l > 8 * SCALE as int {
        tdiv(100 * pow3(tdiv(l + 160_000_000, 116)), 100_000_000_000_000)
    } else {
        tdiv(l * 1000, 9033)
    }
}

/// `x` recovered algebraically from luminance and chromaticities.
pub open spec fn rev_x_s(y: int, up: int, vp: int) -> int {
    tdiv(y * (9 * up), 4 * vp)
}

/// `z` recovered algebraically from luminance and chromaticities.
pub open spec fn rev_z_s(y: int, up: int, vp: int) -> int {
    tdiv(y * (12 * SCALE as int - 3 * up - 20 * vp), 4 * vp)
}

/// CIELUV to XYZ, all three channels, with the zero-lightness guard.
pub open spec fn xyz_from_cieluv_s(l: int, u: int, v: int) -> (int, int, int) {
    if l == 0 {
        (0, 0, 0)
    } else {
        let up = rev_u_prime_s(l, u);
        let vp = rev_v_prime_s(l, v);
        let y = rev_y_s(l);
        (rev_x_s(y, up, vp), y, rev_z_s(y, up, vp))
    }
}

/// Inputs admitted by the conversions out of CIELUV: lightness within 200.0
/// of zero, chromaticity within 130.0 * lightness (that is, a recovered u'
/// and v' within 100.0 of the reference), and a recovered v' of at least
/// 0.01 so that the division by v' stays tame. Every value produced by the
/// forward conversion from a color satisfies this comfortably.
pub open spec fn luv_admissible_s(l: int, u: int, v: int) -> bool {
    l == 0 || (
        mag(l) <= 2_000_000_000
        && mag(u) <= 1300 * mag(l)
        && mag(v) <= 1300 * mag(l)
        && rev_v_prime_s(l, v) >= 100_000
    )
}

impl CIELUV {
    /// Inputs admitted by the conversions out of CIELUV.
    pub open spec fn admissible(self) -> bool {
        luv_admissible_s(self.l as int, self.u as int, self.v as int)
    }
}

impl XYZ {
    /// Convert CIELUV to XYZ. Zero lightness maps to all-zero XYZ exactly;
    /// otherwise u' and v' are recovered from u, v and L, luminance from the
    /// inverse lightness law (cubic above L = 8, linear below), and x, z
    /// algebraically from y, u' and v'.
    pub fn from_cieluv(luv: CIELUV) -> (xyz: XYZ)
        requires
            luv.admissible(),
        ensures
            (xyz.x as int, xyz.y as int, xyz.z as int)
                == xyz_from_cieluv_s(luv.l as int, luv.u as int, luv.v as int),
            luv.l == 0 ==> xyz == (XYZ { x: 0, y: 0, z: 0 }),
            xyz.admissible(),
    {
        if luv.l == 0 {
            return XYZ { x: 0, y: 0, z: 0 };
        }
        let dl = 13 * luv.l;
        proof {
            lemma_tdiv_abs_bound_any(luv.u as int * SCALE as int, dl as int, 1_000_000_000);
            lemma_tdiv_abs_bound_any(luv.v as int * SCALE as int, dl as int, 1_000_000_000);
        }
        let up = mul_div(luv.u, SCALE, dl) + U_PRIME_REF;
        let vp = mul_div(luv.v, SCALE, dl) + V_PRIME_REF;
        let y: i64;
        if luv.l > 8 * SCALE {
            proof {
                lemma_tdiv_exact(2, 116);
                lemma_tdiv_mono(232, luv.l as int + 160_000_000, 116);
                lemma_tdiv_exact(18_620_690, 116);
                lemma_tdiv_mono(luv.l as int + 160_000_000, 2_160_000_040, 116);
            }
            let t = mul_div(luv.l + 160_000_000, 1, 116);
            let tu = t as u128;
            proof {
                assert(tu * tu * tu <= 18_620_690u128 * 18_620_690u128 * 18_620_690u128
                    && tu * tu <= 18_620_690u128 * 18_620_690u128) by (nonlinear_arith)
                    requires 0 < tu <= 18_620_690u128;
            }
            let t3: u128 = tu * tu * tu;
            let y128: u128 = 100 * t3 / 100_000_000_000_000u128;
            proof {
                assert(y128 as int == tdiv(100 * pow3(t as int), 100_000_000_000_000));
            }
            y = y128 as i64;
        } else {
            proof {
                lemma_tdiv_abs_bound(luv.l as int * 1000, 9033, 300_000_000);
            }
            y = mul_div(luv.l, 1000, 9033);
        }
        proof {
            assert(mag(y as int * (9 * up as int)) <= 160_000_000_000_000 * (4 * vp as int)
                && mag(y as int * (12 * SCALE as int - 3 * up as int - 20 * vp as int))
                    <= 400_000_000_000_000 * (4 * vp as int)) by (nonlinear_arith)
                requires
                    mag(y as int) <= 6_600_000_000,
                    mag(up as int) <= 1_010_000_000,
                    100_000 <= vp as int <= 1_010_000_000;
            lemma_tdiv_abs_bound(y as int * (9 * up as int), 4 * vp as int, 160_000_000_000_000);
            lemma_tdiv_abs_bound(
                y as int * (12 * SCALE as int - 3 * up as int - 20 * vp as int),
                4 * vp as int,
                400_000_000_000_000,
            );
        }
        let x = mul_div(y, 9 * up, 4 * vp);
        let z = mul_div(y, 12 * SCALE - 3 * up - 20 * vp, 4 * vp);
        XYZ { x, y, z }
    }
}

/// Chroma: the magnitude of the (u, v) chromaticity vector.
pub open spec fn chroma_s(u: int, v: int) -> int {
    sqrt_floor(u * u + v * v)
}

/// Saturation: chroma normalized by lightness when lightness is positive,
/// exactly zero otherwise -- no division is ever attempted for `l <= 0`.
pub open spec fn saturation_s(l: int, u: int, v: int) -> int {
    if l <= 0 {
        0
    } else {
        tdiv(chroma_s(u, v) * SCALE as int, l)
    }
}

impl CIELUV {
    /// Chroma, `sqrt(u^2 + v^2)`: colorfulness before normalizing by
    /// lightness.
    pub fn chroma(&self) -> (r: i64)
        requires
            mag(self.u as int) <= 2_000_000_000_000_000,
            mag(self.v as int) <= 2_000_000_000_000_000,
        ensures
            r as int == chroma_s(self.u as int, self.v as int),
            r >= 0,
    {
        proof {
            assert(self.u as int * self.u as int >= 0
                && self.v as int * self.v as int >= 0
                && (self.u as int * self.u as int + self.v as int * self.v as int)
                    < pow2(3_000_000_000_000_000)) by (nonlinear_arith)
                requires
                    mag(self.u as int) <= 2_000_000_000_000_000,
                    mag(self.v as int) <= 2_000_000_000_000_000;
        }
        let ua: i128 = self.u as i128;
        let va: i128 = self.v as i128;
        let uu: u128 = (ua * ua) as u128;
        let vv: u128 = (va * va) as u128;
        let r64 = isqrt_u(uu + vv);
        proof {
            lemma_sqrt_floor_below(
                self.u as int * self.u as int + self.v as int * self.v as int,
                3_000_000_000_000_000,
            );
            lemma_sqrt_floor_bracket(
                self.u as int * self.u as int + self.v as int * self.v as int,
            );
        }
        r64 as i64
    }

    /// Saturation, chroma over lightness; exactly zero for `l <= 0`.
    pub fn saturation(&self) -> (r: i64)
        requires
            self.l > 0 ==> self.l <= 1_000_000_000_000
                && mag(self.u as int) <= 1300 * self.l as int
                && mag(self.v as int) <= 1300 * self.l as int,
        ensures
            r as int == saturation_s(self.l as int, self.u as int, self.v as int),
            r >= 0,
            self.l <= 0 ==> r == 0,
            r <= 18_390_000_000,
    {
        if self.l <= 0 {
            return 0;
        }
        let c = self.chroma();
        proof {
            assert(0 <= self.u as int * self.u as int + self.v as int * self.v as int
                && (self.u as int * self.u as int + self.v as int * self.v as int)
                    < pow2(1839 * self.l as int + 1)) by (nonlinear_arith)
                requires
                    1 <= self.l as int,
                    mag(self.u as int) <= 1300 * self.l as int,
                    mag(self.v as int) <= 1300 * self.l as int;
            lemma_sqrt_floor_below(
                self.u as int * self.u as int + self.v as int * self.v as int,
                1839 * self.l as int + 1,
            );
            assert(mag(c as int * SCALE as int) <= 18_390_000_000 * self.l as int)
                by (nonlinear_arith)
                requires
                    0 <= c as int,
                    c as int <= 1839 * self.l as int,
                    1 <= self.l as int;
            lemma_tdiv_abs_bound(c as int * SCALE as int, self.l as int, 18_390_000_000);
        }
        mul_div(c, SCALE, self.l)
    }

    /// Interpolate between two colors in CIELUV, the gradient primitive:
    /// `t` at 0.0 returns `self` and at 1.0 returns `end`, exactly; values
    /// between blend each component linearly.
    pub fn interpolate(&self, end: &CIELUV, t: i64) -> (r: CIELUV)
        requires
            mag(self.l as int) <= CHANNEL_LIMIT as int,
            mag(self.u as int) <= CHANNEL_LIMIT as int,
            mag(self.v as int) <= CHANNEL_LIMIT as int,
            mag(end.l as int) <= CHANNEL_LIMIT as int,
            mag(end.u as int) <= CHANNEL_LIMIT as int,
            mag(end.v as int) <= CHANNEL_LIMIT as int,
            mag(t as int) <= T_LIMIT as int,
        ensures
            r.l as int == lerp_s(self.l as int, end.l as int, t as int),
            r.u as int == lerp_s(self.u as int, end.u as int, t as int),
            r.v as int == lerp_s(self.v as int, end.v as int, t as int),
            t == 0 ==> r == *self,
            t == SCALE ==> r == *end,
    {
        CIELUV {
            l: lerp(self.l, end.l, t),
            u: lerp(self.u, end.u, t),
            v: lerp(self.v, end.v, t),
        }
    }
}

/// Gradient monotonicity: stepping `t` upward moves every CIELUV component
/// monotonically from its start value toward its end value -- non-decreasing
/// where the end lies above the start, non-increasing where it lies below.
pub proof fn lemma_interpolate_monotone(start: CIELUV, end: CIELUV, t1: int, t2: int)
    requires
        t1 <= t2,
    ensures
        start.l <= end.l ==> lerp_s(start.l as int, end.l as int, t1)
            <= lerp_s(start.l as int, end.l as int, t2),
        end.l <= start.l ==> lerp_s(start.l as int, end.l as int, t2)
            <= lerp_s(start.l as int, end.l as int, t1),
        start.u <= end.u ==> lerp_s(start.u as int, end.u as int, t1)
            <= lerp_s(start.u as int, end.u as int, t2),
        end.u <= start.u ==> lerp_s(start.u as int, end.u as int, t2)
            <= lerp_s(start.u as int, end.u as int, t1),
        start.v <= end.v ==> lerp_s(start.v as int, end.v as int, t1)
            <= lerp_s(start.v as int, end.v as int, t2),
        end.v <= start.v ==> lerp_s(start.v as int, end.v as int, t2)
            <= lerp_s(start.v as int, end.v as int, t1),
{
    lemma_lerp_monotone(start.l as int, end.l as int, t1, t2);
    lemma_lerp_monotone(start.u as int, end.u as int, t1, t2);
    lemma_lerp_monotone(start.v as int, end.v as int, t1, t2);
}

/// An interpolant with `t` in [0.0, 1.0] never overshoots: each component
/// stays between its two endpoint values.
pub proof fn lemma_interpolate_bounded(start: CIELUV, end: CIELUV, t: int)
    requires
        0 <= t <= SCALE as int,
    ensures
        start.l <= end.l ==> start.l as int
            <= lerp_s(start.l as int, end.l as int, t) <= end.l as int,
        end.l <= start.l ==> end.l as int
            <= lerp_s(start.l as int, end.l as int, t) <= start.l as int,
        start.u <= end.u ==> start.u as int
            <= lerp_s(start.u as int, end.u as int, t) <= end.u as int,
        end.u <= start.u ==> end.u as int
            <= lerp_s(start.u as int, end.u as int, t) <= start.u as int,
        start.v <= end.v ==> start.v as int
            <= lerp_s(start.v as int, end.v as int, t) <= end.v as int,
        end.v <= start.v ==> end.v as int
            <= lerp_s(start.v as int, end.v as int, t) <= start.v as int,
{
    lemma_lerp_bounded(start.l as int, end.l as int, t);
    lemma_lerp_bounded(start.u as int, end.u as int, t);
    lemma_lerp_bounded(start.v as int, end.v as int, t);
}

impl RGB {
    /// Convert XYZ to sRGB: apply the fixed inverse matrix, compand each
    /// channel and clamp it to [0.0, 1.0]. Out-of-gamut inputs land on the
    /// gamut boundary rather than failing.
    pub fn from_xyz(xyz: XYZ) -> (rgb: RGB)
        requires
            xyz.admissible(),
        ensures
            rgb.r as int == rgb_row_s(
                xyz.x as int, xyz.y as int, xyz.z as int, 32406255, -15372080, -4986286,
            ),
            rgb.g as int == rgb_row_s(
                xyz.x as int, xyz.y as int, xyz.z as int, -9689307, 18758561, 415175,
            ),
            rgb.b as int == rgb_row_s(
                xyz.x as int, xyz.y as int, xyz.z as int, 557101, -2040211, 10570959,
            ),
            rgb.in_gamut(),
    {
        let lr = dot3(xyz.x, 32406255, xyz.y, -15372080, xyz.z, -4986286);
        let lg = dot3(xyz.x, -9689307, xyz.y, 18758561, xyz.z, 415175);
        let lb = dot3(xyz.x, 557101, xyz.y, -2040211, xyz.z, 10570959);
        RGB { r: linear_to_srgb_clamped(lr), g: linear_to_srgb_clamped(lg), b: linear_to_srgb_clamped(lb) }
    }
}

/// An RGB color with a dedicated white channel, for LED hardware with a
/// true white emitter; channels in [0.0, 1.0].
#[derive(Default, Debug, Clone, Copy, PartialEq, Eq, Structural)]
pub struct RGBW {
    pub r: i64,
    pub g: i64,
    pub b: i64,
    pub w: i64,
}

/// XYZ from sRGB, all three channels.
pub open spec fn xyz_from_rgb_s(r: int, g: int, b: int) -> (int, int, int) {
    (
        xyz_row_s(r, g, b, 4124564, 3575761, 1804375),
        xyz_row_s(r, g, b, 2126729, 7151522, 721750),
        xyz_row_s(r, g, b, 193339, 1191920, 9503041),
    )
}

/// sRGB from XYZ, all three channels, companded and clamped.
pub open spec fn rgb_from_xyz_s(x: int, y: int, z: int) -> (int, int, int) {
    (
        rgb_row_s(x, y, z, 32406255, -15372080, -4986286),
        rgb_row_s(x, y, z, -9689307, 18758561, 415175),
        rgb_row_s(x, y, z, 557101, -2040211, 10570959),
    )
}

/// CIELUV from sRGB, through the XYZ hub.
pub open spec fn cieluv_from_rgb_s(r: int, g: int, b: int) -> (int, int, int) {
    let t = xyz_from_rgb_s(r, g, b);
    cieluv_from_xyz_s(t.0, t.1, t.2)
}

/// sRGB from CIELUV, through the XYZ hub.
pub open spec fn rgb_from_cieluv_s(l: int, u: int, v: int) -> (int, int, int) {
    let t = xyz_from_cieluv_s(l, u, v);
    rgb_from_xyz_s(t.0, t.1, t.2)
}

/// The RGBW split: convert to XYZ, take the un-companded linear RGB, scale
/// the chromatic channels by saturation and put `y * (1 - saturation)` on
/// the white channel, then compand and clamp all four.
pub open spec fn rgbw_from_cieluv_s(l: int, u: int, v: int) -> (int, int, int, int) {
    let sat = saturation_s(l, u, v);
    let white = SCALE as int - sat;
    let t = xyz_from_cieluv_s(l, u, v);
    let lr = linear_row_s(t.0, t.1, t.2, 32406255, -15372080, -4986286);
    let lg = linear_row_s(t.0, t.1, t.2, -9689307, 18758561, 415175);
    let lb = linear_row_s(t.0, t.1, t.2, 557101, -2040211, 10570959);
    (
        linear_to_srgb_clamped_s(tdiv(lr * sat, SCALE as int)),
        linear_to_srgb_clamped_s(tdiv(lg * sat, SCALE as int)),
        linear_to_srgb_clamped_s(tdiv(lb * sat, SCALE as int)),
        linear_to_srgb_clamped_s(tdiv(t.1 * white, SCALE as int)),
    )
}

/// One inverse-matrix row applied to an admissible XYZ value stays within
/// 495_000_000.0 of zero.
proof fn lemma_inverse_row_bound(x: int, y: int, z: int, k1: int, k2: int, k3: int)
    requires
        mag(x) <= 500_000_000_000_000,
        mag(y) <= 500_000_000_000_000,
        mag(z) <= 500_000_000_000_000,
        mag(k1) <= 33_000_000,
        mag(k2) <= 33_000_000,
        mag(k3) <= 33_000_000,
    ensures
        mag(tdiv(x * k1 + y * k2 + z * k3, SCALE as int)) <= 4_950_000_000_000_000,
{
    assert(mag(x * k1) <= 16_500_000_000_000_000_000_000
        && mag(y * k2) <= 16_500_000_000_000_000_000_000
        && mag(z * k3) <= 16_500_000_000_000_000_000_000) by (nonlinear_arith)
        requires
            mag(x) <= 500_000_000_000_000,
            mag(y) <= 500_000_000_000_000,
            mag(z) <= 500_000_000_000_000,
            mag(k1) <= 33_000_000,
            mag(k2) <= 33_000_000,
            mag(k3) <= 33_000_000;
    lemma_tdiv_abs_bound(x * k1 + y * k2 + z * k3, SCALE as int, 4_950_000_000_000_000);
}

impl RGBW {
    /// A plain RGB color carries no white: the channels pass through
    /// unchanged and `w` is zero.
    pub fn from_rgb(rgb: RGB) -> (rgbw: RGBW)
        ensures
            rgbw == (RGBW { r: rgb.r, g: rgb.g, b: rgb.b, w: 0 }),
    {
        RGBW { r: rgb.r, g: rgb.g, b: rgb.b, w: 0 }
    }

    /// Direct conversion from XYZ; no white is derived on this route.
    pub fn from_xyz(xyz: XYZ) -> (rgbw: RGBW)
        requires
            xyz.admissible(),
        ensures
            (rgbw.r as int, rgbw.g as int, rgbw.b as int)
                == rgb_from_xyz_s(xyz.x as int, xyz.y as int, xyz.z as int),
            rgbw.w == 0,
            0 <= rgbw.r <= SCALE && 0 <= rgbw.g <= SCALE && 0 <= rgbw.b <= SCALE,
    {
        let rgb = RGB::from_xyz(xyz);
        RGBW { r: rgb.r, g: rgb.g, b: rgb.b, w: 0 }
    }

    /// Convert CIELUV to RGBW by the saturation split: fully saturated
    /// colors keep their RGB channels and no white; desaturated colors hand
    /// their luminance to the white channel. Every channel of the result is
    /// clamped to [0.0, 1.0].
    pub fn from_cieluv(luv: CIELUV) -> (rgbw: RGBW)
        requires
            luv.admissible(),
        ensures
            (rgbw.r as int, rgbw.g as int, rgbw.b as int, rgbw.w as int)
                == rgbw_from_cieluv_s(luv.l as int, luv.u as int, luv.v as int),
            0 <= rgbw.r <= SCALE && 0 <= rgbw.g <= SCALE && 0 <= rgbw.b <= SCALE
                && 0 <= rgbw.w <= SCALE,
    {
        let sat = luv.saturation();
        let white = SCALE - sat;
        let xyz = XYZ::from_cieluv(luv);
        let lr = dot3(xyz.x, 32406255, xyz.y, -15372080, xyz.z, -4986286);
        let lg = dot3(xyz.x, -9689307, xyz.y, 18758561, xyz.z, 415175);
        let lb = dot3(xyz.x, 557101, xyz.y, -2040211, xyz.z, 10570959);
        proof {
            lemma_inverse_row_bound(
                xyz.x as int, xyz.y as int, xyz.z as int, 32406255, -15372080, -4986286,
            );
            lemma_inverse_row_bound(
                xyz.x as int, xyz.y as int, xyz.z as int, -9689307, 18758561, 415175,
            );
            lemma_inverse_row_bound(
                xyz.x as int, xyz.y as int, xyz.z as int, 557101, -2040211, 10570959,
            );
            assert(mag(lr as int * sat as int)
                <= 9_200_000_000_000_000_000 * SCALE as int
                && mag(lg as int * sat as int)
                    <= 9_200_000_000_000_000_000 * SCALE as int
                && mag(lb as int * sat as int)
                    <= 9_200_000_000_000_000_000 * SCALE as int) by (nonlinear_arith)
                requires
                    mag(lr as int) <= 4_950_000_000_000_000,
                    mag(lg as int) <= 4_950_000_000_000_000,
                    mag(lb as int) <= 4_950_000_000_000_000,
                    0 <= sat as int <= 18_390_000_000;
            lemma_tdiv_abs_bound(lr as int * sat as int, SCALE as int, 9_200_000_000_000_000_000);
            lemma_tdiv_abs_bound(lg as int * sat as int, SCALE as int, 9_200_000_000_000_000_000);
            lemma_tdiv_abs_bound(lb as int * sat as int, SCALE as int, 9_200_000_000_000_000_000);
            assert(mag(xyz.y as int * white as int)
                <= 1_000_000_000_000_000_000 * SCALE as int) by (nonlinear_arith)
                requires
                    mag(xyz.y as int) <= 500_000_000_000_000,
                    mag(white as int) <= 18_400_000_000;
            lemma_tdiv_abs_bound(
                xyz.y as int * white as int, SCALE as int, 1_000_000_000_000_000_000,
            );
        }
        let rs = mul_div(lr, sat, SCALE);
        let gs = mul_div(lg, sat, SCALE);
        let bs = mul_div(lb, sat, SCALE);
        let ws = mul_div(xyz.y, white, SCALE);
        RGBW {
            r: linear_to_srgb_clamped(rs),
            g: linear_to_srgb_clamped(gs),
            b: linear_to_srgb_clamped(bs),
            w: linear_to_srgb_clamped(ws),
        }
    }
}


/// Every color inside the sRGB gamut converts to an XYZ value and a CIELUV
/// value that the onward conversions admit, so the round trip
/// RGB -> CIELUV -> XYZ -> RGB or RGBW composes in verified code.
pub proof fn lemma_in_gamut_cieluv_admissible(rgb: RGB)
    requires
        rgb.in_gamut(),
    ensures
        ({
            let t = xyz_from_rgb_s(rgb.r as int, rgb.g as int, rgb.b as int);
            xyz_luv_admissible_s(t.0, t.1, t.2)
        }),
        ({
            let c = cieluv_from_rgb_s(rgb.r as int, rgb.g as int, rgb.b as int);
            luv_admissible_s(c.0, c.1, c.2)
        }),
{
    let s = SCALE as int;
    lemma_srgb_to_linear_gamut(rgb.r as int);
    lemma_srgb_to_linear_gamut(rgb.g as int);
    lemma_srgb_to_linear_gamut(rgb.b as int);
    let lr = srgb_to_linear_s(rgb.r as int);
    let lg = srgb_to_linear_s(rgb.g as int);
    let lb = srgb_to_linear_s(rgb.b as int);
    let nx = lr * 4124564 + lg * 3575761 + lb * 1804375;
    let ny = lr * 2126729 + lg * 7151522 + lb * 721750;
    let nz = lr * 193339 + lg * 1191920 + lb * 9503041;
    lemma_tdiv_nonneg(nx, s);
    lemma_tdiv_nonneg(ny, s);
    lemma_tdiv_nonneg(nz, s);
    lemma_tdiv_exact(9_504_700, s);
    lemma_tdiv_mono(nx, 95_047_000_000_000, s);
    lemma_tdiv_exact(10_000_001, s);
    lemma_tdiv_mono(ny, 100_000_010_000_000, s);
    lemma_tdiv_exact(10_888_300, s);
    lemma_tdiv_mono(nz, 108_883_000_000_000, s);
    let x = tdiv(nx, s);
    let y = tdiv(ny, s);
    let z = tdiv(nz, s);
    if x == 0 && y == 0 && z == 0 {
        // both conversions guard the all-zero color, whose lightness is zero
    } else {
        let d = x + 15 * y + 3 * z;
        lemma_tdiv_nonneg(y, 100);
        lemma_tdiv_exact(100_001, 100);
        lemma_tdiv_mono(y, 10_000_100, 100);
        let yr = tdiv(y, 100);
        let lstar = luv_l_s(y);
        if yr * 24389 > 216 * s {
            assert(pow3(1_379_311) == 2624137570217857231) by (nonlinear_arith);
            assert(pow3(1_379_312) > pow3(1_379_311)) by (nonlinear_arith);
            lemma_cbrt_floor_of(pow3(1_379_311), 1_379_311);
            lemma_cbrt_floor_mono(pow3(1_379_311), yr * 100_000_000_000_000);
            assert(pow3(2_154_442) == 10000101789944518888) by (nonlinear_arith);
            lemma_cbrt_floor_below(yr * 100_000_000_000_000, 2_154_442);
        } else {
            lemma_tdiv_nonneg(yr * 24389, 27);
            lemma_tdiv_exact(91_000_000, 27);
            lemma_tdiv_mono(yr * 24389, 2_457_000_000, 27);
        }
        assert(0 <= lstar <= 91_000_000);
        if lstar != 0 {
            let up = u_prime_s(x, d);
            lemma_tdiv_nonneg(4 * x * s, d);
            lemma_tdiv_exact(40_000_000, d);
            lemma_tdiv_mono(4 * x * s, 40_000_000 * d, d);
            let vp = v_prime_s(y, d);
            lemma_tdiv_nonneg(9 * y * s, d);
            lemma_tdiv_exact(6_000_000, d);
            lemma_tdiv_mono(9 * y * s, 6_000_000 * d, d);
            assert(0 <= up <= 40_000_000 && 0 <= vp <= 6_000_000);
            let uch = luv_uv_s(lstar, up, U_PRIME_REF as int);
            let vch = luv_uv_s(lstar, vp, V_PRIME_REF as int);
            assert(mag(13 * lstar * (up - U_PRIME_REF as int)) <= (1300 * lstar) * s)
                by (nonlinear_arith)
                requires
                    0 <= lstar,
                    -1_978_300 <= up - U_PRIME_REF as int && (up - U_PRIME_REF as int) <= 38_021_700,
                    s == 10_000_000;
            lemma_tdiv_abs_bound(13 * lstar * (up - U_PRIME_REF as int), s, 1300 * lstar);
            assert(mag(13 * lstar * (vp - V_PRIME_REF as int)) <= (1300 * lstar) * s)
                by (nonlinear_arith)
                requires
                    0 <= lstar,
                    -4_683_200 <= vp - V_PRIME_REF as int && (vp - V_PRIME_REF as int) <= 1_316_800,
                    s == 10_000_000;
            lemma_tdiv_abs_bound(13 * lstar * (vp - V_PRIME_REF as int), s, 1300 * lstar);
            // lightness is nonzero only when the rounded luminance is, so the
            // luminance itself is at least 0.00001 and carries the full
            // weight of the matrix row behind it
            if yr == 0 {
                lemma_tdiv_exact(0, 27);
            }
            assert(yr >= 1);
            lemma_tdiv_mul_bounds(y, 100);
            lemma_tdiv_mul_bounds(ny, s);
            lemma_tdiv_mul_bounds(nx, s);
            lemma_tdiv_mul_bounds(nz, s);
            assert(y >= 100 && ny >= 100 * s);
            // the luminance row dominates the chromaticity denominator:
            // coefficient by coefficient, 42 * ny covers nx + 3 * nz
            assert(42 * ny >= nx + 3 * nz);
            assert(45 * y >= x + 3 * z);
            assert(9 * y * s >= 1_500_000 * d);
            lemma_tdiv_exact(1_500_000, d);
            lemma_tdiv_mono(1_500_000 * d, 9 * y * s, d);
            assert(vp >= 1_500_000);
            // the recovered v-prime never drops below 0.01
            if vp >= V_PRIME_REF {
                assert(13 * lstar * (vp - V_PRIME_REF as int) >= 0) by (nonlinear_arith)
                    requires lstar > 0, vp - V_PRIME_REF as int >= 0;
                lemma_tdiv_nonneg(13 * lstar * (vp - V_PRIME_REF as int), s);
                lemma_tdiv_nonneg(vch * s, 13 * lstar);
            } else {
                assert(13 * lstar * (vp - V_PRIME_REF as int) <= 0) by (nonlinear_arith)
                    requires lstar > 0, (vp - V_PRIME_REF as int) < 0;
                lemma_tdiv_mul_bounds(13 * lstar * (vp - V_PRIME_REF as int), s);
                lemma_tdiv_mono(
                    13 * lstar * (vp - V_PRIME_REF as int),
                    vch * s,
                    13 * lstar,
                );
                assert((vp - V_PRIME_REF as int) * (13 * lstar)
                    == 13 * lstar * (vp - V_PRIME_REF as int)) by (nonlinear_arith);
                lemma_tdiv_exact(vp - V_PRIME_REF as int, 13 * lstar);
            }
            assert(rev_v_prime_s(lstar, vch) >= 100_000);
        }
    }
}

impl CIELUV {
    /// Convert sRGB to CIELUV through the XYZ hub. The one condition beyond
    /// the channel bound is that the image in XYZ keeps its chromaticity
    /// denominator tame; `lemma_in_gamut_cieluv_admissible` discharges it
    /// for every color in the gamut, and black maps to exactly zero
    /// lightness and chromaticity.
    pub fn from_rgb(rgb: RGB) -> (luv: CIELUV)
        requires
            rgb.admissible(),
            ({
                let t = xyz_from_rgb_s(rgb.r as int, rgb.g as int, rgb.b as int);
                xyz_luv_admissible_s(t.0, t.1, t.2)
            }),
        ensures
            (luv.l as int, luv.u as int, luv.v as int)
                == cieluv_from_rgb_s(rgb.r as int, rgb.g as int, rgb.b as int),
            mag(luv.l as int) <= 1_000_000_000_000,
            mag(luv.u as int) <= 2_000_000_000_000_000,
            mag(luv.v as int) <= 2_000_000_000_000_000,
            rgb.in_gamut() ==> luv.admissible(),
    {
        proof {
            if rgb.in_gamut() {
                lemma_in_gamut_cieluv_admissible(rgb);
            }
        }
        Self::from_xyz(XYZ::from_rgb(rgb))
    }
}

impl RGB {
    /// Convert CIELUV to sRGB through the XYZ hub, companded and clamped.
    pub fn from_cieluv(luv: CIELUV) -> (rgb: RGB)
        requires
            luv.admissible(),
        ensures
            (rgb.r as int, rgb.g as int, rgb.b as int)
                == rgb_from_cieluv_s(luv.l as int, luv.u as int, luv.v as int),
            rgb.in_gamut(),
    {
        Self::from_xyz(XYZ::from_cieluv(luv))
    }
}

/// CIELCh over CIELUV, also called HCL: a cylindrical form with hue `h` in
/// degrees within [0.0, 360.0], chroma `c` and lightness `l`. It is consumed
/// as an input representation only; no conversion here produces it.
#[derive(Default, Debug, Clone, Copy, PartialEq, Eq, Structural)]
pub struct HCL {
    pub h: i64,
    pub c: i64,
    pub l: i64,
}

/// The `u` axis recovered from hue and chroma: `c * cos(h)`.
pub open spec fn hcl_u_s(h: int, c: int) -> int {
    tdiv(c * cos_deg_s(h), SCALE as int)
}

/// The `v` axis recovered from hue and chroma: `c * sin(h)`.
pub open spec fn hcl_v_s(h: int, c: int) -> int {
    tdiv(c * sin_deg_s(h), SCALE as int)
}

impl HCL {
    /// Inputs admitted by the conversions out of HCL: a hue within one full
    /// turn, a bounded chroma, and a CIELUV image that the conversions out
    /// of CIELUV admit.
    pub open spec fn admissible(self) -> bool {
        0 <= self.h <= 360 * SCALE as int
            && mag(self.c as int) <= CHANNEL_LIMIT as int
            && luv_admissible_s(
                self.l as int,
                hcl_u_s(self.h as int, self.c as int),
                hcl_v_s(self.h as int, self.c as int),
            )
    }
}

impl CIELUV {
    /// Convert HCL to CIELUV: `u = c * cos(h)`, `v = c * sin(h)`, lightness
    /// passed through.
    pub fn from_hcl(hcl: HCL) -> (luv: CIELUV)
        requires
            0 <= hcl.h <= 360 * SCALE as int,
            mag(hcl.c as int) <= CHANNEL_LIMIT as int,
        ensures
            luv.l == hcl.l,
            luv.u as int == hcl_u_s(hcl.h as int, hcl.c as int),
            luv.v as int == hcl_v_s(hcl.h as int, hcl.c as int),
    {
        let cv = cos_deg(hcl.h);
        let sv = sin_deg(hcl.h);
        proof {
            assert(mag(hcl.c as int * cv as int) <= CHANNEL_LIMIT as int * SCALE as int
                && mag(hcl.c as int * sv as int) <= CHANNEL_LIMIT as int * SCALE as int)
                by (nonlinear_arith)
                requires
                    mag(hcl.c as int) <= CHANNEL_LIMIT as int,
                    mag(cv as int) <= SCALE as int,
                    mag(sv as int) <= SCALE as int;
            lemma_tdiv_abs_bound(hcl.c as int * cv as int, SCALE as int, CHANNEL_LIMIT as int);
            lemma_tdiv_abs_bound(hcl.c as int * sv as int, SCALE as int, CHANNEL_LIMIT as int);
        }
        let u = mul_div(hcl.c, cv, SCALE);
        let v = mul_div(hcl.c, sv, SCALE);
        CIELUV { l: hcl.l, u, v }
    }
}

impl RGB {
    /// Convert HCL to sRGB through CIELUV and the XYZ hub.
    pub fn from_hcl(hcl: HCL) -> (rgb: RGB)
        requires
            hcl.admissible(),
        ensures
            (rgb.r as int, rgb.g as int, rgb.b as int) == rgb_from_cieluv_s(
                hcl.l as int,
                hcl_u_s(hcl.h as int, hcl.c as int),
                hcl_v_s(hcl.h as int, hcl.c as int),
            ),
            rgb.in_gamut(),
    {
        Self::from_cieluv(CIELUV::from_hcl(hcl))
    }
}

impl RGBW {
    /// Convert HCL to RGBW through CIELUV, with the saturation split.
    pub fn from_hcl(hcl: HCL) -> (rgbw: RGBW)
        requires
            hcl.admissible(),
        ensures
            (rgbw.r as int, rgbw.g as int, rgbw.b as int, rgbw.w as int)
                == rgbw_from_cieluv_s(
                hcl.l as int,
                hcl_u_s(hcl.h as int, hcl.c as int),
                hcl_v_s(hcl.h as int, hcl.c as int),
            ),
            0 <= rgbw.r <= SCALE && 0 <= rgbw.g <= SCALE && 0 <= rgbw.b <= SCALE
                && 0 <= rgbw.w <= SCALE,
    {
        Self::from_cieluv(CIELUV::from_hcl(hcl))
    }
}

} // verus!
