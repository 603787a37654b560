//! Pointwise checks of the contracts: zero guards, saturation, endpoints,
//! monotonicity, clamping, and exact values of the scalar kernels.

use colorluv::{cos_deg, lerp, linear_to_srgb_clamped, sin_deg, srgb_to_linear};
use colorluv::{CIELUV, HCL, RGB, RGBW, SCALE, XYZ};

#[test]
fn test_zero_guards() {
    let luv = CIELUV { l: 0, u: 0, v: 0 };
    assert_eq!(XYZ::from_cieluv(luv), XYZ { x: 0, y: 0, z: 0 });
    let xyz = XYZ { x: 0, y: 0, z: 0 };
    assert_eq!(CIELUV::from_xyz(xyz), CIELUV { l: 0, u: 0, v: 0 });
}

#[test]
fn test_saturation_guards() {
    assert_eq!(CIELUV { l: 0, u: 5_000_000, v: -3_000_000 }.saturation(), 0);
    assert_eq!(CIELUV { l: -SCALE, u: 5_000_000, v: -3_000_000 }.saturation(), 0);
    let red = CIELUV::from_rgb(RGB::red());
    assert!(red.saturation() >= 0);
}

#[test]
fn test_chroma_and_saturation_values() {
    // A 3-4-5 triangle in the chromaticity plane.
    let luv = CIELUV { l: 1_000_000, u: 30_000, v: 40_000 };
    assert_eq!(luv.chroma(), 50_000);
    // chroma / l = 0.005 / 0.1 = 0.05.
    assert_eq!(luv.saturation(), 500_000);
}

#[test]
fn test_interpolation_endpoints() {
    let a = CIELUV { l: 12_345_678, u: -9_876_543, v: 1_111_111 };
    let b = CIELUV { l: -5_000_000, u: 77_777_777, v: -2_222_222 };
    assert_eq!(CIELUV::interpolate(&a, &b, 0), a);
    assert_eq!(CIELUV::interpolate(&a, &b, SCALE), b);
}

#[test]
fn test_lerp_values() {
    assert_eq!(lerp(0, SCALE, 5_000_000), 5_000_000);
    assert_eq!(lerp(SCALE, 0, 5_000_000), 5_000_000);
    // Extrapolation is allowed and not clamped.
    assert_eq!(lerp(0, SCALE, 2 * SCALE), 2 * SCALE);
    assert_eq!(lerp(3, 3, 9_999_999), 3);
}

#[test]
fn test_gradient_monotonic_components() {
    let a = CIELUV::from_rgb(RGB::red());
    let b = CIELUV::from_rgb(RGB::green());
    let mut prev = a;
    for i in 1..=100i64 {
        let cur = CIELUV::interpolate(&a, &b, i * 100_000);
        if b.l >= a.l {
            assert!(cur.l >= prev.l);
        } else {
            assert!(cur.l <= prev.l);
        }
        if b.u >= a.u {
            assert!(cur.u >= prev.u);
        } else {
            assert!(cur.u <= prev.u);
        }
        if b.v >= a.v {
            assert!(cur.v >= prev.v);
        } else {
            assert!(cur.v <= prev.v);
        }
        prev = cur;
    }
    assert_eq!(prev, b);
}

#[test]
fn test_clamp_out_of_gamut() {
    // Far outside the visible gamut in XYZ.
    let rgb = RGB::from_xyz(XYZ { x: 3_000_000_000, y: -500_000_000, z: 10_000_000_000 });
    assert!(0 <= rgb.r && rgb.r <= SCALE);
    assert!(0 <= rgb.g && rgb.g <= SCALE);
    assert!(0 <= rgb.b && rgb.b <= SCALE);
    // An overdriven CIELUV value: lightness 150, a huge chromaticity.
    let luv = CIELUV { l: 1_500_000_000, u: 1_900_000_000_000, v: 0 };
    let rgbw = RGBW::from_cieluv(luv);
    assert!(0 <= rgbw.r && rgbw.r <= SCALE);
    assert!(0 <= rgbw.g && rgbw.g <= SCALE);
    assert!(0 <= rgbw.b && rgbw.b <= SCALE);
    assert!(0 <= rgbw.w && rgbw.w <= SCALE);
}

#[test]
fn test_black_white_white_channel_rises() {
    let a = CIELUV::from_rgb(RGB::black());
    let b = CIELUV::from_rgb(RGB::white());
    let mut prev_w = -1i64;
    let mut last = RGBW { r: 0, g: 0, b: 0, w: 0 };
    for i in 0..=100i64 {
        let cur = CIELUV::interpolate(&a, &b, i * 100_000);
        let rgbw = RGBW::from_cieluv(cur);
        assert!(rgbw.w >= prev_w);
        prev_w = rgbw.w;
        last = rgbw;
    }
    // At the white end nearly all the output is on the white channel.
    assert!(last.w > 9_900_000);
    assert!(last.r < 100_000 && last.g < 100_000 && last.b < 100_000);
}

#[test]
fn test_green_magenta_midpoint_mixed() {
    let a = CIELUV::from_rgb(RGB::green());
    let b = CIELUV::from_rgb(RGB { r: SCALE, g: 0, b: SCALE });
    let mid = CIELUV::interpolate(&a, &b, 5_000_000);
    assert!(mid.saturation() > 0);
    let rgbw = RGBW::from_cieluv(mid);
    assert!(rgbw.r > 0 && rgbw.g > 0 && rgbw.b > 0 && rgbw.w > 0);
}

#[test]
fn test_constant_colors() {
    assert_eq!(RGB::black(), RGB { r: 0, g: 0, b: 0 });
    assert_eq!(RGB::red(), RGB { r: SCALE, g: 0, b: 0 });
    assert_eq!(RGB::green(), RGB { r: 0, g: SCALE, b: 0 });
    assert_eq!(RGB::blue(), RGB { r: 0, g: 0, b: SCALE });
    assert_eq!(RGB::white(), RGB { r: SCALE, g: SCALE, b: SCALE });
}

#[test]
fn test_transfer_functions_exact() {
    assert_eq!(srgb_to_linear(0), 0);
    // At the knee: 0.04045 / 12.92 = 0.0031308.
    assert_eq!(srgb_to_linear(404_500), 31_308);
    // Unit gain at full scale.
    assert_eq!(srgb_to_linear(SCALE), SCALE);
    assert_eq!(linear_to_srgb_clamped(0), 0);
    assert_eq!(linear_to_srgb_clamped(-5_000_000), 0);
    // 0.0031308 * 12.92 = 0.04045 (truncated to the working scale).
    assert_eq!(linear_to_srgb_clamped(31_308), 404_499);
    assert_eq!(linear_to_srgb_clamped(SCALE), SCALE);
    // Clamped above the gamut.
    assert_eq!(linear_to_srgb_clamped(3 * SCALE), SCALE);
}

#[test]
fn test_companding_dark_range() {
    // Just past the knee and through the once-troublesome dim region.
    assert_eq!(linear_to_srgb_clamped(31_309), 404_510);
    assert_eq!(linear_to_srgb_clamped(100_000), 998_527);
    assert_eq!(linear_to_srgb_clamped(398_107), 2_203_715);
    assert_eq!(linear_to_srgb_clamped(1_000_000), 3_491_902);
    // Weakly monotone across the knee.
    let mut prev = linear_to_srgb_clamped(31_300);
    for c in 31_301..31_320i64 {
        let cur = linear_to_srgb_clamped(c);
        assert!(cur >= prev);
        prev = cur;
    }
}

#[test]
fn test_dim_gray_not_black() {
    // A 10%-luminance gray must come out dim, not black.
    let rgb = RGB::from_xyz(XYZ { x: 950_470, y: 1_000_000, z: 1_088_830 });
    assert!(rgb.r > 3_000_000 && rgb.g > 3_000_000 && rgb.b > 3_000_000);
    assert!(rgb.r < 4_000_000 && rgb.g < 4_000_000 && rgb.b < 4_000_000);
}

#[test]
fn test_rgb_to_xyz_red_exact() {
    let xyz = XYZ::from_rgb(RGB::red());
    assert_eq!(xyz, XYZ { x: 4_124_564, y: 2_126_729, z: 193_339 });
}

#[test]
fn test_xyz_to_rgb_red_round_trip() {
    let rgb = RGB::from_xyz(XYZ { x: 4_124_564, y: 2_126_729, z: 193_339 });
    assert!((rgb.r - SCALE).abs() < 100_000);
    assert!(rgb.g < 100_000);
    assert!(rgb.b < 100_000);
}

#[test]
fn test_rgbw_from_rgb_passthrough() {
    let rgb = RGB { r: 1_234_567, g: 7_654_321, b: 999_999 };
    let rgbw = RGBW::from_rgb(rgb);
    assert_eq!(rgbw, RGBW { r: 1_234_567, g: 7_654_321, b: 999_999, w: 0 });
}

#[test]
fn test_trig_anchor_values() {
    assert_eq!(sin_deg(0), 0);
    assert_eq!(sin_deg(900_000_000), SCALE);
    assert_eq!(sin_deg(1_800_000_000), 0);
    assert_eq!(sin_deg(2_700_000_000), -SCALE);
    assert_eq!(cos_deg(0), SCALE);
    assert_eq!(cos_deg(1_800_000_000), -SCALE);
    assert_eq!(cos_deg(3_600_000_000), SCALE);
}

#[test]
fn test_hcl_to_cieluv() {
    let luv = CIELUV::from_hcl(HCL { h: 0, c: 1_000_000, l: 50_000_000 });
    assert_eq!(luv, CIELUV { l: 50_000_000, u: 1_000_000, v: 0 });
    let luv = CIELUV::from_hcl(HCL { h: 900_000_000, c: 2_000_000, l: 30_000_000 });
    assert_eq!(luv, CIELUV { l: 30_000_000, u: 0, v: 2_000_000 });
}
