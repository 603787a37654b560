//! The conversion scenarios: clean round trips for saturated colors, and
//! gradients rendered as RGBW across a full sweep of the parameter.

use colorluv::{CIELUV, RGB, RGBW, SCALE};

/// Round a channel to two decimals: the nearest multiple of 0.01.
fn round2(v: i64) -> i64 {
    if v >= 0 {
        (v + 50_000) / 100_000
    } else {
        -((-v + 50_000) / 100_000)
    }
}

/// Equal to the second decimal.
fn approximately_equal(actual: RGBW, expected: RGBW) {
    assert_eq!(round2(actual.r), round2(expected.r));
    assert_eq!(round2(actual.g), round2(expected.g));
    assert_eq!(round2(actual.b), round2(expected.b));
    assert_eq!(round2(actual.w), round2(expected.w));
}

fn assert_clean_cieluv_conversion(rgb: RGB) {
    let expected = RGBW::from_rgb(rgb);
    let cieluv = CIELUV::from_rgb(rgb);
    approximately_equal(RGBW::from_cieluv(cieluv), expected);
}

/// Red, green, blue, yellow and magenta convert cleanly to CIELUV and back.
#[test]
fn lib_test_saturated_clean_conversion() {
    assert_clean_cieluv_conversion(RGB { r: SCALE, g: 0, b: 0 });
    assert_clean_cieluv_conversion(RGB { r: 0, g: SCALE, b: 0 });
    assert_clean_cieluv_conversion(RGB { r: 0, g: 0, b: SCALE });
    assert_clean_cieluv_conversion(RGB { r: SCALE, g: 0, b: SCALE });
    assert_clean_cieluv_conversion(RGB { r: SCALE, g: SCALE, b: 0 });

    // Teal is too light to convert cleanly, it will contain a white component.
    //assert_clean_cieluv_conversion(RGB { r: 0, g: SCALE, b: SCALE });
}

/// Red, green, blue, yellow and magenta convert cleanly to CIELUV and back.
#[test]
fn test_test_saturated_clean_conversion() {
    assert_clean_cieluv_conversion(RGB { r: SCALE, g: 0, b: 0 });
    assert_clean_cieluv_conversion(RGB { r: 0, g: SCALE, b: 0 });
    assert_clean_cieluv_conversion(RGB { r: 0, g: 0, b: SCALE });
    assert_clean_cieluv_conversion(RGB { r: SCALE, g: 0, b: SCALE });
    assert_clean_cieluv_conversion(RGB { r: SCALE, g: SCALE, b: 0 });
}

/// Sweep a gradient in CIELUV and convert every step to RGBW, checking the
/// clamp guarantee at each step.
fn sweep_gradient_as_rgbw(a: CIELUV, b: CIELUV, steps: i64) {
    for i in 0..=steps {
        let t = i * (SCALE / steps);
        let cieluv = CIELUV::interpolate(&a, &b, t);
        let sat = cieluv.saturation();
        assert!(sat >= 0);
        let rgbw = RGBW::from_cieluv(cieluv);
        assert!(0 <= rgbw.r && rgbw.r <= SCALE);
        assert!(0 <= rgbw.g && rgbw.g <= SCALE);
        assert!(0 <= rgbw.b && rgbw.b <= SCALE);
        assert!(0 <= rgbw.w && rgbw.w <= SCALE);
    }
}

#[test]
fn lib_test_rgbw_red_green() {
    sweep_gradient_as_rgbw(
        CIELUV::from_rgb(RGB::red()),
        CIELUV::from_rgb(RGB::green()),
        100,
    );
}

#[test]
fn test_test_rgbw_red_green() {
    println!("==> Gradient from RED to GREEN");
    sweep_gradient_as_rgbw(
        CIELUV::from_rgb(RGB::red()),
        CIELUV::from_rgb(RGB::green()),
        100,
    );
}

#[test]
fn test_rgbw_green_blue() {
    println!("==> Gradient from GREEN to BLUE");
    sweep_gradient_as_rgbw(
        CIELUV::from_rgb(RGB::green()),
        CIELUV::from_rgb(RGB::blue()),
        100,
    );
}

#[test]
fn test_rgbw_blue_red() {
    println!("==> Gradient from BLUE to RED");
    sweep_gradient_as_rgbw(
        CIELUV::from_rgb(RGB::blue()),
        CIELUV::from_rgb(RGB::red()),
        100,
    );
}

#[test]
fn lib_test_rgbw_black_white() {
    sweep_gradient_as_rgbw(
        CIELUV::from_rgb(RGB::black()),
        CIELUV::from_rgb(RGB::white()),
        100,
    );
}

#[test]
fn test_test_rgbw_black_white() {
    println!("==> Gradient from BLACK to WHITE");
    sweep_gradient_as_rgbw(
        CIELUV::from_rgb(RGB::black()),
        CIELUV::from_rgb(RGB::white()),
        100,
    );
}

#[test]
fn lib_test_rgbw_green_magenta() {
    let magenta = CIELUV::from_rgb(RGB { r: SCALE, g: 0, b: SCALE });
    sweep_gradient_as_rgbw(CIELUV::from_rgb(RGB::green()), magenta, 100);
}

#[test]
fn test_test_rgbw_green_magenta() {
    println!("==> Gradient from GREEN to MAGENTA");
    let magenta = CIELUV::from_rgb(RGB { r: SCALE, g: 0, b: SCALE });
    sweep_gradient_as_rgbw(CIELUV::from_rgb(RGB::green()), magenta, 100);
}
