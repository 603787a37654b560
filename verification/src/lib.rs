//! Color conversions between sRGB, CIE 1931 XYZ, CIE 1976 L*u*v* (CIELUV) and
//! its cylindrical HCL form, together with perceptually smooth gradients built
//! by interpolating in CIELUV and an RGBW derivation that routes the
//! achromatic part of a color into a dedicated white channel.
//!
//! Every channel is held in fixed point: an `i64` counting units of `1e-7`, so
//! that the published sRGB/D65 matrix coefficients (given to seven decimals)
//! and the piecewise gamma thresholds are represented exactly.

pub mod fixed;
pub mod transfer;
pub mod color;
pub mod trig;

pub use fixed::SCALE;
pub use transfer::{srgb_to_linear, linear_to_srgb_clamped, lerp};
pub use color::{RGB, RGBW, XYZ, CIELUV, HCL};
pub use trig::{sin_deg, cos_deg};
pub use color::{lemma_interpolate_monotone, lemma_interpolate_bounded};
pub use transfer::{lemma_lerp_monotone, lemma_lerp_bounded};
pub use transfer::{lemma_linear_to_srgb_clamped_mono, lemma_linear_to_srgb_clamped_range};
pub use color::lemma_in_gamut_cieluv_admissible;
