use libm::generic::ceil::{ceil, ceil_status};
use libm::generic::floor::{floor, floor_status};
use libm::generic::rint::{rint, rint_round};
use libm::generic::round::round;
use libm::generic::trunc::trunc;
use libm::support::{Binary32, Binary64, Float, FpResult, Round, Status};

fn b32(x: f32) -> Binary32 {
    Binary32(x.to_bits())
}

fn b64(x: f64) -> Binary64 {
    Binary64(x.to_bits())
}

fn f32_of(x: Binary32) -> f32 {
    f32::from_bits(x.0)
}

fn f64_of(x: Binary64) -> f64 {
    f64::from_bits(x.0)
}

/// Test against https://en.cppreference.com/w/cpp/numeric/math/ceil
fn spec_test<F: Float>(cases: &[(F, F, Status)]) {
    let roundtrip = [F::zero(), F::one(), F::neg_one(), F::neg_zero(), F::infinity(), F::neg_infinity()];

    for x in roundtrip {
        let FpResult { val, status } = ceil_status(x);
        assert!(val.biteq(x));
        assert!(status == Status::ok());
    }

    for &(x, res, res_stat) in cases {
        let FpResult { val, status } = ceil_status(x);
        assert!(val.biteq(res));
        assert!(status == res_stat);
    }
}

#[test]
fn ceil_sanity_check_f32() {
    assert_eq!(f32_of(ceil(b32(1.1f32))), 2.0);
    assert_eq!(f32_of(ceil(b32(2.9f32))), 3.0);
}

#[test]
fn ceil_spec_tests_f32() {
    let cases = [
        (0.1, 1.0, Status::inexact_flag()),
        (-0.1, -0.0, Status::inexact_flag()),
        (0.9, 1.0, Status::inexact_flag()),
        (-0.9, -0.0, Status::inexact_flag()),
        (1.1, 2.0, Status::inexact_flag()),
        (-1.1, -1.0, Status::inexact_flag()),
        (1.9, 2.0, Status::inexact_flag()),
        (-1.9, -1.0, Status::inexact_flag()),
    ];
    let cases: Vec<(Binary32, Binary32, Status)> =
        cases.iter().map(|&(x, r, s)| (b32(x), b32(r), s)).collect();
    spec_test::<Binary32>(&cases);
}

#[test]
fn sanity_check_f64() {
    assert_eq!(f64_of(ceil(b64(1.1f64))), 2.0);
    assert_eq!(f64_of(ceil(b64(2.9f64))), 3.0);
}

#[test]
fn ceil_spec_tests_f64() {
    let cases = [
        (0.1, 1.0, Status::inexact_flag()),
        (-0.1, -0.0, Status::inexact_flag()),
        (0.9, 1.0, Status::inexact_flag()),
        (-0.9, -0.0, Status::inexact_flag()),
        (1.1, 2.0, Status::inexact_flag()),
        (-1.1, -1.0, Status::inexact_flag()),
        (1.9, 2.0, Status::inexact_flag()),
        (-1.9, -1.0, Status::inexact_flag()),
    ];
    let cases: Vec<(Binary64, Binary64, Status)> =
        cases.iter().map(|&(x, r, s)| (b64(x), b64(r), s)).collect();
    spec_test::<Binary64>(&cases);
}

#[test]
fn ceil_nan_preserved_f32() {
    assert!(ceil(b32(f32::NAN)).is_nan());
}

#[test]
fn ceil_nan_preserved_f64() {
    assert!(ceil(b64(f64::NAN)).is_nan());
}

#[test]
fn ceil_infinity_unchanged_f32() {
    assert!(ceil(b32(f32::INFINITY)).biteq(b32(f32::INFINITY)));
    assert!(ceil(b32(f32::NEG_INFINITY)).biteq(b32(f32::NEG_INFINITY)));
}

#[test]
fn ceil_infinity_unchanged_f64() {
    assert!(ceil(b64(f64::INFINITY)).biteq(b64(f64::INFINITY)));
    assert!(ceil(b64(f64::NEG_INFINITY)).biteq(b64(f64::NEG_INFINITY)));
}

#[test]
fn ceil_subnormal_fraction_f32_ceil_toward_one() {
    let x = Binary32::from_bits(0x000116c2);
    assert!(ceil(x).biteq(b32(1.0f32)));
    let FpResult { val, status } = ceil_status(x);
    assert!(val.biteq(b32(1.0f32)));
    assert!(status == Status::inexact_flag());
}

/// Bit-exact samples (in/out IEEE-754 bits).
#[test]
fn conformance_bit_exact_f32() {
    let cases = [
        (0x3fb33333_u32, 0x40000000_u32), // ceil(1.4) = 2.0
        (0xbf99999a_u32, 0xbf800000_u32), // ceil(-1.2) = -1.0
        (0x3f8ccccd_u32, 0x40000000_u32), // ceil(1.1) = 2.0
    ];
    for &(xb, yb) in &cases {
        assert!(ceil(Binary32::from_bits(xb)).biteq(Binary32::from_bits(yb)));
    }
}

#[test]
fn conformance_bit_exact_f64() {
    let cases = [
        (0x3ff199999999999a_u64, 0x4000000000000000_u64), // ceil(1.1) = 2.0
        (0xbff3333333333333_u64, 0xbff0000000000000_u64), // ceil(-1.2) = -1.0
    ];
    for &(xb, yb) in &cases {
        assert!(ceil(Binary64::from_bits(xb)).biteq(Binary64::from_bits(yb)));
    }
}

#[test]
fn ceilf_sanity() {
    assert!(ceil(b32(1.1f32)).biteq(b32(2.0f32)));
    assert!(ceil(b32(2.9f32)).biteq(b32(3.0f32)));
    assert!(ceil(b32(-1.1f32)).biteq(b32(-1.0f32)));
}

#[test]
fn ceilf_preserves_signed_zero() {
    assert!(ceil(b32(0.0f32)).biteq(b32(0.0f32)));
    assert!(ceil(b32(-0.0f32)).biteq(b32(-0.0f32)));
}

#[test]
fn ceilf_negative_fraction_ceil_toward_zero() {
    assert!(ceil(b32(-0.1f32)).biteq(b32(-0.0f32)));
    assert!(ceil(b32(-0.9f32)).biteq(b32(-0.0f32)));
}

#[test]
fn ceilf_nan_and_infinity() {
    assert!(ceil(b32(f32::NAN)).is_nan());
    assert!(ceil(b32(f32::INFINITY)).biteq(b32(f32::INFINITY)));
    assert!(ceil(b32(f32::NEG_INFINITY)).biteq(b32(f32::NEG_INFINITY)));
}

#[test]
fn ceilf_conformance_bit_exact() {
    let cases = [
        (0x3fb33333_u32, 0x40000000_u32), // ceil(1.4) = 2.0
        (0xbf99999a_u32, 0xbf800000_u32), // ceil(-1.2) = -1.0
        (0x3f8ccccd_u32, 0x40000000_u32), // ceil(1.1) = 2.0
    ];
    for &(xb, yb) in &cases {
        assert!(ceil(Binary32::from_bits(xb)).biteq(Binary32::from_bits(yb)));
    }
}

#[test]
fn floor_preserves_negative_zero() {
    assert!(floor(b64(-0.0)).biteq(b64(-0.0)));
    assert!(floor(b32(-0.0)).biteq(b32(-0.0)));
}

#[test]
fn floor_conformance_bit_exact_f64() {
    let cases = [
        (0x3ffb333333333333_u64, 0x3ff0000000000000_u64), // floor(1.7)
        (0xbffb333333333333_u64, 0xc000000000000000_u64), // floor(-1.7)
    ];
    for (x_bits, y_bits) in cases {
        assert!(floor(Binary64::from_bits(x_bits)).biteq(Binary64::from_bits(y_bits)));
    }
}

#[test]
fn floorf_conformance_bit_exact() {
    let cases = [
        (0x3fd9999a_u32, 0x3f800000_u32), // floor(1.7)
        (0xbfd9999a_u32, 0xc0000000_u32), // floor(-1.7)
    ];
    for (x_bits, y_bits) in cases {
        assert!(floor(Binary32::from_bits(x_bits)).biteq(Binary32::from_bits(y_bits)));
    }
}

#[test]
fn roundf_preserves_signed_zero() {
    assert!(round(b32(0.0)).biteq(b32(0.0)));
    assert!(round(b32(-0.0)).biteq(b32(-0.0)));
}

#[test]
fn roundf_conformance_bit_exact() {
    let cases = [
        (0x3f99999a_u32, 0x3f800000_u32), // 1.2 -> 1
        (0x3fc00000_u32, 0x40000000_u32), // 1.5 -> 2
        (0x3fcccccd_u32, 0x40000000_u32), // 1.6 -> 2
        (0xbfc00000_u32, 0xc0000000_u32), // -1.5 -> -2
        (0xc0200000_u32, 0xc0400000_u32), // -2.5 -> -3
        (0x40200000_u32, 0x40400000_u32), // 2.5 -> 3
    ];
    for (x_bits, y_bits) in cases {
        assert!(round(Binary32::from_bits(x_bits)).biteq(Binary32::from_bits(y_bits)));
    }
}

#[test]
fn roundf_nan() {
    assert!(round(b32(f32::NAN)).is_nan());
}

#[test]
fn roundf_infinity() {
    assert!(round(b32(f32::INFINITY)).biteq(b32(f32::INFINITY)));
    assert!(round(b32(f32::NEG_INFINITY)).biteq(b32(f32::NEG_INFINITY)));
}

#[test]
fn roundf_subnormal() {
    let pos_sub = f32::from_bits(0x0000_0001);
    assert!(round(b32(pos_sub)).biteq(b32(0.0)));
    let neg_sub = -pos_sub;
    assert!(round(b32(neg_sub)).biteq(b32(-0.0)));
}

#[test]
fn roundf_already_integer_large() {
    let x = f32::from_bits(0x4b000000); // 2^23 = 8388608.0
    assert!(round(b32(x)).biteq(b32(x)));
    assert!(round(b32(-x)).biteq(b32(-x)));
}

#[test]
fn floor_status_reports_inexact() {
    let r = floor_status(b32(2.5));
    assert!(r.val.biteq(b32(2.0)) && r.status == Status::inexact_flag());
    let r = floor_status(b64(-2.5));
    assert!(r.val.biteq(b64(-3.0)) && r.status == Status::inexact_flag());
    let r = floor_status(b64(-4.0));
    assert!(r.val.biteq(b64(-4.0)) && r.status == Status::ok());
    let r = floor_status(b32(0.25));
    assert!(r.val.biteq(b32(0.0)) && r.status == Status::inexact_flag());
    assert!(floor(b32(-0.25)).biteq(b32(-1.0)));
    assert!(floor(b32(f32::NEG_INFINITY)).biteq(b32(f32::NEG_INFINITY)));
    assert!(floor(b64(f64::NAN)).is_nan());
}

#[test]
fn trunc_toward_zero() {
    assert!(trunc(b32(2.7)).biteq(b32(2.0)));
    assert!(trunc(b32(-2.7)).biteq(b32(-2.0)));
    assert!(trunc(b32(-0.7)).biteq(b32(-0.0)));
    assert!(trunc(b32(0.7)).biteq(b32(0.0)));
    assert!(trunc(b64(-1e300)).biteq(b64(-1e300)));
    assert!(trunc(b64(123456.789)).biteq(b64(123456.0)));
    assert!(trunc(b64(f64::INFINITY)).biteq(b64(f64::INFINITY)));
}

#[test]
fn rint_ties_to_even() {
    let cases = [
        (0.5f32, 0.0f32),
        (1.5, 2.0),
        (2.5, 2.0),
        (3.5, 4.0),
        (-0.5, -0.0),
        (-1.5, -2.0),
        (-2.5, -2.0),
        (0.75, 1.0),
        (-0.25, -0.0),
        (2.4999998, 2.0),
        (8388607.5, 8388608.0),
        (8388609.0, 8388609.0),
    ];
    for (x, y) in cases {
        assert!(rint(b32(x)).biteq(b32(y)), "rint({x})");
    }
    assert!(rint(b64(4503599627370495.5)).biteq(b64(4503599627370496.0)));
    assert!(rint(b64(-2.5)).biteq(b64(-2.0)));
    assert!(rint(b64(f64::NAN)).is_nan());
}

#[test]
fn rint_round_directions_and_status() {
    let x = b32(-2.5);
    assert!(rint_round(x, Round::Nearest).val.biteq(b32(-2.0)));
    assert!(rint_round(x, Round::Negative).val.biteq(b32(-3.0)));
    assert!(rint_round(x, Round::Positive).val.biteq(b32(-2.0)));
    assert!(rint_round(x, Round::Zero).val.biteq(b32(-2.0)));
    assert!(rint_round(x, Round::Nearest).status.inexact());
    assert!(rint_round(b32(-0.0), Round::Zero).val.biteq(b32(-0.0)));
    let exact = rint_round(b64(7.0), Round::Nearest);
    assert!(exact.val.biteq(b64(7.0)) && exact.status == Status::ok());
    let small = rint_round(b64(0.2), Round::Nearest);
    assert!(small.val.biteq(b64(0.0)) && small.status.inexact());
    let zero = rint_round(b64(-0.0), Round::Nearest);
    assert!(zero.val.biteq(b64(-0.0)) && zero.status == Status::ok());
}

#[test]
fn round_ties_away_from_zero() {
    assert!(round(b64(0.5)).biteq(b64(1.0)));
    assert!(round(b64(-0.5)).biteq(b64(-1.0)));
    assert!(round(b64(0.49999999999999994)).biteq(b64(0.0)));
    assert!(round(b64(-2.5)).biteq(b64(-3.0)));
    assert!(round(b64(4503599627370495.5)).biteq(b64(4503599627370496.0)));
    assert!(round(b32(8388607.5)).biteq(b32(8388608.0)));
    assert!(round(b32(1.0e-40)).biteq(b32(0.0)));
}

#[test]
fn rounding_agrees_with_std_on_samples() {
    let samples = [
        0.0f64, -0.0, 0.3, -0.3, 0.5, -0.5, 1.0, 1.5, -1.5, 2.5, -2.5, 1e-310, -1e-310,
        123.456, -123.456, 4503599627370497.0, 1e300, -1e300, 0.49999999999999994,
    ];
    for x in samples {
        assert_eq!(ceil(b64(x)).0, x.ceil().to_bits(), "ceil({x})");
        assert_eq!(floor(b64(x)).0, x.floor().to_bits(), "floor({x})");
        assert_eq!(trunc(b64(x)).0, x.trunc().to_bits(), "trunc({x})");
        assert_eq!(round(b64(x)).0, x.round().to_bits(), "round({x})");
        let xf = x as f32;
        assert_eq!(ceil(b32(xf)).0, xf.ceil().to_bits(), "ceilf({xf})");
        assert_eq!(floor(b32(xf)).0, xf.floor().to_bits(), "floorf({xf})");
        assert_eq!(trunc(b32(xf)).0, xf.trunc().to_bits(), "truncf({xf})");
        assert_eq!(round(b32(xf)).0, xf.round().to_bits(), "roundf({xf})");
    }
}

#[test]
fn rounding_is_idempotent() {
    for x in [0.3f32, -7.5, 1e-3, -123456.7, 0.5, -0.5] {
        let c = ceil(b32(x));
        assert!(ceil(c).biteq(c));
        let f = floor(b32(x));
        assert!(floor(f).biteq(f));
        let r = round(b32(x));
        assert!(round(r).biteq(r));
        let e = rint(b32(x));
        assert!(rint(e).biteq(e));
        // floor is ceil of the negation, negated
        let neg = b32(-x);
        assert_eq!(f32_of(floor(b32(x))), -f32_of(ceil(neg)));
    }
}
