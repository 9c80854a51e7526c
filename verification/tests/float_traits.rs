use libm::support::{Binary32, Binary64, Float, Int, MinInt};

fn b32(x: f32) -> Binary32 {
    Binary32(x.to_bits())
}

fn b64(x: f64) -> Binary64 {
    Binary64(x.to_bits())
}

#[test]
fn check_f32() {
    // Constants
    assert_eq!(Binary32::EXP_SAT, 0b11111111);
    assert_eq!(Binary32::EXP_BIAS, 127);
    assert_eq!(Binary32::EXP_MAX, 127);
    assert_eq!(Binary32::EXP_MIN, -126);
    assert_eq!(Binary32::EXP_MIN_SUBNORM, -149);

    // `exp_unbiased`
    assert_eq!(Binary32::frac_pi_2().exp_unbiased(), 0);
    assert_eq!(b32(1.0f32 / 2.0).exp_unbiased(), -1);
    assert_eq!(Binary32::max_value().exp_unbiased(), 127);
    assert_eq!(Binary32::min_value().exp_unbiased(), 127);
    assert_eq!(b32(f32::MIN_POSITIVE).exp_unbiased(), -126);
    // This is a convenience method and not ldexp, `exp_unbiased` does not return correct
    // results for zero and subnormals.
    assert_eq!(Binary32::zero().exp_unbiased(), -127);
    assert_eq!(Binary32::from_bits(0x1).exp_unbiased(), -127);
    assert_eq!(b32(f32::MIN_POSITIVE), Binary32::min_positive_normal());

    // `from_parts`
    assert!(Binary32::from_parts(true, Binary32::EXP_BIAS, 0).biteq(b32(-1.0f32)));
    assert!(Binary32::from_parts(false, 10 + Binary32::EXP_BIAS, 0).biteq(b32(1024.0f32)));
    assert!(Binary32::from_parts(false, 0, 1).biteq(Binary32::from_bits(0x1)));
}

#[test]
fn check_f64() {
    // Constants
    assert_eq!(Binary64::EXP_SAT, 0b11111111111);
    assert_eq!(Binary64::EXP_BIAS, 1023);
    assert_eq!(Binary64::EXP_MAX, 1023);
    assert_eq!(Binary64::EXP_MIN, -1022);
    assert_eq!(Binary64::EXP_MIN_SUBNORM, -1074);

    // `exp_unbiased`
    assert_eq!(Binary64::frac_pi_2().exp_unbiased(), 0);
    assert_eq!(b64(1.0f64 / 2.0).exp_unbiased(), -1);
    assert_eq!(Binary64::max_value().exp_unbiased(), 1023);
    assert_eq!(Binary64::min_value().exp_unbiased(), 1023);
    assert_eq!(b64(f64::MIN_POSITIVE).exp_unbiased(), -1022);
    // This is a convenience method and not ldexp, `exp_unbiased` does not return correct
    // results for zero and subnormals.
    assert_eq!(Binary64::zero().exp_unbiased(), -1023);
    assert_eq!(Binary64::from_bits(0x1).exp_unbiased(), -1023);
    assert_eq!(b64(f64::MIN_POSITIVE), Binary64::min_positive_normal());

    // `from_parts`
    assert!(Binary64::from_parts(true, Binary64::EXP_BIAS, 0).biteq(b64(-1.0f64)));
    assert!(Binary64::from_parts(false, 10 + Binary64::EXP_BIAS, 0).biteq(b64(1024.0f64)));
    assert!(Binary64::from_parts(false, 0, 1).biteq(Binary64::from_bits(0x1)));
}

#[test]
fn to_bits_signed_f32() {
    assert_eq!(b32(1.0f32).to_bits_signed(), 1.0f32.to_bits() as i32);
    assert_eq!(b32(-1.0f32).to_bits_signed(), (-1.0f32).to_bits() as i32);
}

#[test]
fn biteq_f32() {
    assert!(b32(1.0f32).biteq(b32(1.0f32)));
    assert!(!b32(1.0f32).biteq(b32(-1.0f32)));
    assert!(b32(0.0f32).biteq(b32(0.0f32)));
    assert!(!b32(0.0f32).biteq(b32(-0.0f32)));
    assert!(b32(f32::NAN).biteq(b32(f32::NAN)));
}

#[test]
fn eq_repr_f32() {
    assert!(b32(1.0f32).eq_repr(b32(1.0f32)));
    assert!(!b32(1.0f32).eq_repr(b32(-1.0f32)));
    assert!(b32(f32::NAN).eq_repr(b32(f32::NAN)));
    assert!(!b32(0.0f32).eq_repr(b32(-0.0f32)));
}

/// Exercise Float trait methods through fully-qualified trait calls.
fn exercise_float<F: Float>(one: F, neg_one: F, zero: F, neg_zero: F, subnorm: F, nan: F) {
    assert!(Float::is_subnormal(subnorm));
    assert!(!Float::is_subnormal(one));

    assert!(Float::frac(one).equals(<F::Int as MinInt>::ZERO));

    assert!(Float::signum(one).biteq(one));
    assert!(Float::signum(neg_one).biteq(neg_one));
    assert!(Float::signum(nan).is_nan());

    assert!(Float::canonicalize(one).biteq(one));
    assert!(Float::canonicalize(neg_one).biteq(neg_one));

    assert!(Float::is_sign_positive(one));
    assert!(!Float::is_sign_positive(neg_one));
    assert!(Float::is_sign_positive(zero));
    assert!(!Float::is_sign_positive(neg_zero));

    assert!(Float::is_infinite(F::infinity()));
    assert!(Float::is_infinite(F::neg_infinity()));
    assert!(!Float::is_infinite(one));

    assert!(Float::abs(neg_one).biteq(one));
    assert!(Float::abs(one).biteq(one));

    assert!(Float::copysign(one, neg_one).biteq(neg_one));
    assert!(Float::copysign(neg_one, one).biteq(one));
}

#[test]
fn float_trait_dispatch_f32() {
    exercise_float::<Binary32>(
        b32(1.0),
        b32(-1.0),
        b32(0.0),
        b32(-0.0),
        Binary32::from_bits(1),
        b32(f32::NAN),
    );
}

#[test]
fn float_trait_dispatch_f64() {
    exercise_float::<Binary64>(
        b64(1.0),
        b64(-1.0),
        b64(0.0),
        b64(-0.0),
        Binary64::from_bits(1),
        b64(f64::NAN),
    );
}

#[test]
fn float_to_bits_signed() {
    assert!(b32(-1.0_f32).to_bits_signed() < 0);
    assert!(b64(-1.0_f64).to_bits_signed() < 0);
}

#[test]
fn float_biteq() {
    assert!(b32(1.0_f32).biteq(b32(1.0_f32)));
    assert!(!b32(1.0_f32).biteq(b32(-1.0_f32)));
    assert!(b32(f32::NAN).biteq(b32(f32::NAN)));

    assert!(b64(1.0_f64).biteq(b64(1.0_f64)));
    assert!(b64(f64::NAN).biteq(b64(f64::NAN)));
}

#[test]
fn float_eq_repr() {
    assert!(b32(1.0_f32).eq_repr(b32(1.0_f32)));
    assert!(!b32(1.0_f32).eq_repr(b32(2.0_f32)));
    assert!(b32(f32::NAN).eq_repr(b32(f32::NAN)));

    assert!(b64(1.0_f64).eq_repr(b64(1.0_f64)));
    assert!(b64(f64::NAN).eq_repr(b64(f64::NAN)));
}

#[test]
fn float_is_sign_positive() {
    assert!(b32(1.0_f32).is_sign_positive());
    assert!(!b32(-1.0_f32).is_sign_positive());
    assert!(b64(1.0_f64).is_sign_positive());
    assert!(!b64(-1.0_f64).is_sign_positive());
}

#[test]
fn float_is_subnormal() {
    assert!(<Binary32 as Float>::is_subnormal(Binary32::from_bits(1)));
    assert!(!<Binary32 as Float>::is_subnormal(b32(1.0_f32)));
    assert!(<Binary64 as Float>::is_subnormal(Binary64::from_bits(1)));
    assert!(!<Binary64 as Float>::is_subnormal(b64(1.0_f64)));
    // Zero has a zero exponent field but is not subnormal.
    assert!(!<Binary32 as Float>::is_subnormal(b32(0.0_f32)));
    assert!(!<Binary32 as Float>::is_subnormal(b32(-0.0_f32)));
    assert!(!<Binary64 as Float>::is_subnormal(b64(0.0_f64)));
    assert!(!<Binary64 as Float>::is_subnormal(b64(-0.0_f64)));
    assert!(<Binary32 as Float>::is_subnormal(Binary32::from_bits(0x807f_ffff)));
}

/// from_parts with negative=true (takes the `Self::Int::ONE` branch).
#[test]
fn float_from_parts_negative() {
    let neg_one = <Binary32 as Float>::from_parts(true, Binary32::EXP_BIAS, 0);
    assert!(neg_one.biteq(b32(-1.0_f32)));

    let neg_one_f64 = <Binary64 as Float>::from_parts(true, Binary64::EXP_BIAS, 0);
    assert!(neg_one_f64.biteq(b64(-1.0_f64)));
}

#[test]
fn float_frac() {
    assert_eq!(Binary32::from_bits(0x3F80_0001).frac(), 1); // 1.0 + 1 ULP
    assert_eq!(Binary64::from_bits(0x3FF0_0000_0000_0001).frac(), 1);
}

#[test]
fn float_signum() {
    assert!(<Binary32 as Float>::signum(b32(1.0_f32)).biteq(b32(1.0_f32)));
    assert!(<Binary32 as Float>::signum(b32(-1.0_f32)).biteq(b32(-1.0_f32)));
    assert!(<Binary32 as Float>::signum(b32(f32::NAN)).is_nan());

    assert!(<Binary64 as Float>::signum(b64(1.0_f64)).biteq(b64(1.0_f64)));
    assert!(<Binary64 as Float>::signum(b64(-1.0_f64)).biteq(b64(-1.0_f64)));
    assert!(<Binary64 as Float>::signum(b64(f64::NAN)).is_nan());
}

#[test]
fn float_canonicalize() {
    assert!(b32(1.0_f32).canonicalize().biteq(b32(1.0_f32)));
    assert!(b32(-2.5_f32).canonicalize().biteq(b32(-2.5_f32)));
    assert!(b64(1.0_f64).canonicalize().biteq(b64(1.0_f64)));
    assert!(b64(-2.5_f64).canonicalize().biteq(b64(-2.5_f64)));
}

#[test]
fn float_abs() {
    assert!(b32(-3.0_f32).abs().biteq(b32(3.0_f32)));
    assert!(b32(3.0_f32).abs().biteq(b32(3.0_f32)));
    assert!(b64(-3.0_f64).abs().biteq(b64(3.0_f64)));
    assert!(b64(3.0_f64).abs().biteq(b64(3.0_f64)));
}

#[test]
fn named_values_match_std() {
    assert_eq!(Binary32::zero(), b32(0.0));
    assert_eq!(Binary32::neg_zero(), b32(-0.0));
    assert_eq!(Binary32::one(), b32(1.0));
    assert_eq!(Binary32::neg_one(), b32(-1.0));
    assert_eq!(Binary32::infinity(), b32(f32::INFINITY));
    assert_eq!(Binary32::neg_infinity(), b32(f32::NEG_INFINITY));
    assert_eq!(Binary32::max_value(), b32(f32::MAX));
    assert_eq!(Binary32::min_value(), b32(f32::MIN));
    assert_eq!(Binary32::epsilon(), b32(f32::EPSILON));
    assert_eq!(Binary32::pi(), b32(core::f32::consts::PI));
    assert_eq!(Binary32::neg_pi(), b32(-core::f32::consts::PI));
    assert_eq!(Binary32::frac_pi_2(), b32(core::f32::consts::FRAC_PI_2));
    assert!(Binary32::nan().is_nan());
    assert!(Binary32::neg_nan().is_nan() && Binary32::neg_nan().is_sign_negative());

    assert_eq!(Binary64::zero(), b64(0.0));
    assert_eq!(Binary64::neg_zero(), b64(-0.0));
    assert_eq!(Binary64::one(), b64(1.0));
    assert_eq!(Binary64::neg_one(), b64(-1.0));
    assert_eq!(Binary64::infinity(), b64(f64::INFINITY));
    assert_eq!(Binary64::neg_infinity(), b64(f64::NEG_INFINITY));
    assert_eq!(Binary64::max_value(), b64(f64::MAX));
    assert_eq!(Binary64::min_value(), b64(f64::MIN));
    assert_eq!(Binary64::epsilon(), b64(f64::EPSILON));
    assert_eq!(Binary64::pi(), b64(core::f64::consts::PI));
    assert_eq!(Binary64::neg_pi(), b64(-core::f64::consts::PI));
    assert_eq!(Binary64::frac_pi_2(), b64(core::f64::consts::FRAC_PI_2));
    assert!(Binary64::nan().is_nan());
    assert!(Binary64::neg_nan().is_nan() && Binary64::neg_nan().is_sign_negative());
}

#[test]
fn masks_match_the_format() {
    assert_eq!(Binary32::SIGN_MASK, 0x8000_0000);
    assert_eq!(Binary32::SIG_MASK, 0x007f_ffff);
    assert_eq!(Binary32::EXP_MASK, 0x7f80_0000);
    assert_eq!(Binary32::IMPLICIT_BIT, 0x0080_0000);
    assert_eq!(Binary64::SIGN_MASK, 0x8000_0000_0000_0000);
    assert_eq!(Binary64::SIG_MASK, 0x000f_ffff_ffff_ffff);
    assert_eq!(Binary64::EXP_MASK, 0x7ff0_0000_0000_0000);
    assert_eq!(Binary64::IMPLICIT_BIT, 0x0010_0000_0000_0000);
}

#[test]
fn canonicalize_quiets_a_signaling_nan() {
    let snan = Binary32::from_bits(0xff80_0001);
    assert!(snan.is_nan());
    let q = snan.canonicalize();
    assert_eq!(q.to_bits(), 0xffc0_0001);
    let snan64 = Binary64::from_bits(0x7ff0_0000_0000_0001);
    assert_eq!(snan64.canonicalize().to_bits(), 0x7ff8_0000_0000_0001);
    // A quiet NaN stays as it is.
    assert_eq!(Binary32::nan().canonicalize(), Binary32::nan());
}

#[test]
fn from_parts_of_own_parts_is_identity() {
    for bits in [0u32, 1, 0x3f80_0000, 0xbf80_0001, 0x7f80_0000, 0xffc0_1234, 0x0040_0000] {
        let x = Binary32::from_bits(bits);
        let y = Binary32::from_parts(x.is_sign_negative(), x.ex(), x.frac());
        assert!(y.biteq(x));
    }
    for bits in [0u64, 1, 0x3ff0_0000_0000_0000, 0xfff8_0000_0000_0001, 0x8000_0000_0000_0001] {
        let x = Binary64::from_bits(bits);
        let y = Binary64::from_parts(x.is_sign_negative(), x.ex(), x.frac());
        assert!(y.biteq(x));
    }
}

#[test]
fn from_parts_wraps_exponent_and_masks_significand() {
    // The exponent is taken modulo 2^EXP_BITS and the significand is cut to the field.
    let x = Binary32::from_parts(false, 0x100 + 127, 0xff80_0001);
    assert_eq!(x.to_bits(), 0x3f80_0001);
}

#[test]
fn exp_and_fraction_fields() {
    let x = b32(-6.5);
    assert_eq!(x.ex(), 129);
    assert_eq!(x.exp_unbiased(), 2);
    assert_eq!(x.frac(), 0x50_0000);
    assert!(x.is_sign_negative());
    assert!(!x.is_subnormal());
    assert!(!b64(f64::INFINITY).is_nan());
    assert!(b64(f64::NEG_INFINITY).is_infinite());
    assert!(!b64(f64::NAN).is_infinite());
}

#[test]
fn to_bits_round_trips() {
    for v in [0.0f32, -0.0, 1.5, -7.25, f32::MAX, f32::MIN_POSITIVE] {
        assert_eq!(Binary32::from_bits(b32(v).to_bits()), b32(v));
    }
}

#[test]
fn normalize_moves_the_top_bit_to_the_implicit_bit() {
    assert_eq!(Binary32::normalize(0), (-23, 0));
    assert_eq!(Binary32::normalize(1), (-22, 0x80_0000));
    assert_eq!(Binary32::normalize(0x80_0000), (1, 0x80_0000));
    assert_eq!(Binary32::normalize(0xff_ffff), (1, 0xff_ffff));
    assert_eq!(Binary32::normalize(0x1234), (-10, 0x1234 << 11));
    assert_eq!(Binary64::normalize(0), (-52, 0));
    assert_eq!(Binary64::normalize(1), (-51, 1 << 52));
    assert_eq!(Binary64::normalize(0x1f_ffff_ffff_ffff), (1, 0x1f_ffff_ffff_ffff));
    // The same as shifting by the leading zeros beyond the exponent field.
    for s in [1u32, 3, 0x40, 0x7f_ffff, 0x55_5555] {
        let shift = s.leading_zeros() - 8;
        assert_eq!(Binary32::normalize(s), (1 - shift as i32, s << shift));
    }
}
