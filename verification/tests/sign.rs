use libm::generic::copysign::copysign;
use libm::generic::fabs::fabs;
use libm::support::{Binary32, Binary64, Float};

fn b32(x: f32) -> Binary32 {
    Binary32(x.to_bits())
}

fn f32_of(x: Binary32) -> f32 {
    f32::from_bits(x.0)
}

fn copysign_spec_test<F: Float>(f: impl Fn(F, F) -> F) {
    assert!(f(F::zero(), F::zero()).biteq(F::zero()));
    assert!(f(F::neg_zero(), F::zero()).biteq(F::zero()));
    assert!(f(F::zero(), F::neg_zero()).biteq(F::neg_zero()));
    assert!(f(F::neg_zero(), F::neg_zero()).biteq(F::neg_zero()));

    assert!(f(F::one(), F::one()).biteq(F::one()));
    assert!(f(F::neg_one(), F::one()).biteq(F::one()));
    assert!(f(F::one(), F::neg_one()).biteq(F::neg_one()));
    assert!(f(F::neg_one(), F::neg_one()).biteq(F::neg_one()));

    assert!(f(F::infinity(), F::infinity()).biteq(F::infinity()));
    assert!(f(F::neg_infinity(), F::infinity()).biteq(F::infinity()));
    assert!(f(F::infinity(), F::neg_infinity()).biteq(F::neg_infinity()));
    assert!(f(F::neg_infinity(), F::neg_infinity()).biteq(F::neg_infinity()));

    // Not required but we expect it
    assert!(f(F::nan(), F::nan()).biteq(F::nan()));
    assert!(f(F::nan(), F::one()).biteq(F::nan()));
    assert!(f(F::nan(), F::neg_one()).biteq(F::neg_nan()));
    assert!(f(F::nan(), F::neg_nan()).biteq(F::neg_nan()));
    assert!(f(F::neg_nan(), F::nan()).biteq(F::nan()));
    assert!(f(F::neg_nan(), F::one()).biteq(F::nan()));
    assert!(f(F::neg_nan(), F::neg_one()).biteq(F::neg_nan()));
    assert!(f(F::neg_nan(), F::neg_nan()).biteq(F::neg_nan()));
    assert!(f(F::one(), F::nan()).biteq(F::one()));
    assert!(f(F::one(), F::neg_nan()).biteq(F::neg_one()));
    assert!(f(F::neg_one(), F::nan()).biteq(F::one()));
    assert!(f(F::neg_one(), F::neg_nan()).biteq(F::neg_one()));
}

#[test]
fn copysign_spec_tests_f32() {
    copysign_spec_test::<Binary32>(copysign);
}

#[test]
fn copysign_spec_tests_f64() {
    copysign_spec_test::<Binary64>(copysign);
}

/// Based on https://en.cppreference.com/w/cpp/numeric/math/fabs
fn fabs_spec_test<F: Float>(f: impl Fn(F) -> F) {
    assert!(f(F::zero()).biteq(F::zero()));
    assert!(f(F::neg_zero()).biteq(F::zero()));
    assert!(f(F::infinity()).biteq(F::infinity()));
    assert!(f(F::neg_infinity()).biteq(F::infinity()));
    assert!(f(F::nan()).is_nan());

    // Not spec required but we expect it
    assert!(f(F::nan()).is_sign_positive());
    assert!(f(F::neg_nan()).is_sign_positive());
}

#[test]
fn fabs_sanity_check_f32() {
    assert_eq!(f32_of(fabs(b32(-1.0f32))), 1.0);
    assert_eq!(f32_of(fabs(b32(2.8f32))), 2.8);
}

#[test]
fn fabs_spec_tests_f32() {
    fabs_spec_test::<Binary32>(fabs);
}

#[test]
fn fabsf_conformance_bit_exact() {
    let cases = [
        (0xbf800000_u32, 0x3f800000_u32), // |-1| = 1
        (0xc0200000_u32, 0x40200000_u32), // |-2.5| = 2.5
        (0x7f800000_u32, 0x7f800000_u32), // |+inf|
        (0xff800000_u32, 0x7f800000_u32), // |-inf|
    ];

    for (x_bits, y_bits) in cases {
        assert!(fabs(Binary32::from_bits(x_bits)).biteq(Binary32::from_bits(y_bits)));
    }
}

#[test]
fn fabs_spec_tests_f64() {
    fabs_spec_test::<Binary64>(fabs);
}

#[test]
fn sign_laws_on_samples() {
    let xs = [1.5f32, -0.0, f32::INFINITY, -3.25e-40, f32::NAN];
    for x in xs {
        for y in [-1.0f32, 0.0, -0.0, 7.0] {
            for z in [-2.0f32, 3.0] {
                let (x, y, z) = (b32(x), b32(y), b32(z));
                // The last sign copied is the one that counts.
                assert!(copysign(copysign(x, y), z).biteq(copysign(x, z)));
                // The magnitude stays.
                assert!(fabs(copysign(x, y)).biteq(fabs(x)));
                assert_eq!(copysign(x, y).is_sign_negative(), y.is_sign_negative());
            }
        }
        let x = b32(x);
        assert!(copysign(x, x).biteq(x));
        assert!(fabs(fabs(x)).biteq(fabs(x)));
        assert!(fabs(x).biteq(copysign(x, Binary32::zero())));
    }
}
