use libm::support::{Binary32, Binary64, DFloat, Float, HFloat};

fn narrow(x: f64) -> Binary32 {
    Binary64(x.to_bits()).narrow()
}

fn widen(x: f32) -> Binary64 {
    Binary32(x.to_bits()).widen()
}

#[test]
fn widen_is_exact() {
    let samples = [
        0.0f32, -0.0, 1.0, -1.5, 3.1415927, f32::MAX, f32::MIN, f32::MIN_POSITIVE,
        f32::from_bits(1), f32::from_bits(0x8000_0001), f32::from_bits(0x007f_ffff),
        f32::from_bits(0x0040_0000), f32::INFINITY, f32::NEG_INFINITY, 1.0e-40, -6.0e-39,
    ];
    for x in samples {
        assert_eq!(widen(x).0, (x as f64).to_bits(), "widen({x:e})");
    }
}

#[test]
fn widen_nan_is_quiet_with_payload() {
    let w = Binary32::from_bits(0x7f80_0001).widen();
    assert!(w.is_nan());
    assert_eq!(w.0, 0x7ff8_0000_2000_0000);
    let w = Binary32::from_bits(0xffc0_0000).widen();
    assert_eq!(w.0, 0xfff8_0000_0000_0000);
}

#[test]
fn narrow_rounds_to_nearest_even() {
    let samples = [
        0.0f64, -0.0, 1.0, -1.5, 0.1, -0.1, 3.141592653589793, 1.0e38, 3.4028234663852886e38,
        3.4028235677973366e38, 3.402823567797337e38, 1.0e39, -1.0e300, 1.0e-38, 1.1754942e-38,
        1.401298464324817e-45, 7.006492321624085e-46, 7.006492321624087e-46, 1.0e-46, 1.0e-300,
        f64::MIN_POSITIVE, 1.0 + f64::EPSILON, 16777217.0, 16777219.0, -16777217.0,
        f64::INFINITY, f64::NEG_INFINITY, f64::MAX, f64::MIN, 5.877471754111438e-39,
        f64::from_bits(1), f64::from_bits(0x8000_0000_0000_0001),
    ];
    for x in samples {
        assert_eq!(narrow(x).0, (x as f32).to_bits(), "narrow({x:e})");
    }
}

#[test]
fn narrow_agrees_with_casts_on_a_sweep() {
    let mut bits: u64 = 0x0123_4567_89ab_cdef;
    for _ in 0..20000 {
        // A simple generator that reaches all exponents.
        bits ^= bits << 13;
        bits ^= bits >> 7;
        bits ^= bits << 17;
        let x = f64::from_bits(bits);
        if x.is_nan() {
            assert!(narrow(x).is_nan());
            continue;
        }
        assert_eq!(narrow(x).0, (x as f32).to_bits(), "narrow({x:e})");
        let y = f32::from_bits(bits as u32);
        if !y.is_nan() {
            assert_eq!(widen(y).0, (y as f64).to_bits(), "widen({y:e})");
        }
    }
}

#[test]
fn narrow_nan_keeps_sign_and_top_payload() {
    let n = Binary64::from_bits(0xfff0_0000_0000_0001).narrow();
    assert!(n.is_nan());
    assert_eq!(n.0, 0xffc0_0000);
    let n = Binary64::from_bits(0x7ff4_0000_2000_0000).narrow();
    assert_eq!(n.0, 0x7fe0_0001);
}

#[test]
fn widen_then_narrow_gives_back() {
    for bits in [0u32, 1, 0x3f80_0000, 0xbf80_0001, 0x7f7f_ffff, 0x8000_0000, 0x0012_3456] {
        let x = Binary32::from_bits(bits);
        assert_eq!(x.widen().narrow(), x);
    }
    for bits in [0x7f80_0000u32, 0xff80_0000] {
        let x = Binary32::from_bits(bits);
        assert_eq!(x.widen().narrow(), x);
    }
    // A signalling NaN comes back quiet, with its sign and the rest of its payload.
    assert_eq!(Binary32::from_bits(0xff80_0005).widen().narrow().0, 0xffc0_0005);
    assert_eq!(Binary32::from_bits(0x7fc0_1234).widen().narrow().0, 0x7fc0_1234);
}
