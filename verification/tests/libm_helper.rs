use libm::support::{Binary32, Binary64, Float};
use libm::Libm;

fn b32(x: f32) -> Binary32 {
    Binary32(x.to_bits())
}

fn b64(x: f64) -> Binary64 {
    Binary64(x.to_bits())
}

#[test]
fn libm_binary32_helpers() {
    assert!(Libm::<Binary32>::ceil(b32(1.25)).biteq(b32(2.0)));
    assert!(Libm::<Binary32>::floor(b32(-1.25)).biteq(b32(-2.0)));
    assert!(Libm::<Binary32>::fabs(b32(-1.25)).biteq(b32(1.25)));
    assert!(Libm::<Binary32>::round(b32(-1.5)).biteq(b32(-2.0)));
    assert!(Libm::<Binary32>::rint(b32(-1.5)).biteq(b32(-2.0)));
    assert!(Libm::<Binary32>::rint(b32(0.5)).biteq(b32(0.0)));
    assert!(Libm::<Binary32>::roundeven(b32(2.5)).biteq(b32(2.0)));
}

#[test]
fn libm_binary64_helpers() {
    assert!(Libm::<Binary64>::ceil(b64(-0.5)).biteq(b64(-0.0)));
    assert!(Libm::<Binary64>::floor(b64(0.5)).biteq(b64(0.0)));
    assert!(Libm::<Binary64>::fabs(b64(f64::NEG_INFINITY)).biteq(b64(f64::INFINITY)));
    assert!(Libm::<Binary64>::round(b64(2.5)).biteq(b64(3.0)));
    assert!(Libm::<Binary64>::rint(b64(2.5)).biteq(b64(2.0)));
    assert!(Libm::<Binary64>::roundevem(b64(3.5)).biteq(b64(4.0)));
}

#[test]
fn cold_path_returns() {
    libm::support::cold_path();
}
