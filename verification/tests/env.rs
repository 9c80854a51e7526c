use libm::support::{FpResult, Round, Status};

#[test]
fn status_flags() {
    assert!(!Status::ok().underflow());
    assert!(!Status::ok().overflow());
    assert!(!Status::ok().inexact());
    assert!(Status::underflow_flag().underflow());
    assert!(Status::overflow_flag().overflow());
    assert!(Status::inexact_flag().inexact());
    assert!(!Status::underflow_flag().overflow());
}

#[test]
fn status_constants() {
    assert_ne!(Status::divide_by_zero_flag(), Status::ok());
    assert_ne!(Status::overflow_flag(), Status::ok());
    assert_ne!(Status::invalid_flag(), Status::ok());
}

#[test]
fn fp_result_ok() {
    let r = FpResult::ok(42.0_f64);
    assert_eq!(r.val, 42.0);
    assert_eq!(r.status, Status::ok());
}

#[test]
fn fp_result_new() {
    let r = FpResult::new(1.0_f32, Status::inexact_flag());
    assert_eq!(r.val, 1.0);
    assert!(r.status.inexact());
}

#[test]
fn round_variants() {
    assert_eq!(Round::Nearest as i32, 0);
    assert_eq!(Round::Negative as i32, 1);
    assert_eq!(Round::Positive as i32, 2);
    assert_eq!(Round::Zero as i32, 3);
    assert_ne!(Round::Nearest, Round::Zero);
}

#[test]
fn status_with() {
    let combined = Status::underflow_flag().with(Status::inexact_flag());
    assert!(combined.underflow());
    assert!(combined.inexact());
    assert!(!combined.overflow());
}

#[test]
fn set_and_clear_flags() {
    let mut s = Status::overflow_flag();
    s.set_inexact(true);
    assert!(s.inexact() && s.overflow() && !s.underflow());
    s.set_underflow(true);
    assert!(s.underflow() && s.inexact() && s.overflow());
    s.set_inexact(false);
    assert!(!s.inexact() && s.underflow() && s.overflow());
    s.set_underflow(false);
    assert_eq!(s, Status::overflow_flag());
    // Setting a flag that is already set changes nothing.
    let mut t = Status::inexact_flag();
    t.set_inexact(true);
    assert_eq!(t, Status::inexact_flag());
}

#[test]
fn with_is_a_union() {
    let a = Status::underflow_flag();
    let b = Status::inexact_flag().with(Status::overflow_flag());
    assert_eq!(a.with(b), b.with(a));
    assert_eq!(a.with(Status::ok()), a);
    assert_eq!(b.with(b), b);
    assert_eq!(a.with(b).with(Status::invalid_flag()), a.with(b.with(Status::invalid_flag())));
}

#[test]
fn distinct_flags() {
    let all = [
        Status::invalid_flag(),
        Status::divide_by_zero_flag(),
        Status::overflow_flag(),
        Status::underflow_flag(),
        Status::inexact_flag(),
    ];
    for i in 0..all.len() {
        for j in 0..all.len() {
            assert_eq!(all[i] == all[j], i == j);
        }
    }
}
