use libm::support::{CastFrom, CastInto, DInt, HInt, Int, MinInt};

/// Exercise every `Int` trait method through explicit trait-qualified calls.
fn exercise_int_common<T: Int + PartialEq + core::fmt::Debug>(zero: T, one: T, two: T) {
    assert!(Int::is_zero(zero));
    assert!(!Int::is_zero(one));
    assert!(T::from_bool(true) == one);
    assert!(T::from_bool(false) == zero);

    assert!(Int::checked_add(one, one) == Some(two));
    assert!(Int::checked_sub(two, one) == Some(one));

    assert!(Int::wrapping_neg(zero) == zero);
    assert!(Int::wrapping_add(one, one) == two);
    assert!(Int::wrapping_sub(two, one) == one);
    assert!(Int::wrapping_mul(one, two) == two);
    assert!(Int::wrapping_shl(one, 0) == one);
    assert!(Int::wrapping_shr(two, 1) == one);
    assert!(!(Int::rotate_left(one, 1) == zero));

    let (oa_val, oa_of) = Int::overflowing_add(one, one);
    assert!(oa_val == two && !oa_of);
    let (os_val, os_uf) = Int::overflowing_sub(two, one);
    assert!(os_val == one && !os_uf);

    let (ca, ca_of) = Int::carrying_add(one, one, false);
    assert!(ca == two && !ca_of);
    let (bs, bs_uf) = Int::borrowing_sub(two, one, false);
    assert!(bs == one && !bs_uf);

    assert!(Int::leading_zeros(one) == T::BITS - 1);
    assert!(Int::trailing_zeros(one) == 0);
    assert!(Int::ilog2(one) == 0);

    assert!(Int::logical_shr(two, 1) == one);
    core::hint::black_box(Int::abs_diff(two, one));
}

#[test]
fn int_trait_dispatch_u32() {
    exercise_int_common::<u32>(0, 1, 2);
    assert!(Int::checked_add(u32::MAX, 1u32).is_none());
    assert!(Int::checked_sub(0u32, 1u32).is_none());
    assert!(Int::wrapping_add(u32::MAX, 1u32) == 0u32);
    assert!(Int::wrapping_sub(0u32, 1u32) == u32::MAX);
    let (s, o) = Int::overflowing_add(u32::MAX, 1u32);
    assert!(s == 0u32 && o);
    let (d, u) = Int::overflowing_sub(0u32, 1u32);
    assert!(d == u32::MAX && u);
}

#[test]
fn int_trait_dispatch_i32() {
    exercise_int_common::<i32>(0, 1, 2);
    assert!(Int::checked_add(i32::MAX, 1i32).is_none());
    assert!(Int::wrapping_neg(-1i32) == 1i32);
    assert!(Int::wrapping_neg(i32::MIN) == i32::MIN);
}

#[test]
fn int_trait_dispatch_u64() {
    exercise_int_common::<u64>(0, 1, 2);
    assert!(Int::checked_add(u64::MAX, 1u64).is_none());
    assert!(Int::checked_sub(0u64, 1u64).is_none());
    assert!(Int::wrapping_add(u64::MAX, 1u64) == 0u64);
    assert!(Int::wrapping_sub(0u64, 1u64) == u64::MAX);
    let (s, o) = Int::overflowing_add(u64::MAX, 1u64);
    assert!(s == 0u64 && o);
    let (d, u) = Int::overflowing_sub(0u64, 1u64);
    assert!(d == u64::MAX && u);
}

#[test]
fn int_trait_dispatch_i64() {
    exercise_int_common::<i64>(0, 1, 2);
    assert!(Int::checked_add(i64::MAX, 1i64).is_none());
    assert!(Int::wrapping_neg(-1i64) == 1i64);
    assert!(Int::wrapping_neg(i64::MIN) == i64::MIN);
}

#[test]
fn signed_unsigned_conversions_u32() {
    assert_eq!(Int::signed(42u32), 42i32);
    assert_eq!(Int::unsigned(42u32), 42u32);
    assert_eq!(<u32 as Int>::from_unsigned(42u32), 42u32);
}

#[test]
fn signed_unsigned_conversions_i32() {
    assert_eq!(Int::signed(-1i32), -1i32);
    assert_eq!(Int::unsigned(-1i32), u32::MAX);
    assert_eq!(<i32 as Int>::from_unsigned(0u32), 0i32);
}

#[test]
fn signed_unsigned_conversions_u64() {
    assert_eq!(Int::signed(42u64), 42i64);
    assert_eq!(Int::unsigned(42u64), 42u64);
}

#[test]
fn signed_unsigned_conversions_i64() {
    assert_eq!(Int::signed(-1i64), -1i64);
    assert_eq!(Int::unsigned(-1i64), u64::MAX);
}

#[test]
fn i32_abs_ops() {
    assert_eq!(Int::abs(-5i32), 5);
    assert_eq!(Int::unsigned_abs(-5i32), 5u32);
}

#[test]
fn i64_abs_ops() {
    assert_eq!(Int::abs(-5i64), 5);
    assert_eq!(Int::unsigned_abs(-5i64), 5u64);
}

#[test]
fn int_traits_dint_lo_hi() {
    let v: u64 = 0x0000_0002_0000_0001;
    assert_eq!(DInt::lo(v), 1u32);
    assert_eq!(DInt::hi(v), 2u32);
    let (lo, hi) = DInt::lo_hi(v);
    assert_eq!(lo, 1u32);
    assert_eq!(hi, 2u32);
}

#[test]
fn dint_from_lo_hi() {
    let v = <u64 as DInt>::from_lo_hi(0xAAAA_BBBBu32, 0xCCCC_DDDDu32);
    assert_eq!(v, 0xCCCC_DDDD_AAAA_BBBBu64);
}

#[test]
fn dint_i64() {
    let v: i64 = 0x0000_0002_0000_0001;
    assert_eq!(DInt::lo(v), 1i32);
    assert_eq!(DInt::hi(v), 2i32);
}

fn exercise_hint<H: HInt>(a: H, b: H, zero: H)
where
    H::D: PartialEq,
{
    assert!(!(HInt::widen(a) == HInt::widen(zero)));
    assert!(!(HInt::zero_widen(a) == HInt::zero_widen(zero)));
    assert!(!(HInt::widen_hi(a) == HInt::widen_hi(zero)));
    assert!(!(HInt::widen_mul(a, b) == HInt::widen_mul(zero, b)));
    assert!(HInt::zero_widen_mul(zero, b) == HInt::zero_widen_mul(b, zero));
}

#[test]
fn hint_u32() {
    exercise_hint::<u32>(3, 7, 0);
    assert_eq!(HInt::widen(0xFFFF_FFFFu32), 0x0000_0000_FFFF_FFFFu64);
    assert_eq!(HInt::zero_widen(0xFFFF_FFFFu32), 0x0000_0000_FFFF_FFFFu64);
    assert_eq!(HInt::widen_hi(1u32), 0x0000_0001_0000_0000u64);
}

#[test]
fn hint_i32() {
    exercise_hint::<i32>(3, 7, 0);
    assert_eq!(HInt::widen(-1i32), -1i64);
    assert_eq!(HInt::zero_widen(-1i32), 0x0000_0000_FFFF_FFFFi64);
}

#[test]
fn cast_into_u32() {
    let v: u32 = 42;
    assert_eq!(<u32 as CastInto<u32>>::cast(v), 42u32);
    assert_eq!(<u32 as CastInto<i32>>::cast(v), 42i32);
    assert_eq!(<u32 as CastInto<u64>>::cast(v), 42u64);
    assert_eq!(<u32 as CastInto<i64>>::cast(v), 42i64);
    assert_eq!(<u32 as CastInto<u8>>::cast(v), 42u8);
    assert_eq!(<u32 as CastInto<u16>>::cast(v), 42u16);
    assert_eq!(<u32 as CastInto<usize>>::cast(v), 42usize);
}

#[test]
fn cast_into_i32() {
    let v: i32 = 42;
    assert_eq!(<i32 as CastInto<u32>>::cast(v), 42u32);
    assert_eq!(<i32 as CastInto<i32>>::cast(v), 42i32);
    assert_eq!(<i32 as CastInto<u64>>::cast(v), 42u64);
    assert_eq!(<i32 as CastInto<i64>>::cast(v), 42i64);
    assert_eq!(<i32 as CastInto<u8>>::cast(v), 42u8);
    assert_eq!(<i32 as CastInto<u16>>::cast(v), 42u16);
    assert_eq!(<i32 as CastInto<usize>>::cast(v), 42usize);
}

#[test]
fn cast_into_u64() {
    let v: u64 = 42;
    assert_eq!(<u64 as CastInto<u32>>::cast(v), 42u32);
    assert_eq!(<u64 as CastInto<i32>>::cast(v), 42i32);
    assert_eq!(<u64 as CastInto<u64>>::cast(v), 42u64);
    assert_eq!(<u64 as CastInto<i64>>::cast(v), 42i64);
    assert_eq!(<u64 as CastInto<u8>>::cast(v), 42u8);
    assert_eq!(<u64 as CastInto<u16>>::cast(v), 42u16);
    assert_eq!(<u64 as CastInto<usize>>::cast(v), 42usize);
}

#[test]
fn cast_into_i64() {
    let v: i64 = 42;
    assert_eq!(<i64 as CastInto<u32>>::cast(v), 42u32);
    assert_eq!(<i64 as CastInto<i32>>::cast(v), 42i32);
    assert_eq!(<i64 as CastInto<u64>>::cast(v), 42u64);
    assert_eq!(<i64 as CastInto<i64>>::cast(v), 42i64);
    assert_eq!(<i64 as CastInto<u8>>::cast(v), 42u8);
    assert_eq!(<i64 as CastInto<u16>>::cast(v), 42u16);
    assert_eq!(<i64 as CastInto<usize>>::cast(v), 42usize);
}

#[test]
fn cast_into_usize() {
    let v: usize = 42;
    assert_eq!(<usize as CastInto<u32>>::cast(v), 42u32);
    assert_eq!(<usize as CastInto<i32>>::cast(v), 42i32);
    assert_eq!(<usize as CastInto<u64>>::cast(v), 42u64);
    assert_eq!(<usize as CastInto<i64>>::cast(v), 42i64);
    assert_eq!(<usize as CastInto<u8>>::cast(v), 42u8);
    assert_eq!(<usize as CastInto<u16>>::cast(v), 42u16);
    assert_eq!(<usize as CastInto<usize>>::cast(v), 42usize);
}

#[test]
fn cast_lossy_int() {
    let v: u64 = 0x1_0000_0000;
    let w: u32 = <u64 as CastInto<u32>>::cast_lossy(v);
    assert_eq!(w, 0u32);
    let x: u32 = <u32 as CastFrom<u64>>::cast_from_lossy(v);
    assert_eq!(x, 0u32);
}

#[test]
fn int_from_bool_and_is_zero() {
    assert_eq!(<i32 as Int>::from_bool(true), 1);
    assert_eq!(<i32 as Int>::from_bool(false), 0);
    assert!(Int::is_zero(0_i32));
    assert!(!Int::is_zero(1_i32));
    assert_eq!(<u32 as Int>::from_bool(true), 1);
    assert!(Int::is_zero(0_u32));
}

#[test]
fn int_logical_shr() {
    assert_eq!((-1_i32).logical_shr(1), i32::MAX);
    assert_eq!(0xFF00_u32.logical_shr(8), 0xFF);
}

#[test]
fn int_abs_and_unsigned_abs() {
    assert_eq!(Int::abs(-5_i32), 5);
    assert_eq!(Int::unsigned_abs(5_i32), 5_u32);
    assert_eq!(Int::abs(-5_i64), 5);
    assert_eq!(Int::unsigned_abs(-5_i64), 5_u64);
}

#[test]
fn int_abs_diff() {
    assert_eq!(Int::abs_diff(10_i32, 3), 7_u32);
    assert_eq!(Int::abs_diff(3_i32, 10), 7_u32);
    assert_eq!(Int::abs_diff(10_u32, 3), 7_u32);
}

#[test]
fn int_checked_ops() {
    assert_eq!(Int::checked_add(1_i32, 2), Some(3));
    assert_eq!(Int::checked_add(i32::MAX, 1), None);
    assert_eq!(Int::checked_sub(5_i32, 3), Some(2));
    assert_eq!(Int::checked_sub(i32::MIN, 1), None);
}

#[test]
fn int_wrapping_ops() {
    assert_eq!(Int::wrapping_neg(1_i32), -1);
    assert_eq!(Int::wrapping_mul(3_u32, 4), 12);
    assert_eq!(Int::rotate_left(1_u32, 1), 2);
}

#[test]
fn int_overflowing_ops() {
    let (val, of) = Int::overflowing_add(i32::MAX, 1);
    assert_eq!(val, i32::MIN);
    assert!(of);
    let (val, of) = Int::overflowing_sub(0_i32, 1);
    assert_eq!(val, -1);
    assert!(!of);
}

#[test]
fn int_carrying_add_and_borrowing_sub() {
    let (val, carry) = Int::carrying_add(1_u32, 2, false);
    assert_eq!(val, 3);
    assert!(!carry);
    let (val, carry) = Int::carrying_add(u32::MAX, 0, true);
    assert_eq!(val, 0);
    assert!(carry);
    let (val, borrow) = Int::borrowing_sub(5_u32, 3, false);
    assert_eq!(val, 2);
    assert!(!borrow);
    let (val, borrow) = Int::borrowing_sub(0_u32, 0, true);
    assert_eq!(val, u32::MAX);
    assert!(borrow);
}

#[test]
fn int_leading_trailing_zeros_and_ilog2() {
    assert_eq!(Int::leading_zeros(1_u32), 31);
    assert_eq!(Int::trailing_zeros(8_u32), 3);
    assert_eq!(Int::ilog2(8_u32), 3);
}

#[test]
fn int_signed_unsigned_conversions() {
    assert_eq!(Int::unsigned(-1_i32), u32::MAX);
    assert_eq!(Int::signed(u32::MAX), -1_i32);
    assert_eq!(<i32 as Int>::from_unsigned(42_u32), 42_i32);
    assert_eq!(<u32 as Int>::from_unsigned(42_u32), 42_u32);
}

#[test]
fn sonair_coverage_dint_lo_hi() {
    let val: u64 = 0x0000_0002_0000_0001;
    assert_eq!(DInt::lo(val), 1_u32);
    assert_eq!(DInt::hi(val), 2_u32);
    let (lo, hi) = DInt::lo_hi(val);
    assert_eq!(lo, 1_u32);
    assert_eq!(hi, 2_u32);
    let reconstructed = <u64 as DInt>::from_lo_hi(1_u32, 2_u32);
    assert_eq!(reconstructed, val);
}

#[test]
fn hint_widen_ops() {
    assert_eq!(HInt::widen(3_u32), 3_u64);
    assert_eq!(HInt::zero_widen(3_u32), 3_u64);
    assert_eq!(HInt::widen_hi(3_u32), 3_u64 << 32);
    assert_eq!(HInt::zero_widen_mul(3_u32, 4), 12_u64);
    assert_eq!(HInt::widen_mul(3_u32, 4), 12_u64);
    assert_eq!(HInt::widen(-1_i32), -1_i64);
    assert_eq!(HInt::widen_mul(-1_i32, 2), -2_i64);
}

#[test]
fn cast_lossy() {
    let truncated: u8 = CastInto::cast_lossy(300_u32);
    assert_eq!(truncated, 44); // 300 % 256
    let truncated2: u8 = CastFrom::cast_from_lossy(300_u32);
    assert_eq!(truncated2, 44);
}

#[test]
fn lo_hi_round_trip() {
    for v in [0u64, 1, 0xdead_beef_0123_4567, u64::MAX, 0x8000_0000_0000_0000] {
        let (lo, hi) = DInt::lo_hi(v);
        assert_eq!(<u64 as DInt>::from_lo_hi(lo, hi), v);
    }
    for v in [0i64, -1, i64::MIN, i64::MAX, -0x1234_5678_9abc] {
        let (lo, hi) = DInt::lo_hi(v);
        assert_eq!(<i64 as DInt>::from_lo_hi(lo, hi), v);
    }
    let joined = <i64 as DInt>::from_lo_hi(-2i32, -3i32);
    assert_eq!(DInt::lo(joined), -2i32);
    assert_eq!(DInt::hi(joined), -3i32);
}

#[test]
fn widening_products_are_exact() {
    assert_eq!(HInt::widen_mul(u32::MAX, u32::MAX), 0xffff_fffe_0000_0001u64);
    assert_eq!(HInt::widen_mul(i32::MIN, i32::MIN), 0x4000_0000_0000_0000i64);
    assert_eq!(HInt::widen_mul(i32::MIN, i32::MAX), -0x3fff_ffff_8000_0000i64);
    // The zero-widened product of two negative encodings wraps into the signed wide type.
    assert_eq!(HInt::zero_widen_mul(-1i32, -1i32), 0xffff_fffe_0000_0001u64 as i64);
    assert_eq!(HInt::widen_hi(-1i32), -0x1_0000_0000i64);
}

#[test]
fn narrow_and_pointer_casts() {
    assert_eq!(<i8 as CastInto<u32>>::cast_lossy(-1i8), u32::MAX);
    assert_eq!(<i16 as CastInto<i64>>::cast(-300i16), -300i64);
    assert_eq!(<u16 as CastInto<u8>>::cast_lossy(0x1234u16), 0x34u8);
    assert_eq!(<isize as CastInto<i32>>::cast(-7isize), -7i32);
    assert_eq!(<u64 as CastInto<i8>>::cast_lossy(0xffu64), -1i8);
    assert_eq!(<u8 as MinInt>::MAX, 255);
    assert_eq!(<i16 as MinInt>::MIN, i16::MIN);
    assert_eq!(<usize as MinInt>::BITS, usize::BITS);
}

#[test]
fn shifts_and_rotations() {
    assert_eq!(Int::wrapping_shl(1u32, 33), 2);
    assert_eq!(Int::wrapping_shr(-8i32, 1), -4);
    assert_eq!(Int::wrapping_shr(-7i64, 1), -4);
    assert_eq!(Int::rotate_left(0x8000_0001u32, 1), 3);
    assert_eq!(Int::rotate_left(0x8000_0000_0000_0001u64, 4), 0x18);
    assert_eq!(Int::logical_shr(-1i64, 60), 0xf);
    assert_eq!(Int::leading_zeros(0u64), 64);
    assert_eq!(Int::trailing_zeros(0i32), 32);
    assert_eq!(Int::ilog2(u64::MAX), 63);
}

#[test]
fn int_trait_dispatch_narrow_and_pointer_types() {
    exercise_int_common::<u8>(0, 1, 2);
    exercise_int_common::<i8>(0, 1, 2);
    exercise_int_common::<u16>(0, 1, 2);
    exercise_int_common::<i16>(0, 1, 2);
    exercise_int_common::<usize>(0, 1, 2);
    exercise_int_common::<isize>(0, 1, 2);
    assert_eq!(Int::wrapping_add(u8::MAX, 2u8), 1);
    assert_eq!(Int::overflowing_sub(i8::MIN, 1i8), (i8::MAX, true));
    assert_eq!(Int::unsigned_abs(i16::MIN), 0x8000u16);
    assert_eq!(Int::abs_diff(isize::MIN, isize::MAX), usize::MAX);
    assert_eq!(Int::leading_zeros(1u8), 7);
    assert_eq!(Int::trailing_zeros(0u16), 16);
    assert_eq!(Int::leading_zeros(0usize), usize::BITS);
    assert_eq!(Int::ilog2(0x80u8), 7);
    assert_eq!(Int::rotate_left(0x81u8, 1), 0x03);
    assert_eq!(Int::rotate_left(-2i16, 1), -3);
    assert_eq!(Int::logical_shr(-1i8, 4), 0x0f);
    assert_eq!(Int::wrapping_shr(-100isize, 3), -13);
    assert_eq!(Int::checked_add(usize::MAX, 1usize), None);
    assert_eq!(Int::carrying_add(usize::MAX, 0, true), (0, true));
    assert_eq!(Int::borrowing_sub(0usize, 0, true), (usize::MAX, true));
    assert_eq!(Int::wrapping_neg(1usize), usize::MAX);
    assert_eq!(Int::signed(0xffu8), -1i8);
    assert_eq!(<i16 as Int>::from_unsigned(0xffffu16), -1i16);
}

#[test]
fn halves_of_narrow_types() {
    exercise_hint::<u8>(3, 7, 0);
    exercise_hint::<i8>(3, 7, 0);
    exercise_hint::<u16>(3, 7, 0);
    exercise_hint::<i16>(3, 7, 0);
    assert_eq!(DInt::lo_hi(0xabcdu16), (0xcdu8, 0xabu8));
    assert_eq!(DInt::lo_hi(-2i16), (-2i8, -1i8));
    assert_eq!(DInt::lo_hi(0x1234_5678u32), (0x5678u16, 0x1234u16));
    assert_eq!(DInt::lo_hi(-0x1234_5678i32), (-0x5678i16, -0x1235i16));
    assert_eq!(<u32 as DInt>::from_lo_hi(0x5678u16, 0x1234u16), 0x1234_5678u32);
    assert_eq!(<i16 as DInt>::from_lo_hi(-2i8, -1i8), -2i16);
    assert_eq!(HInt::widen_mul(u8::MAX, u8::MAX), 0xfe01u16);
    assert_eq!(HInt::widen_mul(i16::MIN, i16::MIN), 0x4000_0000i32);
    assert_eq!(HInt::zero_widen(-1i8), 0xffi16);
    assert_eq!(HInt::widen_hi(-1i16), -0x1_0000i32);
    assert_eq!(HInt::zero_widen_mul(-1i8, -1i8), 0xfe01u16 as i16);
}
