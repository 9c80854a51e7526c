//! Integer traits used by the float routines, with their behaviour stated over
//! the mathematical value (`val`) and the two's complement encoding (`raw`).

use vstd::prelude::*;

verus! {

use vstd::arithmetic::power2::{pow2, lemma2_to64, lemma2_to64_rest};
use vstd::bits::low_bits_mask;

/// Smallest value of an integer type with the given signedness and width.
pub open spec fn min_of(signed: bool, w: nat) -> int {
    if signed {
        -(pow2((w - 1) as nat) as int)
    } else {
        0
    }
}

/// Largest value of an integer type with the given signedness and width.
pub open spec fn max_of(signed: bool, w: nat) -> int {
    if signed {
        pow2((w - 1) as nat) - 1
    } else {
        pow2(w) - 1
    }
}

/// Whether `v` is a value of the integer type with the given signedness and width.
pub open spec fn fits(v: int, signed: bool, w: nat) -> bool {
    min_of(signed, w) <= v <= max_of(signed, w)
}

/// `v` reduced modulo `2^w` into the range of the integer type (two's complement wrapping).
pub open spec fn wrap(v: int, signed: bool, w: nat) -> int {
    let m = v % (pow2(w) as int);
    if signed && m > max_of(signed, w) {
        m - pow2(w)
    } else {
        m
    }
}

/// Mask of the low `w` bits.
pub open spec fn mask_of(w: nat) -> u64 {
    low_bits_mask(w) as u64
}

/// Left rotation by `k` of a `w`-bit encoding.
pub open spec fn rotl(raw: u64, k: u64, w: nat) -> u64 {
    if k == 0 {
        raw
    } else {
        ((raw << k) | (raw >> ((w - k) as u64))) & mask_of(w)
    }
}

/// Absolute value of a mathematical integer.
pub open spec fn abs_int(v: int) -> int {
    if v < 0 {
        -v
    } else {
        v
    }
}

/// Bit `j` of an encoding.
pub open spec fn bit(raw: u64, j: u64) -> bool {
    (raw >> j) & 1 == 1
}

/// A shift amount taken modulo the bit width, as the shift operators of the wrapping
/// methods use it.
pub open spec fn shift_amount(n: u32, w: nat) -> u64 {
    (n as nat % w) as u64
}

/// The values of the powers of two and masks that the integer widths use.
pub proof fn lemma_width_constants()
    ensures
        pow2(7) == 0x80,
        pow2(8) == 0x100,
        pow2(15) == 0x8000,
        pow2(16) == 0x1_0000,
        pow2(31) == 0x8000_0000,
        pow2(32) == 0x1_0000_0000,
        pow2(63) == 0x8000_0000_0000_0000,
        pow2(64) == 0x1_0000_0000_0000_0000,
        mask_of(8) == 0xff,
        mask_of(16) == 0xffff,
        mask_of(32) == 0xffff_ffff,
        mask_of(64) == 0xffff_ffff_ffff_ffff,
{
    lemma2_to64();
    lemma2_to64_rest();
}

/// Floor division of a negative number through its one's complement, which is how an
/// arithmetic shift right of a negative encoding rounds.
pub proof fn lemma_floor_div_complement(x: int, d: int)
    requires
        d > 0,
        x < 0,
    ensures
        x / d == -1 - ((-1 - x) / d),
{
    let y = -1 - x;
    let q = y / d;
    let r = y % d;
    vstd::arithmetic::div_mod::lemma_fundamental_div_mod(y, d);
    assert(0 <= r < d);
    assert(x == (-1 - q) * d + (d - 1 - r)) by (nonlinear_arith)
        requires
            y == d * q + r,
            x == -1 - y,
    ;
    vstd::arithmetic::div_mod::lemma_fundamental_div_mod_converse(x, d, -1 - q, d - 1 - r);
}

/// A fixed-width integer seen as a mathematical value and as its encoding.
pub trait Repr: Copy + Sized {
    /// The mathematical value.
    spec fn val(self) -> int;

    /// The two's complement encoding, zero-extended to 64 bits.
    spec fn raw(self) -> u64;

    /// The bit width.
    spec fn width() -> nat;

    /// Whether the type is signed.
    spec fn is_signed() -> bool;

    /// The value lies in the type's range and the encoding is the value modulo `2^width`.
    proof fn lemma_repr(x: Self)
        ensures
            Self::width() == 8 || Self::width() == 16 || Self::width() == 32 || Self::width()
                == 64,
            fits(x.val(), Self::is_signed(), Self::width()),
            x.raw() as int == x.val() % (pow2(Self::width()) as int),
            x.raw() <= mask_of(Self::width()),
    ;

    /// Two values with the same encoding are equal.
    proof fn lemma_raw_injective(x: Self, y: Self)
        requires
            x.raw() == y.raw(),
        ensures
            x == y,
    ;
}

/// Minimal integer implementations needed on all integer types.
pub trait MinInt: Repr {
    /// Type with the same width but other signedness
    type OtherSign: Repr;

    /// Unsigned version of Self
    type Unsigned: Repr;

    /// Signed version of Self
    type Signed: Repr;

    /// If `Self` is a signed integer
    const SIGNED: bool;

    /// The bitwidth of the int type
    const BITS: u32;

    const ZERO: Self;

    const ONE: Self;

    const MIN: Self;

    const MAX: Self;

    /// The constants agree with the model, and the associated types have the same width.
    proof fn lemma_min_int()
        ensures
            Self::SIGNED == Self::is_signed(),
            Self::BITS as nat == Self::width(),
            Self::ZERO.val() == 0,
            Self::ONE.val() == 1,
            Self::MIN.val() == min_of(Self::is_signed(), Self::width()),
            Self::MAX.val() == max_of(Self::is_signed(), Self::width()),
            <Self::OtherSign as Repr>::width() == Self::width(),
            <Self::OtherSign as Repr>::is_signed() == !Self::is_signed(),
            <Self::Unsigned as Repr>::width() == Self::width(),
            !<Self::Unsigned as Repr>::is_signed(),
            <Self::Signed as Repr>::width() == Self::width(),
            <Self::Signed as Repr>::is_signed(),
    ;

    /// Bitwise or.
    fn bit_or(self, rhs: Self) -> (r: Self)
        ensures
            r.raw() == self.raw() | rhs.raw(),
    ;

    /// Bitwise complement.
    fn bit_not(self) -> (r: Self)
        ensures
            r.raw() == !self.raw() & mask_of(Self::width()),
    ;

    /// Shift left by less than the bit width.
    fn shift_left(self, n: u32) -> (r: Self)
        requires
            n < Self::width(),
        ensures
            r.raw() == (self.raw() << (n as u64)) & mask_of(Self::width()),
    ;

    /// The value as a 64-bit two's complement encoding (sign-extended).
    fn to_raw64(self) -> (r: u64)
        ensures
            r as int == self.val() % (pow2(64) as int),
    ;

    /// The low bits of a 64-bit encoding, read as this type (as `as` truncates).
    fn from_raw64(r: u64) -> (x: Self)
        ensures
            x.raw() == r & mask_of(Self::width()),
    ;
}

/// A value whose encoding is `v` modulo `2^width` is `v` wrapped into the type's range.
pub proof fn lemma_wrap_from_raw<T: Repr>(x: T, v: int)
    requires
        x.raw() as int == v % (pow2(T::width()) as int),
    ensures
        x.val() == wrap(v, T::is_signed(), T::width()),
{
    T::lemma_repr(x);
    lemma_width_constants();
    let w = T::width();
    let m = pow2(w) as int;
    let a = x.val();
    if a < 0 {
        vstd::arithmetic::div_mod::lemma_fundamental_div_mod_converse(a, m, -1, a + m);
    } else {
        vstd::arithmetic::div_mod::lemma_fundamental_div_mod_converse(a, m, 0, a);
    }
}

/// The encoding of an unsigned value is the value.
pub proof fn lemma_unsigned_raw<T: Repr>(x: T)
    requires
        !T::is_signed(),
    ensures
        x.raw() as int == x.val(),
        x.val() >= 0,
{
    T::lemma_repr(x);
    lemma_width_constants();
    vstd::arithmetic::div_mod::lemma_fundamental_div_mod_converse(
        x.val(),
        pow2(T::width()) as int,
        0,
        x.val(),
    );
}

/// Wrapping a value that already lies in the range leaves it unchanged.
pub proof fn lemma_wrap_fits(v: int, signed: bool, w: nat)
    requires
        w == 8 || w == 16 || w == 32 || w == 64,
        fits(v, signed, w),
    ensures
        wrap(v, signed, w) == v,
{
    lemma_width_constants();
    let m = pow2(w) as int;
    if v < 0 {
        vstd::arithmetic::div_mod::lemma_fundamental_div_mod_converse(v, m, -1, v + m);
    } else {
        vstd::arithmetic::div_mod::lemma_fundamental_div_mod_converse(v, m, 0, v);
    }
}

/// Truncating a sign-extended 64-bit encoding to `w` bits gives the value modulo `2^w`.
pub proof fn lemma_truncate_raw64(r: u64, v: int, w: nat)
    requires
        w == 8 || w == 16 || w == 32 || w == 64,
        r as int == v % (pow2(64) as int),
    ensures
        (r & mask_of(w)) as int == v % (pow2(w) as int),
{
    lemma_width_constants();
    if w == 64 {
        assert(r & 0xffff_ffff_ffff_ffffu64 == r) by (bit_vector);
    } else {
        vstd::bits::lemma_u64_low_bits_mask_is_mod(r, w);
        vstd::arithmetic::power2::lemma_pow2_adds(w, (64 - w) as nat);
        vstd::arithmetic::power2::lemma_pow2_pos(w);
        vstd::arithmetic::power2::lemma_pow2_pos((64 - w) as nat);
        vstd::arithmetic::div_mod::lemma_mod_mod(v, pow2(w) as int, pow2((64 - w) as nat) as int);
    }
}

/// Trait to express (possibly lossy) casting of integers
pub trait CastInto<T: MinInt>: MinInt {
    /// By default, casts should be exact.
    fn cast(self) -> (r: T)
        requires
            fits(self.val(), T::is_signed(), T::width()),
        ensures
            r.val() == self.val(),
    ;

    /// Call for casts that are expected to truncate.
    fn cast_lossy(self) -> (r: T)
        ensures
            r.val() == wrap(self.val(), T::is_signed(), T::width()),
    ;
}

pub trait CastFrom<T: MinInt>: MinInt {
    /// By default, casts should be exact.
    fn cast_from(value: T) -> (r: Self)
        requires
            fits(value.val(), Self::is_signed(), Self::width()),
        ensures
            r.val() == value.val(),
    ;

    /// Call for casts that are expected to truncate.
    fn cast_from_lossy(value: T) -> (r: Self)
        ensures
            r.val() == wrap(value.val(), Self::is_signed(), Self::width()),
    ;
}

impl<T: MinInt, U: MinInt> CastInto<T> for U {
    fn cast(self) -> (r: T) {
        let r = self.cast_lossy();
        proof {
            T::lemma_repr(r);
            lemma_wrap_fits(self.val(), T::is_signed(), T::width());
        }
        r
    }

    fn cast_lossy(self) -> (r: T) {
        let wide = self.to_raw64();
        let r = T::from_raw64(wide);
        proof {
            T::lemma_repr(r);
            lemma_truncate_raw64(wide, self.val(), T::width());
            lemma_wrap_from_raw(r, self.val());
        }
        r
    }
}

impl<T: MinInt, U: CastInto<T>> CastFrom<U> for T {
    fn cast_from(value: U) -> (r: Self) {
        value.cast()
    }

    fn cast_from_lossy(value: U) -> (r: Self) {
        value.cast_lossy()
    }
}

/// Bit-level facts about splitting encodings into halves and joining them.
pub proof fn lemma_split_bits(x: u64, y: i64, i: i32, a: u64, b: u64)
    by (bit_vector)
    ensures
        ((x >> 32u64) as u32) as u64 == x >> 32u64,
        ((y as i32) as u32) as u64 == (y as u64) & 0xffff_ffffu64,
        (((y >> 32u32) as i32) as u32) as u64 == (y as u64) >> 32u64,
        ((i as i64) << 32u32) as u64 == ((i as u32) as u64) << 32u64,
        x <= 0xffff ==> (x & 0xff) | ((x >> 8u64) << 8u64) == x,
        x <= 0xffff_ffff ==> (x & 0xffff) | ((x >> 16u64) << 16u64) == x,
        (x & 0xffff_ffff) | ((x >> 32u64) << 32u64) == x,
        a <= 0xff && b <= 0xff ==> ((a | (b << 8u64)) & 0xff == a && (a | (b << 8u64)) >> 8u64
            == b),
        a <= 0xffff && b <= 0xffff ==> ((a | (b << 16u64)) & 0xffff == a && (a | (b << 16u64))
            >> 16u64 == b),
        a <= 0xffff_ffff && b <= 0xffff_ffff ==> ((a | (b << 32u64)) & 0xffff_ffff == a && (a | (b
            << 32u64)) >> 32u64 == b),
{
}

/// Trait for integers twice the bit width of another integer.
pub trait DInt: MinInt {
    /// Integer that is half the bit width of the integer this trait is implemented for
    type H: HInt<D = Self>;

    /// Returns the low half of `self`
    fn lo(self) -> (r: Self::H)
        ensures
            r.raw() == self.raw() & mask_of(<Self::H as Repr>::width()),
    ;

    /// Returns the high half of `self`
    fn hi(self) -> (r: Self::H)
        ensures
            r.raw() == self.raw() >> (<Self::H as Repr>::width() as u64),
    ;

    /// Returns the low and high halves of `self` as a tuple
    fn lo_hi(self) -> (r: (Self::H, Self::H))
        ensures
            r.0.raw() == self.raw() & mask_of(<Self::H as Repr>::width()),
            r.1.raw() == self.raw() >> (<Self::H as Repr>::width() as u64),
    {
        (self.lo(), self.hi())
    }

    /// Constructs an integer using lower and higher half parts
    fn from_lo_hi(lo: Self::H, hi: Self::H) -> (r: Self)
        ensures
            r.raw() == lo.raw() | (hi.raw() << (<Self::H as Repr>::width() as u64)),
    {
        lo.zero_widen().bit_or(hi.widen_hi())
    }
}

/// Trait for integers half the bit width of another integer.
pub trait HInt: Int {
    /// Integer that is double the bit width of the integer this trait is implemented for
    type D: MinInt;

    /// The wide type has twice the width and the same signedness.
    proof fn lemma_double_width()
        ensures
            <Self::D as Repr>::width() == 2 * Self::width(),
            <Self::D as Repr>::is_signed() == Self::is_signed(),
    ;

    /// Widens (using default extension) the integer to have double bit width
    fn widen(self) -> (r: Self::D)
        ensures
            r.val() == self.val(),
    ;

    /// Widens (zero extension only) the integer to have double bit width.
    fn zero_widen(self) -> (r: Self::D)
        ensures
            r.raw() == self.raw(),
    ;

    /// Widens the integer to have double bit width and shifts the integer into the higher bits
    fn widen_hi(self) -> (r: Self::D)
        ensures
            r.raw() == self.raw() << (Self::width() as u64),
    ;

    /// Widening multiplication with zero widening. This cannot overflow for unsigned types;
    /// for signed ones the product of the two encodings wraps into the wide type.
    fn zero_widen_mul(self, rhs: Self) -> (r: Self::D)
        ensures
            r.val() == wrap(
                self.raw() * rhs.raw(),
                <Self::D as Repr>::is_signed(),
                <Self::D as Repr>::width(),
            ),
    ;

    /// Widening multiplication. This cannot overflow.
    fn widen_mul(self, rhs: Self) -> (r: Self::D)
        ensures
            r.val() == self.val() * rhs.val(),
    ;
}

/// Joining the two halves of an integer gives it back, and splitting a joined integer gives
/// back the halves it was joined from: `from_lo_hi(x.lo(), x.hi())` is `x`, and `lo` and `hi`
/// of `from_lo_hi(lo, hi)` are `lo` and `hi`.
pub proof fn lemma_lo_hi_round_trip<D: DInt>(x: D, lo: D::H, hi: D::H)
    ensures
        (x.raw() & mask_of(<D::H as Repr>::width())) | ((x.raw() >> (<D::H as Repr>::width() as u64))
            << (<D::H as Repr>::width() as u64)) == x.raw(),
        (lo.raw() | (hi.raw() << (<D::H as Repr>::width() as u64))) & mask_of(
            <D::H as Repr>::width(),
        ) == lo.raw(),
        (lo.raw() | (hi.raw() << (<D::H as Repr>::width() as u64))) >> (
        <D::H as Repr>::width() as u64) == hi.raw(),
{
    <D::H as HInt>::lemma_double_width();
    D::lemma_repr(x);
    <D::H as Repr>::lemma_repr(lo);
    <D::H as Repr>::lemma_repr(hi);
    lemma_width_constants();
    lemma_split_bits(x.raw(), 0, 0, lo.raw(), hi.raw());
}

/// Access the associated `OtherSign` type from an int (helper to avoid ambiguous associated
/// types).
pub type OtherSign<I> = <I as MinInt>::OtherSign;


/// Trait for some basic operations on integers
pub trait Int:
    MinInt +
    CastFrom<i32> +
    CastFrom<u16> +
    CastFrom<u32> +
    CastFrom<u8> +
    CastFrom<usize> +
    CastInto<i32> +
    CastInto<u16> +
    CastInto<u32> +
    CastInto<u8> +
    CastInto<usize> {
    /// The encoding read as the signed type of the same width.
    fn signed(self) -> (r: Self::Signed)
        ensures
            r.raw() == self.raw(),
    ;

    /// The encoding read as the unsigned type of the same width.
    fn unsigned(self) -> (r: Self::Unsigned)
        ensures
            r.raw() == self.raw(),
    ;

    /// The encoding of an unsigned value read as `Self`.
    fn from_unsigned(unsigned: Self::Unsigned) -> (r: Self)
        ensures
            r.raw() == unsigned.raw(),
    ;

    /// Absolute value; only signed types implement it, and the minimum has none.
    fn abs(self) -> (r: Self)
        requires
            Self::is_signed(),
            self.val() > min_of(Self::is_signed(), Self::width()),
        ensures
            r.val() == abs_int(self.val()),
    ;

    /// Absolute value as the unsigned type; only signed types implement it.
    fn unsigned_abs(self) -> (r: Self::Unsigned)
        requires
            Self::is_signed(),
        ensures
            r.val() == abs_int(self.val()),
    ;

    fn from_bool(b: bool) -> (r: Self)
        ensures
            r.val() == (if b { 1int } else { 0int }),
    ;

    /// Prevents the need for excessive conversions between signed and unsigned
    fn logical_shr(self, other: u32) -> (r: Self)
        ensures
            r.raw() == self.raw() >> shift_amount(other, Self::width()),
    ;

    /// Absolute difference between two integers.
    fn abs_diff(self, other: Self) -> (r: Self::Unsigned)
        ensures
            r.val() == abs_int(self.val() - other.val()),
    ;

    fn is_zero(self) -> (r: bool)
        ensures
            r == (self.val() == 0),
    ;

    fn checked_add(self, other: Self) -> (r: Option<Self>)
        ensures
            r.is_some() == fits(self.val() + other.val(), Self::is_signed(), Self::width()),
            r.is_some() ==> r.unwrap().val() == self.val() + other.val(),
    ;

    fn checked_sub(self, other: Self) -> (r: Option<Self>)
        ensures
            r.is_some() == fits(self.val() - other.val(), Self::is_signed(), Self::width()),
            r.is_some() ==> r.unwrap().val() == self.val() - other.val(),
    ;

    fn wrapping_neg(self) -> (r: Self)
        ensures
            r.val() == wrap(-self.val(), Self::is_signed(), Self::width()),
    ;

    fn wrapping_add(self, other: Self) -> (r: Self)
        ensures
            r.val() == wrap(self.val() + other.val(), Self::is_signed(), Self::width()),
    ;

    fn wrapping_mul(self, other: Self) -> (r: Self)
        ensures
            r.val() == wrap(self.val() * other.val(), Self::is_signed(), Self::width()),
    ;

    fn wrapping_sub(self, other: Self) -> (r: Self)
        ensures
            r.val() == wrap(self.val() - other.val(), Self::is_signed(), Self::width()),
    ;

    /// Shift left by `other` modulo the bit width.
    fn wrapping_shl(self, other: u32) -> (r: Self)
        ensures
            r.raw() == (self.raw() << shift_amount(other, Self::width())) & mask_of(Self::width()),
    ;

    /// Shift right (arithmetic for signed types) by `other` modulo the bit width.
    fn wrapping_shr(self, other: u32) -> (r: Self)
        ensures
            r.val() == self.val() / (pow2(other as nat % Self::width()) as int),
    ;

    fn rotate_left(self, other: u32) -> (r: Self)
        ensures
            r.raw() == rotl(self.raw(), shift_amount(other, Self::width()), Self::width()),
    ;

    fn overflowing_add(self, other: Self) -> (r: (Self, bool))
        ensures
            r.0.val() == wrap(self.val() + other.val(), Self::is_signed(), Self::width()),
            r.1 == !fits(self.val() + other.val(), Self::is_signed(), Self::width()),
    ;

    fn overflowing_sub(self, other: Self) -> (r: (Self, bool))
        ensures
            r.0.val() == wrap(self.val() - other.val(), Self::is_signed(), Self::width()),
            r.1 == !fits(self.val() - other.val(), Self::is_signed(), Self::width()),
    ;

    /// Add with an incoming carry; the flag tells whether the full sum leaves the range.
    fn carrying_add(self, other: Self, carry: bool) -> (r: (Self, bool))
        ensures
            r.0.val() == wrap(
                self.val() + other.val() + (if carry { 1int } else { 0int }),
                Self::is_signed(),
                Self::width(),
            ),
            r.1 == !fits(
                self.val() + other.val() + (if carry { 1int } else { 0int }),
                Self::is_signed(),
                Self::width(),
            ),
    ;

    /// Subtract with an incoming borrow; the flag tells whether the full difference leaves
    /// the range.
    fn borrowing_sub(self, other: Self, borrow: bool) -> (r: (Self, bool))
        ensures
            r.0.val() == wrap(
                self.val() - other.val() - (if borrow { 1int } else { 0int }),
                Self::is_signed(),
                Self::width(),
            ),
            r.1 == !fits(
                self.val() - other.val() - (if borrow { 1int } else { 0int }),
                Self::is_signed(),
                Self::width(),
            ),
    ;

    /// Number of zero bits above the highest set bit of the encoding.
    fn leading_zeros(self) -> (r: u32)
        ensures
            r <= Self::width(),
            forall|j: u64| Self::width() - r <= j < Self::width() ==> !#[trigger] bit(self.raw(), j),
            r < Self::width() ==> bit(self.raw(), (Self::width() - 1 - r) as u64),
    ;

    /// Number of zero bits below the lowest set bit of the encoding.
    fn trailing_zeros(self) -> (r: u32)
        ensures
            r <= Self::width(),
            forall|j: u64| j < r ==> !#[trigger] bit(self.raw(), j),
            r < Self::width() ==> bit(self.raw(), r as u64),
    ;

    /// Base 2 logarithm, rounded down; panics on values that are not positive.
    fn ilog2(self) -> (r: u32)
        requires
            self.val() > 0,
        ensures
            r < Self::width(),
            bit(self.raw(), r as u64),
            forall|j: u64| r < j < Self::width() ==> !#[trigger] bit(self.raw(), j),
    ;

    /// Equality of values.
    fn equals(self, other: Self) -> (r: bool)
        ensures
            r == (self.val() == other.val()),
    ;

    /// Bitwise and.
    fn bit_and(self, rhs: Self) -> (r: Self)
        ensures
            r.raw() == self.raw() & rhs.raw(),
    ;

    /// Shift right (arithmetic for signed types) by less than the bit width.
    fn shift_right(self, n: u32) -> (r: Self)
        requires
            n < Self::width(),
        ensures
            r.val() == self.val() / (pow2(n as nat) as int),
    ;
}

} // verus!
