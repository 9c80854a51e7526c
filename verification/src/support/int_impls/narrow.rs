//! The 8-bit and 16-bit integers as integers of the float routines, and the splitting and
//! widening between them and the 32-bit integers.

use vstd::prelude::*;

verus! {

use vstd::arithmetic::power2::pow2;
use vstd::bits::{lemma_u8_shr_is_div, lemma_u16_shr_is_div};
use crate::support::int_traits::{
    Repr, MinInt, Int, min_of, max_of, fits, wrap, mask_of, rotl, abs_int, bit, shift_amount,
    lemma_width_constants, lemma_floor_div_complement, DInt, HInt, lemma_wrap_fits,
};

/// Bit-level facts about `u8` values and their zero-extended encodings.
pub proof fn lemma_u8_bits(x: u8, y: u8, n: u32, j: u64, r: u64)
    by (bit_vector)
    ensures
        (x | y) as u64 == (x as u64) | (y as u64),
        (x & y) as u64 == (x as u64) & (y as u64),
        (!x) as u64 == !(x as u64) & 0xffu64,
        n < 8 ==> (x << n) as u64 == ((x as u64) << (n as u64)) & 0xffu64,
        n < 8 ==> (x >> n) as u64 == (x as u64) >> (n as u64),
        0 < n < 8 ==> ((x << n) | (x >> ((8 - n) as u32))) as u64 == (((x as u64) << (n as u64))
            | ((x as u64) >> ((8 - n) as u64))) & 0xffu64,
        (((x as i8) as u8) as u64) == x as u64,
        (r as u8) as u64 == r & 0xffu64,
        8 <= j < 64 ==> ((x as u64) >> j) & 1 == 0,
        ((x as u32) as u64) == x as u64,
{
}

impl Repr for u8 {
    open spec fn val(self) -> int {
        self as int
    }

    open spec fn raw(self) -> u64 {
        self as u64
    }

    open spec fn width() -> nat {
        8
    }

    open spec fn is_signed() -> bool {
        false
    }

    proof fn lemma_repr(x: Self) {
        lemma_width_constants();
    }

    proof fn lemma_raw_injective(x: Self, y: Self) {
    }
}

impl MinInt for u8 {
    type OtherSign = i8;

    type Unsigned = u8;

    type Signed = i8;

    const SIGNED: bool = false;

    const BITS: u32 = 8;

    const ZERO: Self = 0;

    const ONE: Self = 1;

    const MIN: Self = 0;

    const MAX: Self = 0xff;

    proof fn lemma_min_int() {
        lemma_width_constants();
        assert(<i8 as Repr>::width() == 8);
        assert(<i8 as Repr>::is_signed() == true);
    }

    fn bit_or(self, rhs: Self) -> (r: Self) {
        let r = self | rhs;
        proof {
            lemma_u8_bits(self, rhs, 0, 0, 0);
        }
        r
    }

    fn bit_not(self) -> (r: Self) {
        let r = !self;
        proof {
            lemma_width_constants();
            lemma_u8_bits(self, 0, 0, 0, 0);
        }
        r
    }

    fn shift_left(self, n: u32) -> (r: Self) {
        let r = self << n;
        proof {
            lemma_width_constants();
            lemma_u8_bits(self, 0, n, 0, 0);
        }
        r
    }

    fn to_raw64(self) -> (r: u64) {
        proof {
            lemma_width_constants();
        }
        self as u64
    }

    fn from_raw64(r: u64) -> (x: Self) {
        let x = r as u8;
        proof {
            lemma_width_constants();
            lemma_u8_bits(0, 0, 0, 0, r);
        }
        x
    }
}

impl Int for u8 {
    fn signed(self) -> (r: i8) {
        let r = self as i8;
        proof {
            lemma_u8_bits(self, 0, 0, 0, 0);
        }
        r
    }

    fn unsigned(self) -> (r: u8) {
        self
    }

    fn from_unsigned(unsigned: u8) -> (r: u8) {
        unsigned
    }

    fn abs(self) -> (r: Self) {
        // Unreachable: `requires` asks for a signed type.
        self
    }

    fn unsigned_abs(self) -> (r: u8) {
        // Unreachable: `requires` asks for a signed type.
        self
    }

    fn from_bool(b: bool) -> (r: Self) {
        if b {
            1
        } else {
            0
        }
    }

    fn logical_shr(self, other: u32) -> (r: Self) {
        let r = Self::from_unsigned(self.unsigned().wrapping_shr(other));
        let k = other % 8;
        assert(r == self >> k);
        proof {
            lemma_u8_bits(self, 0, k, 0, 0);
        }
        r
    }

    fn abs_diff(self, other: Self) -> (r: u8) {
        if self > other {
            self - other
        } else {
            other - self
        }
    }

    fn is_zero(self) -> (r: bool) {
        self == 0
    }

    fn checked_add(self, other: Self) -> (r: Option<Self>) {
        proof {
            lemma_width_constants();
        }
        <u8>::checked_add(self, other)
    }

    fn checked_sub(self, other: Self) -> (r: Option<Self>) {
        proof {
            lemma_width_constants();
        }
        <u8>::checked_sub(self, other)
    }

    fn wrapping_neg(self) -> (r: Self) {
        proof {
            lemma_width_constants();
        }
        0u8.wrapping_sub(self)
    }

    fn wrapping_add(self, other: Self) -> (r: Self) {
        proof {
            lemma_width_constants();
        }
        <u8>::wrapping_add(self, other)
    }

    fn wrapping_mul(self, other: Self) -> (r: Self) {
        proof {
            lemma_width_constants();
        }
        <u8>::wrapping_mul(self, other)
    }

    fn wrapping_sub(self, other: Self) -> (r: Self) {
        proof {
            lemma_width_constants();
        }
        <u8>::wrapping_sub(self, other)
    }

    fn wrapping_shl(self, other: u32) -> (r: Self) {
        let r = <u8>::wrapping_shl(self, other);
        let k = other % 8;
        proof {
            lemma_width_constants();
            lemma_u8_bits(self, 0, k, 0, 0);
        }
        r
    }

    fn wrapping_shr(self, other: u32) -> (r: Self) {
        let r = <u8>::wrapping_shr(self, other);
        let k = other % 8;
        proof {
            lemma_u8_shr_is_div(self, k as u8);
        }
        r
    }

    fn rotate_left(self, other: u32) -> (r: Self) {
        let k = other % 8;
        proof {
            lemma_width_constants();
        }
        if k == 0 {
            self
        } else {
            let r = (self << k) | (self >> (8 - k));
            proof {
                lemma_u8_bits(self, 0, k, 0, 0);
            }
            r
        }
    }

    fn overflowing_add(self, other: Self) -> (r: (Self, bool)) {
        proof {
            lemma_width_constants();
        }
        (<u8>::wrapping_add(self, other), <u8>::checked_add(self, other).is_none())
    }

    fn overflowing_sub(self, other: Self) -> (r: (Self, bool)) {
        proof {
            lemma_width_constants();
        }
        (<u8>::wrapping_sub(self, other), <u8>::checked_sub(self, other).is_none())
    }

    fn carrying_add(self, other: Self, carry: bool) -> (r: (Self, bool)) {
        proof {
            lemma_width_constants();
        }
        let (ab, of1) = Int::overflowing_add(self, other);
        let (abc, of2) = Int::overflowing_add(ab, Self::from_bool(carry));
        (abc, of1 ^ of2)
    }

    fn borrowing_sub(self, other: Self, borrow: bool) -> (r: (Self, bool)) {
        proof {
            lemma_width_constants();
        }
        let (ab, of1) = Int::overflowing_sub(self, other);
        let (abc, of2) = Int::overflowing_sub(ab, Self::from_bool(borrow));
        (abc, of1 ^ of2)
    }

    fn leading_zeros(self) -> (r: u32) {
        // The leading zeros of the same value in 32 bits, less the 32 - 8 bits above.
        let wide = self as u32;
        let lz = Int::leading_zeros(wide);
        proof {
            lemma_u8_bits(self, 0, 0, 0, 0);
            if lz < 32 - 8 {
                lemma_u8_bits(self, 0, 0, (31 - lz) as u64, 0);
            }
        }
        let r = lz - (32 - 8);
        proof {
            assert forall|j: u64| 8 - r <= j < 8 implies !#[trigger] bit(self.raw(), j) by {
                assert(!bit(wide.raw(), j));
            }
        }
        r
    }

    fn trailing_zeros(self) -> (r: u32) {
        // The trailing zeros of the same value in 32 bits, which are all of them for zero.
        let wide = self as u32;
        let tz = Int::trailing_zeros(wide);
        let r = if tz > 8 {
            8
        } else {
            tz
        };
        proof {
            lemma_u8_bits(self, 0, 0, 0, 0);
            assert forall|j: u64| j < r implies !#[trigger] bit(self.raw(), j) by {
                assert(!bit(wide.raw(), j));
            }
            if r < 8 {
                assert(bit(wide.raw(), r as u64));
            }
        }
        r
    }

    fn ilog2(self) -> (r: u32) {
        let wide = self as u32;
        let r = Int::ilog2(wide);
        proof {
            lemma_u8_bits(self, 0, 0, 0, 0);
            if r >= 8 {
                lemma_u8_bits(self, 0, 0, r as u64, 0);
            }
            assert forall|j: u64| r < j < 8 implies !#[trigger] bit(self.raw(), j) by {
                assert(!bit(wide.raw(), j));
            }
        }
        r
    }

    fn equals(self, other: Self) -> (r: bool) {
        self == other
    }

    fn bit_and(self, rhs: Self) -> (r: Self) {
        let r = self & rhs;
        proof {
            lemma_u8_bits(self, rhs, 0, 0, 0);
        }
        r
    }

    fn shift_right(self, n: u32) -> (r: Self) {
        proof {
            lemma_u8_shr_is_div(self, n as u8);
            lemma_u8_bits(self, 0, n, 0, 0);
        }
        self >> n
    }
}

/// Bit-level facts about `i8` values and their two's complement encodings.
pub proof fn lemma_i8_bits(x: i8, y: i8, n: u32, r: u64, u: u8)
    by (bit_vector)
    ensures
        x < 0 ==> (x as u8) as i64 == (x as i64) + 0x100i64,
        x >= 0 ==> (x as u8) as i64 == x as i64,
        (x as u8) as u64 == (y as u8) as u64 ==> x == y,
        ((x | y) as u8) as u64 == ((x as u8) as u64) | ((y as u8) as u64),
        ((x & y) as u8) as u64 == ((x as u8) as u64) & ((y as u8) as u64),
        ((!x) as u8) as u64 == !((x as u8) as u64) & 0xffu64,
        n < 8 ==> ((x << n) as u8) as u64 == (((x as u8) as u64) << (n as u64)) & 0xffu64,
        x < 0 ==> ((x as i64) as u64) as i128 == (x as i128) + 0x1_0000_0000_0000_0000i128,
        x >= 0 ==> ((x as i64) as u64) as i128 == x as i128,
        ((r as i8) as u8) as u64 == r & 0xffu64,
        x >= 0 && n < 8 ==> x >> n == ((x as u8) >> n) as i8,
        n < 8 ==> x >> n == !((!x) >> n),
        (!x) as i64 == -1 - (x as i64),
        x < 0 ==> !x >= 0,
        ((u as i8) as u8) == u,
{
}

impl Repr for i8 {
    open spec fn val(self) -> int {
        self as int
    }

    open spec fn raw(self) -> u64 {
        (self as u8) as u64
    }

    open spec fn width() -> nat {
        8
    }

    open spec fn is_signed() -> bool {
        true
    }

    proof fn lemma_repr(x: Self) {
        lemma_width_constants();
        lemma_i8_bits(x, 0, 0, 0, 0);
    }

    proof fn lemma_raw_injective(x: Self, y: Self) {
        lemma_i8_bits(x, y, 0, 0, 0);
    }
}

impl MinInt for i8 {
    type OtherSign = u8;

    type Unsigned = u8;

    type Signed = i8;

    const SIGNED: bool = true;

    const BITS: u32 = 8;

    const ZERO: Self = 0;

    const ONE: Self = 1;

    const MIN: Self = -0x80;

    const MAX: Self = 0x7f;

    proof fn lemma_min_int() {
        lemma_width_constants();
        assert(<u8 as Repr>::width() == 8);
        assert(<u8 as Repr>::is_signed() == false);
    }

    fn bit_or(self, rhs: Self) -> (r: Self) {
        let r = self | rhs;
        proof {
            lemma_i8_bits(self, rhs, 0, 0, 0);
        }
        r
    }

    fn bit_not(self) -> (r: Self) {
        let r = !self;
        proof {
            lemma_width_constants();
            lemma_i8_bits(self, 0, 0, 0, 0);
        }
        r
    }

    fn shift_left(self, n: u32) -> (r: Self) {
        let r = self << n;
        proof {
            lemma_width_constants();
            lemma_i8_bits(self, 0, n, 0, 0);
        }
        r
    }

    fn to_raw64(self) -> (r: u64) {
        proof {
            lemma_width_constants();
        }
        let r = self as i64 as u64;
        proof {
            lemma_i8_bits(self, 0, 0, 0, 0);
        }
        r
    }

    fn from_raw64(r: u64) -> (x: Self) {
        let x = r as i8;
        proof {
            lemma_width_constants();
            lemma_i8_bits(0, 0, 0, r, 0);
        }
        x
    }
}

/// An arithmetic shift right of an `i8` divides by a power of two, rounding down.
proof fn lemma_i8_shr_is_div(x: i8, n: u32)
    requires
        n < 8,
    ensures
        (x >> n) as int == x as int / (pow2(n as nat) as int),
{
    vstd::arithmetic::power2::lemma_pow2_pos(n as nat);
    lemma_i8_bits(x, 0, n, 0, 0);
    if x >= 0 {
        lemma_u8_shr_is_div(x as u8, n as u8);
    } else {
        let y = !x;
        lemma_i8_bits(y, 0, n, 0, 0);
        lemma_u8_shr_is_div(y as u8, n as u8);
        let q = y >> n;
        lemma_i8_bits(q, 0, 0, 0, 0);
        lemma_floor_div_complement(x as int, pow2(n as nat) as int);
    }
}

impl Int for i8 {
    fn signed(self) -> (r: i8) {
        self
    }

    fn unsigned(self) -> (r: u8) {
        self as u8
    }

    fn from_unsigned(unsigned: u8) -> (r: i8) {
        let r = unsigned as i8;
        proof {
            lemma_i8_bits(0, 0, 0, 0, unsigned);
        }
        r
    }

    fn abs(self) -> (r: Self) {
        proof {
            lemma_width_constants();
        }
        if self < 0 {
            -self
        } else {
            self
        }
    }

    fn unsigned_abs(self) -> (r: u8) {
        if self == -0x80 {
            0x80
        } else if self < 0 {
            (-self) as u8
        } else {
            self as u8
        }
    }

    fn from_bool(b: bool) -> (r: Self) {
        if b {
            1
        } else {
            0
        }
    }

    fn logical_shr(self, other: u32) -> (r: Self) {
        let u = self as u8;
        let k = other % 8;
        let s = <u8>::wrapping_shr(u, other);
        assert(s == u >> k);
        let r = Self::from_unsigned(s);
        proof {
            lemma_u8_bits(u, 0, k, 0, 0);
        }
        r
    }

    fn abs_diff(self, other: Self) -> (r: u8) {
        let d = self as i64 - other as i64;
        if d < 0 {
            (-d) as u8
        } else {
            d as u8
        }
    }

    fn is_zero(self) -> (r: bool) {
        self == 0
    }

    fn checked_add(self, other: Self) -> (r: Option<Self>) {
        proof {
            lemma_width_constants();
        }
        <i8>::checked_add(self, other)
    }

    fn checked_sub(self, other: Self) -> (r: Option<Self>) {
        proof {
            lemma_width_constants();
        }
        <i8>::checked_sub(self, other)
    }

    fn wrapping_neg(self) -> (r: Self) {
        proof {
            lemma_width_constants();
        }
        0i8.wrapping_sub(self)
    }

    fn wrapping_add(self, other: Self) -> (r: Self) {
        proof {
            lemma_width_constants();
        }
        <i8>::wrapping_add(self, other)
    }

    fn wrapping_mul(self, other: Self) -> (r: Self) {
        proof {
            lemma_width_constants();
        }
        <i8>::wrapping_mul(self, other)
    }

    fn wrapping_sub(self, other: Self) -> (r: Self) {
        proof {
            lemma_width_constants();
        }
        <i8>::wrapping_sub(self, other)
    }

    fn wrapping_shl(self, other: u32) -> (r: Self) {
        let r = <i8>::wrapping_shl(self, other);
        let k = other % 8;
        proof {
            lemma_width_constants();
        }
        assert(r == self << k);
        proof {
            lemma_i8_bits(self, 0, k, 0, 0);
        }
        r
    }

    fn wrapping_shr(self, other: u32) -> (r: Self) {
        let r = <i8>::wrapping_shr(self, other);
        let k = other % 8;
        proof {
            lemma_i8_shr_is_div(self, k);
        }
        r
    }

    fn rotate_left(self, other: u32) -> (r: Self) {
        let u = self as u8;
        let k = other % 8;
        proof {
            lemma_width_constants();
        }
        if k == 0 {
            self
        } else {
            let s = (u << k) | (u >> (8 - k));
            let r = Self::from_unsigned(s);
            proof {
                lemma_u8_bits(u, 0, k, 0, 0);
            }
            r
        }
    }

    fn overflowing_add(self, other: Self) -> (r: (Self, bool)) {
        proof {
            lemma_width_constants();
        }
        (<i8>::wrapping_add(self, other), <i8>::checked_add(self, other).is_none())
    }

    fn overflowing_sub(self, other: Self) -> (r: (Self, bool)) {
        proof {
            lemma_width_constants();
        }
        (<i8>::wrapping_sub(self, other), <i8>::checked_sub(self, other).is_none())
    }

    fn carrying_add(self, other: Self, carry: bool) -> (r: (Self, bool)) {
        proof {
            lemma_width_constants();
        }
        let (ab, of1) = Int::overflowing_add(self, other);
        let (abc, of2) = Int::overflowing_add(ab, Self::from_bool(carry));
        (abc, of1 ^ of2)
    }

    fn borrowing_sub(self, other: Self, borrow: bool) -> (r: (Self, bool)) {
        proof {
            lemma_width_constants();
        }
        let (ab, of1) = Int::overflowing_sub(self, other);
        let (abc, of2) = Int::overflowing_sub(ab, Self::from_bool(borrow));
        (abc, of1 ^ of2)
    }

    fn leading_zeros(self) -> (r: u32) {
        let u = self as u8;
        let r = Int::leading_zeros(u);
        assert forall|j: u64| 8 - r <= j < 8 implies !#[trigger] bit(self.raw(), j) by {
            assert(!bit(u.raw(), j));
        }
        r
    }

    fn trailing_zeros(self) -> (r: u32) {
        let u = self as u8;
        let r = Int::trailing_zeros(u);
        assert forall|j: u64| j < r implies !#[trigger] bit(self.raw(), j) by {
            assert(!bit(u.raw(), j));
        }
        r
    }

    fn ilog2(self) -> (r: u32) {
        Int::ilog2(self as u8)
    }

    fn equals(self, other: Self) -> (r: bool) {
        self == other
    }

    fn bit_and(self, rhs: Self) -> (r: Self) {
        let r = self & rhs;
        proof {
            lemma_i8_bits(self, rhs, 0, 0, 0);
        }
        r
    }

    fn shift_right(self, n: u32) -> (r: Self) {
        proof {
            lemma_i8_shr_is_div(self, n);
        }
        self >> n
    }
}

/// Bit-level facts about `u16` values and their zero-extended encodings.
pub proof fn lemma_u16_bits(x: u16, y: u16, n: u32, j: u64, r: u64)
    by (bit_vector)
    ensures
        (x | y) as u64 == (x as u64) | (y as u64),
        (x & y) as u64 == (x as u64) & (y as u64),
        (!x) as u64 == !(x as u64) & 0xffffu64,
        n < 16 ==> (x << n) as u64 == ((x as u64) << (n as u64)) & 0xffffu64,
        n < 16 ==> (x >> n) as u64 == (x as u64) >> (n as u64),
        0 < n < 16 ==> ((x << n) | (x >> ((16 - n) as u32))) as u64 == (((x as u64) << (n as u64))
            | ((x as u64) >> ((16 - n) as u64))) & 0xffffu64,
        (((x as i16) as u16) as u64) == x as u64,
        (r as u16) as u64 == r & 0xffffu64,
        16 <= j < 64 ==> ((x as u64) >> j) & 1 == 0,
        ((x as u32) as u64) == x as u64,
{
}

impl Repr for u16 {
    open spec fn val(self) -> int {
        self as int
    }

    open spec fn raw(self) -> u64 {
        self as u64
    }

    open spec fn width() -> nat {
        16
    }

    open spec fn is_signed() -> bool {
        false
    }

    proof fn lemma_repr(x: Self) {
        lemma_width_constants();
    }

    proof fn lemma_raw_injective(x: Self, y: Self) {
    }
}

impl MinInt for u16 {
    type OtherSign = i16;

    type Unsigned = u16;

    type Signed = i16;

    const SIGNED: bool = false;

    const BITS: u32 = 16;

    const ZERO: Self = 0;

    const ONE: Self = 1;

    const MIN: Self = 0;

    const MAX: Self = 0xffff;

    proof fn lemma_min_int() {
        lemma_width_constants();
        assert(<i16 as Repr>::width() == 16);
        assert(<i16 as Repr>::is_signed() == true);
    }

    fn bit_or(self, rhs: Self) -> (r: Self) {
        let r = self | rhs;
        proof {
            lemma_u16_bits(self, rhs, 0, 0, 0);
        }
        r
    }

    fn bit_not(self) -> (r: Self) {
        let r = !self;
        proof {
            lemma_width_constants();
            lemma_u16_bits(self, 0, 0, 0, 0);
        }
        r
    }

    fn shift_left(self, n: u32) -> (r: Self) {
        let r = self << n;
        proof {
            lemma_width_constants();
            lemma_u16_bits(self, 0, n, 0, 0);
        }
        r
    }

    fn to_raw64(self) -> (r: u64) {
        proof {
            lemma_width_constants();
        }
        self as u64
    }

    fn from_raw64(r: u64) -> (x: Self) {
        let x = r as u16;
        proof {
            lemma_width_constants();
            lemma_u16_bits(0, 0, 0, 0, r);
        }
        x
    }
}

impl Int for u16 {
    fn signed(self) -> (r: i16) {
        let r = self as i16;
        proof {
            lemma_u16_bits(self, 0, 0, 0, 0);
        }
        r
    }

    fn unsigned(self) -> (r: u16) {
        self
    }

    fn from_unsigned(unsigned: u16) -> (r: u16) {
        unsigned
    }

    fn abs(self) -> (r: Self) {
        // Unreachable: `requires` asks for a signed type.
        self
    }

    fn unsigned_abs(self) -> (r: u16) {
        // Unreachable: `requires` asks for a signed type.
        self
    }

    fn from_bool(b: bool) -> (r: Self) {
        if b {
            1
        } else {
            0
        }
    }

    fn logical_shr(self, other: u32) -> (r: Self) {
        let r = Self::from_unsigned(self.unsigned().wrapping_shr(other));
        let k = other % 16;
        assert(r == self >> k);
        proof {
            lemma_u16_bits(self, 0, k, 0, 0);
        }
        r
    }

    fn abs_diff(self, other: Self) -> (r: u16) {
        if self > other {
            self - other
        } else {
            other - self
        }
    }

    fn is_zero(self) -> (r: bool) {
        self == 0
    }

    fn checked_add(self, other: Self) -> (r: Option<Self>) {
        proof {
            lemma_width_constants();
        }
        <u16>::checked_add(self, other)
    }

    fn checked_sub(self, other: Self) -> (r: Option<Self>) {
        proof {
            lemma_width_constants();
        }
        <u16>::checked_sub(self, other)
    }

    fn wrapping_neg(self) -> (r: Self) {
        proof {
            lemma_width_constants();
        }
        0u16.wrapping_sub(self)
    }

    fn wrapping_add(self, other: Self) -> (r: Self) {
        proof {
            lemma_width_constants();
        }
        <u16>::wrapping_add(self, other)
    }

    fn wrapping_mul(self, other: Self) -> (r: Self) {
        proof {
            lemma_width_constants();
        }
        <u16>::wrapping_mul(self, other)
    }

    fn wrapping_sub(self, other: Self) -> (r: Self) {
        proof {
            lemma_width_constants();
        }
        <u16>::wrapping_sub(self, other)
    }

    fn wrapping_shl(self, other: u32) -> (r: Self) {
        let r = <u16>::wrapping_shl(self, other);
        let k = other % 16;
        proof {
            lemma_width_constants();
            lemma_u16_bits(self, 0, k, 0, 0);
        }
        r
    }

    fn wrapping_shr(self, other: u32) -> (r: Self) {
        let r = <u16>::wrapping_shr(self, other);
        let k = other % 16;
        proof {
            lemma_u16_shr_is_div(self, k as u16);
        }
        r
    }

    fn rotate_left(self, other: u32) -> (r: Self) {
        let k = other % 16;
        proof {
            lemma_width_constants();
        }
        if k == 0 {
            self
        } else {
            let r = (self << k) | (self >> (16 - k));
            proof {
                lemma_u16_bits(self, 0, k, 0, 0);
            }
            r
        }
    }

    fn overflowing_add(self, other: Self) -> (r: (Self, bool)) {
        proof {
            lemma_width_constants();
        }
        (<u16>::wrapping_add(self, other), <u16>::checked_add(self, other).is_none())
    }

    fn overflowing_sub(self, other: Self) -> (r: (Self, bool)) {
        proof {
            lemma_width_constants();
        }
        (<u16>::wrapping_sub(self, other), <u16>::checked_sub(self, other).is_none())
    }

    fn carrying_add(self, other: Self, carry: bool) -> (r: (Self, bool)) {
        proof {
            lemma_width_constants();
        }
        let (ab, of1) = Int::overflowing_add(self, other);
        let (abc, of2) = Int::overflowing_add(ab, Self::from_bool(carry));
        (abc, of1 ^ of2)
    }

    fn borrowing_sub(self, other: Self, borrow: bool) -> (r: (Self, bool)) {
        proof {
            lemma_width_constants();
        }
        let (ab, of1) = Int::overflowing_sub(self, other);
        let (abc, of2) = Int::overflowing_sub(ab, Self::from_bool(borrow));
        (abc, of1 ^ of2)
    }

    fn leading_zeros(self) -> (r: u32) {
        // The leading zeros of the same value in 32 bits, less the 32 - 16 bits above.
        let wide = self as u32;
        let lz = Int::leading_zeros(wide);
        proof {
            lemma_u16_bits(self, 0, 0, 0, 0);
            if lz < 32 - 16 {
                lemma_u16_bits(self, 0, 0, (31 - lz) as u64, 0);
            }
        }
        let r = lz - (32 - 16);
        proof {
            assert forall|j: u64| 16 - r <= j < 16 implies !#[trigger] bit(self.raw(), j) by {
                assert(!bit(wide.raw(), j));
            }
        }
        r
    }

    fn trailing_zeros(self) -> (r: u32) {
        // The trailing zeros of the same value in 32 bits, which are all of them for zero.
        let wide = self as u32;
        let tz = Int::trailing_zeros(wide);
        let r = if tz > 16 {
            16
        } else {
            tz
        };
        proof {
            lemma_u16_bits(self, 0, 0, 0, 0);
            assert forall|j: u64| j < r implies !#[trigger] bit(self.raw(), j) by {
                assert(!bit(wide.raw(), j));
            }
            if r < 16 {
                assert(bit(wide.raw(), r as u64));
            }
        }
        r
    }

    fn ilog2(self) -> (r: u32) {
        let wide = self as u32;
        let r = Int::ilog2(wide);
        proof {
            lemma_u16_bits(self, 0, 0, 0, 0);
            if r >= 16 {
                lemma_u16_bits(self, 0, 0, r as u64, 0);
            }
            assert forall|j: u64| r < j < 16 implies !#[trigger] bit(self.raw(), j) by {
                assert(!bit(wide.raw(), j));
            }
        }
        r
    }

    fn equals(self, other: Self) -> (r: bool) {
        self == other
    }

    fn bit_and(self, rhs: Self) -> (r: Self) {
        let r = self & rhs;
        proof {
            lemma_u16_bits(self, rhs, 0, 0, 0);
        }
        r
    }

    fn shift_right(self, n: u32) -> (r: Self) {
        proof {
            lemma_u16_shr_is_div(self, n as u16);
            lemma_u16_bits(self, 0, n, 0, 0);
        }
        self >> n
    }
}

/// Bit-level facts about `i16` values and their two's complement encodings.
pub proof fn lemma_i16_bits(x: i16, y: i16, n: u32, r: u64, u: u16)
    by (bit_vector)
    ensures
        x < 0 ==> (x as u16) as i64 == (x as i64) + 0x1_0000i64,
        x >= 0 ==> (x as u16) as i64 == x as i64,
        (x as u16) as u64 == (y as u16) as u64 ==> x == y,
        ((x | y) as u16) as u64 == ((x as u16) as u64) | ((y as u16) as u64),
        ((x & y) as u16) as u64 == ((x as u16) as u64) & ((y as u16) as u64),
        ((!x) as u16) as u64 == !((x as u16) as u64) & 0xffffu64,
        n < 16 ==> ((x << n) as u16) as u64 == (((x as u16) as u64) << (n as u64)) & 0xffffu64,
        x < 0 ==> ((x as i64) as u64) as i128 == (x as i128) + 0x1_0000_0000_0000_0000i128,
        x >= 0 ==> ((x as i64) as u64) as i128 == x as i128,
        ((r as i16) as u16) as u64 == r & 0xffffu64,
        x >= 0 && n < 16 ==> x >> n == ((x as u16) >> n) as i16,
        n < 16 ==> x >> n == !((!x) >> n),
        (!x) as i64 == -1 - (x as i64),
        x < 0 ==> !x >= 0,
        ((u as i16) as u16) == u,
{
}

impl Repr for i16 {
    open spec fn val(self) -> int {
        self as int
    }

    open spec fn raw(self) -> u64 {
        (self as u16) as u64
    }

    open spec fn width() -> nat {
        16
    }

    open spec fn is_signed() -> bool {
        true
    }

    proof fn lemma_repr(x: Self) {
        lemma_width_constants();
        lemma_i16_bits(x, 0, 0, 0, 0);
    }

    proof fn lemma_raw_injective(x: Self, y: Self) {
        lemma_i16_bits(x, y, 0, 0, 0);
    }
}

impl MinInt for i16 {
    type OtherSign = u16;

    type Unsigned = u16;

    type Signed = i16;

    const SIGNED: bool = true;

    const BITS: u32 = 16;

    const ZERO: Self = 0;

    const ONE: Self = 1;

    const MIN: Self = -0x8000;

    const MAX: Self = 0x7fff;

    proof fn lemma_min_int() {
        lemma_width_constants();
        assert(<u16 as Repr>::width() == 16);
        assert(<u16 as Repr>::is_signed() == false);
    }

    fn bit_or(self, rhs: Self) -> (r: Self) {
        let r = self | rhs;
        proof {
            lemma_i16_bits(self, rhs, 0, 0, 0);
        }
        r
    }

    fn bit_not(self) -> (r: Self) {
        let r = !self;
        proof {
            lemma_width_constants();
            lemma_i16_bits(self, 0, 0, 0, 0);
        }
        r
    }

    fn shift_left(self, n: u32) -> (r: Self) {
        let r = self << n;
        proof {
            lemma_width_constants();
            lemma_i16_bits(self, 0, n, 0, 0);
        }
        r
    }

    fn to_raw64(self) -> (r: u64) {
        proof {
            lemma_width_constants();
        }
        let r = self as i64 as u64;
        proof {
            lemma_i16_bits(self, 0, 0, 0, 0);
        }
        r
    }

    fn from_raw64(r: u64) -> (x: Self) {
        let x = r as i16;
        proof {
            lemma_width_constants();
            lemma_i16_bits(0, 0, 0, r, 0);
        }
        x
    }
}

/// An arithmetic shift right of an `i16` divides by a power of two, rounding down.
proof fn lemma_i16_shr_is_div(x: i16, n: u32)
    requires
        n < 16,
    ensures
        (x >> n) as int == x as int / (pow2(n as nat) as int),
{
    vstd::arithmetic::power2::lemma_pow2_pos(n as nat);
    lemma_i16_bits(x, 0, n, 0, 0);
    if x >= 0 {
        lemma_u16_shr_is_div(x as u16, n as u16);
    } else {
        let y = !x;
        lemma_i16_bits(y, 0, n, 0, 0);
        lemma_u16_shr_is_div(y as u16, n as u16);
        let q = y >> n;
        lemma_i16_bits(q, 0, 0, 0, 0);
        lemma_floor_div_complement(x as int, pow2(n as nat) as int);
    }
}

impl Int for i16 {
    fn signed(self) -> (r: i16) {
        self
    }

    fn unsigned(self) -> (r: u16) {
        self as u16
    }

    fn from_unsigned(unsigned: u16) -> (r: i16) {
        let r = unsigned as i16;
        proof {
            lemma_i16_bits(0, 0, 0, 0, unsigned);
        }
        r
    }

    fn abs(self) -> (r: Self) {
        proof {
            lemma_width_constants();
        }
        if self < 0 {
            -self
        } else {
            self
        }
    }

    fn unsigned_abs(self) -> (r: u16) {
        if self == -0x8000 {
            0x8000
        } else if self < 0 {
            (-self) as u16
        } else {
            self as u16
        }
    }

    fn from_bool(b: bool) -> (r: Self) {
        if b {
            1
        } else {
            0
        }
    }

    fn logical_shr(self, other: u32) -> (r: Self) {
        let u = self as u16;
        let k = other % 16;
        let s = <u16>::wrapping_shr(u, other);
        assert(s == u >> k);
        let r = Self::from_unsigned(s);
        proof {
            lemma_u16_bits(u, 0, k, 0, 0);
        }
        r
    }

    fn abs_diff(self, other: Self) -> (r: u16) {
        let d = self as i64 - other as i64;
        if d < 0 {
            (-d) as u16
        } else {
            d as u16
        }
    }

    fn is_zero(self) -> (r: bool) {
        self == 0
    }

    fn checked_add(self, other: Self) -> (r: Option<Self>) {
        proof {
            lemma_width_constants();
        }
        <i16>::checked_add(self, other)
    }

    fn checked_sub(self, other: Self) -> (r: Option<Self>) {
        proof {
            lemma_width_constants();
        }
        <i16>::checked_sub(self, other)
    }

    fn wrapping_neg(self) -> (r: Self) {
        proof {
            lemma_width_constants();
        }
        0i16.wrapping_sub(self)
    }

    fn wrapping_add(self, other: Self) -> (r: Self) {
        proof {
            lemma_width_constants();
        }
        <i16>::wrapping_add(self, other)
    }

    fn wrapping_mul(self, other: Self) -> (r: Self) {
        proof {
            lemma_width_constants();
        }
        <i16>::wrapping_mul(self, other)
    }

    fn wrapping_sub(self, other: Self) -> (r: Self) {
        proof {
            lemma_width_constants();
        }
        <i16>::wrapping_sub(self, other)
    }

    fn wrapping_shl(self, other: u32) -> (r: Self) {
        let r = <i16>::wrapping_shl(self, other);
        let k = other % 16;
        proof {
            lemma_width_constants();
        }
        assert(r == self << k);
        proof {
            lemma_i16_bits(self, 0, k, 0, 0);
        }
        r
    }

    fn wrapping_shr(self, other: u32) -> (r: Self) {
        let r = <i16>::wrapping_shr(self, other);
        let k = other % 16;
        proof {
            lemma_i16_shr_is_div(self, k);
        }
        r
    }

    fn rotate_left(self, other: u32) -> (r: Self) {
        let u = self as u16;
        let k = other % 16;
        proof {
            lemma_width_constants();
        }
        if k == 0 {
            self
        } else {
            let s = (u << k) | (u >> (16 - k));
            let r = Self::from_unsigned(s);
            proof {
                lemma_u16_bits(u, 0, k, 0, 0);
            }
            r
        }
    }

    fn overflowing_add(self, other: Self) -> (r: (Self, bool)) {
        proof {
            lemma_width_constants();
        }
        (<i16>::wrapping_add(self, other), <i16>::checked_add(self, other).is_none())
    }

    fn overflowing_sub(self, other: Self) -> (r: (Self, bool)) {
        proof {
            lemma_width_constants();
        }
        (<i16>::wrapping_sub(self, other), <i16>::checked_sub(self, other).is_none())
    }

    fn carrying_add(self, other: Self, carry: bool) -> (r: (Self, bool)) {
        proof {
            lemma_width_constants();
        }
        let (ab, of1) = Int::overflowing_add(self, other);
        let (abc, of2) = Int::overflowing_add(ab, Self::from_bool(carry));
        (abc, of1 ^ of2)
    }

    fn borrowing_sub(self, other: Self, borrow: bool) -> (r: (Self, bool)) {
        proof {
            lemma_width_constants();
        }
        let (ab, of1) = Int::overflowing_sub(self, other);
        let (abc, of2) = Int::overflowing_sub(ab, Self::from_bool(borrow));
        (abc, of1 ^ of2)
    }

    fn leading_zeros(self) -> (r: u32) {
        let u = self as u16;
        let r = Int::leading_zeros(u);
        assert forall|j: u64| 16 - r <= j < 16 implies !#[trigger] bit(self.raw(), j) by {
            assert(!bit(u.raw(), j));
        }
        r
    }

    fn trailing_zeros(self) -> (r: u32) {
        let u = self as u16;
        let r = Int::trailing_zeros(u);
        assert forall|j: u64| j < r implies !#[trigger] bit(self.raw(), j) by {
            assert(!bit(u.raw(), j));
        }
        r
    }

    fn ilog2(self) -> (r: u32) {
        Int::ilog2(self as u16)
    }

    fn equals(self, other: Self) -> (r: bool) {
        self == other
    }

    fn bit_and(self, rhs: Self) -> (r: Self) {
        let r = self & rhs;
        proof {
            lemma_i16_bits(self, rhs, 0, 0, 0);
        }
        r
    }

    fn shift_right(self, n: u32) -> (r: Self) {
        proof {
            lemma_i16_shr_is_div(self, n);
        }
        self >> n
    }
}


/// Bit-level facts about splitting `u16` and `i16` encodings into halves and joining them.
proof fn lemma_halves_u16(x: u16, y: i16, a: u8, i: i8)
    by (bit_vector)
    ensures
        ((x >> 8u32) as u8) as u64 == (x as u64) >> 8u64,
        (x as u8) as u64 == (x as u64) & 0xffu64,
        ((y as i8) as u8) as u64 == ((y as u16) as u64) & 0xffu64,
        (((y >> 8u32) as i8) as u8) as u64 == ((y as u16) as u64) >> 8u64,
        (((a as u16) << 8u32) as u64) == (a as u64) << 8u64,
        (((i as i16) << 8u32) as u16) as u64 == ((i as u8) as u64) << 8u64,
        (((i as u8) as i16) as u16) as u64 == (i as u8) as u64,
{
}

impl HInt for u8 {
    type D = u16;

    proof fn lemma_double_width() {
    }

    fn widen(self) -> (r: u16) {
        self as u16
    }

    fn zero_widen(self) -> (r: u16) {
        self as u16
    }

    fn widen_hi(self) -> (r: u16) {
        proof {
            lemma_halves_u16(0, 0, self, 0);
        }
        (self as u16) << 8u32
    }

    fn zero_widen_mul(self, rhs: Self) -> (r: u16) {
        let r = self.widen_mul(rhs);
        proof {
            lemma_width_constants();
            assert((self as int) * (rhs as int) >= 0) by (nonlinear_arith);
            assert((self as int) * (rhs as int) <= 0xff * 0xff) by (nonlinear_arith)
                requires
                    self <= 0xff,
                    rhs <= 0xff,
            ;
            lemma_wrap_fits((self as int) * (rhs as int), false, 2 * 8);
        }
        r
    }

    fn widen_mul(self, rhs: Self) -> (r: u16) {
        proof {
            assert((self as int) * (rhs as int) <= 0xff * 0xff) by (nonlinear_arith)
                requires
                    self <= 0xff,
                    rhs <= 0xff,
            ;
            assert((self as int) * (rhs as int) >= 0) by (nonlinear_arith);
        }
        (self as u16) * (rhs as u16)
    }
}

impl HInt for i8 {
    type D = i16;

    proof fn lemma_double_width() {
    }

    fn widen(self) -> (r: i16) {
        self as i16
    }

    fn zero_widen(self) -> (r: i16) {
        proof {
            lemma_halves_u16(0, 0, 0, self);
        }
        (self as u8) as i16
    }

    fn widen_hi(self) -> (r: i16) {
        proof {
            lemma_halves_u16(0, 0, 0, self);
        }
        (self as i16) << 8u32
    }

    fn zero_widen_mul(self, rhs: Self) -> (r: i16) {
        let a = (self as u8) as i16;
        let b = (rhs as u8) as i16;
        Int::wrapping_mul(a, b)
    }

    fn widen_mul(self, rhs: Self) -> (r: i16) {
        proof {
            let h: int = 0x80;
            assert(-(h * h) <= (self as int) * (rhs as int) <= h * h) by (nonlinear_arith)
                requires
                    -h <= self <= h - 1,
                    -h <= rhs <= h - 1,
            ;
        }
        (self as i16) * (rhs as i16)
    }
}

impl DInt for u16 {
    type H = u8;

    fn lo(self) -> (r: u8) {
        proof {
            lemma_width_constants();
            lemma_halves_u16(self, 0, 0, 0);
        }
        self as u8
    }

    fn hi(self) -> (r: u8) {
        proof {
            lemma_halves_u16(self, 0, 0, 0);
        }
        (self >> 8u32) as u8
    }
}

impl DInt for i16 {
    type H = i8;

    fn lo(self) -> (r: i8) {
        proof {
            lemma_width_constants();
            lemma_halves_u16(0, self, 0, 0);
        }
        self as i8
    }

    fn hi(self) -> (r: i8) {
        proof {
            lemma_halves_u16(0, self, 0, 0);
        }
        (self >> 8u32) as i8
    }
}

/// Bit-level facts about splitting `u32` and `i32` encodings into halves and joining them.
proof fn lemma_halves_u32(x: u32, y: i32, a: u16, i: i16)
    by (bit_vector)
    ensures
        ((x >> 16u32) as u16) as u64 == (x as u64) >> 16u64,
        (x as u16) as u64 == (x as u64) & 0xffffu64,
        ((y as i16) as u16) as u64 == ((y as u32) as u64) & 0xffffu64,
        (((y >> 16u32) as i16) as u16) as u64 == ((y as u32) as u64) >> 16u64,
        (((a as u32) << 16u32) as u64) == (a as u64) << 16u64,
        (((i as i32) << 16u32) as u32) as u64 == ((i as u16) as u64) << 16u64,
        (((i as u16) as i32) as u32) as u64 == (i as u16) as u64,
{
}

impl HInt for u16 {
    type D = u32;

    proof fn lemma_double_width() {
    }

    fn widen(self) -> (r: u32) {
        self as u32
    }

    fn zero_widen(self) -> (r: u32) {
        self as u32
    }

    fn widen_hi(self) -> (r: u32) {
        proof {
            lemma_halves_u32(0, 0, self, 0);
        }
        (self as u32) << 16u32
    }

    fn zero_widen_mul(self, rhs: Self) -> (r: u32) {
        let r = self.widen_mul(rhs);
        proof {
            lemma_width_constants();
            assert((self as int) * (rhs as int) >= 0) by (nonlinear_arith);
            assert((self as int) * (rhs as int) <= 0xffff * 0xffff) by (nonlinear_arith)
                requires
                    self <= 0xffff,
                    rhs <= 0xffff,
            ;
            lemma_wrap_fits((self as int) * (rhs as int), false, 2 * 16);
        }
        r
    }

    fn widen_mul(self, rhs: Self) -> (r: u32) {
        proof {
            assert((self as int) * (rhs as int) <= 0xffff * 0xffff) by (nonlinear_arith)
                requires
                    self <= 0xffff,
                    rhs <= 0xffff,
            ;
            assert((self as int) * (rhs as int) >= 0) by (nonlinear_arith);
        }
        (self as u32) * (rhs as u32)
    }
}

impl HInt for i16 {
    type D = i32;

    proof fn lemma_double_width() {
    }

    fn widen(self) -> (r: i32) {
        self as i32
    }

    fn zero_widen(self) -> (r: i32) {
        proof {
            lemma_halves_u32(0, 0, 0, self);
        }
        (self as u16) as i32
    }

    fn widen_hi(self) -> (r: i32) {
        proof {
            lemma_halves_u32(0, 0, 0, self);
        }
        (self as i32) << 16u32
    }

    fn zero_widen_mul(self, rhs: Self) -> (r: i32) {
        let a = (self as u16) as i32;
        let b = (rhs as u16) as i32;
        Int::wrapping_mul(a, b)
    }

    fn widen_mul(self, rhs: Self) -> (r: i32) {
        proof {
            let h: int = 0x8000;
            assert(-(h * h) <= (self as int) * (rhs as int) <= h * h) by (nonlinear_arith)
                requires
                    -h <= self <= h - 1,
                    -h <= rhs <= h - 1,
            ;
        }
        (self as i32) * (rhs as i32)
    }
}

impl DInt for u32 {
    type H = u16;

    fn lo(self) -> (r: u16) {
        proof {
            lemma_width_constants();
            lemma_halves_u32(self, 0, 0, 0);
        }
        self as u16
    }

    fn hi(self) -> (r: u16) {
        proof {
            lemma_halves_u32(self, 0, 0, 0);
        }
        (self >> 16u32) as u16
    }
}

impl DInt for i32 {
    type H = i16;

    fn lo(self) -> (r: i16) {
        proof {
            lemma_width_constants();
            lemma_halves_u32(0, self, 0, 0);
        }
        self as i16
    }

    fn hi(self) -> (r: i16) {
        proof {
            lemma_halves_u32(0, self, 0, 0);
        }
        (self >> 16u32) as i16
    }
}

} // verus!
