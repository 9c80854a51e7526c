//! The pointer-sized integers as integers of the float routines.

use vstd::prelude::*;

verus! {

use vstd::arithmetic::power2::pow2;
use vstd::bits::lemma_usize_shr_is_div;
use crate::support::int_traits::{
    Repr, MinInt, Int, min_of, max_of, fits, wrap, mask_of, rotl, abs_int, bit, shift_amount,
    lemma_width_constants, lemma_floor_div_complement,
};

/// The range of `usize` is that of its width.
proof fn lemma_usize_range()
    ensures
        usize::BITS == 32 || usize::BITS == 64,
        pow2(usize::BITS as nat) == usize::MAX as int + 1,
{
    lemma_width_constants();
}

/// Wrapping a number within one range of `usize` of its range.
proof fn lemma_usize_wrap(v: int)
    requires
        -(usize::MAX as int + 1) < v < 2 * (usize::MAX as int + 1),
    ensures
        wrap(v, false, usize::BITS as nat) == (if v > usize::MAX {
            v - (usize::MAX as int + 1)
        } else if v < 0 {
            v + (usize::MAX as int + 1)
        } else {
            v
        }),
        fits(v, false, usize::BITS as nat) == (0 <= v <= usize::MAX),
{
    lemma_usize_range();
    let m = usize::MAX as int + 1;
    if v > usize::MAX {
        vstd::arithmetic::div_mod::lemma_fundamental_div_mod_converse(v, m, 1, v - m);
    } else if v < 0 {
        vstd::arithmetic::div_mod::lemma_fundamental_div_mod_converse(v, m, -1, v + m);
    } else {
        vstd::arithmetic::div_mod::lemma_fundamental_div_mod_converse(v, m, 0, v);
    }
}

/// Bit-level facts about `usize` values and their zero-extended encodings.
pub proof fn lemma_usize_bits(x: usize, y: usize, n: u32, j: u64, r: u64)
    by (bit_vector)
    ensures
        (x | y) as u64 == (x as u64) | (y as u64),
        (x & y) as u64 == (x as u64) & (y as u64),
        (!x) as u64 == !(x as u64) & (if usize::BITS == 32 {
            0xffff_ffffu64
        } else {
            0xffff_ffff_ffff_ffffu64
        }),
        n < usize::BITS ==> (x << n) as u64 == ((x as u64) << (n as u64)) & (if usize::BITS == 32 {
            0xffff_ffffu64
        } else {
            0xffff_ffff_ffff_ffffu64
        }),
        n < usize::BITS ==> (x >> n) as u64 == (x as u64) >> (n as u64),
        0 < n < usize::BITS ==> ((x << n) | (x >> ((usize::BITS - n) as u32))) as u64 == (((x as u64) << (n as u64))
            | ((x as u64) >> ((usize::BITS - n) as u64))) & (if usize::BITS == 32 {
            0xffff_ffffu64
        } else {
            0xffff_ffff_ffff_ffffu64
        }),
        (((x as isize) as usize) as u64) == x as u64,
        (r as usize) as u64 == r & (if usize::BITS == 32 {
            0xffff_ffffu64
        } else {
            0xffff_ffff_ffff_ffffu64
        }),
        usize::BITS <= j < 64 ==> ((x as u64) >> j) & 1 == 0,
        ((x as u64) as u64) == x as u64,
{
}

impl Repr for usize {
    open spec fn val(self) -> int {
        self as int
    }

    open spec fn raw(self) -> u64 {
        self as u64
    }

    open spec fn width() -> nat {
        usize::BITS as nat
    }

    open spec fn is_signed() -> bool {
        false
    }

    proof fn lemma_repr(x: Self) {
        lemma_width_constants();
    }

    proof fn lemma_raw_injective(x: Self, y: Self) {
    }
}

impl MinInt for usize {
    type OtherSign = isize;

    type Unsigned = usize;

    type Signed = isize;

    const SIGNED: bool = false;

    const BITS: u32 = usize::BITS;

    const ZERO: Self = 0;

    const ONE: Self = 1;

    const MIN: Self = 0;

    const MAX: Self = usize::MAX;

    proof fn lemma_min_int() {
        lemma_width_constants();
        assert(<isize as Repr>::width() == usize::BITS);
        assert(<isize as Repr>::is_signed() == true);
    }

    fn bit_or(self, rhs: Self) -> (r: Self) {
        let r = self | rhs;
        proof {
            lemma_usize_bits(self, rhs, 0, 0, 0);
        }
        r
    }

    fn bit_not(self) -> (r: Self) {
        let r = !self;
        proof {
            lemma_width_constants();
            lemma_usize_bits(self, 0, 0, 0, 0);
        }
        r
    }

    fn shift_left(self, n: u32) -> (r: Self) {
        let r = self << n;
        proof {
            lemma_width_constants();
            lemma_usize_bits(self, 0, n, 0, 0);
        }
        r
    }

    fn to_raw64(self) -> (r: u64) {
        proof {
            lemma_width_constants();
        }
        self as u64
    }

    fn from_raw64(r: u64) -> (x: Self) {
        let x = r as usize;
        proof {
            lemma_width_constants();
            lemma_usize_bits(0, 0, 0, 0, r);
        }
        x
    }
}

impl Int for usize {
    fn signed(self) -> (r: isize) {
        let r = self as isize;
        proof {
            lemma_usize_bits(self, 0, 0, 0, 0);
        }
        r
    }

    fn unsigned(self) -> (r: usize) {
        self
    }

    fn from_unsigned(unsigned: usize) -> (r: usize) {
        unsigned
    }

    fn abs(self) -> (r: Self) {
        // Unreachable: `requires` asks for a signed type.
        self
    }

    fn unsigned_abs(self) -> (r: usize) {
        // Unreachable: `requires` asks for a signed type.
        self
    }

    fn from_bool(b: bool) -> (r: Self) {
        if b {
            1
        } else {
            0
        }
    }

    fn logical_shr(self, other: u32) -> (r: Self) {
        let r = Self::from_unsigned(self.unsigned().wrapping_shr(other));
        let k = other % usize::BITS;
        assert(r == self >> k);
        proof {
            lemma_usize_bits(self, 0, k, 0, 0);
        }
        r
    }

    fn abs_diff(self, other: Self) -> (r: usize) {
        if self > other {
            self - other
        } else {
            other - self
        }
    }

    fn is_zero(self) -> (r: bool) {
        self == 0
    }

    fn checked_add(self, other: Self) -> (r: Option<Self>) {
        proof {
            lemma_width_constants();
        }
        <usize>::checked_add(self, other)
    }

    fn checked_sub(self, other: Self) -> (r: Option<Self>) {
        proof {
            lemma_width_constants();
        }
        <usize>::checked_sub(self, other)
    }

    fn wrapping_neg(self) -> (r: Self) {
        proof {
            lemma_usize_range();
            lemma_usize_wrap(-(self as int));
            lemma_width_constants();
        }
        0usize.wrapping_sub(self)
    }

    fn wrapping_add(self, other: Self) -> (r: Self) {
        proof {
            lemma_usize_range();
            lemma_usize_wrap(self + other);
            lemma_width_constants();
        }
        <usize>::wrapping_add(self, other)
    }

    fn wrapping_mul(self, other: Self) -> (r: Self) {
        proof {
            lemma_width_constants();
        }
        <usize>::wrapping_mul(self, other)
    }

    fn wrapping_sub(self, other: Self) -> (r: Self) {
        proof {
            lemma_usize_range();
            lemma_usize_wrap(self - other);
            lemma_width_constants();
        }
        <usize>::wrapping_sub(self, other)
    }

    fn wrapping_shl(self, other: u32) -> (r: Self) {
        let r = <usize>::wrapping_shl(self, other);
        let k = other % usize::BITS;
        proof {
            lemma_width_constants();
            lemma_usize_bits(self, 0, k, 0, 0);
        }
        r
    }

    fn wrapping_shr(self, other: u32) -> (r: Self) {
        let r = <usize>::wrapping_shr(self, other);
        let k = other % usize::BITS;
        proof {
            lemma_usize_shr_is_div(self, k as usize);
        }
        r
    }

    fn rotate_left(self, other: u32) -> (r: Self) {
        let k = other % usize::BITS;
        proof {
            lemma_width_constants();
        }
        if k == 0 {
            self
        } else {
            let r = (self << k) | (self >> (usize::BITS - k));
            proof {
                lemma_usize_bits(self, 0, k, 0, 0);
            }
            r
        }
    }

    fn overflowing_add(self, other: Self) -> (r: (Self, bool)) {
        proof {
            lemma_width_constants();
        }
        (<usize>::wrapping_add(self, other), <usize>::checked_add(self, other).is_none())
    }

    fn overflowing_sub(self, other: Self) -> (r: (Self, bool)) {
        proof {
            lemma_width_constants();
        }
        (<usize>::wrapping_sub(self, other), <usize>::checked_sub(self, other).is_none())
    }

    fn carrying_add(self, other: Self, carry: bool) -> (r: (Self, bool)) {
        proof {
            lemma_usize_range();
            let c: int = if carry {
                1
            } else {
                0
            };
            lemma_usize_wrap(self + other);
            lemma_usize_wrap(self + other + c);
            if self + other > usize::MAX {
                lemma_usize_wrap(self + other - (usize::MAX as int + 1));
                lemma_usize_wrap(self + other - (usize::MAX as int + 1) + c);
            }
            lemma_usize_wrap(c);
            lemma_width_constants();
        }
        let (ab, of1) = Int::overflowing_add(self, other);
        let (abc, of2) = Int::overflowing_add(ab, Self::from_bool(carry));
        (abc, of1 ^ of2)
    }

    fn borrowing_sub(self, other: Self, borrow: bool) -> (r: (Self, bool)) {
        proof {
            lemma_usize_range();
            let c: int = if borrow {
                1
            } else {
                0
            };
            lemma_usize_wrap(self - other);
            if self - other - c > -(usize::MAX as int + 1) {
                lemma_usize_wrap(self - other - c);
            }
            lemma_usize_wrap(self - other + (usize::MAX as int + 1));
            lemma_usize_wrap(self - other + (usize::MAX as int + 1) - c);
            lemma_usize_wrap(c);
            lemma_width_constants();
        }
        let (ab, of1) = Int::overflowing_sub(self, other);
        let (abc, of2) = Int::overflowing_sub(ab, Self::from_bool(borrow));
        (abc, of1 ^ of2)
    }

    fn leading_zeros(self) -> (r: u32) {
        // The leading zeros of the same value in 64 bits, less the bits above the width.
        let wide = self as u64;
        let lz = Int::leading_zeros(wide);
        proof {
            lemma_usize_bits(self, 0, 0, 0, 0);
            if lz < 64 - usize::BITS {
                lemma_usize_bits(self, 0, 0, (63 - lz) as u64, 0);
            }
        }
        let r = lz - (64 - usize::BITS);
        proof {
            assert forall|j: u64| usize::BITS - r <= j < usize::BITS implies !#[trigger] bit(self.raw(), j) by {
                assert(!bit(wide.raw(), j));
            }
        }
        r
    }

    fn trailing_zeros(self) -> (r: u32) {
        // The trailing zeros of the same value in 64 bits, which are all of them for zero.
        let wide = self as u64;
        let tz = Int::trailing_zeros(wide);
        let r = if tz > usize::BITS {
            usize::BITS
        } else {
            tz
        };
        proof {
            lemma_usize_bits(self, 0, 0, 0, 0);
            assert forall|j: u64| j < r implies !#[trigger] bit(self.raw(), j) by {
                assert(!bit(wide.raw(), j));
            }
            if r < usize::BITS {
                assert(bit(wide.raw(), r as u64));
            }
        }
        r
    }

    fn ilog2(self) -> (r: u32) {
        let wide = self as u64;
        let r = Int::ilog2(wide);
        proof {
            lemma_usize_bits(self, 0, 0, 0, 0);
            if r >= usize::BITS {
                lemma_usize_bits(self, 0, 0, r as u64, 0);
            }
            assert forall|j: u64| r < j < usize::BITS implies !#[trigger] bit(self.raw(), j) by {
                assert(!bit(wide.raw(), j));
            }
        }
        r
    }

    fn equals(self, other: Self) -> (r: bool) {
        self == other
    }

    fn bit_and(self, rhs: Self) -> (r: Self) {
        let r = self & rhs;
        proof {
            lemma_usize_bits(self, rhs, 0, 0, 0);
        }
        r
    }

    fn shift_right(self, n: u32) -> (r: Self) {
        proof {
            lemma_usize_shr_is_div(self, n as usize);
            lemma_usize_bits(self, 0, n, 0, 0);
        }
        self >> n
    }
}

/// Bit-level facts about `isize` values and their two's complement encodings.
pub proof fn lemma_isize_bits(x: isize, y: isize, n: u32, r: u64, u: usize)
    by (bit_vector)
    ensures
        x < 0 ==> (x as usize) as i128 == (x as i128) + (if usize::BITS == 32 {
            0x1_0000_0000i128
        } else {
            0x1_0000_0000_0000_0000i128
        }),
        x >= 0 ==> (x as usize) as i128 == x as i128,
        (x as usize) as u64 == (y as usize) as u64 ==> x == y,
        ((x | y) as usize) as u64 == ((x as usize) as u64) | ((y as usize) as u64),
        ((x & y) as usize) as u64 == ((x as usize) as u64) & ((y as usize) as u64),
        ((!x) as usize) as u64 == !((x as usize) as u64) & (if usize::BITS == 32 {
            0xffff_ffffu64
        } else {
            0xffff_ffff_ffff_ffffu64
        }),
        n < usize::BITS ==> ((x << n) as usize) as u64 == (((x as usize) as u64) << (n as u64)) & (if usize::BITS == 32 {
            0xffff_ffffu64
        } else {
            0xffff_ffff_ffff_ffffu64
        }),
        x < 0 ==> ((x as i64) as u64) as i128 == (x as i128) + 0x1_0000_0000_0000_0000i128,
        x >= 0 ==> ((x as i64) as u64) as i128 == x as i128,
        ((r as isize) as usize) as u64 == r & (if usize::BITS == 32 {
            0xffff_ffffu64
        } else {
            0xffff_ffff_ffff_ffffu64
        }),
        x >= 0 && n < usize::BITS ==> x >> n == ((x as usize) >> n) as isize,
        n < usize::BITS ==> x >> n == !((!x) >> n),
        (!x) as i64 == -1 - (x as i64),
        x < 0 ==> !x >= 0,
        ((u as isize) as usize) == u,
{
}

impl Repr for isize {
    open spec fn val(self) -> int {
        self as int
    }

    open spec fn raw(self) -> u64 {
        (self as usize) as u64
    }

    open spec fn width() -> nat {
        usize::BITS as nat
    }

    open spec fn is_signed() -> bool {
        true
    }

    proof fn lemma_repr(x: Self) {
        lemma_width_constants();
        lemma_isize_bits(x, 0, 0, 0, 0);
    }

    proof fn lemma_raw_injective(x: Self, y: Self) {
        lemma_isize_bits(x, y, 0, 0, 0);
    }
}

impl MinInt for isize {
    type OtherSign = usize;

    type Unsigned = usize;

    type Signed = isize;

    const SIGNED: bool = true;

    const BITS: u32 = usize::BITS;

    const ZERO: Self = 0;

    const ONE: Self = 1;

    const MIN: Self = isize::MIN;

    const MAX: Self = isize::MAX;

    proof fn lemma_min_int() {
        lemma_width_constants();
        assert(<usize as Repr>::width() == usize::BITS);
        assert(<usize as Repr>::is_signed() == false);
    }

    fn bit_or(self, rhs: Self) -> (r: Self) {
        let r = self | rhs;
        proof {
            lemma_isize_bits(self, rhs, 0, 0, 0);
        }
        r
    }

    fn bit_not(self) -> (r: Self) {
        let r = !self;
        proof {
            lemma_width_constants();
            lemma_isize_bits(self, 0, 0, 0, 0);
        }
        r
    }

    fn shift_left(self, n: u32) -> (r: Self) {
        let r = self << n;
        proof {
            lemma_width_constants();
            lemma_isize_bits(self, 0, n, 0, 0);
        }
        r
    }

    fn to_raw64(self) -> (r: u64) {
        proof {
            lemma_width_constants();
        }
        let r = self as i64 as u64;
        proof {
            lemma_isize_bits(self, 0, 0, 0, 0);
        }
        r
    }

    fn from_raw64(r: u64) -> (x: Self) {
        let x = r as isize;
        proof {
            lemma_width_constants();
            lemma_isize_bits(0, 0, 0, r, 0);
        }
        x
    }
}

/// An arithmetic shift right of an `isize` divides by a power of two, rounding down.
proof fn lemma_isize_shr_is_div(x: isize, n: u32)
    requires
        n < usize::BITS,
    ensures
        (x >> n) as int == x as int / (pow2(n as nat) as int),
{
    vstd::arithmetic::power2::lemma_pow2_pos(n as nat);
    lemma_isize_bits(x, 0, n, 0, 0);
    if x >= 0 {
        lemma_usize_shr_is_div(x as usize, n as usize);
    } else {
        let y = !x;
        lemma_isize_bits(y, 0, n, 0, 0);
        lemma_usize_shr_is_div(y as usize, n as usize);
        let q = y >> n;
        lemma_isize_bits(q, 0, 0, 0, 0);
        lemma_floor_div_complement(x as int, pow2(n as nat) as int);
    }
}

impl Int for isize {
    fn signed(self) -> (r: isize) {
        self
    }

    fn unsigned(self) -> (r: usize) {
        self as usize
    }

    fn from_unsigned(unsigned: usize) -> (r: isize) {
        let r = unsigned as isize;
        proof {
            lemma_isize_bits(0, 0, 0, 0, unsigned);
        }
        r
    }

    fn abs(self) -> (r: Self) {
        proof {
            lemma_width_constants();
        }
        if self < 0 {
            -self
        } else {
            self
        }
    }

    fn unsigned_abs(self) -> (r: usize) {
        if self == isize::MIN {
            (isize::MAX as usize) + 1
        } else if self < 0 {
            (-self) as usize
        } else {
            self as usize
        }
    }

    fn from_bool(b: bool) -> (r: Self) {
        if b {
            1
        } else {
            0
        }
    }

    fn logical_shr(self, other: u32) -> (r: Self) {
        let u = self as usize;
        let k = other % usize::BITS;
        let s = <usize>::wrapping_shr(u, other);
        assert(s == u >> k);
        let r = Self::from_unsigned(s);
        proof {
            lemma_usize_bits(u, 0, k, 0, 0);
        }
        r
    }

    fn abs_diff(self, other: Self) -> (r: usize) {
        let d = self as i128 - other as i128;
        if d < 0 {
            (-d) as usize
        } else {
            d as usize
        }
    }

    fn is_zero(self) -> (r: bool) {
        self == 0
    }

    fn checked_add(self, other: Self) -> (r: Option<Self>) {
        proof {
            lemma_width_constants();
        }
        <isize>::checked_add(self, other)
    }

    fn checked_sub(self, other: Self) -> (r: Option<Self>) {
        proof {
            lemma_width_constants();
        }
        <isize>::checked_sub(self, other)
    }

    fn wrapping_neg(self) -> (r: Self) {
        proof {
            lemma_width_constants();
        }
        0isize.wrapping_sub(self)
    }

    fn wrapping_add(self, other: Self) -> (r: Self) {
        proof {
            lemma_width_constants();
        }
        <isize>::wrapping_add(self, other)
    }

    fn wrapping_mul(self, other: Self) -> (r: Self) {
        proof {
            lemma_width_constants();
        }
        <isize>::wrapping_mul(self, other)
    }

    fn wrapping_sub(self, other: Self) -> (r: Self) {
        proof {
            lemma_width_constants();
        }
        <isize>::wrapping_sub(self, other)
    }

    fn wrapping_shl(self, other: u32) -> (r: Self) {
        let r = <isize>::wrapping_shl(self, other);
        let k = other % usize::BITS;
        proof {
            lemma_width_constants();
        }
        assert(r == self << k);
        proof {
            lemma_isize_bits(self, 0, k, 0, 0);
        }
        r
    }

    fn wrapping_shr(self, other: u32) -> (r: Self) {
        let r = <isize>::wrapping_shr(self, other);
        let k = other % usize::BITS;
        proof {
            lemma_isize_shr_is_div(self, k);
        }
        r
    }

    fn rotate_left(self, other: u32) -> (r: Self) {
        let u = self as usize;
        let k = other % usize::BITS;
        proof {
            lemma_width_constants();
        }
        if k == 0 {
            self
        } else {
            let s = (u << k) | (u >> (usize::BITS - k));
            let r = Self::from_unsigned(s);
            proof {
                lemma_usize_bits(u, 0, k, 0, 0);
            }
            r
        }
    }

    fn overflowing_add(self, other: Self) -> (r: (Self, bool)) {
        proof {
            lemma_width_constants();
        }
        (<isize>::wrapping_add(self, other), <isize>::checked_add(self, other).is_none())
    }

    fn overflowing_sub(self, other: Self) -> (r: (Self, bool)) {
        proof {
            lemma_width_constants();
        }
        (<isize>::wrapping_sub(self, other), <isize>::checked_sub(self, other).is_none())
    }

    fn carrying_add(self, other: Self, carry: bool) -> (r: (Self, bool)) {
        proof {
            lemma_width_constants();
        }
        let (ab, of1) = Int::overflowing_add(self, other);
        let (abc, of2) = Int::overflowing_add(ab, Self::from_bool(carry));
        (abc, of1 ^ of2)
    }

    fn borrowing_sub(self, other: Self, borrow: bool) -> (r: (Self, bool)) {
        proof {
            lemma_width_constants();
        }
        let (ab, of1) = Int::overflowing_sub(self, other);
        let (abc, of2) = Int::overflowing_sub(ab, Self::from_bool(borrow));
        (abc, of1 ^ of2)
    }

    fn leading_zeros(self) -> (r: u32) {
        let u = self as usize;
        let r = Int::leading_zeros(u);
        assert forall|j: u64| usize::BITS - r <= j < usize::BITS implies !#[trigger] bit(self.raw(), j) by {
            assert(!bit(u.raw(), j));
        }
        r
    }

    fn trailing_zeros(self) -> (r: u32) {
        let u = self as usize;
        let r = Int::trailing_zeros(u);
        assert forall|j: u64| j < r implies !#[trigger] bit(self.raw(), j) by {
            assert(!bit(u.raw(), j));
        }
        r
    }

    fn ilog2(self) -> (r: u32) {
        Int::ilog2(self as usize)
    }

    fn equals(self, other: Self) -> (r: bool) {
        self == other
    }

    fn bit_and(self, rhs: Self) -> (r: Self) {
        let r = self & rhs;
        proof {
            lemma_isize_bits(self, rhs, 0, 0, 0);
        }
        r
    }

    fn shift_right(self, n: u32) -> (r: Self) {
        proof {
            lemma_isize_shr_is_div(self, n);
        }
        self >> n
    }
}

} // verus!
