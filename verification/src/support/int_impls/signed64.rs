//! `i64` as an integer of the float routines.

use vstd::prelude::*;

verus! {

use vstd::arithmetic::power2::pow2;
use vstd::bits::lemma_u64_shr_is_div;
use crate::support::int_impls::unsigned64::lemma_u64_bits;
use crate::support::int_traits::{
    Repr, MinInt, Int, min_of, max_of, fits, wrap, mask_of, rotl, abs_int, bit, shift_amount,
    lemma_width_constants, lemma_floor_div_complement, DInt, lemma_split_bits,
};

/// Bit-level facts about `i64` values and their two's complement encodings.
pub proof fn lemma_i64_bits(x: i64, y: i64, n: u32, r: u64, u: u64)
    by (bit_vector)
    ensures
        x < 0 ==> (x as u64) as i128 == (x as i128) + 0x1_0000_0000_0000_0000i128,
        x >= 0 ==> (x as u64) as i128 == x as i128,
        (x as u64) == (y as u64) ==> x == y,
        ((x | y) as u64) == (x as u64) | (y as u64),
        ((x & y) as u64) == (x as u64) & (y as u64),
        ((!x) as u64) == !(x as u64) & 0xffff_ffff_ffff_ffffu64,
        n < 64 ==> ((x << n) as u64) == ((x as u64) << (n as u64)) & 0xffff_ffff_ffff_ffffu64,
        (r as i64) as u64 == r & 0xffff_ffff_ffff_ffffu64,
        x >= 0 && n < 64 ==> x >> n == ((x as u64) >> n) as i64,
        n < 64 ==> x >> n == !((!x) >> n),
        (!x) as i128 == -1 - (x as i128),
        x < 0 ==> !x >= 0,
        ((u as i64) as u64) == u,
{
}

impl Repr for i64 {
    open spec fn val(self) -> int {
        self as int
    }

    open spec fn raw(self) -> u64 {
        (self as u64) as u64
    }

    open spec fn width() -> nat {
        64
    }

    open spec fn is_signed() -> bool {
        true
    }

    proof fn lemma_repr(x: Self) {
        lemma_width_constants();
        lemma_i64_bits(x, 0, 0, 0, 0);
    }

    proof fn lemma_raw_injective(x: Self, y: Self) {
        lemma_i64_bits(x, y, 0, 0, 0);
    }
}

impl MinInt for i64 {
    type OtherSign = u64;

    type Unsigned = u64;

    type Signed = i64;

    const SIGNED: bool = true;

    const BITS: u32 = 64;

    const ZERO: Self = 0;

    const ONE: Self = 1;

    const MIN: Self = -0x8000_0000_0000_0000;

    const MAX: Self = 0x7fff_ffff_ffff_ffff;

    proof fn lemma_min_int() {
        lemma_width_constants();
        assert(<u64 as Repr>::width() == 64);
        assert(<u64 as Repr>::is_signed() == false);
    }

    fn bit_or(self, rhs: Self) -> (r: Self) {
        let r = self | rhs;
        proof {
            lemma_i64_bits(self, rhs, 0, 0, 0);
        }
        r
    }

    fn bit_not(self) -> (r: Self) {
        let r = !self;
        proof {
            lemma_width_constants();
        }
        proof {
            lemma_i64_bits(self, 0, 0, 0, 0);
        }
        r
    }

    fn shift_left(self, n: u32) -> (r: Self) {
        let r = self << n;
        proof {
            lemma_width_constants();
        }
        proof {
            lemma_i64_bits(self, 0, n, 0, 0);
        }
        r
    }

    fn to_raw64(self) -> (r: u64) {
        proof {
            lemma_width_constants();
        }
        let r = self as u64;
        proof {
            lemma_i64_bits(self, 0, 0, 0, 0);
        }
        r
    }

    fn from_raw64(r: u64) -> (x: Self) {
        let x = r as i64;
        proof {
            lemma_width_constants();
        }
        proof {
            lemma_i64_bits(0, 0, 0, r, 0);
        }
        x
    }
}

/// An arithmetic shift right of an `i64` divides by a power of two, rounding down.
proof fn lemma_i64_shr_is_div(x: i64, n: u32)
    requires
        n < 64,
    ensures
        (x >> n) as int == x as int / (pow2(n as nat) as int),
{
    vstd::arithmetic::power2::lemma_pow2_pos(n as nat);
    lemma_i64_bits(x, 0, n, 0, 0);
    if x >= 0 {
        lemma_u64_shr_is_div(x as u64, n as u64);
    } else {
        let y = !x;
        lemma_i64_bits(y, 0, n, 0, 0);
        lemma_u64_shr_is_div(y as u64, n as u64);
        let q = y >> n;
        lemma_i64_bits(q, 0, 0, 0, 0);
        lemma_floor_div_complement(x as int, pow2(n as nat) as int);
    }
}

impl Int for i64 {
    fn signed(self) -> (r: i64) {
        self
    }

    fn unsigned(self) -> (r: u64) {
        self as u64
    }

    fn from_unsigned(unsigned: u64) -> (r: i64) {
        let r = unsigned as i64;
        proof {
            lemma_i64_bits(0, 0, 0, 0, unsigned);
        }
        r
    }

    fn abs(self) -> (r: Self) {
        proof {
            lemma_width_constants();
        }
        if self < 0 {
            -self
        } else {
            self
        }
    }

    fn unsigned_abs(self) -> (r: u64) {
        if self == -0x8000_0000_0000_0000 {
            0x8000_0000_0000_0000
        } else if self < 0 {
            (-self) as u64
        } else {
            self as u64
        }
    }

    fn from_bool(b: bool) -> (r: Self) {
        if b {
            1
        } else {
            0
        }
    }

    fn logical_shr(self, other: u32) -> (r: Self) {
        let u = self as u64;
        let k = other % 64;
        let s = <u64>::wrapping_shr(u, other);
        assert(s == u >> k);
        let r = Self::from_unsigned(s);
        proof {
            lemma_u64_bits(u, 0, k, 0, 0);
        }
        r
    }

    fn abs_diff(self, other: Self) -> (r: u64) {
        let d = self as i128 - other as i128;
        if d < 0 {
            (-d) as u64
        } else {
            d as u64
        }
    }

    fn is_zero(self) -> (r: bool) {
        self == 0
    }

    fn checked_add(self, other: Self) -> (r: Option<Self>) {
        proof {
            lemma_width_constants();
        }
        <i64>::checked_add(self, other)
    }

    fn checked_sub(self, other: Self) -> (r: Option<Self>) {
        proof {
            lemma_width_constants();
        }
        <i64>::checked_sub(self, other)
    }

    fn wrapping_neg(self) -> (r: Self) {
        proof {
            lemma_width_constants();
        }
        0i64.wrapping_sub(self)
    }

    fn wrapping_add(self, other: Self) -> (r: Self) {
        proof {
            lemma_width_constants();
        }
        <i64>::wrapping_add(self, other)
    }

    fn wrapping_mul(self, other: Self) -> (r: Self) {
        proof {
            lemma_width_constants();
        }
        <i64>::wrapping_mul(self, other)
    }

    fn wrapping_sub(self, other: Self) -> (r: Self) {
        proof {
            lemma_width_constants();
        }
        <i64>::wrapping_sub(self, other)
    }

    fn wrapping_shl(self, other: u32) -> (r: Self) {
        let r = <i64>::wrapping_shl(self, other);
        let k = other % 64;
        proof {
            lemma_width_constants();
        }
        assert(r == self << k);
        proof {
            lemma_i64_bits(self, 0, k, 0, 0);
        }
        r
    }

    fn wrapping_shr(self, other: u32) -> (r: Self) {
        let r = <i64>::wrapping_shr(self, other);
        let k = other % 64;
        proof {
            lemma_i64_shr_is_div(self, k);
        }
        r
    }

    fn rotate_left(self, other: u32) -> (r: Self) {
        let u = self as u64;
        let k = other % 64;
        proof {
            lemma_width_constants();
        }
        if k == 0 {
            self
        } else {
            let s = (u << k) | (u >> (64 - k));
            let r = Self::from_unsigned(s);
            proof {
                lemma_u64_bits(u, 0, k, 0, 0);
            }
            r
        }
    }

    fn overflowing_add(self, other: Self) -> (r: (Self, bool)) {
        proof {
            lemma_width_constants();
        }
        (<i64>::wrapping_add(self, other), <i64>::checked_add(self, other).is_none())
    }

    fn overflowing_sub(self, other: Self) -> (r: (Self, bool)) {
        proof {
            lemma_width_constants();
        }
        (<i64>::wrapping_sub(self, other), <i64>::checked_sub(self, other).is_none())
    }

    fn carrying_add(self, other: Self, carry: bool) -> (r: (Self, bool)) {
        proof {
            lemma_width_constants();
        }
        let (ab, of1) = Int::overflowing_add(self, other);
        let (abc, of2) = Int::overflowing_add(ab, Self::from_bool(carry));
        (abc, of1 ^ of2)
    }

    fn borrowing_sub(self, other: Self, borrow: bool) -> (r: (Self, bool)) {
        proof {
            lemma_width_constants();
        }
        let (ab, of1) = Int::overflowing_sub(self, other);
        let (abc, of2) = Int::overflowing_sub(ab, Self::from_bool(borrow));
        (abc, of1 ^ of2)
    }

    fn leading_zeros(self) -> (r: u32) {
        let u = self as u64;
        let r = Int::leading_zeros(u);
        assert forall|j: u64| 64 - r <= j < 64 implies !#[trigger] bit(self.raw(), j) by {
            assert(!bit(u.raw(), j));
        }
        r
    }

    fn trailing_zeros(self) -> (r: u32) {
        let u = self as u64;
        let r = Int::trailing_zeros(u);
        assert forall|j: u64| j < r implies !#[trigger] bit(self.raw(), j) by {
            assert(!bit(u.raw(), j));
        }
        r
    }

    fn ilog2(self) -> (r: u32) {
        Int::ilog2(self as u64)
    }

    fn equals(self, other: Self) -> (r: bool) {
        self == other
    }

    fn bit_and(self, rhs: Self) -> (r: Self) {
        let r = self & rhs;
        proof {
            lemma_i64_bits(self, rhs, 0, 0, 0);
        }
        r
    }

    fn shift_right(self, n: u32) -> (r: Self) {
        proof {
            lemma_i64_shr_is_div(self, n);
        }
        self >> n
    }
}

impl DInt for i64 {
    type H = i32;

    fn lo(self) -> (r: i32) {
        proof {
            lemma_width_constants();
            lemma_split_bits(0, self, 0, 0, 0);
        }
        self as i32
    }

    fn hi(self) -> (r: i32) {
        proof {
            lemma_split_bits(0, self, 0, 0, 0);
        }
        (self >> 32u32) as i32
    }
}

} // verus!
