//! `u32` as an integer of the float routines.

use vstd::prelude::*;

verus! {

use vstd::arithmetic::power2::pow2;
use vstd::bits::{lemma_u32_shr_is_div, lemma_u32_pow2_no_overflow};
use vstd::std_specs::bits::{u32_leading_zeros, u32_trailing_zeros, axiom_u32_leading_zeros, axiom_u32_trailing_zeros};
use crate::support::int_traits::{
    Repr, MinInt, Int, min_of, max_of, fits, wrap, mask_of, rotl, abs_int, bit, shift_amount,
    lemma_width_constants, HInt, lemma_wrap_fits,
};

/// Bit-level facts about `u32` values and their zero-extended encodings.
pub proof fn lemma_u32_bits(x: u32, y: u32, n: u32, j: u64, r: u64)
    by (bit_vector)
    ensures
        (x | y) as u64 == (x as u64) | (y as u64),
        (x & y) as u64 == (x as u64) & (y as u64),
        (!x) as u64 == !(x as u64) & 0xffff_ffffu64,
        n < 32 ==> (x << n) as u64 == ((x as u64) << (n as u64)) & 0xffff_ffffu64,
        n < 32 ==> (x >> n) as u64 == (x as u64) >> (n as u64),
        0 < n < 32 ==> ((x << n) | (x >> ((32 - n) as u32))) as u64 == (((x as u64) << (n as u64))
            | ((x as u64) >> ((32 - n) as u64))) & 0xffff_ffffu64,
        ((x as i32) as u32) as u64 == x as u64,
        j < 32 ==> ((((x as u64) >> j) & 1u64 == 1u64) == ((x >> (j as u32)) & 1u32 == 1u32)),
        ((x >> n) & 1u32 != 0u32) ==> ((x >> n) & 1u32 == 1u32),
        (r as u32) as u64 == r & 0xffff_ffffu64,
{
}

impl Repr for u32 {
    open spec fn val(self) -> int {
        self as int
    }

    open spec fn raw(self) -> u64 {
        self as u64
    }

    open spec fn width() -> nat {
        32
    }

    open spec fn is_signed() -> bool {
        false
    }

    proof fn lemma_repr(x: Self) {
        lemma_width_constants();
    }

    proof fn lemma_raw_injective(x: Self, y: Self) {
    }
}

impl MinInt for u32 {
    type OtherSign = i32;

    type Unsigned = u32;

    type Signed = i32;

    const SIGNED: bool = false;

    const BITS: u32 = 32;

    const ZERO: Self = 0;

    const ONE: Self = 1;

    const MIN: Self = 0;

    const MAX: Self = 0xffff_ffff;

    proof fn lemma_min_int() {
        lemma_width_constants();
        assert(<i32 as Repr>::width() == 32);
        assert(<i32 as Repr>::is_signed() == true);
    }

    fn bit_or(self, rhs: Self) -> (r: Self) {
        let r = self | rhs;
        proof {
            lemma_u32_bits(self, rhs, 0, 0, 0);
        }
        r
    }

    fn bit_not(self) -> (r: Self) {
        let r = !self;
        proof {
            lemma_width_constants();
        }
        proof {
            lemma_u32_bits(self, 0, 0, 0, 0);
        }
        r
    }

    fn shift_left(self, n: u32) -> (r: Self) {
        let r = self << n;
        proof {
            lemma_width_constants();
        }
        proof {
            lemma_u32_bits(self, 0, n, 0, 0);
        }
        r
    }

    fn to_raw64(self) -> (r: u64) {
        proof {
            lemma_width_constants();
        }
        self as u64
    }

    fn from_raw64(r: u64) -> (x: Self) {
        let x = r as u32;
        proof {
            lemma_width_constants();
        }
        proof {
            lemma_u32_bits(0, 0, 0, 0, r);
        }
        x
    }
}

impl Int for u32 {
    fn signed(self) -> (r: i32) {
        let r = self as i32;
        proof {
            lemma_u32_bits(self, 0, 0, 0, 0);
        }
        r
    }

    fn unsigned(self) -> (r: u32) {
        self
    }

    fn from_unsigned(unsigned: u32) -> (r: u32) {
        unsigned
    }

    fn abs(self) -> (r: Self) {
        // Unreachable: `requires` asks for a signed type.
        self
    }

    fn unsigned_abs(self) -> (r: u32) {
        // Unreachable: `requires` asks for a signed type.
        self
    }

    fn from_bool(b: bool) -> (r: Self) {
        if b {
            1
        } else {
            0
        }
    }

    fn logical_shr(self, other: u32) -> (r: Self) {
        let r = Self::from_unsigned(self.unsigned().wrapping_shr(other));
        let k = other % 32;
        assert(r == self >> k);
        proof {
            lemma_u32_bits(self, 0, k, 0, 0);
        }
        r
    }

    fn abs_diff(self, other: Self) -> (r: u32) {
        if self > other {
            self - other
        } else {
            other - self
        }
    }

    fn is_zero(self) -> (r: bool) {
        self == 0
    }

    fn checked_add(self, other: Self) -> (r: Option<Self>) {
        proof {
            lemma_width_constants();
        }
        <u32>::checked_add(self, other)
    }

    fn checked_sub(self, other: Self) -> (r: Option<Self>) {
        proof {
            lemma_width_constants();
        }
        <u32>::checked_sub(self, other)
    }

    fn wrapping_neg(self) -> (r: Self) {
        proof {
            lemma_width_constants();
        }
        0u32.wrapping_sub(self)
    }

    fn wrapping_add(self, other: Self) -> (r: Self) {
        proof {
            lemma_width_constants();
        }
        <u32>::wrapping_add(self, other)
    }

    fn wrapping_mul(self, other: Self) -> (r: Self) {
        proof {
            lemma_width_constants();
        }
        <u32>::wrapping_mul(self, other)
    }

    fn wrapping_sub(self, other: Self) -> (r: Self) {
        proof {
            lemma_width_constants();
        }
        <u32>::wrapping_sub(self, other)
    }

    fn wrapping_shl(self, other: u32) -> (r: Self) {
        let r = <u32>::wrapping_shl(self, other);
        let k = other % 32;
        proof {
            lemma_width_constants();
        }
        proof {
            lemma_u32_bits(self, 0, k, 0, 0);
        }
        r
    }

    fn wrapping_shr(self, other: u32) -> (r: Self) {
        let r = <u32>::wrapping_shr(self, other);
        let k = other % 32;
        proof {
            lemma_u32_shr_is_div(self, k);
        }
        r
    }

    fn rotate_left(self, other: u32) -> (r: Self) {
        let k = other % 32;
        proof {
            lemma_width_constants();
        }
        if k == 0 {
            self
        } else {
            let r = (self << k) | (self >> (32 - k));
            proof {
            lemma_u32_bits(self, 0, k, 0, 0);
        }
            r
        }
    }

    fn overflowing_add(self, other: Self) -> (r: (Self, bool)) {
        proof {
            lemma_width_constants();
        }
        (<u32>::wrapping_add(self, other), <u32>::checked_add(self, other).is_none())
    }

    fn overflowing_sub(self, other: Self) -> (r: (Self, bool)) {
        proof {
            lemma_width_constants();
        }
        (<u32>::wrapping_sub(self, other), <u32>::checked_sub(self, other).is_none())
    }

    fn carrying_add(self, other: Self, carry: bool) -> (r: (Self, bool)) {
        proof {
            lemma_width_constants();
        }
        let (ab, of1) = Int::overflowing_add(self, other);
        let (abc, of2) = Int::overflowing_add(ab, Self::from_bool(carry));
        (abc, of1 ^ of2)
    }

    fn borrowing_sub(self, other: Self, borrow: bool) -> (r: (Self, bool)) {
        proof {
            lemma_width_constants();
        }
        let (ab, of1) = Int::overflowing_sub(self, other);
        let (abc, of2) = Int::overflowing_sub(ab, Self::from_bool(borrow));
        (abc, of1 ^ of2)
    }

    fn leading_zeros(self) -> (r: u32) {
        let r = <u32>::leading_zeros(self);
        proof {
            axiom_u32_leading_zeros(self);
            assert forall|j: u64| 32 - r <= j < 32 implies !#[trigger] bit(self as u64, j) by {
                lemma_u32_bits(self, 0, 0, j, 0);
                assert((self >> (j as u32)) & 1u32 == 0u32);
            }
            if r < 32 {
                lemma_u32_bits(self, 0, 0, (31 - r) as u64, 0);
                let b = (self >> ((31 - r) as u32)) & 1u32;
                lemma_u32_bits(self, 0, (31 - r) as u32, 0, 0);
            }
        }
        r
    }

    fn trailing_zeros(self) -> (r: u32) {
        let r = <u32>::trailing_zeros(self);
        proof {
            axiom_u32_trailing_zeros(self);
            assert forall|j: u64| j < r implies !#[trigger] bit(self as u64, j) by {
                lemma_u32_bits(self, 0, 0, j, 0);
                assert((self >> (j as u32)) & 1u32 == 0u32);
            }
            if r < 32 {
                lemma_u32_bits(self, 0, 0, r as u64, 0);
            }
        }
        r
    }

    fn ilog2(self) -> (r: u32) {
        proof {
            axiom_u32_leading_zeros(self);
        }
        let lz = <u32>::leading_zeros(self);
        let r = 31 - lz;
        proof {
            lemma_u32_bits(self, 0, 0, r as u64, 0);
            let b = (self >> r) & 1u32;
            lemma_u32_bits(self, 0, r, 0, 0);
            assert forall|j: u64| r < j < 32 implies !#[trigger] bit(self as u64, j) by {
                lemma_u32_bits(self, 0, 0, j, 0);
                assert((self >> (j as u32)) & 1u32 == 0u32);
            }
        }
        r
    }

    fn equals(self, other: Self) -> (r: bool) {
        self == other
    }

    fn bit_and(self, rhs: Self) -> (r: Self) {
        let r = self & rhs;
        proof {
            lemma_u32_bits(self, rhs, 0, 0, 0);
        }
        r
    }

    fn shift_right(self, n: u32) -> (r: Self) {
        proof {
            lemma_u32_shr_is_div(self, n);
        }
        self >> n
    }
}

impl HInt for u32 {
    type D = u64;

    proof fn lemma_double_width() {
    }

    fn widen(self) -> (r: u64) {
        self as u64
    }

    fn zero_widen(self) -> (r: u64) {
        self as u64
    }

    fn widen_hi(self) -> (r: u64) {
        (self as u64) << 32u64
    }

    fn zero_widen_mul(self, rhs: Self) -> (r: u64) {
        let r = self.widen_mul(rhs);
        proof {
            lemma_width_constants();
            assert((self as int) * (rhs as int) <= 0xffff_ffff * 0xffff_ffff) by (nonlinear_arith)
                requires
                    self <= 0xffff_ffff,
                    rhs <= 0xffff_ffff,
            ;
            assert((self as int) * (rhs as int) >= 0) by (nonlinear_arith);
            lemma_wrap_fits((self as int) * (rhs as int), false, 64);
        }
        r
    }

    fn widen_mul(self, rhs: Self) -> (r: u64) {
        proof {
            lemma_width_constants();
            assert((self as int) * (rhs as int) <= 0xffff_ffff * 0xffff_ffff) by (nonlinear_arith)
                requires
                    self <= 0xffff_ffff,
                    rhs <= 0xffff_ffff,
            ;
            assert((self as int) * (rhs as int) >= 0) by (nonlinear_arith);
            lemma_wrap_fits((self as int) * (rhs as int), false, 64);
        }
        (self as u64) * (rhs as u64)
    }
}

} // verus!
