//! Support for rounding directions and status flags as specified by IEEE 754.
//!
//! Rust does not support the floating point environment so rounding mode is passed as an argument
//! and status flags are returned as part of the result.

use vstd::prelude::*;

verus! {

/// A value combined with a floating point status.
pub struct FpResult<T> {
    pub val: T,
    pub status: Status,
}

impl<T> FpResult<T> {
    pub fn new(val: T, status: Status) -> (r: Self)
        ensures
            r.val == val,
            r.status == status,
    {
        Self { val, status }
    }

    /// Return `val` with `Status::OK`.
    pub fn ok(val: T) -> (r: Self)
        ensures
            r.val == val,
            r.status.flags() == 0,
    {
        Self { val, status: Status::ok() }
    }
}

/// IEEE 754 rounding mode, excluding the optional `roundTiesToAway` version of nearest.
///
/// The variants are declared in the order of their integer representation, which comes from
/// what CORE-MATH uses for indexing.
#[derive(Clone, Copy, PartialEq, Eq, Structural, Debug)]
pub enum Round {
    /// IEEE 754 nearest, `roundTiesToEven`.
    Nearest,
    /// IEEE 754 `roundTowardNegative`.
    Negative,
    /// IEEE 754 `roundTowardPositive`.
    Positive,
    /// IEEE 754 `roundTowardZero`.
    Zero,
}

/// IEEE 754 exception status flags.
#[derive(Clone, Copy, PartialEq, Eq, Structural, Debug)]
pub struct Status(u8);

/// The bit of the invalid flag.
pub const INVALID_BIT: u8 = 1;

/// The bit of the division-by-zero flag.
pub const DIVIDE_BY_ZERO_BIT: u8 = 4;

/// The bit of the overflow flag.
pub const OVERFLOW_BIT: u8 = 8;

/// The bit of the underflow flag.
pub const UNDERFLOW_BIT: u8 = 16;

/// The bit of the inexact flag.
pub const INEXACT_BIT: u8 = 32;

impl Status {
    /// The flags, one bit each.
    pub closed spec fn flags(self) -> u8 {
        self.0
    }

    /// Two statuses are equal exactly when their flags are.
    pub proof fn lemma_flags_determine(s: Status, t: Status)
        ensures
            (s.flags() == t.flags()) == (s == t),
    {
    }

    /// Default status indicating no errors.
    pub fn ok() -> (r: Self)
        ensures
            r.flags() == 0,
    {
        Status(0)
    }

    /// No definable result.
    ///
    /// Includes:
    /// - Any ops on sNaN, with a few exceptions.
    /// - `0 * inf`, `inf * 0`.
    /// - `fma(0, inf, c)` or `fma(inf, 0, c)`, possibly excluding `c = qNaN`.
    /// - `+inf + -inf` and similar (includes subtraction and fma).
    /// - `0.0 / 0.0`, `inf / inf`
    /// - `remainder(x, y)` if `y == 0.0` or `x == inf`, and neither is NaN.
    /// - `sqrt(x)` with `x < 0.0`.
    pub fn invalid_flag() -> (r: Self)
        ensures
            r.flags() == INVALID_BIT,
    {
        Status(INVALID_BIT)
    }

    /// Division by zero.
    ///
    /// The default result for division is +/-inf based on operand sign. For `logB`, the default
    /// result is -inf.
    /// `x / y` when `x != 0.0` and `y == 0.0`,
    pub fn divide_by_zero_flag() -> (r: Self)
        ensures
            r.flags() == DIVIDE_BY_ZERO_BIT,
    {
        Status(DIVIDE_BY_ZERO_BIT)
    }

    /// The result exceeds the maximum finite value.
    ///
    /// The default result depends on rounding mode. `Nearest*` rounds to +/- infinity, sign based
    /// on the intermediate result. `Zero` rounds to the signed maximum finite. `Positive` and
    /// `Negative` round to signed maximum finite in one direction, signed infinity in the other.
    pub fn overflow_flag() -> (r: Self)
        ensures
            r.flags() == OVERFLOW_BIT,
    {
        Status(OVERFLOW_BIT)
    }

    /// The result is subnormal and lost precision.
    pub fn underflow_flag() -> (r: Self)
        ensures
            r.flags() == UNDERFLOW_BIT,
    {
        Status(UNDERFLOW_BIT)
    }

    /// The finite-precision result does not match that of infinite precision, and the reason
    /// is not represented by one of the other flags.
    pub fn inexact_flag() -> (r: Self)
        ensures
            r.flags() == INEXACT_BIT,
    {
        Status(INEXACT_BIT)
    }

    /// True if `UNDERFLOW` is set.
    pub fn underflow(self) -> (r: bool)
        ensures
            r == (self.flags() & UNDERFLOW_BIT != 0),
    {
        self.0 & UNDERFLOW_BIT != 0
    }

    /// True if `OVERFLOW` is set.
    pub fn overflow(self) -> (r: bool)
        ensures
            r == (self.flags() & OVERFLOW_BIT != 0),
    {
        self.0 & OVERFLOW_BIT != 0
    }

    /// Set or clear `UNDERFLOW`, leaving the other flags as they are.
    pub fn set_underflow(&mut self, val: bool)
        ensures
            final(self).flags() == (if val {
                old(self).flags() | UNDERFLOW_BIT
            } else {
                old(self).flags() & !UNDERFLOW_BIT
            }),
    {
        self.set_flag(val, Self::underflow_flag());
    }

    /// True if `INEXACT` is set.
    pub fn inexact(self) -> (r: bool)
        ensures
            r == (self.flags() & INEXACT_BIT != 0),
    {
        self.0 & INEXACT_BIT != 0
    }

    /// Set or clear `INEXACT`, leaving the other flags as they are.
    pub fn set_inexact(&mut self, val: bool)
        ensures
            final(self).flags() == (if val {
                old(self).flags() | INEXACT_BIT
            } else {
                old(self).flags() & !INEXACT_BIT
            }),
    {
        self.set_flag(val, Self::inexact_flag());
    }

    fn set_flag(&mut self, val: bool, mask: Self)
        ensures
            final(self).flags() == (if val {
                old(self).flags() | mask.flags()
            } else {
                old(self).flags() & !mask.flags()
            }),
    {
        if val {
            self.0 |= mask.0;
        } else {
            self.0 &= !mask.0;
        }
    }

    /// The flags of both statuses.
    pub fn with(self, rhs: Self) -> (r: Self)
        ensures
            r.flags() == self.flags() | rhs.flags(),
    {
        Self(self.0 | rhs.0)
    }
}

/// Bit-level facts about flag sets held in a byte.
proof fn lemma_flag_bits(x: u8, y: u8, z: u8)
    by (bit_vector)
    ensures
        x | y == y | x,
        (x | y) | z == x | (y | z),
        x | 0 == x,
        x | x == x,
        (x | 32) & 32 != 0,
        (x & !32u8) & 32 == 0,
        (x | 16) & 16 != 0,
        (x & !16u8) & 16 == 0,
        (x | 32) & 16 == x & 16,
        (x & !32u8) & 16 == x & 16,
        (x | 32) & 8 == x & 8,
        (x & !32u8) & 8 == x & 8,
        (x | 16) & 32 == x & 32,
        (x & !16u8) & 32 == x & 32,
        (x | 16) & 8 == x & 8,
        (x & !16u8) & 8 == x & 8,
{
}

/// Combining statuses with `with` is a union of their flags: the order and the grouping do
/// not matter, `ok()` changes nothing, and combining a status with itself gives it back.
pub proof fn lemma_with_union(a: Status, b: Status, c: Status)
    ensures
        a.flags() | b.flags() == b.flags() | a.flags(),
        (a.flags() | b.flags()) | c.flags() == a.flags() | (b.flags() | c.flags()),
        a.flags() | 0 == a.flags(),
        a.flags() | a.flags() == a.flags(),
{
    lemma_flag_bits(a.flags(), b.flags(), c.flags());
}

/// Setting a flag makes its query true and clearing it makes it false; either leaves the
/// flags that the other queries read as they were.
pub proof fn lemma_set_flag_queries(s: Status)
    ensures
        (s.flags() | INEXACT_BIT) & INEXACT_BIT != 0,
        (s.flags() & !INEXACT_BIT) & INEXACT_BIT == 0,
        (s.flags() | UNDERFLOW_BIT) & UNDERFLOW_BIT != 0,
        (s.flags() & !UNDERFLOW_BIT) & UNDERFLOW_BIT == 0,
        (s.flags() | INEXACT_BIT) & UNDERFLOW_BIT == s.flags() & UNDERFLOW_BIT,
        (s.flags() & !INEXACT_BIT) & UNDERFLOW_BIT == s.flags() & UNDERFLOW_BIT,
        (s.flags() | INEXACT_BIT) & OVERFLOW_BIT == s.flags() & OVERFLOW_BIT,
        (s.flags() & !INEXACT_BIT) & OVERFLOW_BIT == s.flags() & OVERFLOW_BIT,
        (s.flags() | UNDERFLOW_BIT) & INEXACT_BIT == s.flags() & INEXACT_BIT,
        (s.flags() & !UNDERFLOW_BIT) & INEXACT_BIT == s.flags() & INEXACT_BIT,
        (s.flags() | UNDERFLOW_BIT) & OVERFLOW_BIT == s.flags() & OVERFLOW_BIT,
        (s.flags() & !UNDERFLOW_BIT) & OVERFLOW_BIT == s.flags() & OVERFLOW_BIT,
{
    lemma_flag_bits(s.flags(), 0, 0);
}

} // verus!
