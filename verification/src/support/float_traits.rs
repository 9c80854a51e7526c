//! IEEE 754 binary floating point formats, handled through their encodings.
//!
//! A value of a `Float` type is its encoding; the spec functions below read the sign, the
//! biased exponent and the fraction out of it, and give the value of a finite number as an
//! integer count of the format's smallest subnormal (`units`).

use vstd::prelude::*;

verus! {

use vstd::arithmetic::power2::pow2;
use crate::support::int_traits::{Repr, MinInt, Int, CastFrom, mask_of, lemma_width_constants, lemma_unsigned_raw};

/// Whether the sign bit of a `b`-bit encoding is set.
pub open spec fn sign_bit(e: u64, b: nat) -> bool {
    (e >> ((b - 1) as u64)) & 1 == 1
}

/// The biased exponent field of a `b`-bit encoding with `s` fraction bits.
pub open spec fn exp_field(e: u64, b: nat, s: nat) -> nat {
    ((e >> (s as u64)) & mask_of((b - s - 1) as nat)) as nat
}

/// The fraction field (the significand without the implicit bit) of an encoding with `s`
/// fraction bits.
pub open spec fn frac_field(e: u64, s: nat) -> nat {
    (e & mask_of(s)) as nat
}

/// The biased exponent of infinities and NaNs.
pub open spec fn exp_all_ones(b: nat, s: nat) -> nat {
    (pow2((b - s - 1) as nat) - 1) as nat
}

pub open spec fn enc_is_nan(e: u64, b: nat, s: nat) -> bool {
    exp_field(e, b, s) == exp_all_ones(b, s) && frac_field(e, s) != 0
}

pub open spec fn enc_is_infinite(e: u64, b: nat, s: nat) -> bool {
    exp_field(e, b, s) == exp_all_ones(b, s) && frac_field(e, s) == 0
}

pub open spec fn enc_is_finite(e: u64, b: nat, s: nat) -> bool {
    exp_field(e, b, s) < exp_all_ones(b, s)
}

/// The magnitude of a finite number, in units of the smallest subnormal.
pub open spec fn enc_magnitude(e: u64, b: nat, s: nat) -> nat {
    if exp_field(e, b, s) == 0 {
        frac_field(e, s)
    } else {
        (pow2(s) + frac_field(e, s)) * pow2((exp_field(e, b, s) - 1) as nat)
    }
}

/// The value of a finite number, in units of the smallest subnormal.
pub open spec fn enc_units(e: u64, b: nat, s: nat) -> int {
    if sign_bit(e, b) {
        -(enc_magnitude(e, b, s) as int)
    } else {
        enc_magnitude(e, b, s) as int
    }
}

/// The encoding assembled from a sign, a biased exponent and a fraction.
pub open spec fn assemble(neg: bool, bexp: nat, frac: nat, b: nat, s: nat) -> u64 {
    ((if neg { 1u64 } else { 0u64 }) << ((b - 1) as u64)) | ((bexp as u64) << (s as u64)) | (
    frac as u64)
}

/// Whether the sign bit is set.
pub open spec fn is_neg<F: Float>(x: F) -> bool {
    sign_bit(x.enc(), F::BITS as nat)
}

/// The biased exponent field.
pub open spec fn biased_exp<F: Float>(x: F) -> nat {
    exp_field(x.enc(), F::BITS as nat, F::SIG_BITS as nat)
}

/// The fraction field.
pub open spec fn fraction<F: Float>(x: F) -> nat {
    frac_field(x.enc(), F::SIG_BITS as nat)
}

pub open spec fn spec_is_nan<F: Float>(x: F) -> bool {
    enc_is_nan(x.enc(), F::BITS as nat, F::SIG_BITS as nat)
}

pub open spec fn is_finite<F: Float>(x: F) -> bool {
    enc_is_finite(x.enc(), F::BITS as nat, F::SIG_BITS as nat)
}

/// The value of a finite number, in units of the smallest subnormal.
pub open spec fn units<F: Float>(x: F) -> int {
    enc_units(x.enc(), F::BITS as nat, F::SIG_BITS as nat)
}

/// The number of units in `1.0`.
pub open spec fn one_units<F: Float>() -> nat {
    pow2((F::EXP_BIAS + F::SIG_BITS - 1) as nat)
}

/// The powers of two and masks that the two formats use.
pub proof fn lemma_format_constants()
    ensures
        pow2(7) == 0x80,
        pow2(8) == 0x100,
        pow2(10) == 0x400,
        pow2(11) == 0x800,
        pow2(22) == 0x40_0000,
        pow2(23) == 0x80_0000,
        pow2(51) == 0x8_0000_0000_0000,
        pow2(52) == 0x10_0000_0000_0000,
        mask_of(8) == 0xff,
        mask_of(11) == 0x7ff,
        mask_of(23) == 0x7f_ffff,
        mask_of(31) == 0x7fff_ffff,
        mask_of(32) == 0xffff_ffff,
        mask_of(52) == 0xf_ffff_ffff_ffff,
        mask_of(63) == 0x7fff_ffff_ffff_ffff,
        mask_of(64) == 0xffff_ffff_ffff_ffff,
{
    vstd::arithmetic::power2::lemma2_to64();
    vstd::arithmetic::power2::lemma2_to64_rest();
}

/// Bit-level facts about binary32 encodings held in 64 bits.
pub proof fn lemma_binary32_bits(e: u64, a: u64, sg: u64, be: u64, fr: u64, lm: u64, v: u32, w: u32)
    by (bit_vector)
    ensures
        1u64 << 31u64 == 0x8000_0000u64,
        1u64 << 23u64 == 0x80_0000u64,
        0xffff_ffffu64 & !(0x8000_0000u64 | 0x7f_ffffu64) == 0x7f80_0000u64,
        sg <= 1 && be < 0x100 && fr < 0x80_0000 ==> ((((sg << 31u64) | (be << 23u64) | fr)
            >> 31u64) & 1 == sg && (((sg << 31u64) | (be << 23u64) | fr) >> 23u64) & 0xff == be
            && ((sg << 31u64) | (be << 23u64) | fr) & 0x7f_ffff == fr && ((sg << 31u64) | (be
            << 23u64) | fr) <= 0xffff_ffff && (sg << 31u64) | (be << 23u64) | fr == sg
            * 0x8000_0000 + be * 0x80_0000 + fr),
        e <= 0xffff_ffff ==> (e == (((e >> 31u64) & 1) << 31u64) | (((e >> 23u64) & 0xff)
            << 23u64) | (e & 0x7f_ffff) && ((e >> 23u64) & 0xff) < 0x100 && (e & 0x7f_ffff)
            < 0x80_0000 && ((e >> 31u64) & 1 == 1 || (e >> 31u64) & 1 == 0)),
        e <= 0xffff_ffff ==> (((e & 0x7fff_ffff) > 0x7f80_0000) == (((e >> 23u64) & 0xff)
            == 0xff && (e & 0x7f_ffff) != 0)),
        e <= 0xffff_ffff ==> (((e & 0x7fff_ffff) == 0x7f80_0000) == (((e >> 23u64) & 0xff)
            == 0xff && (e & 0x7f_ffff) == 0)),
        (v & 0x7fff_ffff) as u64 == (v as u64) & 0x7fff_ffff,
        ((v >> 31u32) != 0) == (((v as u64) >> 31u64) & 1 == 1),
        (v & 0x7fff_ffff) as u64 == ((0u64 << 31u64) | ((((v as u64) >> 23u64) & 0xff) << 23u64)
            | ((v as u64) & 0x7f_ffff)),
        ((v & 0x7fff_ffff) | (w & 0x8000_0000)) as u64 == (((if ((w as u64) >> 31u64) & 1 == 1 {
            1u64
        } else {
            0u64
        }) << 31u64) | ((((v as u64) >> 23u64) & 0xff) << 23u64) | ((v as u64) & 0x7f_ffff)),
        e <= 0xffff_ffff && a <= 0xffff_ffff ==> ((e & (!0x8000_0000u64 & 0xffff_ffffu64)) | (a
            & 0x8000_0000u64)) == (((if (a >> 31u64) & 1 == 1 {
            1u64
        } else {
            0u64
        }) << 31u64) | (((e >> 23u64) & 0xff) << 23u64) | (e & 0x7f_ffff)),
        e <= 0xffff_ffff ==> (e & (!0x8000_0000u64 & 0xffff_ffffu64)) == ((0u64 << 31u64) | (((e
            >> 23u64) & 0xff) << 23u64) | (e & 0x7f_ffff)),
        ((e & 0x7f80_0000u64) == 0) == (((e >> 23u64) & 0xff) == 0),
        e <= 0xffff_ffff ==> e >> 23u64 <= 0x1ff,
        (((e >> 23u64) as u32) & 0xff) as u64 == (e >> 23u64) & 0xff,
        v & 0xff == v % 256 && v & 0xff <= 0xff,
        sg <= 1 && be <= 0xff ==> ((((sg << 31u64) & 0xffff_ffff) | ((be << 23u64)
            & 0xffff_ffff)) | (fr & 0x7f_ffff)) == ((sg << 31u64) | (be << 23u64) | (fr
            & 0x7f_ffff)),
        e <= 0xffff_ffff ==> e & (!lm & 0xffff_ffffu64) == e - (e & lm),
        e <= 0xffff_ffff ==> (((e << 1u64) & 0xffff_ffffu64 == 0) == (e & 0x7fff_ffff == 0)),
{
}

/// Bit-level facts about binary64 encodings.
pub proof fn lemma_binary64_bits(e: u64, a: u64, sg: u64, be: u64, fr: u64, lm: u64, v: u32)
    by (bit_vector)
    ensures
        1u64 << 63u64 == 0x8000_0000_0000_0000u64,
        1u64 << 52u64 == 0x10_0000_0000_0000u64,
        0xffff_ffff_ffff_ffffu64 & !(0x8000_0000_0000_0000u64 | 0xf_ffff_ffff_ffffu64)
            == 0x7ff0_0000_0000_0000u64,
        sg <= 1 && be < 0x800 && fr < 0x10_0000_0000_0000 ==> ((((sg << 63u64) | (be << 52u64)
            | fr) >> 63u64) & 1 == sg && (((sg << 63u64) | (be << 52u64) | fr) >> 52u64) & 0x7ff
            == be && ((sg << 63u64) | (be << 52u64) | fr) & 0xf_ffff_ffff_ffff == fr && (sg
            << 63u64) | (be << 52u64) | fr == sg * 0x8000_0000_0000_0000 + be
            * 0x10_0000_0000_0000 + fr),
        e == (((e >> 63u64) & 1) << 63u64) | (((e >> 52u64) & 0x7ff) << 52u64) | (e
            & 0xf_ffff_ffff_ffff) && ((e >> 52u64) & 0x7ff) < 0x800 && (e & 0xf_ffff_ffff_ffff)
            < 0x10_0000_0000_0000 && ((e >> 63u64) & 1 == 1 || (e >> 63u64) & 1 == 0),
        ((e & 0x7fff_ffff_ffff_ffff) > 0x7ff0_0000_0000_0000) == (((e >> 52u64) & 0x7ff) == 0x7ff
            && (e & 0xf_ffff_ffff_ffff) != 0),
        ((e & 0x7fff_ffff_ffff_ffff) == 0x7ff0_0000_0000_0000) == (((e >> 52u64) & 0x7ff)
            == 0x7ff && (e & 0xf_ffff_ffff_ffff) == 0),
        ((e >> 63u64) != 0) == ((e >> 63u64) & 1 == 1),
        (e & 0x7fff_ffff_ffff_ffff) == ((0u64 << 63u64) | (((e >> 52u64) & 0x7ff) << 52u64) | (e
            & 0xf_ffff_ffff_ffff)),
        ((e & 0x7fff_ffff_ffff_ffff) | (a & 0x8000_0000_0000_0000)) == (((if (a >> 63u64) & 1
            == 1 {
            1u64
        } else {
            0u64
        }) << 63u64) | (((e >> 52u64) & 0x7ff) << 52u64) | (e & 0xf_ffff_ffff_ffff)),
        ((e & (!0x8000_0000_0000_0000u64 & 0xffff_ffff_ffff_ffffu64)) | (a
            & 0x8000_0000_0000_0000u64)) == (((if (a >> 63u64) & 1 == 1 {
            1u64
        } else {
            0u64
        }) << 63u64) | (((e >> 52u64) & 0x7ff) << 52u64) | (e & 0xf_ffff_ffff_ffff)),
        (e & (!0x8000_0000_0000_0000u64 & 0xffff_ffff_ffff_ffffu64)) == ((0u64 << 63u64) | (((e
            >> 52u64) & 0x7ff) << 52u64) | (e & 0xf_ffff_ffff_ffff)),
        ((e & 0x7ff0_0000_0000_0000u64) == 0) == (((e >> 52u64) & 0x7ff) == 0),
        e >> 52u64 <= 0xfff,
        (((e >> 52u64) as u32) & 0x7ff) as u64 == (e >> 52u64) & 0x7ff,
        v & 0x7ff == v % 2048 && v & 0x7ff <= 0x7ff,
        sg <= 1 && be <= 0x7ff ==> ((((sg << 63u64) & 0xffff_ffff_ffff_ffff) | ((be << 52u64)
            & 0xffff_ffff_ffff_ffff)) | (fr & 0xf_ffff_ffff_ffff)) == ((sg << 63u64) | (be
            << 52u64) | (fr & 0xf_ffff_ffff_ffff)),
        e & (!lm & 0xffff_ffff_ffff_ffffu64) == e - (e & lm),
        ((e << 1u64) & 0xffff_ffff_ffff_ffffu64 == 0) == (e & 0x7fff_ffff_ffff_ffff == 0),
{
}

/// The shifted masks of the two formats.
pub proof fn lemma_mask_values()
    ensures
        1u64 << 31u64 == 0x8000_0000u64,
        1u64 << 63u64 == 0x8000_0000_0000_0000u64,
        1u64 << 23u64 == 0x80_0000u64,
        1u64 << 52u64 == 0x10_0000_0000_0000u64,
        0xffff_ffffu64 & !(0x8000_0000u64 | 0x7f_ffffu64) == 0x7f80_0000u64,
        0xffff_ffff_ffff_ffffu64 & !(0x8000_0000_0000_0000u64 | 0xf_ffff_ffff_ffffu64)
            == 0x7ff0_0000_0000_0000u64,
{
    lemma_binary32_bits(0, 0, 0, 0, 0, 0, 0, 0);
    lemma_binary64_bits(0, 0, 0, 0, 0, 0, 0);
}

/// The encoding of pi, rounded to nearest, in the format of width `b`.
pub open spec fn pi_enc(b: nat) -> u64 {
    if b == 32 {
        0x4049_0fdb
    } else {
        0x4009_21fb_5444_2d18
    }
}

/// The encoding of minus pi, rounded to nearest, in the format of width `b`.
pub open spec fn neg_pi_enc(b: nat) -> u64 {
    if b == 32 {
        0xc049_0fdb
    } else {
        0xc009_21fb_5444_2d18
    }
}

/// The encoding of pi / 2, rounded to nearest, in the format of width `b`.
pub open spec fn frac_pi_2_enc(b: nat) -> u64 {
    if b == 32 {
        0x3fc9_0fdb
    } else {
        0x3ff9_21fb_5444_2d18
    }
}

/// Whether `(b, s)` is the width and fraction width of binary32 or binary64.
pub open spec fn known_format(b: nat, s: nat) -> bool {
    (b == 32 && s == 23) || (b == 64 && s == 52)
}

/// The fields of an assembled encoding are the parts it was assembled from.
pub proof fn lemma_assemble_fields(neg: bool, bexp: nat, frac: nat, b: nat, s: nat)
    requires
        known_format(b, s),
        bexp < pow2((b - s - 1) as nat),
        frac < pow2(s),
    ensures
        sign_bit(assemble(neg, bexp, frac, b, s), b) == neg,
        exp_field(assemble(neg, bexp, frac, b, s), b, s) == bexp,
        frac_field(assemble(neg, bexp, frac, b, s), s) == frac,
        assemble(neg, bexp, frac, b, s) <= mask_of(b),
{
    lemma_format_constants();
    let sg: u64 = if neg { 1 } else { 0 };
    let be = bexp as u64;
    let fr = frac as u64;
    if b == 32 {
        lemma_binary32_bits(0, 0, sg, be, fr, 0, 0, 0);
    } else {
        lemma_binary64_bits(0, 0, sg, be, fr, 0, 0);
    }
}

/// An encoding is assembled from its fields.
pub proof fn lemma_fields_assemble(e: u64, b: nat, s: nat)
    requires
        known_format(b, s),
        e <= mask_of(b),
    ensures
        e == assemble(sign_bit(e, b), exp_field(e, b, s), frac_field(e, s), b, s),
        exp_field(e, b, s) < pow2((b - s - 1) as nat),
        frac_field(e, s) < pow2(s),
{
    lemma_format_constants();
    if b == 32 {
        lemma_binary32_bits(e, 0, 0, 0, 0, 0, 0, 0);
    } else {
        lemma_binary64_bits(e, 0, 0, 0, 0, 0, 0);
    }
}

/// Building a number from its own sign, exponent field and fraction field gives it back:
/// `from_parts(x.is_sign_negative(), x.ex(), x.frac())` is `x`.
pub proof fn lemma_from_parts_round_trip<F: Float>(x: F)
    ensures
        assemble(
            sign_bit(x.enc(), F::BITS as nat),
            exp_field(x.enc(), F::BITS as nat, F::SIG_BITS as nat) % pow2(F::EXP_BITS as nat),
            frac_field(frac_field(x.enc(), F::SIG_BITS as nat) as u64, F::SIG_BITS as nat),
            F::BITS as nat,
            F::SIG_BITS as nat,
        ) == x.enc(),
{
    F::lemma_format();
    F::lemma_enc(x, x);
    lemma_format_constants();
    let b = F::BITS as nat;
    let s = F::SIG_BITS as nat;
    let e = x.enc();
    lemma_fields_assemble(e, b, s);
    vstd::arithmetic::power2::lemma_pow2_pos(s);
    vstd::arithmetic::div_mod::lemma_small_mod(exp_field(e, b, s), pow2(F::EXP_BITS as nat));
    vstd::bits::lemma_u64_low_bits_mask_is_mod(e, s);
    vstd::bits::lemma_u64_pow2_no_overflow(s);
    let low = e & mask_of(s);
    vstd::bits::lemma_u64_low_bits_mask_is_mod(low, s);
    vstd::arithmetic::div_mod::lemma_small_mod(low as nat, pow2(s));
}

/// Trait for some basic operations on floats
pub trait Float: Copy + Sized {
    /// A uint of the same width as the float
    type Int: Int<Signed = Self::SignedInt>;

    /// A int of the same width as the float
    type SignedInt: Int;

    /// Positive zero.
    fn zero() -> (r: Self)
        ensures
            r.enc() == assemble(false, 0, 0, Self::BITS as nat, Self::SIG_BITS as nat),
    ;

    /// Negative zero.
    fn neg_zero() -> (r: Self)
        ensures
            r.enc() == assemble(true, 0, 0, Self::BITS as nat, Self::SIG_BITS as nat),
    ;

    /// One.
    fn one() -> (r: Self)
        ensures
            r.enc() == assemble(false, Self::EXP_BIAS as nat, 0, Self::BITS as nat, Self::SIG_BITS as nat),
    ;

    /// Minus one.
    fn neg_one() -> (r: Self)
        ensures
            r.enc() == assemble(true, Self::EXP_BIAS as nat, 0, Self::BITS as nat, Self::SIG_BITS as nat),
    ;

    /// Positive infinity.
    fn infinity() -> (r: Self)
        ensures
            r.enc() == assemble(false, Self::EXP_SAT as nat, 0, Self::BITS as nat, Self::SIG_BITS as nat),
    ;

    /// Negative infinity.
    fn neg_infinity() -> (r: Self)
        ensures
            r.enc() == assemble(true, Self::EXP_SAT as nat, 0, Self::BITS as nat, Self::SIG_BITS as nat),
    ;

    /// The quiet NaN with an empty payload.
    fn nan() -> (r: Self)
        ensures
            r.enc() == assemble(false, Self::EXP_SAT as nat, pow2((Self::SIG_BITS - 1) as nat), Self::BITS as nat, Self::SIG_BITS as nat),
    ;

    /// The quiet NaN with an empty payload and the sign bit set.
    fn neg_nan() -> (r: Self)
        ensures
            r.enc() == assemble(true, Self::EXP_SAT as nat, pow2((Self::SIG_BITS - 1) as nat), Self::BITS as nat, Self::SIG_BITS as nat),
    ;

    /// The largest finite value.
    fn max_value() -> (r: Self)
        ensures
            r.enc() == assemble(false, (Self::EXP_SAT - 1) as nat, mask_of(Self::SIG_BITS as nat) as nat, Self::BITS as nat, Self::SIG_BITS as nat),
    ;

    /// The smallest finite value.
    fn min_value() -> (r: Self)
        ensures
            r.enc() == assemble(true, (Self::EXP_SAT - 1) as nat, mask_of(Self::SIG_BITS as nat) as nat, Self::BITS as nat, Self::SIG_BITS as nat),
    ;

    /// The difference between one and the next larger value.
    fn epsilon() -> (r: Self)
        ensures
            r.enc() == assemble(false, (Self::EXP_BIAS - Self::SIG_BITS) as nat, 0, Self::BITS as nat, Self::SIG_BITS as nat),
    ;

    /// The smallest positive normal value.
    fn min_positive_normal() -> (r: Self)
        ensures
            r.enc() == assemble(false, 1, 0, Self::BITS as nat, Self::SIG_BITS as nat),
    ;

    /// pi, rounded to nearest.
    fn pi() -> (r: Self)
        ensures
            r.enc() == pi_enc(Self::BITS as nat),
    ;

    /// minus pi, rounded to nearest.
    fn neg_pi() -> (r: Self)
        ensures
            r.enc() == neg_pi_enc(Self::BITS as nat),
    ;

    /// pi / 2, rounded to nearest.
    fn frac_pi_2() -> (r: Self)
        ensures
            r.enc() == frac_pi_2_enc(Self::BITS as nat),
    ;

    /// The bitwidth of the float type
    const BITS: u32;

    /// The bitwidth of the significand
    const SIG_BITS: u32;

    /// The bitwidth of the exponent
    const EXP_BITS: u32;

    /// The saturated (maximum bitpattern) value of the exponent, i.e. the infinite
    /// representation.
    ///
    /// This shifted fully right, use `EXP_MASK` for the shifted value.
    const EXP_SAT: u32;

    /// The exponent bias value
    const EXP_BIAS: u32;

    /// Maximum unbiased exponent value.
    const EXP_MAX: i32;

    /// Minimum *NORMAL* unbiased exponent value.
    const EXP_MIN: i32;

    /// Minimum subnormal exponent value.
    const EXP_MIN_SUBNORM: i32;

    /// A mask for the sign bit
    const SIGN_MASK: Self::Int;

    /// A mask for the significand
    const SIG_MASK: Self::Int;

    /// A mask for the exponent
    const EXP_MASK: Self::Int;

    /// The implicit bit of the float format
    const IMPLICIT_BIT: Self::Int;

    /// The encoding, zero-extended to 64 bits.
    spec fn enc(self) -> u64;

    /// The format is binary32 or binary64, and the constants are those of the format.
    proof fn lemma_format()
        ensures
            (Self::BITS == 32 && Self::SIG_BITS == 23) || (Self::BITS == 64 && Self::SIG_BITS
                == 52),
            Self::EXP_BITS == Self::BITS - Self::SIG_BITS - 1,
            Self::EXP_SAT as nat == pow2(Self::EXP_BITS as nat) - 1,
            Self::EXP_BIAS as nat == pow2((Self::EXP_BITS - 1) as nat) - 1,
            Self::EXP_MAX == Self::EXP_BIAS as i32,
            Self::EXP_MIN == -(Self::EXP_MAX - 1),
            Self::EXP_MIN_SUBNORM == Self::EXP_MIN - Self::SIG_BITS as i32,
            <Self::Int as Repr>::width() == Self::BITS as nat,
            !<Self::Int as Repr>::is_signed(),
            <Self::SignedInt as Repr>::width() == Self::BITS as nat,
            <Self::SignedInt as Repr>::is_signed(),
            Self::SIGN_MASK.raw() == 1u64 << ((Self::BITS - 1) as u64),
            Self::SIG_MASK.raw() == mask_of(Self::SIG_BITS as nat),
            Self::EXP_MASK.raw() == mask_of(Self::BITS as nat) & !(Self::SIGN_MASK.raw()
                | Self::SIG_MASK.raw()),
            Self::IMPLICIT_BIT.raw() == 1u64 << (Self::SIG_BITS as u64),
    ;

    /// The encoding fits the width, and determines the value.
    proof fn lemma_enc(x: Self, y: Self)
        ensures
            x.enc() <= mask_of(Self::BITS as nat),
            x.enc() == y.enc() ==> x == y,
    ;

    /// Returns `self` transmuted to `Self::Int`
    fn to_bits(self) -> (r: Self::Int)
        ensures
            r.raw() == self.enc(),
    ;

    /// Returns `self` transmuted to `Self::SignedInt`
    fn to_bits_signed(self) -> (r: Self::SignedInt)
        ensures
            r.raw() == self.enc(),
    {
        self.to_bits().signed()
    }

    /// Check bitwise equality.
    fn biteq(self, rhs: Self) -> (r: bool)
        ensures
            r == (self.enc() == rhs.enc()),
    {
        let a = self.to_bits();
        let b = rhs.to_bits();
        proof {
            Self::lemma_format();
            lemma_unsigned_raw(a);
            lemma_unsigned_raw(b);
        }
        a.equals(b)
    }

    /// Checks if two floats have the same bit representation. *Except* for NaNs! NaN can be
    /// represented in multiple different ways.
    ///
    /// This method returns `true` if two NaNs are compared. Use [`biteq`](Self::biteq) instead
    /// if `NaN` should not be treated separately.
    fn eq_repr(self, rhs: Self) -> (r: bool)
        ensures
            r == ((enc_is_nan(self.enc(), Self::BITS as nat, Self::SIG_BITS as nat) && enc_is_nan(
                rhs.enc(),
                Self::BITS as nat,
                Self::SIG_BITS as nat,
            )) || self.enc() == rhs.enc()),
    {
        if self.is_nan() && rhs.is_nan() {
            true
        } else {
            self.biteq(rhs)
        }
    }

    /// Returns true if the value is NaN.
    fn is_nan(self) -> (r: bool)
        ensures
            r == enc_is_nan(self.enc(), Self::BITS as nat, Self::SIG_BITS as nat),
    ;

    /// Returns true if the value is +inf or -inf.
    fn is_infinite(self) -> (r: bool)
        ensures
            r == enc_is_infinite(self.enc(), Self::BITS as nat, Self::SIG_BITS as nat),
    ;

    /// Returns true if the sign is negative. Extracts the sign bit regardless of zero or NaN.
    fn is_sign_negative(self) -> (r: bool)
        ensures
            r == sign_bit(self.enc(), Self::BITS as nat),
    ;

    /// Returns true if the sign is positive. Extracts the sign bit regardless of zero or NaN.
    fn is_sign_positive(self) -> (r: bool)
        ensures
            r == !sign_bit(self.enc(), Self::BITS as nat),
    {
        !self.is_sign_negative()
    }

    /// Returns `self` transmuted from `Self::Int`
    fn from_bits(a: Self::Int) -> (r: Self)
        ensures
            r.enc() == a.raw(),
    ;

    /// Returns if `self` is subnormal: a zero exponent field and a nonzero fraction (a zero is
    /// not subnormal).
    fn is_subnormal(self) -> (r: bool)
        ensures
            r == (exp_field(self.enc(), Self::BITS as nat, Self::SIG_BITS as nat) == 0
                && frac_field(self.enc(), Self::SIG_BITS as nat) != 0),
    {
        let m = self.to_bits().bit_and(Self::EXP_MASK);
        let f = self.frac();
        proof {
            Self::lemma_format();
            Self::lemma_enc(self, self);
            lemma_format_constants();
            lemma_mask_values();
            lemma_unsigned_raw(m);
            let e = self.enc();
            if Self::BITS == 32 {
                lemma_binary32_bits(e, 0, 0, 0, 0, 0, 0, 0);
            } else {
                lemma_binary64_bits(e, 0, 0, 0, 0, 0, 0);
            }
            lemma_unsigned_raw(f);
        }
        m.is_zero() && !f.is_zero()
    }

    /// Returns the exponent, not adjusting for bias, not accounting for subnormals or zero.
    fn ex(self) -> (r: u32)
        ensures
            r as nat == exp_field(self.enc(), Self::BITS as nat, Self::SIG_BITS as nat),
    {
        let x = self.to_bits();
        proof {
            Self::lemma_format();
            Self::lemma_enc(self, self);
            lemma_format_constants();
            lemma_unsigned_raw(x);
        }
        let shifted = x.shift_right(Self::SIG_BITS);
        proof {
            lemma_unsigned_raw(shifted);
            lemma_width_constants();
            let e = self.enc();
            vstd::bits::lemma_u64_shr_is_div(e, Self::SIG_BITS as u64);
            if Self::BITS == 32 {
                lemma_binary32_bits(e, 0, 0, 0, 0, 0, 0, 0);
            } else {
                lemma_binary64_bits(e, 0, 0, 0, 0, 0, 0);
            }
        }
        let wide = <u32 as CastFrom<Self::Int>>::cast_from(shifted);
        let r = wide & Self::EXP_SAT;
        proof {
            let e = self.enc();
            if Self::BITS == 32 {
                lemma_binary32_bits(e, 0, 0, 0, 0, 0, 0, 0);
            } else {
                lemma_binary64_bits(e, 0, 0, 0, 0, 0, 0);
            }
        }
        r
    }

    /// Extract the exponent and adjust it for bias, not accounting for subnormals or zero.
    fn exp_unbiased(self) -> (r: i32)
        ensures
            r == exp_field(self.enc(), Self::BITS as nat, Self::SIG_BITS as nat) - Self::EXP_BIAS,
    {
        let ex = self.ex();
        proof {
            Self::lemma_format();
            lemma_format_constants();
        }
        let s = ex.signed();
        proof {
            Self::lemma_enc(self, self);
            lemma_fields_assemble(self.enc(), Self::BITS as nat, Self::SIG_BITS as nat);
            assert(ex <= 0x7ff);
            crate::support::int_impls::signed32::lemma_i32_bits(s, ex as i32, 0, 0, ex);
            assert(s == ex as i32);
        }
        s - (Self::EXP_BIAS as i32)
    }

    /// Returns the significand with no implicit bit (or the "fractional" part)
    fn frac(self) -> (r: Self::Int)
        ensures
            r.raw() == frac_field(self.enc(), Self::SIG_BITS as nat),
    {
        proof {
            Self::lemma_format();
        }
        self.to_bits().bit_and(Self::SIG_MASK)
    }

    /// Constructs a `Self` from its parts. Inputs are treated as bits and shifted into position.
    fn from_parts(negative: bool, exponent: u32, significand: Self::Int) -> (r: Self)
        ensures
            r.enc() == assemble(
                negative,
                exponent as nat % pow2(Self::EXP_BITS as nat),
                frac_field(significand.raw(), Self::SIG_BITS as nat),
                Self::BITS as nat,
                Self::SIG_BITS as nat,
            ),
    {
        proof {
            Self::lemma_format();
            lemma_format_constants();
            lemma_mask_values();
            <Self::Int as MinInt>::lemma_min_int();
        }
        let sign = if negative {
            Self::Int::ONE
        } else {
            Self::Int::ZERO
        };
        let exp = exponent & Self::EXP_SAT;
        proof {
            lemma_width_constants();
            lemma_unsigned_raw(sign);
        }
        let exp_bits = Self::Int::cast_from(exp);
        let hi = sign.shift_left(Self::BITS - 1);
        let mid = exp_bits.shift_left(Self::SIG_BITS);
        let lo = significand.bit_and(Self::SIG_MASK);
        let bits = hi.bit_or(mid).bit_or(lo);
        proof {
            lemma_unsigned_raw(exp_bits);
            let sg = sign.raw();
            let sr = significand.raw();
            let ev = exp as u64;
            <Self::Int as Repr>::lemma_repr(significand);
            if Self::BITS == 32 {
                lemma_binary32_bits(0, 0, sg, ev, sr, 0, exponent, 0);
            } else {
                lemma_binary64_bits(0, 0, sg, ev, sr, 0, exponent);
            }
        }
        Self::from_bits(bits)
    }

    /// Absolute value: the sign bit cleared.
    fn abs(self) -> (r: Self)
        ensures
            r.enc() == assemble(
                false,
                exp_field(self.enc(), Self::BITS as nat, Self::SIG_BITS as nat),
                frac_field(self.enc(), Self::SIG_BITS as nat),
                Self::BITS as nat,
                Self::SIG_BITS as nat,
            ),
    ;

    /// Returns a number composed of the magnitude of self and the sign of sign.
    fn copysign(self, other: Self) -> (r: Self)
        ensures
            r.enc() == assemble(
                sign_bit(other.enc(), Self::BITS as nat),
                exp_field(self.enc(), Self::BITS as nat, Self::SIG_BITS as nat),
                frac_field(self.enc(), Self::SIG_BITS as nat),
                Self::BITS as nat,
                Self::SIG_BITS as nat,
            ),
    ;

    /// Returns a number that represents the sign of self.
    fn signum(self) -> (r: Self)
        ensures
            enc_is_nan(self.enc(), Self::BITS as nat, Self::SIG_BITS as nat) ==> r == self,
            !enc_is_nan(self.enc(), Self::BITS as nat, Self::SIG_BITS as nat) ==> r.enc()
                == assemble(
                sign_bit(self.enc(), Self::BITS as nat),
                Self::EXP_BIAS as nat,
                0,
                Self::BITS as nat,
                Self::SIG_BITS as nat,
            ),
    {
        if self.is_nan() {
            self
        } else {
            let one = Self::one();
            proof {
                Self::lemma_format();
                lemma_format_constants();
                lemma_assemble_fields(
                    false,
                    Self::EXP_BIAS as nat,
                    0,
                    Self::BITS as nat,
                    Self::SIG_BITS as nat,
                );
            }
            one.copysign(self)
        }
    }

    /// Returns (normalized exponent, normalized significand): the significand shifted left
    /// until its highest set bit is the implicit bit, and one minus the shift.
    fn normalize(significand: Self::Int) -> (r: (i32, Self::Int))
        requires
            significand.raw() < pow2((Self::SIG_BITS + 1) as nat),
        ensures
            r.0 <= 1,
            1 - r.0 <= Self::SIG_BITS + 1,
            r.1.raw() == significand.raw() * pow2((1 - r.0) as nat),
            significand.raw() != 0 ==> pow2(Self::SIG_BITS as nat) <= r.1.raw() < pow2(
                (Self::SIG_BITS + 1) as nat,
            ),
            significand.raw() == 0 ==> r.0 == -(Self::SIG_BITS as int),
    ;

    /// Make a best-effort attempt to canonicalize the number: a NaN gets its quiet bit set,
    /// and any other number is returned as it is.
    fn canonicalize(self) -> (r: Self)
        ensures
            !enc_is_nan(self.enc(), Self::BITS as nat, Self::SIG_BITS as nat) ==> r == self,
            enc_is_nan(self.enc(), Self::BITS as nat, Self::SIG_BITS as nat) ==> {
                &&& r.enc() == self.enc() | (pow2((Self::SIG_BITS - 1) as nat) as u64)
                &&& enc_is_nan(r.enc(), Self::BITS as nat, Self::SIG_BITS as nat)
                &&& sign_bit(r.enc(), Self::BITS as nat) == sign_bit(self.enc(), Self::BITS as nat)
            },
    {
        if self.is_nan() {
            proof {
                Self::lemma_format();
                Self::lemma_enc(self, self);
                lemma_format_constants();
                lemma_width_constants();
                lemma_unsigned_raw(Self::SIG_MASK);
                <Self::Int as MinInt>::lemma_min_int();
                lemma_unsigned_raw(Self::Int::ONE);
            }
            let below = Self::SIG_MASK.shift_right(1);
            proof {
                lemma_unsigned_raw(below);
                crate::generic::ceil::lemma_mask_shr(Self::SIG_BITS as nat, 1);
                vstd::arithmetic::power2::lemma2_to64();
                vstd::arithmetic::power2::lemma2_to64_rest();
                crate::support::int_traits::lemma_wrap_fits(below.val() + 1, false, Self::BITS as nat);
            }
            let quiet = below.wrapping_add(Self::Int::ONE);
            let bits = self.to_bits().bit_or(quiet);
            proof {
                lemma_unsigned_raw(quiet);
                lemma_quiet_bits(self.enc());
            }
            Self::from_bits(bits)
        } else {
            self
        }
    }
}

/// Setting the quiet bit of a NaN keeps its sign and exponent and leaves its fraction nonzero.
proof fn lemma_quiet_bits(e: u64)
    by (bit_vector)
    ensures
        e <= 0xffff_ffff ==> ((((e | 0x40_0000) >> 31u64) & 1 == (e >> 31u64) & 1) && (((e
            | 0x40_0000) >> 23u64) & 0xff == (e >> 23u64) & 0xff) && ((e | 0x40_0000) & 0x7f_ffff
            != 0) && ((e | 0x40_0000) <= 0xffff_ffff)),
        (((e | 0x8_0000_0000_0000) >> 63u64) & 1 == (e >> 63u64) & 1) && (((e
            | 0x8_0000_0000_0000) >> 52u64) & 0x7ff == (e >> 52u64) & 0x7ff) && ((e
            | 0x8_0000_0000_0000) & 0xf_ffff_ffff_ffff != 0),
{
}

/// The IEEE 754 binary32 format, held by its encoding.
#[derive(Clone, Copy, PartialEq, Eq, Structural, Debug)]
pub struct Binary32(pub u32);

/// The IEEE 754 binary64 format, held by its encoding.
#[derive(Clone, Copy, PartialEq, Eq, Structural, Debug)]
pub struct Binary64(pub u64);

/// The width, fraction width and bias of binary32.
pub proof fn lemma_binary32_format()
    ensures
        <Binary32 as Float>::BITS == 32,
        <Binary32 as Float>::SIG_BITS == 23,
        <Binary32 as Float>::EXP_BIAS == 127,
{
}

/// The width, fraction width and bias of binary64.
pub proof fn lemma_binary64_format()
    ensures
        <Binary64 as Float>::BITS == 64,
        <Binary64 as Float>::SIG_BITS == 52,
        <Binary64 as Float>::EXP_BIAS == 1023,
{
}

/// The encodings of the named binary32 values, from their fields.
proof fn lemma_binary32_encodings()
    ensures
        0u64 == assemble(false, 0, 0, 32, 23),
        0x8000_0000u64 == assemble(true, 0, 0, 32, 23),
        0x3f80_0000u64 == assemble(false, 127, 0, 32, 23),
        0xbf80_0000u64 == assemble(true, 127, 0, 32, 23),
        0x7f80_0000u64 == assemble(false, 255, 0, 32, 23),
        0xff80_0000u64 == assemble(true, 255, 0, 32, 23),
        0x7fc0_0000u64 == assemble(false, 255, 0x40_0000, 32, 23),
        0xffc0_0000u64 == assemble(true, 255, 0x40_0000, 32, 23),
        0x7f7f_ffffu64 == assemble(false, 254, 0x7f_ffff, 32, 23),
        0xff7f_ffffu64 == assemble(true, 254, 0x7f_ffff, 32, 23),
        0x3400_0000u64 == assemble(false, 104, 0, 32, 23),
        0x0080_0000u64 == assemble(false, 1, 0, 32, 23),
{
    lemma_binary32_bits(0, 0, 0, 0, 0, 0, 0, 0);
    lemma_binary32_bits(0, 0, 1, 0, 0, 0, 0, 0);
    lemma_binary32_bits(0, 0, 0, 127, 0, 0, 0, 0);
    lemma_binary32_bits(0, 0, 1, 127, 0, 0, 0, 0);
    lemma_binary32_bits(0, 0, 0, 255, 0, 0, 0, 0);
    lemma_binary32_bits(0, 0, 1, 255, 0, 0, 0, 0);
    lemma_binary32_bits(0, 0, 0, 255, 0x40_0000, 0, 0, 0);
    lemma_binary32_bits(0, 0, 1, 255, 0x40_0000, 0, 0, 0);
    lemma_binary32_bits(0, 0, 0, 254, 0x7f_ffff, 0, 0, 0);
    lemma_binary32_bits(0, 0, 1, 254, 0x7f_ffff, 0, 0, 0);
    lemma_binary32_bits(0, 0, 0, 104, 0, 0, 0, 0);
    lemma_binary32_bits(0, 0, 0, 1, 0, 0, 0, 0);
}

impl Float for Binary32 {
    type Int = u32;

    type SignedInt = i32;

    fn zero() -> (r: Self) {
        proof {
            lemma_binary32_encodings();
            lemma_format_constants();
        }
        Binary32(0)
    }

    fn neg_zero() -> (r: Self) {
        proof {
            lemma_binary32_encodings();
            lemma_format_constants();
        }
        Binary32(0x8000_0000)
    }

    fn one() -> (r: Self) {
        proof {
            lemma_binary32_encodings();
            lemma_format_constants();
        }
        Binary32(0x3f80_0000)
    }

    fn neg_one() -> (r: Self) {
        proof {
            lemma_binary32_encodings();
            lemma_format_constants();
        }
        Binary32(0xbf80_0000)
    }

    fn infinity() -> (r: Self) {
        proof {
            lemma_binary32_encodings();
            lemma_format_constants();
        }
        Binary32(0x7f80_0000)
    }

    fn neg_infinity() -> (r: Self) {
        proof {
            lemma_binary32_encodings();
            lemma_format_constants();
        }
        Binary32(0xff80_0000)
    }

    fn nan() -> (r: Self) {
        proof {
            lemma_binary32_encodings();
            lemma_format_constants();
        }
        Binary32(0x7fc0_0000)
    }

    fn neg_nan() -> (r: Self) {
        proof {
            lemma_binary32_encodings();
            lemma_format_constants();
        }
        Binary32(0xffc0_0000)
    }

    fn max_value() -> (r: Self) {
        proof {
            lemma_binary32_encodings();
            lemma_format_constants();
        }
        Binary32(0x7f7f_ffff)
    }

    fn min_value() -> (r: Self) {
        proof {
            lemma_binary32_encodings();
            lemma_format_constants();
        }
        Binary32(0xff7f_ffff)
    }

    fn epsilon() -> (r: Self) {
        proof {
            lemma_binary32_encodings();
            lemma_format_constants();
        }
        Binary32(0x3400_0000)
    }

    fn pi() -> (r: Self) {
        Binary32(0x4049_0fdb)
    }

    fn neg_pi() -> (r: Self) {
        Binary32(0xc049_0fdb)
    }

    fn frac_pi_2() -> (r: Self) {
        Binary32(0x3fc9_0fdb)
    }

    fn min_positive_normal() -> (r: Self) {
        proof {
            lemma_binary32_encodings();
            lemma_format_constants();
        }
        Binary32(0x0080_0000)
    }

    const BITS: u32 = 32;

    const SIG_BITS: u32 = 23;

    const EXP_BITS: u32 = 8;

    const EXP_SAT: u32 = 0xff;

    const EXP_BIAS: u32 = 127;

    const EXP_MAX: i32 = 127;

    const EXP_MIN: i32 = -126;

    const EXP_MIN_SUBNORM: i32 = -149;

    const SIGN_MASK: u32 = 0x8000_0000;

    const SIG_MASK: u32 = 0x7f_ffff;

    const EXP_MASK: u32 = 0x7f80_0000;

    const IMPLICIT_BIT: u32 = 0x80_0000;

    open spec fn enc(self) -> u64 {
        self.0 as u64
    }

    proof fn lemma_format() {
        lemma_format_constants();
        vstd::arithmetic::power2::lemma2_to64();
        assert(Self::BITS == 32);
        assert(Self::SIG_BITS == 23);
        assert(Self::EXP_BITS == 8);
        assert(Self::EXP_SAT == 255);
        assert(Self::EXP_BIAS == 127);
        assert(Self::EXP_MAX == 127);
        assert(Self::EXP_MIN == -126);
        assert(Self::EXP_MIN_SUBNORM == -149);
        assert(Self::SIGN_MASK == 0x8000_0000);
        assert(Self::SIG_MASK == 0x7f_ffff);
        assert(Self::EXP_MASK == 0x7f80_0000);
        assert(Self::IMPLICIT_BIT == 0x80_0000);
        assert(<i32 as Repr>::width() == 32);
        assert(<i32 as Repr>::is_signed());
        assert(<u32 as Repr>::width() == 32);
        lemma_mask_values();
    }

    proof fn lemma_enc(x: Self, y: Self) {
        lemma_format_constants();
    }

    fn to_bits(self) -> (r: u32) {
        assert(self.0.raw() == self.enc());
        self.0
    }

    fn is_nan(self) -> (r: bool) {
        let r = (self.0 & 0x7fff_ffff) > 0x7f80_0000;
        proof {
            lemma_format_constants();
            let v = self.0;
            lemma_binary32_bits(v as u64, 0, 0, 0, 0, 0, v, 0);
        }
        r
    }

    fn is_infinite(self) -> (r: bool) {
        let r = (self.0 & 0x7fff_ffff) == 0x7f80_0000;
        proof {
            lemma_format_constants();
            let v = self.0;
            lemma_binary32_bits(v as u64, 0, 0, 0, 0, 0, v, 0);
        }
        r
    }

    fn is_sign_negative(self) -> (r: bool) {
        let r = (self.0 >> 31) != 0;
        proof {
            let v = self.0;
            lemma_binary32_bits(v as u64, 0, 0, 0, 0, 0, v, 0);
        }
        r
    }

    fn from_bits(a: u32) -> (r: Self) {
        Binary32(a)
    }

    fn abs(self) -> (r: Self) {
        let r = Binary32(self.0 & 0x7fff_ffff);
        proof {
            lemma_format_constants();
            let v = self.0;
            lemma_binary32_bits(v as u64, 0, 0, 0, 0, 0, v, 0);
        }
        r
    }

    fn copysign(self, other: Self) -> (r: Self) {
        let r = Binary32((self.0 & 0x7fff_ffff) | (other.0 & 0x8000_0000));
        proof {
            lemma_format_constants();
            let v = self.0;
            let w = other.0;
            lemma_binary32_bits(v as u64, w as u64, 0, 0, 0, 0, v, w);
        }
        r
    }

    fn normalize(significand: u32) -> (r: (i32, u32)) {
        proof {
            lemma_format_constants();
            vstd::arithmetic::power2::lemma2_to64();
        }
        if significand == 0 {
            return (-23, 0);
        }
        // Shift left until the highest set bit is the implicit bit.
        let mut m = significand;
        let mut shift: u32 = 0;
        while m < 0x80_0000
            invariant
                0 < m < 0x100_0000,
                shift <= 23,
                m == significand * pow2(shift as nat),
                m < 0x80_0000 ==> shift < 23,
            decreases 23 - shift,
        {
            proof {
                vstd::arithmetic::power2::lemma2_to64();
                vstd::arithmetic::power2::lemma2_to64_rest();
                vstd::arithmetic::power2::lemma_pow2_adds(shift as nat, 1);
                assert(significand * pow2((shift + 1) as nat) == 2 * m) by (nonlinear_arith)
                    requires
                        m == significand * pow2(shift as nat),
                        pow2((shift + 1) as nat) == pow2(shift as nat) * 2,
                ;
                if shift + 1 == 23 {
                    assert(2 * m >= 0x80_0000) by (nonlinear_arith)
                        requires
                            2 * m == significand * pow2(23),
                            significand >= 1,
                            pow2(23) == 0x80_0000,
                    ;
                }
            }
            m = m * 2;
            shift = shift + 1;
        }
        (1 - shift as i32, m)
    }
}


/// The encodings of the named binary64 values, from their fields.
proof fn lemma_binary64_encodings()
    ensures
        0u64 == assemble(false, 0, 0, 64, 52),
        0x8000_0000_0000_0000u64 == assemble(true, 0, 0, 64, 52),
        0x3ff0_0000_0000_0000u64 == assemble(false, 1023, 0, 64, 52),
        0xbff0_0000_0000_0000u64 == assemble(true, 1023, 0, 64, 52),
        0x7ff0_0000_0000_0000u64 == assemble(false, 2047, 0, 64, 52),
        0xfff0_0000_0000_0000u64 == assemble(true, 2047, 0, 64, 52),
        0x7ff8_0000_0000_0000u64 == assemble(false, 2047, 0x8_0000_0000_0000, 64, 52),
        0xfff8_0000_0000_0000u64 == assemble(true, 2047, 0x8_0000_0000_0000, 64, 52),
        0x7fef_ffff_ffff_ffffu64 == assemble(false, 2046, 0xf_ffff_ffff_ffff, 64, 52),
        0xffef_ffff_ffff_ffffu64 == assemble(true, 2046, 0xf_ffff_ffff_ffff, 64, 52),
        0x3cb0_0000_0000_0000u64 == assemble(false, 971, 0, 64, 52),
        0x0010_0000_0000_0000u64 == assemble(false, 1, 0, 64, 52),
{
    lemma_binary64_bits(0, 0, 0, 0, 0, 0, 0);
    lemma_binary64_bits(0, 0, 1, 0, 0, 0, 0);
    lemma_binary64_bits(0, 0, 0, 1023, 0, 0, 0);
    lemma_binary64_bits(0, 0, 1, 1023, 0, 0, 0);
    lemma_binary64_bits(0, 0, 0, 2047, 0, 0, 0);
    lemma_binary64_bits(0, 0, 1, 2047, 0, 0, 0);
    lemma_binary64_bits(0, 0, 0, 2047, 0x8_0000_0000_0000, 0, 0);
    lemma_binary64_bits(0, 0, 1, 2047, 0x8_0000_0000_0000, 0, 0);
    lemma_binary64_bits(0, 0, 0, 2046, 0xf_ffff_ffff_ffff, 0, 0);
    lemma_binary64_bits(0, 0, 1, 2046, 0xf_ffff_ffff_ffff, 0, 0);
    lemma_binary64_bits(0, 0, 0, 971, 0, 0, 0);
    lemma_binary64_bits(0, 0, 0, 1, 0, 0, 0);
}

impl Float for Binary64 {
    type Int = u64;

    type SignedInt = i64;

    fn zero() -> (r: Self) {
        proof {
            lemma_binary64_encodings();
            lemma_format_constants();
        }
        Binary64(0)
    }

    fn neg_zero() -> (r: Self) {
        proof {
            lemma_binary64_encodings();
            lemma_format_constants();
        }
        Binary64(0x8000_0000_0000_0000)
    }

    fn one() -> (r: Self) {
        proof {
            lemma_binary64_encodings();
            lemma_format_constants();
        }
        Binary64(0x3ff0_0000_0000_0000)
    }

    fn neg_one() -> (r: Self) {
        proof {
            lemma_binary64_encodings();
            lemma_format_constants();
        }
        Binary64(0xbff0_0000_0000_0000)
    }

    fn infinity() -> (r: Self) {
        proof {
            lemma_binary64_encodings();
            lemma_format_constants();
        }
        Binary64(0x7ff0_0000_0000_0000)
    }

    fn neg_infinity() -> (r: Self) {
        proof {
            lemma_binary64_encodings();
            lemma_format_constants();
        }
        Binary64(0xfff0_0000_0000_0000)
    }

    fn nan() -> (r: Self) {
        proof {
            lemma_binary64_encodings();
            lemma_format_constants();
        }
        Binary64(0x7ff8_0000_0000_0000)
    }

    fn neg_nan() -> (r: Self) {
        proof {
            lemma_binary64_encodings();
            lemma_format_constants();
        }
        Binary64(0xfff8_0000_0000_0000)
    }

    fn max_value() -> (r: Self) {
        proof {
            lemma_binary64_encodings();
            lemma_format_constants();
        }
        Binary64(0x7fef_ffff_ffff_ffff)
    }

    fn min_value() -> (r: Self) {
        proof {
            lemma_binary64_encodings();
            lemma_format_constants();
        }
        Binary64(0xffef_ffff_ffff_ffff)
    }

    fn epsilon() -> (r: Self) {
        proof {
            lemma_binary64_encodings();
            lemma_format_constants();
        }
        Binary64(0x3cb0_0000_0000_0000)
    }

    fn min_positive_normal() -> (r: Self) {
        proof {
            lemma_binary64_encodings();
            lemma_format_constants();
        }
        Binary64(0x0010_0000_0000_0000)
    }

    fn pi() -> (r: Self) {
        Binary64(0x4009_21fb_5444_2d18)
    }

    fn neg_pi() -> (r: Self) {
        Binary64(0xc009_21fb_5444_2d18)
    }

    fn frac_pi_2() -> (r: Self) {
        Binary64(0x3ff9_21fb_5444_2d18)
    }

    const BITS: u32 = 64;

    const SIG_BITS: u32 = 52;

    const EXP_BITS: u32 = 11;

    const EXP_SAT: u32 = 0x7ff;

    const EXP_BIAS: u32 = 1023;

    const EXP_MAX: i32 = 1023;

    const EXP_MIN: i32 = -1022;

    const EXP_MIN_SUBNORM: i32 = -1074;

    const SIGN_MASK: u64 = 0x8000_0000_0000_0000;

    const SIG_MASK: u64 = 0xf_ffff_ffff_ffff;

    const EXP_MASK: u64 = 0x7ff0_0000_0000_0000;

    const IMPLICIT_BIT: u64 = 0x10_0000_0000_0000;

    open spec fn enc(self) -> u64 {
        self.0
    }

    proof fn lemma_format() {
        lemma_format_constants();
        lemma_mask_values();
        vstd::arithmetic::power2::lemma2_to64();
        vstd::arithmetic::power2::lemma2_to64_rest();
        assert(Self::BITS == 64);
        assert(Self::SIG_BITS == 52);
        assert(Self::EXP_BITS == 11);
        assert(Self::EXP_SAT == 2047);
        assert(Self::EXP_BIAS == 1023);
        assert(Self::EXP_MAX == 1023);
        assert(Self::EXP_MIN == -1022);
        assert(Self::EXP_MIN_SUBNORM == -1074);
        assert(Self::SIGN_MASK == 0x8000_0000_0000_0000);
        assert(Self::SIG_MASK == 0xf_ffff_ffff_ffff);
        assert(Self::EXP_MASK == 0x7ff0_0000_0000_0000);
        assert(Self::IMPLICIT_BIT == 0x10_0000_0000_0000);
        assert(<i64 as Repr>::width() == 64);
        assert(<i64 as Repr>::is_signed());
        assert(<u64 as Repr>::width() == 64);
    }

    proof fn lemma_enc(x: Self, y: Self) {
        lemma_format_constants();
    }

    fn to_bits(self) -> (r: u64) {
        assert(self.0.raw() == self.enc());
        self.0
    }

    fn is_nan(self) -> (r: bool) {
        let x = self.0;
        let r = (x & 0x7fff_ffff_ffff_ffff) > 0x7ff0_0000_0000_0000;
        proof {
            lemma_format_constants();
            lemma_binary64_bits(x, 0, 0, 0, 0, 0, 0);
        }
        r
    }

    fn is_infinite(self) -> (r: bool) {
        let x = self.0;
        let r = (x & 0x7fff_ffff_ffff_ffff) == 0x7ff0_0000_0000_0000;
        proof {
            lemma_format_constants();
            lemma_binary64_bits(x, 0, 0, 0, 0, 0, 0);
        }
        r
    }

    fn is_sign_negative(self) -> (r: bool) {
        let x = self.0;
        let r = (x >> 63) != 0;
        proof {
            lemma_binary64_bits(x, 0, 0, 0, 0, 0, 0);
        }
        r
    }

    fn from_bits(a: u64) -> (r: Self) {
        Binary64(a)
    }

    fn abs(self) -> (r: Self) {
        let a = self.0;
        let r = Binary64(a & 0x7fff_ffff_ffff_ffff);
        proof {
            lemma_format_constants();
            lemma_binary64_bits(a, 0, 0, 0, 0, 0, 0);
        }
        r
    }

    fn copysign(self, other: Self) -> (r: Self) {
        let a = self.0;
        let b = other.0;
        let r = Binary64((a & 0x7fff_ffff_ffff_ffff) | (b & 0x8000_0000_0000_0000));
        proof {
            lemma_format_constants();
            lemma_binary64_bits(a, b, 0, 0, 0, 0, 0);
        }
        r
    }

    fn normalize(significand: u64) -> (r: (i32, u64)) {
        proof {
            lemma_format_constants();
            vstd::arithmetic::power2::lemma2_to64();
            vstd::arithmetic::power2::lemma2_to64_rest();
        }
        if significand == 0 {
            return (-52, 0);
        }
        // Shift left until the highest set bit is the implicit bit.
        let mut m = significand;
        let mut shift: u32 = 0;
        while m < 0x10_0000_0000_0000
            invariant
                0 < m < 0x20_0000_0000_0000,
                shift <= 52,
                m == significand * pow2(shift as nat),
                m < 0x10_0000_0000_0000 ==> shift < 52,
            decreases 52 - shift,
        {
            proof {
                vstd::arithmetic::power2::lemma2_to64();
                vstd::arithmetic::power2::lemma2_to64_rest();
                vstd::arithmetic::power2::lemma_pow2_adds(shift as nat, 1);
                assert(significand * pow2((shift + 1) as nat) == 2 * m) by (nonlinear_arith)
                    requires
                        m == significand * pow2(shift as nat),
                        pow2((shift + 1) as nat) == pow2(shift as nat) * 2,
                ;
                if shift + 1 == 52 {
                    assert(2 * m >= 0x10_0000_0000_0000) by (nonlinear_arith)
                        requires
                            2 * m == significand * pow2(52),
                            significand >= 1,
                            pow2(52) == 0x10_0000_0000_0000,
                    ;
                }
            }
            m = m * 2;
            shift = shift + 1;
        }
        (1 - shift as i32, m)
    }
}

} // verus!
