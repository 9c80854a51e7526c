//! Conversions between the binary32 and binary64 formats.
//!
//! Widening is exact: every binary32 number is a binary64 number. Narrowing rounds to the
//! nearest binary32 number, halfway cases to the one with an even significand, and goes to
//! infinity past the largest finite one. A NaN keeps its sign and, as far as it fits, its
//! payload, and becomes quiet.

use vstd::prelude::*;

verus! {

use vstd::arithmetic::power2::{pow2, lemma_pow2_adds, lemma_pow2_pos, lemma_pow2_strictly_increases, lemma_pow2_unfold, lemma2_to64, lemma2_to64_rest};
use crate::support::float_traits::{
    Float, Binary32, Binary64, is_finite, is_neg, units, spec_is_nan, fraction, biased_exp, sign_bit,
    exp_field, frac_field, enc_is_infinite, enc_magnitude, assemble, lemma_format_constants,
    lemma_fields_assemble, lemma_assemble_fields, lemma_binary32_format, lemma_binary64_format,
};
use crate::support::int_traits::abs_int;
use crate::generic::ceil::{lemma_assemble_value, lemma_unique_fields, lemma_scaled_divmod};
use crate::generic::rint::rint_to_multiple;
use crate::generic::floor::floor_to_multiple;
use crate::generic::ceil::ceil_to_multiple;
use crate::generic::{lemma_rounding_brackets, lemma_integral_fixed_point, lemma_rounding_monotonic};
use vstd::arithmetic::div_mod::{lemma_fundamental_div_mod, lemma_fundamental_div_mod_converse};

/// The spacing of the numbers of a format with `shift` fewer fraction bits around a number
/// with biased exponent `be`, in units of the wider format; `scale` is the exponent of the
/// narrower format's unit in those units, below which the spacing does not shrink.
pub open spec fn narrow_spacing(be: nat, shift: nat, scale: nat) -> nat {
    let e: nat = if be == 0 {
        0
    } else {
        (be - 1) as nat
    };
    if e + shift >= scale {
        pow2(e + shift)
    } else {
        pow2(scale)
    }
}

/// What narrowing `x` to `r` means: the value rounded to the nearest number of the narrower
/// format, halfway cases to the even one, and an infinity where that rounded value reaches the
/// first power of two past the narrower format's range; a NaN stays a NaN, quiet, with the top
/// of its payload.
pub open spec fn narrowed<D: Float, H: Float>(x: D, r: H) -> bool {
    &&& is_neg(r) == is_neg(x)
    &&& enc_is_infinite(x.enc(), D::BITS as nat, D::SIG_BITS as nat) ==> enc_is_infinite(
        r.enc(),
        H::BITS as nat,
        H::SIG_BITS as nat,
    )
    &&& spec_is_nan(x) ==> spec_is_nan(r) && fraction(r) == pow2(
        (H::SIG_BITS - 1) as nat,
    ) + (fraction(x) / pow2((D::SIG_BITS - H::SIG_BITS) as nat)) % pow2(
        (H::SIG_BITS - 1) as nat,
    )
    &&& is_finite(x) ==> ({
        let scale = ((D::EXP_BIAS + D::SIG_BITS) - (H::EXP_BIAS
            + H::SIG_BITS)) as nat;
        let rounded = rint_to_multiple(
            units(x),
            narrow_spacing(
                biased_exp(x),
                (D::SIG_BITS - H::SIG_BITS) as nat,
                scale,
            ) as int,
        );
        let limit = pow2((H::EXP_BIAS + D::EXP_BIAS + D::SIG_BITS) as nat);
        &&& abs_int(rounded) >= limit ==> enc_is_infinite(
            r.enc(),
            H::BITS as nat,
            H::SIG_BITS as nat,
        )
        &&& abs_int(rounded) < limit ==> is_finite(r) && units(r) * pow2(scale) == rounded
    })
}

/// What widening `x` to `r` means: the same number in the wider format, and for a NaN a quiet
/// NaN with the same sign and payload.
pub open spec fn widened<H: Float, D: Float>(x: H, r: D) -> bool {
    &&& is_neg(r) == is_neg(x)
    &&& is_finite(x) ==> is_finite(r) && units(r) == units(x) * pow2(
        ((D::EXP_BIAS + D::SIG_BITS) - (H::EXP_BIAS
            + H::SIG_BITS)) as nat,
    )
    &&& enc_is_infinite(x.enc(), H::BITS as nat, H::SIG_BITS as nat) ==> enc_is_infinite(
        r.enc(),
        D::BITS as nat,
        D::SIG_BITS as nat,
    )
    &&& spec_is_nan(x) ==> spec_is_nan(r) && fraction(r) == (pow2((H::SIG_BITS - 1) as nat)
        + fraction(x) % pow2((H::SIG_BITS - 1) as nat)) * pow2(
        (D::SIG_BITS - H::SIG_BITS) as nat,
    )
}

/// Trait for floats twice the bit width of another float.
pub trait DFloat: Float {
    /// Float that is half the bit width of the float this trait is implemented for.
    type H: HFloat<D = Self>;

    /// Narrow the float type to the nearest number of the narrower format.
    fn narrow(self) -> (r: Self::H)
        ensures
            narrowed(self, r),
    ;
}

/// Trait for floats half the bit width of another float.
pub trait HFloat: Float {
    /// Float that is double the bit width of the float this trait is implemented for.
    type D: Float;

    /// Widen the float type to the same number in the wider format.
    fn widen(self) -> (r: Self::D)
        ensures
            widened(self, r),
    ;
}

/// `2^p` for `p` below 64.
fn pow2_u64(p: u64) -> (r: u64)
    requires
        p < 64,
    ensures
        r == pow2(p as nat),
{
    proof {
        vstd::bits::lemma_u64_pow2_no_overflow(p as nat);
        vstd::bits::lemma_u64_shl_is_mul(1, p);
    }
    1u64 << p
}

/// The position of the highest set bit of a nonzero fraction field of binary32.
fn top_bit(f: u64) -> (p: u64)
    requires
        0 < f < 0x80_0000,
    ensures
        p <= 22,
        pow2(p as nat) <= f < pow2((p + 1) as nat),
{
    proof {
        lemma2_to64();
    }
    let mut p: u64 = 22;
    while f < pow2_u64(p)
        invariant
            p <= 22,
            0 < f < pow2((p + 1) as nat),
        decreases p,
    {
        proof {
            if p == 0 {
                assert(pow2(0) == 1) by {
                    lemma2_to64();
                }
            }
        }
        p = p - 1;
    }
    p
}

/// `m / 2^k` rounded to the nearest integer, halfway cases to the even one.
fn round_shift(m: u64, k: u64) -> (q: u64)
    requires
        1 <= k < 64,
        m < 0x20_0000_0000_0000,
    ensures
        q * pow2(k as nat) == rint_to_multiple(m as int, pow2(k as nat) as int),
        q <= m as int / (pow2(k as nat) as int) + 1,
{
    let p = pow2_u64(k);
    proof {
        lemma_pow2_pos(k as nat);
        lemma_pow2_adds(1, (k - 1) as nat);
        assert(k as nat == 1 + (k - 1) as nat);
        lemma2_to64();
        assert(p == 2 * pow2((k - 1) as nat));
    }
    let q0 = m / p;
    let rem = m % p;
    let half = p / 2;
    let q = if rem > half || (rem == half && q0 % 2 == 1) {
        q0 + 1
    } else {
        q0
    };
    proof {
        assert(abs_int(m as int) == m);
        assert(q * p == (if 2 * (m % p) > p || (2 * (m % p) == p && (m / p) % 2 == 1) {
            (m / p + 1) * p
        } else {
            (m / p) * p
        }));
    }
    q
}

/// Rounding to a multiple of `b * c` a number that is `c` times another is rounding that
/// other number to a multiple of `b`, scaled by `c`.
proof fn lemma_rint_scaled(a: int, b: int, c: int)
    requires
        a >= 0,
        b > 0,
        c > 0,
    ensures
        rint_to_multiple(a * c, b * c) == rint_to_multiple(a, b) * c,
{
    lemma_scaled_divmod(a, b, c);
    assert(a * c >= 0) by (nonlinear_arith)
        requires
            a >= 0,
            c > 0,
    ;
    assert(abs_int(a * c) == a * c);
    let q = a / b;
    let r = a % b;
    assert((2 * (r * c) > b * c) == (2 * r > b)) by (nonlinear_arith)
        requires
            c > 0,
    ;
    assert((2 * (r * c) == b * c) == (2 * r == b)) by (nonlinear_arith)
        requires
            c > 0,
    ;
    assert((q + 1) * (b * c) == ((q + 1) * b) * c) by (nonlinear_arith);
    assert(q * (b * c) == (q * b) * c) by (nonlinear_arith);
}

impl HFloat for Binary32 {
    type D = Binary64;

    fn widen(self) -> (r: Binary64) {
        proof {
            lemma_binary32_format();
            lemma_binary64_format();
            lemma_format_constants();
            lemma2_to64();
            lemma2_to64_rest();
            Binary32::lemma_enc(self, self);
            lemma_fields_assemble(self.enc(), 32, 23);
        }
        let bits = self.0 as u64;
        let neg = self.is_sign_negative();
        let be = (bits >> 23u64) & 0xff;
        let fr = bits & 0x7f_ffff;
        let ghost mag = enc_magnitude(self.enc(), 32, 23) as int;
        let (be64, fr64) = if be == 0xff {
            if fr == 0 {
                (0x7ffu64, 0u64)
            } else {
                // A NaN: the payload moves to the top of the wider fraction, quiet bit set.
                (0x7ffu64, (fr % 0x40_0000 + 0x40_0000) * 0x2000_0000)
            }
        } else if be == 0 {
            if fr == 0 {
                (0u64, 0u64)
            } else {
                // A subnormal number is normal in the wider format: its highest set bit
                // becomes the implicit bit.
                let p = top_bit(fr);
                let top = pow2_u64(p);
                let shift = pow2_u64(52 - p);
                proof {
                    assert((fr - top) * shift < pow2(52)) by {
                        lemma_pow2_adds(p as nat, (52 - p) as nat);
                        assert(52 == p + (52 - p));
                        assert((fr - top) * shift < top * shift) by (nonlinear_arith)
                            requires
                                fr - top < top,
                                shift > 0,
                        ;
                    }
                }
                (p + 874, (fr - top) * shift)
            }
        } else {
            (be + 896, fr * 0x2000_0000)
        };
        let sg: u64 = if neg {
            1
        } else {
            0
        };
        let enc = sg * 0x8000_0000_0000_0000 + be64 * 0x10_0000_0000_0000 + fr64;
        let r = Binary64(enc);
        proof {
            assert(be64 < 0x800 && fr64 < 0x10_0000_0000_0000);
            lemma_unique_fields(r.enc(), neg, be64 as nat, fr64 as nat, 64, 52);
            if be < 0xff {
                lemma_widen_value(self, r, be, fr, be64, fr64);
                let mx = enc_magnitude(self.enc(), 32, 23) as int;
                let mr = enc_magnitude(r.enc(), 64, 52) as int;
                assert(units(self) == (if neg {
                    -mx
                } else {
                    mx
                }));
                assert(units(r) == (if neg {
                    -mr
                } else {
                    mr
                }));
                assert(units(r) == units(self) * pow2(925)) by (nonlinear_arith)
                    requires
                        mr == mx * pow2(925),
                        units(r) == (if neg {
                            -mr
                        } else {
                            mr
                        }),
                        units(self) == (if neg {
                            -mx
                        } else {
                            mx
                        }),
                ;
            }
        }
        r
    }
}

impl DFloat for Binary64 {
    type H = Binary32;

    fn narrow(self) -> (r: Binary32) {
        proof {
            lemma_format_constants();
            lemma_binary32_format();
            lemma_binary64_format();
            lemma2_to64();
            lemma2_to64_rest();
            Binary64::lemma_enc(self, self);
            lemma_fields_assemble(self.enc(), 64, 52);
        }
        let bits = self.0;
        let neg = self.is_sign_negative();
        let be = (bits >> 52u64) & 0x7ff;
        let fr = bits & 0xf_ffff_ffff_ffff;
        if be == 0x7ff {
            if fr == 0 {
                make_binary32(neg, 0x7f80_0000)
            } else {
                // A NaN keeps the top of its payload and becomes quiet.
                make_binary32(neg, 0x7f80_0000 + 0x40_0000 + (fr / 0x2000_0000) % 0x40_0000)
            }
        } else {
            narrow_bits(self)
        }
    }
}

/// The magnitude of the widened number is the magnitude of the narrow one, scaled to the
/// smaller unit of the wider format.
proof fn lemma_widen_value(x: Binary32, r: Binary64, be: u64, fr: u64, be64: u64, fr64: u64)
    requires
        be == exp_field(x.enc(), 32, 23),
        fr == frac_field(x.enc(), 23),
        be < 0xff,
        be64 == exp_field(r.enc(), 64, 52),
        fr64 == frac_field(r.enc(), 52),
        be == 0 && fr == 0 ==> be64 == 0 && fr64 == 0,
        be == 0 && fr != 0 ==> exists|p: nat| #![trigger pow2(p)]
            p <= 22 && pow2(p) <= fr < pow2(p + 1) && be64 == p + 874 && fr64 == (fr - pow2(p))
                * pow2((52 - p) as nat),
        be != 0 ==> be64 == be + 896 && fr64 == fr * 0x2000_0000,
    ensures
        enc_magnitude(r.enc(), 64, 52) as int == (enc_magnitude(x.enc(), 32, 23) as int) * (pow2(
            925,
        ) as int),
{
    lemma_format_constants();
    lemma2_to64();
    lemma_pow2_pos(925);
    let mx = enc_magnitude(x.enc(), 32, 23);
    let mr = enc_magnitude(r.enc(), 64, 52);
    if be == 0 && fr == 0 {
        assert(mx == 0 && mr == 0);
        assert(mr == mx * pow2(925)) by (nonlinear_arith)
            requires
                mx == 0 && mr == 0,
        ;
    } else if be == 0 {
        let p = choose|p: nat| #![trigger pow2(p)]
            p <= 22 && pow2(p) <= fr < pow2(p + 1) && be64 == p + 874 && fr64 == (fr - pow2(p))
                * pow2((52 - p) as nat);
        lemma_pow2_adds(p, (52 - p) as nat);
        assert(52 == p + (52 - p) as nat);
        lemma_pow2_adds((52 - p) as nat, (p + 873) as nat);
        assert(925 == (52 - p) + (p + 873));
        let s = pow2((52 - p) as nat);
        let c = pow2((p + 873) as nat);
        assert((pow2(52) + (fr - pow2(p)) * s) * c == fr * pow2(925)) by (nonlinear_arith)
            requires
                pow2(52) == pow2(p) * s,
                pow2(925) == s * c,
        ;
        assert(mx == fr);
        assert(mr == (pow2(52) + fr64) * pow2((be64 - 1) as nat));
        assert((be64 - 1) as nat == (p + 873) as nat);
        assert(mr == mx * pow2(925));
    } else {
        lemma_pow2_adds(29, (be + 895) as nat);
        lemma_pow2_adds((be - 1) as nat, 925);
        assert((be + 895 + 29) as nat == (be - 1) as nat + 925);
        assert(pow2(29) == 0x2000_0000);
        let c = pow2((be - 1) as nat);
        assert((pow2(52) + fr * 0x2000_0000) * pow2((be + 895) as nat) == (pow2(23) + fr) * c
            * pow2(925)) by (nonlinear_arith)
            requires
                pow2(52) == pow2(23) * pow2(29),
                pow2(29) == 0x2000_0000,
                pow2(29) * pow2((be + 895) as nat) == c * pow2(925),
        ;
        assert(mx == (pow2(23) + fr) * c);
        assert(mr == (pow2(52) + fr64) * pow2((be64 - 1) as nat));
        assert(mr == mx * pow2(925));
    }
}

/// The fields of a binary32 encoding given as a sign and the magnitude part of the encoding.
proof fn lemma_narrow_fields(r: Binary32, neg: bool, m: nat)
    requires
        m < 0x8000_0000,
        r.enc() as int == (if neg {
            0x8000_0000int
        } else {
            0
        }) + m,
    ensures
        sign_bit(r.enc(), 32) == neg,
        exp_field(r.enc(), 32, 23) == m / 0x80_0000,
        frac_field(r.enc(), 23) == m % 0x80_0000,
{
    lemma_format_constants();
    lemma2_to64();
    lemma_fundamental_div_mod(m as int, 0x80_0000);
    lemma_unique_fields(r.enc(), neg, m / 0x80_0000, m % 0x80_0000, 32, 23);
}

/// The magnitude of a finite binary32 number from the magnitude part of its encoding: for an
/// exponent field `e` and a significand `q` that may carry into it, `q * 2^(e - 1)`.
proof fn lemma_narrow_magnitude(r: Binary32, e: nat, q: nat)
    requires
        e >= 1,
        0x80_0000 <= q <= 0x100_0000,
        exp_field(r.enc(), 32, 23) == ((e - 1) * 0x80_0000 + q) / 0x80_0000,
        frac_field(r.enc(), 23) == ((e - 1) * 0x80_0000 + q) % 0x80_0000,
        (e - 1) * 0x80_0000 + q < 0x7f80_0000,
    ensures
        enc_magnitude(r.enc(), 32, 23) == q * pow2((e - 1) as nat),
        enc_magnitude(r.enc(), 32, 23) < pow2(277),
{
    lemma_format_constants();
    lemma2_to64();
    let m = ((e - 1) * 0x80_0000 + q) as int;
    let c = pow2((e - 1) as nat);
    if q < 0x100_0000 {
        lemma_fundamental_div_mod_converse(m, 0x80_0000, e as int, q - 0x80_0000);
        assert(enc_magnitude(r.enc(), 32, 23) == (pow2(23) + (q - 0x80_0000)) * c);
    } else {
        lemma_fundamental_div_mod_converse(m, 0x80_0000, (e + 1) as int, 0);
        lemma_pow2_adds(1, (e - 1) as nat);
        assert(e as nat == 1 + (e - 1) as nat);
        assert(enc_magnitude(r.enc(), 32, 23) == pow2(23) * pow2(e as nat));
        assert(pow2(23) * pow2(e as nat) == q * c) by (nonlinear_arith)
            requires
                pow2(e as nat) == 2 * c,
                q == 2 * pow2(23),
        ;
    }
    let be = exp_field(r.enc(), 32, 23);
    let fr = frac_field(r.enc(), 23);
    assert(be <= 254);
    lemma_pow2_adds(24, (be - 1) as nat);
    if be + 23 < 277 {
        lemma_pow2_strictly_increases((be + 23) as nat, 277);
    }
    assert((24 + (be - 1)) as nat == (be + 23) as nat);
    lemma_pow2_pos((be - 1) as nat);
    assert((pow2(23) + fr) * pow2((be - 1) as nat) < pow2(24) * pow2((be - 1) as nat))
        by (nonlinear_arith)
        requires
            fr < pow2(23),
            pow2(24) == 2 * pow2(23),
            pow2((be - 1) as nat) > 0,
    ;
}

/// The result of narrowing a finite number, from the magnitude part of the encoding it gives.
proof fn lemma_narrow_finite(x: Binary64, r: Binary32, m: nat, big: int)
    requires
        is_finite(x),
        m < 0x7f80_0000,
        r.enc() as int == (if is_neg(x) {
            0x8000_0000int
        } else {
            0
        }) + m,
        big == rint_to_multiple(
            enc_magnitude(x.enc(), 64, 52) as int,
            narrow_spacing(exp_field(x.enc(), 64, 52), 29, 925) as int,
        ),
        enc_magnitude(r.enc(), 32, 23) * pow2(925) == big,
        big < pow2(1202),
    ensures
        is_finite(r),
        is_neg(r) == is_neg(x),
        abs_int(
            rint_to_multiple(units(x), narrow_spacing(exp_field(x.enc(), 64, 52), 29, 925) as int),
        ) < pow2(1202),
        units(r) * pow2(925) == rint_to_multiple(
            units(x),
            narrow_spacing(exp_field(x.enc(), 64, 52), 29, 925) as int,
        ),
{
    lemma_format_constants();
    lemma_binary32_format();
    lemma_binary64_format();
    lemma2_to64();
    lemma_narrow_fields(r, is_neg(x), m);
    let mx = enc_magnitude(x.enc(), 64, 52) as int;
    let mr = enc_magnitude(r.enc(), 32, 23) as int;
    let g = narrow_spacing(exp_field(x.enc(), 64, 52), 29, 925) as int;
    lemma_pow2_pos(925);
    assert(g > 0) by {
        let be = exp_field(x.enc(), 64, 52);
        let e: nat = if be == 0 { 0 } else { (be - 1) as nat };
        lemma_pow2_pos(e + 29);
    }
    lemma_rounding_brackets(mx, g);
    lemma_rounding_brackets(0, g);
    lemma_integral_fixed_point(0, g);
    assert(abs_int(units(x)) == mx);
    if is_neg(x) && mx > 0 {
        assert(units(r) * pow2(925) == -big) by (nonlinear_arith)
            requires
                units(r) == -mr,
                mr * pow2(925) == big,
        ;
    } else if is_neg(x) {
        assert(units(x) == 0);
        assert(mr == 0) by (nonlinear_arith)
            requires
                mr * pow2(925) == big,
                big == 0,
                pow2(925) > 0,
                mr >= 0,
        ;
    }
}

/// Narrowing a number of magnitude below half of the narrower format's unit gives zero.
proof fn lemma_narrow_to_zero(x: Binary64)
    requires
        is_finite(x),
        narrow_spacing(exp_field(x.enc(), 64, 52), 29, 925) == pow2(925),
        2 * enc_magnitude(x.enc(), 64, 52) < pow2(925),
    ensures
        rint_to_multiple(enc_magnitude(x.enc(), 64, 52) as int, pow2(925) as int) == 0,
{
    let mx = enc_magnitude(x.enc(), 64, 52) as int;
    lemma_pow2_pos(925);
    lemma_fundamental_div_mod_converse(mx, pow2(925) as int, 0, mx);
    assert(abs_int(mx) == mx);
    assert(0 * (pow2(925) as int) == 0);
}

/// The spacing is positive.
proof fn lemma_spacing_pos(be: nat, shift: nat, scale: nat)
    ensures
        narrow_spacing(be, shift, scale) > 0,
{
    let e: nat = if be == 0 {
        0
    } else {
        (be - 1) as nat
    };
    lemma_pow2_pos(e + shift);
    lemma_pow2_pos(scale);
}

/// The size of a rounded number is the rounded size of the number.
proof fn lemma_rint_abs(v: int, g: int)
    requires
        g > 0,
    ensures
        abs_int(rint_to_multiple(v, g)) == rint_to_multiple(abs_int(v), g),
        rint_to_multiple(abs_int(v), g) >= 0,
{
    let m = abs_int(v);
    assert(abs_int(m) == m);
    let q = if 2 * (m % g) > g || (2 * (m % g) == g && (m / g) % 2 == 1) {
        m / g + 1
    } else {
        m / g
    };
    vstd::arithmetic::div_mod::lemma_div_pos_is_pos(m, g);
    assert(q * g >= 0) by (nonlinear_arith)
        requires
            q >= 0,
            g > 0,
    ;
}

/// Facts about a finite binary64 number with a normal exponent: the significand `M` with
/// its implicit bit, and the magnitude `M * 2^(be - 1)`.
proof fn lemma_narrow_source(x: Binary64)
    requires
        is_finite(x),
        exp_field(x.enc(), 64, 52) >= 1,
    ensures
        enc_magnitude(x.enc(), 64, 52) == (pow2(52) + frac_field(x.enc(), 52)) * pow2(
            (exp_field(x.enc(), 64, 52) - 1) as nat,
        ),
        frac_field(x.enc(), 52) < pow2(52),
        exp_field(x.enc(), 64, 52) < 2047,
{
    lemma_format_constants();
    lemma_binary64_format();
    lemma2_to64();
    Binary64::lemma_enc(x, x);
    lemma_fields_assemble(x.enc(), 64, 52);
}

/// A normal binary64 number whose binary32 exponent would be normal too: its value rounded
/// to the binary32 spacing of its binade is its significand rounded to 24 bits, scaled back.
proof fn lemma_narrow_normal(x: Binary64, q: nat)
    requires
        is_finite(x),
        897 <= exp_field(x.enc(), 64, 52) <= 1150,
        q * pow2(29) == rint_to_multiple(
            (pow2(52) + frac_field(x.enc(), 52)) as int,
            pow2(29) as int,
        ),
    ensures
        narrow_spacing(exp_field(x.enc(), 64, 52), 29, 925) == pow2(
            (exp_field(x.enc(), 64, 52) + 28) as nat,
        ),
        rint_to_multiple(
            enc_magnitude(x.enc(), 64, 52) as int,
            narrow_spacing(exp_field(x.enc(), 64, 52), 29, 925) as int,
        ) == q * pow2((exp_field(x.enc(), 64, 52) + 28) as nat),
        0x80_0000 <= q <= 0x100_0000,
{
    lemma_narrow_source(x);
    lemma2_to64();
    lemma2_to64_rest();
    let be = exp_field(x.enc(), 64, 52);
    let fr = frac_field(x.enc(), 52);
    let c = pow2((be - 1) as nat);
    let big_m = pow2(52) + fr;
    lemma_pow2_pos((be - 1) as nat);
    lemma_pow2_adds(29, (be - 1) as nat);
    assert((29 + (be - 1)) as nat == (be + 28) as nat);
    lemma_rint_scaled(big_m as int, pow2(29) as int, c as int);
    // The rounded significand lies between the multiples of 2^29 around it.
    lemma_rounding_brackets(big_m as int, pow2(29) as int);
    lemma_fundamental_div_mod(big_m as int, pow2(29) as int);
    let fq = big_m as int / (pow2(29) as int);
    assert(0x80_0000 <= fq < 0x100_0000) by (nonlinear_arith)
        requires
            big_m == pow2(29) * fq + big_m as int % (pow2(29) as int),
            0 <= big_m as int % (pow2(29) as int) < pow2(29),
            pow2(52) <= big_m < 2 * pow2(52),
            pow2(29) == 0x2000_0000,
            pow2(52) == 0x10_0000_0000_0000,
    ;
    assert(0x80_0000 <= q <= 0x100_0000) by (nonlinear_arith)
        requires
            q * pow2(29) == fq * pow2(29) || q * pow2(29) == (fq + 1) * pow2(29),
            pow2(29) > 0,
            0x80_0000 <= fq < 0x100_0000,
    ;
    assert(q * pow2(29) * c == q * pow2((be + 28) as nat)) by (nonlinear_arith)
        requires
            pow2((be + 28) as nat) == pow2(29) * c,
    ;
}

/// A binary64 number whose binary32 exponent would be past the largest rounds to at least
/// the limit of the binary32 range.
proof fn lemma_narrow_overflow(x: Binary64)
    requires
        is_finite(x),
        exp_field(x.enc(), 64, 52) >= 1151,
    ensures
        rint_to_multiple(
            enc_magnitude(x.enc(), 64, 52) as int,
            narrow_spacing(exp_field(x.enc(), 64, 52), 29, 925) as int,
        ) >= pow2(1202),
{
    lemma_narrow_source(x);
    lemma2_to64();
    lemma2_to64_rest();
    let be = exp_field(x.enc(), 64, 52);
    let fr = frac_field(x.enc(), 52);
    let g = pow2((be + 28) as nat) as int;
    let low = pow2((be + 51) as nat) as int;
    let mx = enc_magnitude(x.enc(), 64, 52) as int;
    lemma_pow2_pos((be - 1) as nat);
    lemma_pow2_adds(52, (be - 1) as nat);
    assert((52 + (be - 1)) as nat == (be + 51) as nat);
    assert(low <= mx) by (nonlinear_arith)
        requires
            mx == (pow2(52) + fr) * pow2((be - 1) as nat),
            low == pow2(52) * pow2((be - 1) as nat),
            fr >= 0,
            pow2((be - 1) as nat) > 0,
    ;
    // The binade's lowest number is a multiple of the spacing, and stays below the rounding.
    lemma_pow2_adds(23, (be + 28) as nat);
    assert((23 + (be + 28)) as nat == (be + 51) as nat);
    lemma_pow2_pos((be + 28) as nat);
    vstd::arithmetic::div_mod::lemma_mod_multiples_basic(pow2(23) as int, g);
    assert(low == pow2(23) * g);
    lemma_integral_fixed_point(low, g);
    lemma_rounding_monotonic(low, mx, g);
    lemma_rounding_brackets(mx, g);
    if (be + 51) as nat > 1202 {
        lemma_pow2_strictly_increases(1202, (be + 51) as nat);
    }
}

/// A binary64 number whose binary32 exponent would be subnormal: its value rounded to the
/// binary32 unit is its significand rounded to a multiple of `2^k`, scaled back.
proof fn lemma_narrow_subnormal(x: Binary64, k: nat, q: nat)
    requires
        is_finite(x),
        1 <= exp_field(x.enc(), 64, 52) <= 896,
        k == 926 - exp_field(x.enc(), 64, 52),
        q * pow2(k) == rint_to_multiple((pow2(52) + frac_field(x.enc(), 52)) as int, pow2(k) as int),
        q <= (pow2(52) + frac_field(x.enc(), 52)) / pow2(k) + 1,
    ensures
        narrow_spacing(exp_field(x.enc(), 64, 52), 29, 925) == pow2(925),
        rint_to_multiple(enc_magnitude(x.enc(), 64, 52) as int, pow2(925) as int) == q * pow2(925),
        q <= 0x80_0000,
{
    lemma_narrow_source(x);
    lemma2_to64();
    lemma2_to64_rest();
    let be = exp_field(x.enc(), 64, 52);
    let fr = frac_field(x.enc(), 52);
    let c = pow2((be - 1) as nat);
    let big_m = pow2(52) + fr;
    lemma_pow2_pos((be - 1) as nat);
    lemma_pow2_pos(k);
    lemma_pow2_adds(k, (be - 1) as nat);
    assert((k + (be - 1)) as nat == 925);
    lemma_rint_scaled(big_m as int, pow2(k) as int, c as int);
    assert(q * pow2(k) * c == q * pow2(925)) by (nonlinear_arith)
        requires
            pow2(925) == pow2(k) * c,
    ;
    // The significand has 53 bits and the unit bit is at least 30 bits up.
    lemma_pow2_adds(23, 30);
    if k > 30 {
        lemma_pow2_strictly_increases(30, k);
    }
    vstd::arithmetic::div_mod::lemma_div_is_ordered_by_denominator(
        big_m as int,
        pow2(30) as int,
        pow2(k) as int,
    );
    lemma_fundamental_div_mod(big_m as int, pow2(30) as int);
    assert(big_m as int / (pow2(30) as int) < 0x80_0000) by (nonlinear_arith)
        requires
            big_m == pow2(30) * (big_m as int / (pow2(30) as int)) + big_m as int % (pow2(30) as int),
            big_m as int % (pow2(30) as int) >= 0,
            big_m < 0x20_0000_0000_0000,
            pow2(30) == 0x4000_0000,
    ;
}

/// The binary32 number with sign `neg` and magnitude part `m` of its encoding.
fn make_binary32(neg: bool, m: u64) -> (r: Binary32)
    requires
        m < 0x8000_0000,
    ensures
        r.enc() as int == (if neg {
            0x8000_0000int
        } else {
            0
        }) + m,
        sign_bit(r.enc(), 32) == neg,
        exp_field(r.enc(), 32, 23) == m / 0x80_0000,
        frac_field(r.enc(), 23) == m % 0x80_0000,
{
    let sg: u64 = if neg {
        1
    } else {
        0
    };
    let r = Binary32((sg * 0x8000_0000 + m) as u32);
    proof {
        lemma_narrow_fields(r, neg, m as nat);
    }
    r
}

/// Narrowing a finite binary64 number, on its encoding.
fn narrow_bits(x: Binary64) -> (r: Binary32)
    requires
        is_finite(x),
    ensures
        is_neg(r) == is_neg(x),
        ({
            let rounded = rint_to_multiple(
                units(x),
                narrow_spacing(exp_field(x.enc(), 64, 52), 29, 925) as int,
            );
            &&& abs_int(rounded) >= pow2(1202) ==> enc_is_infinite(r.enc(), 32, 23)
            &&& abs_int(rounded) < pow2(1202) ==> is_finite(r) && units(r) * pow2(925) == rounded
        }),
{
    proof {
        lemma_format_constants();
        lemma_binary32_format();
        lemma_binary64_format();
        lemma2_to64();
        lemma2_to64_rest();
        Binary64::lemma_enc(x, x);
        lemma_fields_assemble(x.enc(), 64, 52);
    }
    let bits = x.0;
    let neg = x.is_sign_negative();
    let be = (bits >> 52u64) & 0x7ff;
    let fr = bits & 0xf_ffff_ffff_ffff;
    let ghost mx = enc_magnitude(x.enc(), 64, 52) as int;
    let ghost g = narrow_spacing(be as nat, 29, 925) as int;
    proof {
        lemma_spacing_pos(be as nat, 29, 925);
        lemma_rint_abs(units(x), g);
        assert(abs_int(units(x)) == mx);
    }
    if be >= 1151 {
        let r = make_binary32(neg, 0x7f80_0000);
        proof {
            lemma_narrow_overflow(x);
        }
        r
    } else if be >= 897 {
        let q = round_shift(0x10_0000_0000_0000 + fr, 29);
        proof {
            lemma_narrow_normal(x, q as nat);
        }
        let m = (be - 897) * 0x80_0000 + q;
        if m >= 0x7f80_0000 {
            let r = make_binary32(neg, 0x7f80_0000);
            proof {
                assert(q == 0x100_0000 && be == 1150);
                assert(rint_to_multiple(mx, g) == pow2(1202)) by {
                    lemma_pow2_adds(24, 1178);
                }
            }
            r
        } else {
            let r = make_binary32(neg, m);
            proof {
                lemma_narrow_magnitude(r, (be - 896) as nat, q as nat);
                lemma_pow2_adds((be - 897) as nat, 925);
                assert(((be - 897) + 925) as nat == (be + 28) as nat);
                let mr = enc_magnitude(r.enc(), 32, 23);
                assert(mr * pow2(925) == q * pow2((be + 28) as nat)) by (nonlinear_arith)
                    requires
                        mr == q * pow2((be - 897) as nat),
                        pow2((be + 28) as nat) == pow2((be - 897) as nat) * pow2(925),
                ;
                lemma_pow2_adds(277, 925);
                assert(mr * pow2(925) < pow2(1202)) by (nonlinear_arith)
                    requires
                        mr < pow2(277),
                        pow2(1202) == pow2(277) * pow2(925),
                        pow2(925) > 0,
                ;
                lemma_narrow_finite(x, r, m as nat, rint_to_multiple(mx, g));
            }
            r
        }
    } else if be == 0 {
        let r = make_binary32(neg, 0);
        proof {
            assert(mx == fr);
            lemma_pow2_strictly_increases(53, 925);
            lemma_narrow_to_zero(x);
            assert(enc_magnitude(r.enc(), 32, 23) == 0);
            lemma_pow2_pos(1202);
            lemma_narrow_finite(x, r, 0, 0);
        }
        r
    } else {
        let k = 926 - be;
        let q: u64 = if k < 64 {
            let q = round_shift(0x10_0000_0000_0000 + fr, k);
            proof {
                lemma_narrow_subnormal(x, k as nat, q as nat);
            }
            q
        } else {
            proof {
                lemma_narrow_source(x);
                lemma_pow2_pos((be - 1) as nat);
                lemma_pow2_strictly_increases(53, (k - 1) as nat);
                lemma_pow2_adds((be - 1) as nat, (k - 1) as nat);
                lemma_pow2_adds(1, 924);
                assert(((be - 1) + (k - 1)) as nat == 924);
                assert(2 * mx < pow2(925)) by (nonlinear_arith)
                    requires
                        mx == (pow2(52) + fr) * pow2((be - 1) as nat),
                        fr < pow2(52),
                        pow2(53) == 2 * pow2(52),
                        pow2(53) < pow2((k - 1) as nat),
                        pow2(924) == pow2((be - 1) as nat) * pow2((k - 1) as nat),
                        pow2(925) == 2 * pow2(924),
                        pow2((be - 1) as nat) > 0,
                ;
                lemma_narrow_to_zero(x);
                assert(0 * pow2(925) == 0);
            }
            0
        };
        let r = make_binary32(neg, q);
        proof {
            assert(rint_to_multiple(mx, g) == q * pow2(925));
            let mr = enc_magnitude(r.enc(), 32, 23);
            if q == 0x80_0000 {
                lemma_narrow_magnitude(r, 1, q as nat);
            } else {
                assert(mr == q);
            }
            assert(mr == q);
            lemma_pow2_adds(23, 925);
            lemma_pow2_strictly_increases(948, 1202);
            assert(q * pow2(925) < pow2(1202)) by (nonlinear_arith)
                requires
                    q <= 0x80_0000,
                    pow2(23) == 0x80_0000,
                    pow2(948) == pow2(23) * pow2(925),
                    pow2(948) < pow2(1202),
                    pow2(925) > 0,
            ;
            lemma_narrow_finite(x, r, q as nat, rint_to_multiple(mx, g));
        }
        r
    }
}

/// A number has one power-of-two bracket `2^a <= m < 2^(a + 1)`.
proof fn lemma_bracket_unique(m: int, a: nat, b: nat)
    requires
        pow2(a) <= m < pow2(a + 1),
        pow2(b) <= m < pow2(b + 1),
    ensures
        a == b,
{
    if a + 1 < b {
        lemma_pow2_strictly_increases(a + 1, b);
    } else if b + 1 < a {
        lemma_pow2_strictly_increases(b + 1, a);
    }
}

/// The bracket of a normal magnitude `(2^s + f) * 2^e`.
proof fn lemma_normal_bracket(s: nat, f: nat, e: nat)
    requires
        f < pow2(s),
    ensures
        pow2(s + e) <= (pow2(s) + f) * pow2(e) < pow2(s + e + 1),
{
    lemma_pow2_adds(s, e);
    lemma_pow2_unfold(s + e + 1);
    lemma_pow2_pos(e);
    assert(pow2(s) * pow2(e) <= (pow2(s) + f) * pow2(e) < 2 * (pow2(s) * pow2(e)))
        by (nonlinear_arith)
        requires
            f < pow2(s),
            pow2(e) > 0,
    ;
}

/// A finite binary32 number's magnitude, its bound, and the bracket of a normal one.
proof fn lemma_binary32_magnitude(x: Binary32)
    requires
        is_finite(x),
    ensures
        enc_magnitude(x.enc(), 32, 23) < pow2(277),
        exp_field(x.enc(), 32, 23) == 0 ==> enc_magnitude(x.enc(), 32, 23) < pow2(23),
        exp_field(x.enc(), 32, 23) != 0 ==> pow2((exp_field(x.enc(), 32, 23) + 22) as nat)
            <= enc_magnitude(x.enc(), 32, 23) < pow2((exp_field(x.enc(), 32, 23) + 23) as nat),
{
    lemma_binary32_format();
    lemma_format_constants();
    Binary32::lemma_enc(x, x);
    lemma_fields_assemble(x.enc(), 32, 23);
    let be = exp_field(x.enc(), 32, 23);
    let f = frac_field(x.enc(), 23);
    lemma_pow2_strictly_increases(23, 277);
    if be != 0 {
        lemma_normal_bracket(23, f, (be - 1) as nat);
        assert((23 + (be - 1)) as nat == (be + 22) as nat);
        if be + 23 < 277 {
            lemma_pow2_strictly_increases((be + 23) as nat, 277);
        }
    }
}

/// Finite binary32 numbers with the same sign and magnitude are the same number.
proof fn lemma_binary32_by_magnitude(x: Binary32, r: Binary32)
    requires
        is_finite(x),
        is_finite(r),
        is_neg(x) == is_neg(r),
        enc_magnitude(x.enc(), 32, 23) == enc_magnitude(r.enc(), 32, 23),
    ensures
        r == x,
{
    lemma_binary32_format();
    lemma_format_constants();
    Binary32::lemma_enc(x, r);
    Binary32::lemma_enc(r, x);
    lemma_fields_assemble(x.enc(), 32, 23);
    lemma_fields_assemble(r.enc(), 32, 23);
    lemma_binary32_magnitude(x);
    lemma_binary32_magnitude(r);
    let bx = exp_field(x.enc(), 32, 23);
    let br = exp_field(r.enc(), 32, 23);
    let fx = frac_field(x.enc(), 23);
    let fr = frac_field(r.enc(), 23);
    let m = enc_magnitude(x.enc(), 32, 23) as int;
    if bx != 0 && br == 0 {
        lemma_pow2_strictly_increases(23, (bx + 22) as nat);
    } else if bx == 0 && br != 0 {
        lemma_pow2_strictly_increases(23, (br + 22) as nat);
    } else if bx != 0 {
        lemma_bracket_unique(m, (bx + 22) as nat, (br + 22) as nat);
        let c = pow2((bx - 1) as nat);
        lemma_pow2_pos((bx - 1) as nat);
        assert(fx == fr) by (nonlinear_arith)
            requires
                (pow2(23) + fx) * c == (pow2(23) + fr) * c,
                c > 0,
        ;
    }
    assert(x.enc() == r.enc());
}

/// A binary64 number that is a binary32 one widened is a multiple of the narrowing spacing
/// around it, and below the narrowing overflow limit.
proof fn lemma_widened_on_grid(x: Binary32, w: Binary64)
    requires
        is_finite(x),
        is_finite(w),
        enc_magnitude(w.enc(), 64, 52) == enc_magnitude(x.enc(), 32, 23) * pow2(925),
    ensures
        ({
            let g = narrow_spacing(exp_field(w.enc(), 64, 52), 29, 925) as int;
            (enc_magnitude(w.enc(), 64, 52) as int) % g == 0
        }),
        enc_magnitude(w.enc(), 64, 52) < pow2(1202),
{
    lemma_binary64_format();
    lemma_format_constants();
    Binary64::lemma_enc(w, w);
    lemma_fields_assemble(w.enc(), 64, 52);
    lemma_binary32_magnitude(x);
    lemma_pow2_pos(925);
    lemma_pow2_adds(277, 925);
    lemma_pow2_adds(23, 925);
    let mx = enc_magnitude(x.enc(), 32, 23) as int;
    let mw = enc_magnitude(w.enc(), 64, 52) as int;
    assert(mw < pow2(1202)) by (nonlinear_arith)
        requires
            mw == mx * pow2(925),
            mx < pow2(277),
            pow2(1202) == pow2(277) * pow2(925),
            pow2(925) > 0,
    ;
    let bw = exp_field(w.enc(), 64, 52);
    let ew: nat = if bw == 0 {
        0
    } else {
        (bw - 1) as nat
    };
    let g = narrow_spacing(bw, 29, 925) as int;
    if ew + 29 >= 925 {
        // The spacing is finer than the narrow unit only for numbers too large to come from a
        // subnormal binary32 number; a normal one brings its own 24-bit significand along.
        let fw = frac_field(w.enc(), 52);
        lemma_normal_bracket(52, fw, ew);
        let bx = exp_field(x.enc(), 32, 23);
        if bx == 0 {
            if 948 < 52 + ew {
                lemma_pow2_strictly_increases(948, 52 + ew);
            }
            assert(mw < pow2(948)) by (nonlinear_arith)
                requires
                    mw == mx * pow2(925),
                    mx < pow2(23),
                    pow2(948) == pow2(23) * pow2(925),
                    pow2(925) > 0,
            ;
        }
        let fx = frac_field(x.enc(), 23);
        lemma_fields_assemble(x.enc(), 32, 23);
        let t = (bx - 1 + 925) as nat;
        lemma_pow2_adds((bx - 1) as nat, 925);
        assert(mw == (pow2(23) + fx) * pow2(t)) by (nonlinear_arith)
            requires
                mw == mx * pow2(925),
                mx == (pow2(23) + fx) * pow2((bx - 1) as nat),
                pow2(t) == pow2((bx - 1) as nat) * pow2(925),
        ;
        lemma_normal_bracket(23, fx, t);
        lemma_bracket_unique(mw, 52 + ew, 23 + t);
        assert(g == pow2(t));
        lemma_pow2_pos(t);
        vstd::arithmetic::div_mod::lemma_mod_multiples_basic((pow2(23) + fx) as int, g);
    } else {
        assert(g == pow2(925));
        vstd::arithmetic::div_mod::lemma_mod_multiples_basic(mx, g);
    }
}

/// Widening a binary32 number and narrowing the result gives the number back; a NaN comes
/// back as a quiet NaN with its sign and the rest of its payload.
pub proof fn lemma_widen_narrow_round_trip(x: Binary32, w: Binary64, r: Binary32)
    requires
        widened(x, w),
        narrowed(w, r),
    ensures
        !spec_is_nan(x) ==> r == x,
        spec_is_nan(x) ==> spec_is_nan(r) && is_neg(r) == is_neg(x) && fraction(r) == pow2(22)
            + fraction(x) % pow2(22),
{
    lemma_binary32_format();
    lemma_binary64_format();
    lemma_format_constants();
    lemma2_to64();
    Binary32::lemma_enc(x, r);
    Binary32::lemma_enc(r, x);
    Binary64::lemma_enc(w, w);
    lemma_fields_assemble(x.enc(), 32, 23);
    lemma_fields_assemble(r.enc(), 32, 23);
    lemma_fields_assemble(w.enc(), 64, 52);
    if spec_is_nan(x) {
        let c = (fraction(x) % pow2(22)) as int;
        let a = pow2(22) + c;
        assert(pow2(29) == 0x2000_0000);
        vstd::arithmetic::div_mod::lemma_div_by_multiple(a as int, pow2(29) as int);
        lemma_fundamental_div_mod_converse(a as int, pow2(22) as int, 1, c);
    } else if is_finite(x) {
        let mx = enc_magnitude(x.enc(), 32, 23) as int;
        let mw = enc_magnitude(w.enc(), 64, 52) as int;
        lemma_pow2_pos(925);
        assert(mw == mx * pow2(925)) by (nonlinear_arith)
            requires
                units(w) == units(x) * pow2(925),
                units(x) == (if is_neg(x) {
                    -mx
                } else {
                    mx
                }),
                units(w) == (if is_neg(x) {
                    -mw
                } else {
                    mw
                }),
        ;
        lemma_widened_on_grid(x, w);
        let g = narrow_spacing(exp_field(w.enc(), 64, 52), 29, 925) as int;
        lemma_spacing_pos(exp_field(w.enc(), 64, 52), 29, 925);
        let k = mw / g;
        lemma_fundamental_div_mod(mw, g);
        let kk = if is_neg(x) {
            -k
        } else {
            k
        };
        assert(units(w) == kk * g) by (nonlinear_arith)
            requires
                mw == g * k,
                units(w) == (if is_neg(x) {
                    -mw
                } else {
                    mw
                }),
                kk == (if is_neg(x) {
                    -k
                } else {
                    k
                }),
        ;
        vstd::arithmetic::div_mod::lemma_mod_multiples_basic(kk, g);
        lemma_integral_fixed_point(units(w), g);
        assert(abs_int(units(w)) == mw);
        assert(units(r) == units(x)) by (nonlinear_arith)
            requires
                units(r) * pow2(925) == units(w),
                units(w) == units(x) * pow2(925),
                pow2(925) > 0,
        ;
        let mr = enc_magnitude(r.enc(), 32, 23) as int;
        assert(mr == mx);
        lemma_binary32_by_magnitude(x, r);
    } else {
        assert(x.enc() == r.enc());
    }
}

} // verus!
