//! Generic `ceil` algorithm.
//!
//! The fraction bits below the unit bit of the encoding are cleared; for a positive number
//! with some of them set, the unit is first added, and a carry out of the fraction field
//! moves into the exponent field.

use vstd::prelude::*;

verus! {

use vstd::arithmetic::power2::{pow2, lemma_pow2_adds, lemma_pow2_pos, lemma_pow2_strictly_increases};
use vstd::arithmetic::div_mod::{lemma_fundamental_div_mod, lemma_fundamental_div_mod_converse};
use crate::support::env::{FpResult, Status, INEXACT_BIT};
use crate::support::float_traits::{
    Float, is_finite, units, one_units, is_neg, sign_bit, exp_field, frac_field, assemble,
    exp_all_ones, enc_magnitude, known_format, lemma_format_constants, lemma_mask_values,
    lemma_binary32_bits, lemma_binary64_bits,
    lemma_fields_assemble, lemma_assemble_fields,
};
use crate::support::int_traits::{Repr, MinInt, Int, mask_of, lemma_unsigned_raw, lemma_width_constants};

/// The least multiple of `u` that is not below `v`.
pub open spec fn ceil_to_multiple(v: int, u: int) -> int {
    -((-v) / u) * u
}

/// Scaling a dividend and a divisor by the same factor scales the remainder.
pub(crate) proof fn lemma_scaled_divmod(a: int, b: int, c: int)
    requires
        a >= 0,
        b > 0,
        c > 0,
    ensures
        (a * c) / (b * c) == a / b,
        (a * c) % (b * c) == (a % b) * c,
{
    let q = a / b;
    let r = a % b;
    lemma_fundamental_div_mod(a, b);
    assert(a * c == q * (b * c) + r * c && 0 <= r * c < b * c) by (nonlinear_arith)
        requires
            a == b * q + r,
            0 <= r < b,
            c > 0,
    ;
    lemma_fundamental_div_mod_converse(a * c, b * c, q, r * c);
}

/// A multiple of `u` is its own ceiling, and so is its negation.
pub(crate) proof fn lemma_ceil_exact(v: int, u: int)
    requires
        u > 0,
        v % u == 0,
    ensures
        ceil_to_multiple(v, u) == v,
        (-v) % u == 0,
{
    let q = v / u;
    lemma_fundamental_div_mod(v, u);
    assert(-v == (-q) * u + 0) by (nonlinear_arith)
        requires
            v == u * q,
    ;
    lemma_fundamental_div_mod_converse(-v, u, -q, 0);
    assert(ceil_to_multiple(v, u) == v) by (nonlinear_arith)
        requires
            (-v) / u == -q,
            v == u * q,
            ceil_to_multiple(v, u) == -((-v) / u) * u,
    ;
}

/// A positive value that is not a multiple of `u` rounds up to the next multiple.
proof fn lemma_ceil_up(m: int, u: int)
    requires
        u > 0,
        m >= 0,
        m % u != 0,
    ensures
        ceil_to_multiple(m, u) == (m / u + 1) * u,
{
    let q = m / u;
    let r = m % u;
    lemma_fundamental_div_mod(m, u);
    assert(-m == (-(q + 1)) * u + (u - r)) by (nonlinear_arith)
        requires
            m == u * q + r,
    ;
    lemma_fundamental_div_mod_converse(-m, u, -(q + 1), u - r);
}

/// A negative value rounds up to the multiple below its magnitude.
proof fn lemma_ceil_down(m: int, u: int)
    requires
        u > 0,
        m >= 0,
    ensures
        ceil_to_multiple(-m, u) == -((m / u) * u),
{
    assert(-(-m) == m);
    assert(-(m / u) * u == -((m / u) * u)) by (nonlinear_arith);
}

/// `2^s - 1` shifted right by `j` is `2^(s - j) - 1`.
pub(crate) proof fn lemma_mask_shr(s: nat, j: nat)
    requires
        j <= s,
    ensures
        (pow2(s) - 1) / (pow2(j) as int) == pow2((s - j) as nat) - 1,
{
    lemma_pow2_adds((s - j) as nat, j);
    lemma_pow2_pos(j);
    lemma_pow2_pos((s - j) as nat);
    assert(pow2(s) - 1 == (pow2((s - j) as nat) - 1) * pow2(j) + (pow2(j) - 1)) by (nonlinear_arith)
        requires
            pow2(s) == pow2((s - j) as nat) * pow2(j),
    ;
    lemma_fundamental_div_mod_converse(
        pow2(s) - 1,
        pow2(j) as int,
        pow2((s - j) as nat) - 1,
        pow2(j) - 1,
    );
}

/// An encoding's value as an integer, from its fields.
pub(crate) proof fn lemma_assemble_value(neg: bool, be: nat, f: nat, b: nat, s: nat)
    requires
        known_format(b, s),
        be < pow2((b - s - 1) as nat),
        f < pow2(s),
    ensures
        assemble(neg, be, f, b, s) as int == (if neg {
            pow2((b - 1) as nat) as int
        } else {
            0int
        }) + be * pow2(s) + f,
{
    lemma_format_constants();
    vstd::arithmetic::power2::lemma2_to64();
    vstd::arithmetic::power2::lemma2_to64_rest();
    let sg: u64 = if neg { 1 } else { 0 };
    let bu = be as u64;
    let fu = f as u64;
    if b == 32 {
        assert((sg << 31u64) | (bu << 23u64) | fu == sg * 0x8000_0000 + bu * 0x80_0000 + fu)
            by (bit_vector)
            requires
                sg <= 1,
                bu < 0x100,
                fu < 0x80_0000,
        ;
    } else {
        assert((sg << 63u64) | (bu << 52u64) | fu == sg * 0x8000_0000_0000_0000 + bu
            * 0x10_0000_0000_0000 + fu) by (bit_vector)
            requires
                sg <= 1,
                bu < 0x800,
                fu < 0x10_0000_0000_0000,
        ;
    }
}

/// The magnitude of a normal number, split by a power of two that divides the unit.
pub(crate) proof fn lemma_normal_split(s: nat, be: nat, fr: nat, k: nat)
    requires
        be >= 1,
        k <= s,
        fr < pow2(s),
    ensures
        ({
            let a = (pow2(s) + fr) as int;
            let c = pow2((be - 1) as nat) as int;
            let d = pow2(k) as int;
            &&& (a * c) / (pow2((be - 1 + k) as nat) as int) == a / d
            &&& (a * c) % (pow2((be - 1 + k) as nat) as int) == (a % d) * c
        }),
        pow2((be - 1 + k) as nat) == pow2(k) * pow2((be - 1) as nat),
{
    lemma_pow2_pos(k);
    lemma_pow2_pos((be - 1) as nat);
    lemma_pow2_adds(k, (be - 1) as nat);
    assert((be - 1 + k) as nat == k + (be - 1) as nat);
    lemma_scaled_divmod(
        (pow2(s) + fr) as int,
        pow2(k) as int,
        pow2((be - 1) as nat) as int,
    );
}

/// Adding `2^k - 1` and clearing the low `k` bits rounds up to a multiple of `2^k`.
pub(crate) proof fn lemma_round_up_bits(y: u64, k: nat, b: nat)
    requires
        b == 32 || b == 64,
        1 <= k <= 52,
        y <= mask_of(b),
    ensures
        (y & (!((pow2(k) - 1) as u64) & mask_of(b))) as int == y as int - (y as int) % (pow2(k) as int),
{
    lemma_format_constants();
    lemma_width_constants();
    vstd::bits::lemma_u64_pow2_no_overflow(k);
    let lm = (pow2(k) - 1) as u64;
    if b == 32 {
        assert(y & (!lm & 0xffff_ffffu64) == y - (y & lm)) by (bit_vector)
            requires
                y <= 0xffff_ffffu64,
        ;
    } else {
        assert(y & (!lm & 0xffff_ffff_ffff_ffffu64) == y - (y & lm)) by (bit_vector);
    }
    vstd::bits::lemma_u64_low_bits_mask_is_mod(y, k);
}

/// Finite numbers whose exponent puts the binary point past the fraction are integers.
pub(crate) proof fn lemma_ceil_integral<F: Float>(x: F)
    requires
        exp_field(x.enc(), F::BITS as nat, F::SIG_BITS as nat) >= F::EXP_BIAS + F::SIG_BITS,
        is_finite(x),
    ensures
        units(x) % (one_units::<F>() as int) == 0,
        ceil_to_multiple(units(x), one_units::<F>() as int) == units(x),
{
    F::lemma_format();
    lemma_format_constants();
    let s = F::SIG_BITS as nat;
    let be = exp_field(x.enc(), F::BITS as nat, s);
    let fr = frac_field(x.enc(), s);
    let u = one_units::<F>();
    let d = (be - 1 - (F::EXP_BIAS + F::SIG_BITS - 1)) as nat;
    lemma_pow2_pos((F::EXP_BIAS + F::SIG_BITS - 1) as nat);
    lemma_pow2_adds(d, (F::EXP_BIAS + F::SIG_BITS - 1) as nat);
    assert((be - 1) as nat == d + (F::EXP_BIAS + F::SIG_BITS - 1) as nat);
    let mag = enc_magnitude(x.enc(), F::BITS as nat, s);
    assert(mag == ((pow2(s) + fr) * pow2(d)) * u) by (nonlinear_arith)
        requires
            mag == (pow2(s) + fr) * pow2((be - 1) as nat),
            pow2((be - 1) as nat) == pow2(d) * u,
    ;
    vstd::arithmetic::div_mod::lemma_mod_multiples_basic(((pow2(s) + fr) * pow2(d)) as int, u as int);
    lemma_ceil_exact(mag as int, u as int);
    if is_neg(x) {
        lemma_ceil_exact(-(mag as int), u as int);
    }
}

/// Numbers of magnitude below one lie strictly between the neighbouring integers.
pub(crate) proof fn lemma_ceil_small<F: Float>(x: F)
    requires
        exp_field(x.enc(), F::BITS as nat, F::SIG_BITS as nat) < F::EXP_BIAS,
    ensures
        is_finite(x),
        enc_magnitude(x.enc(), F::BITS as nat, F::SIG_BITS as nat) < one_units::<F>(),
        (enc_magnitude(x.enc(), F::BITS as nat, F::SIG_BITS as nat) == 0) == ((x.enc() as int) % (pow2(
            (F::BITS - 1) as nat,
        ) as int) == 0),
{
    F::lemma_format();
    F::lemma_enc(x, x);
    lemma_format_constants();
    let b = F::BITS as nat;
    let s = F::SIG_BITS as nat;
    let be = exp_field(x.enc(), b, s);
    let fr = frac_field(x.enc(), s);
    let u = one_units::<F>();
    lemma_fields_assemble(x.enc(), b, s);
    lemma_assemble_value(sign_bit(x.enc(), b), be, fr, b, s);
    lemma_pow2_strictly_increases(s, (F::EXP_BIAS + F::SIG_BITS - 1) as nat);
    if be >= 1 {
        lemma_pow2_adds(s, (be - 1) as nat);
        lemma_pow2_adds(1, s);
        vstd::arithmetic::power2::lemma2_to64();
        lemma_pow2_pos((be - 1) as nat);
        assert((pow2(s) + fr) * pow2((be - 1) as nat) < (2 * pow2(s)) * pow2((be - 1) as nat))
            by (nonlinear_arith)
            requires
                fr < pow2(s),
                pow2((be - 1) as nat) > 0,
        ;
        let top = (s + 1 + (be - 1)) as nat;
        if top < (F::EXP_BIAS + F::SIG_BITS - 1) as nat {
            lemma_pow2_strictly_increases(top, (F::EXP_BIAS + F::SIG_BITS - 1) as nat);
        }
        lemma_pow2_adds((s + 1) as nat, (be - 1) as nat);
        assert(2 * pow2(s) == pow2((s + 1) as nat));
        lemma_pow2_pos(s);
        assert((pow2(s) + fr) * pow2((be - 1) as nat) > 0) by (nonlinear_arith)
            requires
                pow2(s) > 0,
                pow2((be - 1) as nat) > 0,
        ;
    }
    let sgn: int = if sign_bit(x.enc(), b) {
        pow2((b - 1) as nat) as int
    } else {
        0
    };
    lemma_pow2_adds((b - 1 - s) as nat, s);
    assert((b - 1) as nat == (b - 1 - s) as nat + s);
    assert(be * pow2(s) + fr < pow2((b - 1) as nat)) by (nonlinear_arith)
        requires
            be < pow2((b - 1 - s) as nat),
            fr < pow2(s),
            pow2((b - 1) as nat) == pow2((b - 1 - s) as nat) * pow2(s),
    ;
    lemma_pow2_pos((b - 1) as nat);
    if sign_bit(x.enc(), b) {
        lemma_fundamental_div_mod_converse(
            x.enc() as int,
            pow2((b - 1) as nat) as int,
            1,
            (be * pow2(s) + fr) as int,
        );
    } else {
        lemma_fundamental_div_mod_converse(
            x.enc() as int,
            pow2((b - 1) as nat) as int,
            0,
            (be * pow2(s) + fr) as int,
        );
    }
    lemma_pow2_pos(s);
    assert(be * pow2(s) + fr == 0 <==> (be == 0 && fr == 0)) by (nonlinear_arith)
        requires
            pow2(s) > 0,
    ;
}

/// The normal number `x`, whose fraction has set bits below the unit bit `k`, rounded up to a
/// multiple of `2^k` (positive) or down (negative) on its encoding, is its ceiling.
proof fn lemma_ceil_round<F: Float>(x: F, k: nat, r: F)
    requires
        is_finite(x),
        exp_field(x.enc(), F::BITS as nat, F::SIG_BITS as nat) >= F::EXP_BIAS,
        k == F::SIG_BITS + F::EXP_BIAS - exp_field(x.enc(), F::BITS as nat, F::SIG_BITS as nat),
        1 <= k <= F::SIG_BITS,
        (frac_field(x.enc(), F::SIG_BITS as nat) as int) % (pow2(k) as int) != 0,
        x.enc() as int % (pow2(k) as int) == (frac_field(x.enc(), F::SIG_BITS as nat) as int) % (
        pow2(k) as int),
        !is_neg(x) ==> r.enc() as int == (x.enc() + pow2(k) - 1) - (x.enc() + pow2(k) - 1) % (pow2(
            k,
        ) as int),
        is_neg(x) ==> r.enc() as int == x.enc() - (x.enc() as int) % (pow2(k) as int),
    ensures
        is_finite(r),
        units(r) == ceil_to_multiple(units(x), one_units::<F>() as int),
        units(r) != 0,
{
    F::lemma_format();
    F::lemma_enc(x, x);
    F::lemma_enc(r, r);
    lemma_format_constants();
    let b = F::BITS as nat;
    let s = F::SIG_BITS as nat;
    let be = exp_field(x.enc(), b, s);
    let fr = frac_field(x.enc(), s);
    let u = one_units::<F>();
    let pk = pow2(k) as int;
    lemma_fields_assemble(x.enc(), b, s);
    lemma_assemble_value(sign_bit(x.enc(), b), be, fr, b, s);
    lemma_pow2_pos(k);
    lemma_pow2_pos(s);
    lemma_pow2_pos((be - 1) as nat);
    lemma_normal_split(s, be, fr, k);
    assert((F::EXP_BIAS + F::SIG_BITS - 1) as nat == (be - 1 + k) as nat);
    let a = (pow2(s) + fr) as int;
    let c = pow2((be - 1) as nat) as int;
    let q = a / pk;
    let rr = (fr as int) % pk;
    let mag = enc_magnitude(x.enc(), b, s) as int;
    assert(mag == a * c);
    assert(u == pk * c);
    // The fraction bits at or above the unit bit, and the remainder below it.
    lemma_fundamental_div_mod(fr as int, pk);
    lemma_pow2_adds(k, (s - k) as nat);
    assert(s == k + (s - k) as nat);
    assert(a % pk == rr) by {
        vstd::arithmetic::div_mod::lemma_mod_multiples_vanish(
            pow2((s - k) as nat) as int,
            fr as int,
            pk,
        );
    }
    lemma_fundamental_div_mod(a, pk);
    let fd = fr as int - rr;
    assert(fd == pk * ((fr as int) / pk));
    assert(0 <= fd <= pow2(s) - pk) by (nonlinear_arith)
        requires
            fd == pk * ((fr as int) / pk),
            0 <= fr < pow2(s),
            pow2(s) == pk * pow2((s - k) as nat),
            pk > 0,
            0 <= rr < pk,
            fd == fr - rr,
    ;
    assert(pk * c > 0) by (nonlinear_arith)
        requires
            pk > 0,
            c > 0,
    ;
    assert(mag % (u as int) == rr * c);
    assert(rr * c != 0) by (nonlinear_arith)
        requires
            rr != 0,
            c > 0,
    ;
    lemma_ceil_up(mag, u as int);
    lemma_ceil_down(mag, u as int);
    lemma_scaled_divmod(a, pk, c);
    assert(mag / (u as int) == q);
    if !is_neg(x) {
        // Round up: the fraction bits below the unit bit become a carry into the unit bit.
        let e = x.enc() as int;
        assert(e == be * pow2(s) + fr);
        let qe = e / pk;
        lemma_fundamental_div_mod(e, pk);
        assert(e + pk - 1 == (qe + 1) * pk + (rr - 1)) by (nonlinear_arith)
            requires
                e == pk * qe + e % pk,
                e % pk == rr,
        ;
        lemma_fundamental_div_mod_converse(e + pk - 1, pk, qe + 1, rr - 1);
        let f2 = fd + pk;
        assert(r.enc() as int == be * pow2(s) + f2);
        assert(a - rr + pk == (q + 1) * pk) by (nonlinear_arith)
            requires
                a == pk * q + rr,
        ;
        if f2 < pow2(s) {
            lemma_assemble_value(false, be, f2 as nat, b, s);
            F::lemma_enc(r, r);
            lemma_fields_assemble(r.enc(), b, s);
            lemma_assemble_value(
                sign_bit(r.enc(), b),
                exp_field(r.enc(), b, s),
                frac_field(r.enc(), s),
                b,
                s,
            );
            lemma_unique_fields(r.enc(), false, be, f2 as nat, b, s);
            assert(enc_magnitude(r.enc(), b, s) == (pow2(s) + f2) * c);
            assert((pow2(s) + f2) * c == (q + 1) * (pk * c)) by (nonlinear_arith)
                requires
                    pow2(s) + f2 == (q + 1) * pk,
            ;
        } else {
            assert(f2 == pow2(s));
            lemma_pow2_adds((b - 1 - s) as nat, s);
            assert((b - 1) as nat == (b - 1 - s) as nat + s);
            assert(be + 1 < pow2((b - 1 - s) as nat));
            assert(r.enc() as int == (be + 1) * pow2(s) + 0) by (nonlinear_arith)
                requires
                    r.enc() as int == be * pow2(s) + f2,
                    f2 == pow2(s),
            ;
            lemma_unique_fields(r.enc(), false, (be + 1) as nat, 0, b, s);
            lemma_pow2_adds(1, (be - 1) as nat);
            vstd::arithmetic::power2::lemma2_to64();
            assert(be as nat == 1 + (be - 1) as nat);
            assert(enc_magnitude(r.enc(), b, s) == pow2(s) * pow2(be as nat));
            assert(pow2(s) * pow2(be as nat) == (q + 1) * (pk * c)) by (nonlinear_arith)
                requires
                    pow2(be as nat) == 2 * c,
                    2 * pow2(s) == (q + 1) * pk,
            ;
        }
        assert((q + 1) * (pk * c) > 0) by (nonlinear_arith)
            requires
                q >= 0,
                pk > 0,
                c > 0,
        ;
    } else {
        // Round toward zero: the fraction bits below the unit bit are cleared.
        let e = x.enc() as int;
        let sgn = pow2((b - 1) as nat) as int;
        assert(e == sgn + be * pow2(s) + fr);
        assert(r.enc() as int == sgn + be * pow2(s) + fd);
        lemma_unique_fields(r.enc(), true, be, fd as nat, b, s);
        assert(a - rr == q * pk) by (nonlinear_arith)
            requires
                a == pk * q + rr,
        ;
        assert(enc_magnitude(r.enc(), b, s) == (pow2(s) + fd) * c);
        assert((pow2(s) + fd) * c == q * (pk * c)) by (nonlinear_arith)
            requires
                pow2(s) + fd == q * pk,
        ;
        assert(q >= 1) by (nonlinear_arith)
            requires
                a == pk * q + rr,
                a >= pow2(s),
                pow2(s) >= pk,
                rr < pk,
                pk > 0,
        ;
        assert(q * (pk * c) > 0) by (nonlinear_arith)
            requires
                q >= 1,
                pk > 0,
                c > 0,
        ;
    }
}

/// An encoding equal, as an integer, to an assembled one has that one's fields.
pub(crate) proof fn lemma_unique_fields(e: u64, neg: bool, be: nat, f: nat, b: nat, s: nat)
    requires
        known_format(b, s),
        be < pow2((b - s - 1) as nat),
        f < pow2(s),
        e as int == (if neg {
            pow2((b - 1) as nat) as int
        } else {
            0int
        }) + be * pow2(s) + f,
    ensures
        e == assemble(neg, be, f, b, s),
        sign_bit(e, b) == neg,
        exp_field(e, b, s) == be,
        frac_field(e, s) == f,
{
    lemma_assemble_value(neg, be, f, b, s);
    lemma_assemble_fields(neg, be, f, b, s);
}

/// Round `x` up to the nearest integer, and report whether that was inexact.
pub fn ceil_status<F: Float>(x: F) -> (res: FpResult<F>)
    ensures
        !is_finite(x) ==> res.val == x && res.status.flags() == 0,
        is_finite(x) ==> {
            &&& is_finite(res.val)
            &&& units(res.val) == ceil_to_multiple(units(x), one_units::<F>() as int)
            &&& units(res.val) == 0 ==> is_neg(res.val) == is_neg(x)
            &&& res.status.flags() == (if units(x) % (one_units::<F>() as int) == 0 {
                0
            } else {
                INEXACT_BIT
            })
        },
{
    proof {
        F::lemma_format();
        F::lemma_enc(x, x);
        lemma_format_constants();
        lemma_fields_assemble(x.enc(), F::BITS as nat, F::SIG_BITS as nat);
    }
    let mut ix = x.to_bits();
    let e = x.exp_unbiased();

    // If the represented value has no fractional part, no truncation is needed.
    if e >= F::SIG_BITS as i32 {
        proof {
            if is_finite(x) {
                lemma_ceil_integral(x);
            }
        }
        return FpResult::ok(x);
    }
    let ghost b = F::BITS as nat;
    let ghost s = F::SIG_BITS as nat;
    let ghost be = exp_field(x.enc(), b, s);
    let ghost fr = frac_field(x.enc(), s);
    let ghost u = one_units::<F>();
    proof {
        assert(is_finite(x));
        lemma_pow2_pos((F::EXP_BIAS + F::SIG_BITS - 1) as nat);
        lemma_assemble_value(sign_bit(x.enc(), b), be, fr, b, s);
    }

    let status;
    let res = if e >= 0 {
        // |x| >= 1.0
        let sh = e.unsigned();
        proof {
            <i32 as Repr>::lemma_repr(e);
            <u32 as Repr>::lemma_repr(sh);
            lemma_width_constants();
            assert(sh == e);
            lemma_unsigned_raw(F::SIG_MASK);
        }
        let m = F::SIG_MASK.shift_right(sh);
        let ghost k: nat = (s - sh) as nat;
        proof {
            lemma_mask_shr(s, sh as nat);
            lemma_unsigned_raw(m);
            lemma_pow2_pos(k);
            lemma_pow2_pos(s);
            assert(m.raw() == (pow2(k) - 1) as u64);
            vstd::bits::lemma_u64_low_bits_mask_is_mod(x.enc(), k);
            vstd::bits::lemma_u64_pow2_no_overflow(k);
            // The low `k` bits of the encoding are those of the fraction.
            lemma_pow2_adds((s - k) as nat, k);
            lemma_pow2_adds((b - 1 - k) as nat, k);
            assert(s == (s - k) as nat + k);
            assert((b - 1) as nat == (b - 1 - k) as nat + k);
            let sgn: int = if sign_bit(x.enc(), b) {
                pow2((b - 1 - k) as nat) as int
            } else {
                0
            };
            assert(x.enc() as int == (sgn + be * pow2((s - k) as nat)) * pow2(k) + fr)
                by (nonlinear_arith)
                requires
                    x.enc() as int == (if sign_bit(x.enc(), b) {
                        pow2((b - 1) as nat) as int
                    } else {
                        0int
                    }) + be * pow2(s) + fr,
                    pow2(s) == pow2((s - k) as nat) * pow2(k),
                    pow2((b - 1) as nat) == pow2((b - 1 - k) as nat) * pow2(k),
                    sgn == (if sign_bit(x.enc(), b) {
                        pow2((b - 1 - k) as nat) as int
                    } else {
                        0int
                    }),
            ;
            assert(x.enc() as int == pow2(k) * (sgn + be * pow2((s - k) as nat)) + fr)
                by (nonlinear_arith)
                requires
                    x.enc() as int == (sgn + be * pow2((s - k) as nat)) * pow2(k) + fr,
            ;
            vstd::arithmetic::div_mod::lemma_mod_multiples_vanish(
                sgn + be * pow2((s - k) as nat),
                fr as int,
                pow2(k) as int,
            );
            assert(x.enc() as int % (pow2(k) as int) == fr as int % (pow2(k) as int));
            // The unit is the power of two below the fraction bits that are cut off.
            assert(be == F::EXP_BIAS + e);
            assert((F::EXP_BIAS + F::SIG_BITS - 1) as nat == (be - 1 + k) as nat);
            lemma_normal_split(s, be, fr, k);
            assert(((pow2(s) + fr) as int) % (pow2(k) as int) == fr as int % (pow2(k) as int)) by {
                lemma_pow2_adds(k, (s - k) as nat);
                assert(s == k + (s - k) as nat);
                assert(pow2(s) == pow2(k) * pow2((s - k) as nat));
                vstd::arithmetic::div_mod::lemma_mod_multiples_vanish(
                    pow2((s - k) as nat) as int,
                    fr as int,
                    pow2(k) as int,
                );
            }
        }
        let masked = ix.bit_and(m);
        proof {
            lemma_unsigned_raw(masked);
        }
        if masked.is_zero() {
            // Portion to be masked is already zero; no adjustment needed.
            proof {
                let mag = enc_magnitude(x.enc(), b, s) as int;
                assert(mag % (u as int) == 0) by (nonlinear_arith)
                    requires
                        mag % (u as int) == (((pow2(s) + fr) as int) % (pow2(k) as int)) * pow2(
                            (be - 1) as nat,
                        ),
                        ((pow2(s) + fr) as int) % (pow2(k) as int) == 0,
                ;
                lemma_ceil_exact(mag, u as int);
                if is_neg(x) {
                    lemma_ceil_exact(-mag, u as int);
                }
            }
            return FpResult::ok(x);
        }
        // Otherwise, raise an inexact exception.

        status = Status::inexact_flag();
        let ghost mag = enc_magnitude(x.enc(), b, s) as int;
        let ghost rr = fr as int % (pow2(k) as int);
        proof {
            lemma_pow2_pos((be - 1) as nat);
            assert(mag % (u as int) != 0) by (nonlinear_arith)
                requires
                    mag % (u as int) == rr * pow2((be - 1) as nat),
                    rr != 0,
                    pow2((be - 1) as nat) > 0,
            ;
            if is_neg(x) {
                assert((-mag) % (u as int) != 0) by {
                    if (-mag) % (u as int) == 0 {
                        lemma_ceil_exact(-mag, u as int);
                    }
                }
            }
        }
        proof {
            lemma_unsigned_raw(ix);
        }
        if x.is_sign_positive() {
            proof {
                lemma_pow2_strictly_increases(s, b);
                lemma_pow2_adds(1, (b - 1) as nat);
                vstd::arithmetic::power2::lemma2_to64();
                assert(b == 1 + (b - 1) as nat);
                if k < s {
                    lemma_pow2_strictly_increases(k, s);
                }
                lemma_pow2_adds((b - 1 - s) as nat, s);
                assert((b - 1) as nat == (b - 1 - s) as nat + s);
                assert(be * pow2(s) + fr < pow2((b - 1) as nat)) by (nonlinear_arith)
                    requires
                        be < pow2((b - 1 - s) as nat),
                        fr < pow2(s),
                        pow2((b - 1) as nat) == pow2((b - 1 - s) as nat) * pow2(s),
                ;
                crate::support::int_traits::lemma_wrap_fits(
                    ix.val() + m.val(),
                    false,
                    b,
                );
            }
            ix = ix.wrapping_add(m);
            proof {
                lemma_unsigned_raw(ix);
            }
        }
        let ghost y = ix.raw();
        let not_m = m.bit_not();
        ix = ix.bit_and(not_m);
        proof {
            F::lemma_enc(x, x);
            lemma_round_up_bits(y, k, b);
        }
        let r = F::from_bits(ix);
        proof {
            lemma_ceil_round(x, k, r);
        }
        r
    } else {
        // |x| < 1.0, raise an inexact exception since truncation will happen (unless x == 0).
        let doubled = ix.shift_left(1);
        proof {
            lemma_ceil_small(x);
            lemma_unsigned_raw(doubled);
            lemma_width_constants();
            if b == 32 {
                lemma_binary32_bits(x.enc(), 0, 0, 0, 0, 0, 0, 0);
            } else {
                lemma_binary64_bits(x.enc(), 0, 0, 0, 0, 0, 0);
            }
            vstd::bits::lemma_u64_low_bits_mask_is_mod(x.enc(), (b - 1) as nat);
            vstd::arithmetic::power2::lemma2_to64();
            vstd::arithmetic::power2::lemma2_to64_rest();
            let mag = enc_magnitude(x.enc(), b, s) as int;
            if mag == 0 {
                lemma_fundamental_div_mod_converse(0, u as int, 0, 0);
                lemma_ceil_exact(0, u as int);
            } else {
                vstd::arithmetic::div_mod::lemma_small_mod(mag as nat, u);
                lemma_ceil_up(mag, u as int);
                vstd::arithmetic::div_mod::lemma_basic_div(mag, u as int);
                lemma_ceil_down(mag, u as int);
                assert(ceil_to_multiple(-mag, u as int) == 0);
                if (-mag) % (u as int) == 0 {
                    lemma_ceil_exact(-mag, u as int);
                    assert((--mag) % (u as int) == 0);
                }
            }
        }
        if doubled.is_zero() {
            status = Status::ok();
        } else {
            status = Status::inexact_flag();
        }
        if x.is_sign_negative() {
            // -1.0 < x <= -0.0; rounding up goes toward -0.0.
            let r = F::neg_zero();
            proof {
                lemma_assemble_fields(true, 0, 0, b, s);
                assert(units(r) == 0);
                assert(units(r) == ceil_to_multiple(units(x), u as int));
            }
            r
        } else if !doubled.is_zero() {
            // 0.0 < x < 1.0; rounding up goes toward +1.0.
            let r = F::one();
            proof {
                lemma_assemble_fields(false, F::EXP_BIAS as nat, 0, b, s);
                lemma_pow2_adds(s, (F::EXP_BIAS - 1) as nat);
                assert((F::EXP_BIAS + F::SIG_BITS - 1) as nat == s + (F::EXP_BIAS - 1) as nat);
                assert(units(r) == u);
                let mag = enc_magnitude(x.enc(), b, s) as int;
                assert(mag != 0);
                vstd::arithmetic::div_mod::lemma_small_mod(mag as nat, u);
                vstd::arithmetic::div_mod::lemma_basic_div(mag, u as int);
                lemma_ceil_up(mag, u as int);
                assert(mag / (u as int) == 0);
                assert((mag / (u as int) + 1) * (u as int) == u) by (nonlinear_arith)
                    requires
                        mag / (u as int) == 0,
                ;
                assert(ceil_to_multiple(mag, u as int) == u);
                assert(units(x) == mag);
                assert(units(r) == ceil_to_multiple(units(x), u as int));
            }
            r
        } else {
            // +0.0 remains unchanged
            proof {
                assert(units(x) == ceil_to_multiple(units(x), u as int));
            }
            x
        }
    };
    FpResult::new(res, status)
}

/// Round `x` up to the nearest integer.
pub fn ceil<F: Float>(x: F) -> (r: F)
    ensures
        !is_finite(x) ==> r == x,
        is_finite(x) ==> {
            &&& is_finite(r)
            &&& units(r) == ceil_to_multiple(units(x), one_units::<F>() as int)
            &&& units(r) == 0 ==> is_neg(r) == is_neg(x)
        },
{
    ceil_status(x).val
}

} // verus!
