//! Generic `round` algorithm: to the nearest integer, halfway cases away from zero.
//!
//! Numbers of magnitude below one round to zero or to one; numbers with fraction bits below
//! the unit bit get half a unit added to their encoding, after which those bits are cleared.
//! A carry out of the fraction field moves into the exponent field, which is where the next
//! binade starts.

use vstd::prelude::*;

verus! {

use vstd::arithmetic::power2::{pow2, lemma_pow2_adds, lemma_pow2_pos, lemma_pow2_strictly_increases};
use vstd::arithmetic::div_mod::{
    lemma_fundamental_div_mod, lemma_fundamental_div_mod_converse, lemma_mod_multiples_vanish,
};
use crate::support::float_traits::{
    Float, is_finite, units, one_units, is_neg, sign_bit, exp_field, frac_field, exp_all_ones,
    enc_magnitude, assemble, lemma_format_constants, lemma_fields_assemble, lemma_assemble_fields,
};
use crate::support::int_traits::{
    Repr, MinInt, Int, abs_int, mask_of, lemma_unsigned_raw, lemma_width_constants, lemma_wrap_fits,
};
use crate::generic::ceil::{
    lemma_assemble_value, lemma_unique_fields, lemma_normal_split, lemma_mask_shr, lemma_ceil_small,
    lemma_ceil_integral, lemma_round_up_bits,
};
use crate::generic::floor::lemma_multiple_negated;

/// The multiple of `u` nearest to `v`; of two equally near, the one farther from zero.
pub open spec fn round_to_multiple(v: int, u: int) -> int {
    let m = abs_int(v);
    let q = if 2 * (m % u) >= u {
        m / u + 1
    } else {
        m / u
    };
    if v < 0 {
        -(q * u)
    } else {
        q * u
    }
}

/// Facts about a finite number whose unit bit `k` lies inside the fraction field: its
/// magnitude in units of one, the remainder below the unit bit, and the parity of the
/// integer part as read from the encoding.
pub(crate) proof fn lemma_grid_source<F: Float>(x: F, k: nat)
    requires
        is_finite(x),
        exp_field(x.enc(), F::BITS as nat, F::SIG_BITS as nat) >= F::EXP_BIAS,
        k == F::SIG_BITS + F::EXP_BIAS - exp_field(x.enc(), F::BITS as nat, F::SIG_BITS as nat),
        1 <= k <= F::SIG_BITS,
    ensures
        ({
            let b = F::BITS as nat;
            let s = F::SIG_BITS as nat;
            let be = exp_field(x.enc(), b, s);
            let fr = frac_field(x.enc(), s) as int;
            let pk = pow2(k) as int;
            let c = pow2((be - 1) as nat) as int;
            let u = one_units::<F>() as int;
            let mag = enc_magnitude(x.enc(), b, s) as int;
            &&& pk > 0 && c > 0
            &&& u == pk * c
            &&& mag / u >= 1
            &&& mag % u == (fr % pk) * c
            &&& (x.enc() as int) % pk == fr % pk
            &&& ((x.enc() as int) / pk) % 2 == (mag / u) % 2
            &&& be + 1 < exp_all_ones(b, s)
        }),
{
    F::lemma_format();
    F::lemma_enc(x, x);
    lemma_format_constants();
    let b = F::BITS as nat;
    let s = F::SIG_BITS as nat;
    let be = exp_field(x.enc(), b, s);
    let fr = frac_field(x.enc(), s) as int;
    let pk = pow2(k) as int;
    let c = pow2((be - 1) as nat) as int;
    let u = one_units::<F>() as int;
    let mag = enc_magnitude(x.enc(), b, s) as int;
    lemma_fields_assemble(x.enc(), b, s);
    lemma_assemble_value(sign_bit(x.enc(), b), be, fr as nat, b, s);
    lemma_pow2_pos(k);
    lemma_pow2_pos(s);
    lemma_pow2_pos((be - 1) as nat);
    lemma_normal_split(s, be, fr as nat, k);
    assert((F::EXP_BIAS + F::SIG_BITS - 1) as nat == (be - 1 + k) as nat);
    let a = pow2(s) + fr;
    assert(mag == a * c);
    // The fraction field is a multiple of the unit bit plus the remainder below it.
    let sk = pow2((s - k) as nat) as int;
    lemma_pow2_adds(k, (s - k) as nat);
    assert(s == k + (s - k) as nat);
    assert(pow2(s) == pk * sk);
    let rr = fr % pk;
    let fq = fr / pk;
    lemma_fundamental_div_mod(fr, pk);
    assert(a == pk * (sk + fq) + rr) by (nonlinear_arith)
        requires
            a == pow2(s) + fr,
            pow2(s) == pk * sk,
            fr == pk * fq + rr,
    ;
    lemma_fundamental_div_mod_converse(a, pk, sk + fq, rr);
    let q = sk + fq;
    assert(mag / u == q && mag % u == rr * c) by {
        lemma_normal_split(s, be, fr as nat, k);
    }
    assert(q >= 1) by (nonlinear_arith)
        requires
            sk > 0,
            fq >= 0,
            q == sk + fq,
    ;
    // The encoding: the sign bit and the exponent field are multiples of the unit bit.
    let hs: int = if sign_bit(x.enc(), b) {
        pow2((b - 1 - k) as nat) as int
    } else {
        0
    };
    lemma_pow2_adds(k, (b - 1 - k) as nat);
    assert((b - 1) as nat == k + (b - 1 - k) as nat);
    let xe = x.enc() as int;
    assert(xe == pk * (hs + be * sk + fq) + rr) by (nonlinear_arith)
        requires
            xe == (if sign_bit(x.enc(), b) {
                pow2((b - 1) as nat) as int
            } else {
                0int
            }) + be * pow2(s) + fr,
            pow2((b - 1) as nat) == pk * pow2((b - 1 - k) as nat),
            hs == (if sign_bit(x.enc(), b) {
                pow2((b - 1 - k) as nat) as int
            } else {
                0int
            }),
            pow2(s) == pk * sk,
            fr == pk * fq + rr,
    ;
    lemma_fundamental_div_mod_converse(xe, pk, hs + be * sk + fq, rr);
    // The encoding's integer part exceeds `q` by an even number.
    let d = hs + (be - 1) * sk;
    assert(d % 2 == 0) by {
        let hs2: int = if sign_bit(x.enc(), b) {
            pow2((b - 2 - k) as nat) as int
        } else {
            0
        };
        lemma_pow2_adds(1, (b - 2 - k) as nat);
        assert((b - 1 - k) as nat == 1 + (b - 2 - k) as nat);
        vstd::arithmetic::power2::lemma2_to64();
        assert(hs == 2 * hs2);
        if s > k {
            lemma_pow2_adds(1, (s - k - 1) as nat);
            assert((s - k) as nat == 1 + (s - k - 1) as nat);
            let sk2 = pow2((s - k - 1) as nat) as int;
            assert(d == 2 * (hs2 + (be - 1) * sk2)) by (nonlinear_arith)
                requires
                    d == hs + (be - 1) * sk,
                    hs == 2 * hs2,
                    sk == 2 * sk2,
            ;
            lemma_mod_multiples_vanish(hs2 + (be - 1) * sk2, 0, 2);
        } else {
            assert(be == F::EXP_BIAS);
            assert(sk == 1) by {
                vstd::arithmetic::power2::lemma2_to64();
            }
            assert(be - 1 == 2 * ((be - 1) / 2)) by {
                assert(be == 127 || be == 1023);
            }
            assert(d == 2 * (hs2 + (be - 1) / 2)) by (nonlinear_arith)
                requires
                    d == hs + (be - 1) * sk,
                    sk == 1,
                    hs == 2 * hs2,
                    be - 1 == 2 * ((be - 1) / 2),
            ;
            lemma_mod_multiples_vanish(hs2 + (be - 1) / 2, 0, 2);
        }
    }
    assert(hs + be * sk + fq == q + d) by (nonlinear_arith)
        requires
            q == sk + fq,
            d == hs + (be - 1) * sk,
    ;
    lemma_fundamental_div_mod(d, 2);
    lemma_mod_multiples_vanish(d / 2, q, 2);
    assert(q + d == 2 * (d / 2) + q);
    // Room above the exponent for a carry.
    assert(be < F::EXP_BIAS + F::SIG_BITS);
}

/// Clearing the bits of a normal number below its unit bit `k`, after adding `t` units to
/// the bits at and above it, gives the number of magnitude `(mag / u + t) * u`.
pub(crate) proof fn lemma_grid_result<F: Float>(x: F, k: nat, t: int, r: F)
    requires
        is_finite(x),
        exp_field(x.enc(), F::BITS as nat, F::SIG_BITS as nat) >= F::EXP_BIAS,
        k == F::SIG_BITS + F::EXP_BIAS - exp_field(x.enc(), F::BITS as nat, F::SIG_BITS as nat),
        1 <= k <= F::SIG_BITS,
        t == 0 || t == 1,
        r.enc() as int == x.enc() as int - (frac_field(x.enc(), F::SIG_BITS as nat) as int) % (
        pow2(k) as int) + t * pow2(k),
    ensures
        is_finite(r),
        is_neg(r) == is_neg(x),
        enc_magnitude(r.enc(), F::BITS as nat, F::SIG_BITS as nat) as int == ((enc_magnitude(
            x.enc(),
            F::BITS as nat,
            F::SIG_BITS as nat,
        ) as int) / (one_units::<F>() as int) + t) * (one_units::<F>() as int),
{
    F::lemma_format();
    F::lemma_enc(x, x);
    F::lemma_enc(r, r);
    lemma_format_constants();
    lemma_grid_source(x, k);
    let b = F::BITS as nat;
    let s = F::SIG_BITS as nat;
    let be = exp_field(x.enc(), b, s);
    let fr = frac_field(x.enc(), s) as int;
    let pk = pow2(k) as int;
    let c = pow2((be - 1) as nat) as int;
    let u = one_units::<F>() as int;
    let mag = enc_magnitude(x.enc(), b, s) as int;
    let q = mag / u;
    let rr = fr % pk;
    lemma_fields_assemble(x.enc(), b, s);
    lemma_assemble_value(sign_bit(x.enc(), b), be, fr as nat, b, s);
    lemma_pow2_pos(s);
    lemma_pow2_pos((F::EXP_BIAS + F::SIG_BITS - 1) as nat);
    lemma_fundamental_div_mod(mag, u);
    lemma_fundamental_div_mod(fr, pk);
    let sk = pow2((s - k) as nat) as int;
    lemma_pow2_adds(k, (s - k) as nat);
    assert(s == k + (s - k) as nat);
    // The fraction bits at and above the unit bit, before and after the added units.
    let fd = fr - rr;
    let f2 = fd + t * pk;
    assert(mag == (u * q) + rr * c);
    assert(pow2(s) + fd == q * pk) by (nonlinear_arith)
        requires
            mag == u * q + rr * c,
            u == pk * c,
            mag == (pow2(s) + fr) * c,
            fd == fr - rr,
            c > 0,
    ;
    assert(0 <= fd <= pow2(s) - pk) by (nonlinear_arith)
        requires
            fd == pk * (fr / pk),
            0 <= fr < pow2(s),
            pow2(s) == pk * sk,
            pk > 0,
            0 <= rr < pk,
            fd == fr - rr,
    ;
    let sg = sign_bit(x.enc(), b);
    let sgn: int = if sg {
        pow2((b - 1) as nat) as int
    } else {
        0
    };
    assert(r.enc() as int == sgn + be * pow2(s) + f2);
    assert((q + t) * u == (pow2(s) + f2) * c) by (nonlinear_arith)
        requires
            pow2(s) + fd == q * pk,
            f2 == fd + t * pk,
            u == pk * c,
    ;
    if f2 < pow2(s) {
        lemma_unique_fields(r.enc(), sg, be, f2 as nat, b, s);
    } else {
        // The carry out of the fraction field moves into the exponent field.
        assert(t == 1 && f2 == pow2(s));
        lemma_pow2_adds((b - 1 - s) as nat, s);
        assert((b - 1) as nat == (b - 1 - s) as nat + s);
        vstd::arithmetic::power2::lemma2_to64();
        assert(r.enc() as int == sgn + (be + 1) * pow2(s) + 0) by (nonlinear_arith)
            requires
                r.enc() as int == sgn + be * pow2(s) + f2,
                f2 == pow2(s),
        ;
        lemma_unique_fields(r.enc(), sg, (be + 1) as nat, 0, b, s);
        lemma_pow2_adds(1, (be - 1) as nat);
        assert(be as nat == 1 + (be - 1) as nat);
        assert((pow2(s) + 0) * pow2(be as nat) == (pow2(s) + f2) * c) by (nonlinear_arith)
            requires
                pow2(be as nat) == 2 * c,
                f2 == pow2(s),
        ;
    }
}

/// The magnitude of a number with a biased exponent below that of one, against half a unit.
pub(crate) proof fn lemma_below_one<F: Float>(x: F)
    requires
        exp_field(x.enc(), F::BITS as nat, F::SIG_BITS as nat) < F::EXP_BIAS,
    ensures
        is_finite(x),
        ({
            let be = exp_field(x.enc(), F::BITS as nat, F::SIG_BITS as nat);
            let mag = enc_magnitude(x.enc(), F::BITS as nat, F::SIG_BITS as nat) as int;
            let u = one_units::<F>() as int;
            &&& mag < u
            &&& be + 1 < F::EXP_BIAS ==> 2 * mag < u
            &&& be + 1 == F::EXP_BIAS ==> u <= 2 * mag
            &&& be + 1 == F::EXP_BIAS ==> ((2 * mag == u) == (frac_field(
                x.enc(),
                F::SIG_BITS as nat,
            ) == 0))
        }),
{
    F::lemma_format();
    lemma_format_constants();
    lemma_ceil_small(x);
    let b = F::BITS as nat;
    let s = F::SIG_BITS as nat;
    let be = exp_field(x.enc(), b, s);
    let fr = frac_field(x.enc(), s) as int;
    let mag = enc_magnitude(x.enc(), b, s) as int;
    let u = one_units::<F>() as int;
    let bias = F::EXP_BIAS as nat;
    F::lemma_enc(x, x);
    lemma_fields_assemble(x.enc(), b, s);
    // Half a unit is the value of the smallest number with the biased exponent below one's.
    let h = pow2((s + bias - 2) as nat) as int;
    lemma_pow2_adds(1, (s + bias - 2) as nat);
    vstd::arithmetic::power2::lemma2_to64();
    assert((F::EXP_BIAS + F::SIG_BITS - 1) as nat == 1 + (s + bias - 2) as nat);
    assert(u == 2 * h);
    if be == 0 {
        lemma_pow2_strictly_increases(s, (s + bias - 2) as nat);
        assert(mag == fr);
    } else {
        let c = pow2((be - 1) as nat) as int;
        lemma_pow2_pos((be - 1) as nat);
        lemma_pow2_adds(s, (be - 1) as nat);
        lemma_pow2_adds((s + 1) as nat, (be - 1) as nat);
        lemma_pow2_adds(1, s);
        assert(mag == (pow2(s) + fr) * c);
        assert(pow2(s) * c <= mag < 2 * pow2(s) * c) by (nonlinear_arith)
            requires
                mag == (pow2(s) + fr) * c,
                0 <= fr < pow2(s),
                c > 0,
        ;
        if be + 1 == F::EXP_BIAS {
            assert((s + (be - 1)) as nat == (s + bias - 2) as nat);
            assert(pow2(s) * c == h);
            assert((2 * mag == u) == (fr == 0)) by (nonlinear_arith)
                requires
                    mag == (pow2(s) + fr) * c,
                    u == 2 * h,
                    h == pow2(s) * c,
                    c > 0,
                    fr >= 0,
            ;
        } else {
            let top = ((s + 1) + (be - 1)) as nat;
            let half_exp = (s + bias - 2) as nat;
            assert(top <= half_exp);
            if top < half_exp {
                lemma_pow2_strictly_increases(top, half_exp);
            }
            assert(2 * pow2(s) * c == pow2(top));
        }
    }
}

/// Adding `add` below the unit to a remainder either stays below the unit or carries one unit.
pub(crate) proof fn lemma_carry(e: int, pk: int, add: int)
    requires
        pk > 0,
        0 <= add < pk,
        e >= 0,
    ensures
        (e + add) - (e + add) % pk == e - e % pk + (if e % pk + add >= pk {
            pk
        } else {
            0
        }),
{
    lemma_fundamental_div_mod(e, pk);
    let q = e / pk;
    let r = e % pk;
    if r + add >= pk {
        assert(e + add == (q + 1) * pk + (r + add - pk)) by (nonlinear_arith)
            requires
                e == pk * q + r,
        ;
        lemma_fundamental_div_mod_converse(e + add, pk, q + 1, r + add - pk);
    } else {
        assert(e + add == q * pk + (r + add)) by (nonlinear_arith)
            requires
                e == pk * q + r,
        ;
        lemma_fundamental_div_mod_converse(e + add, pk, q, r + add);
    }
}

/// Adds `add` to the encoding of the normal number `x`, whose unit bit is `k = SIG_BITS - sh`,
/// and clears the bits below the unit bit.
pub(crate) fn add_and_clear<F: Float>(x: F, sh: u32, add: F::Int) -> (r: F)
    requires
        is_finite(x),
        exp_field(x.enc(), F::BITS as nat, F::SIG_BITS as nat) == F::EXP_BIAS + sh,
        sh < F::SIG_BITS,
        add.raw() < pow2((F::SIG_BITS - sh) as nat),
    ensures
        r.enc() as int == (x.enc() + add.raw()) - (x.enc() + add.raw()) % (pow2(
            (F::SIG_BITS - sh) as nat,
        ) as int),
{
    proof {
        F::lemma_format();
        F::lemma_enc(x, x);
        lemma_format_constants();
        lemma_width_constants();
        lemma_unsigned_raw(F::SIG_MASK);
        lemma_unsigned_raw(add);
    }
    let ghost b = F::BITS as nat;
    let ghost s = F::SIG_BITS as nat;
    let ghost k = (s - sh) as nat;
    let m = F::SIG_MASK.shift_right(sh);
    let ix = x.to_bits();
    proof {
        lemma_mask_shr(s, sh as nat);
        lemma_unsigned_raw(m);
        lemma_unsigned_raw(ix);
        lemma_pow2_pos(k);
        lemma_pow2_pos(s);
        assert(m.raw() == (pow2(k) - 1) as u64);
        lemma_grid_source(x, k);
        let be = exp_field(x.enc(), b, s);
        let fr = frac_field(x.enc(), s);
        lemma_fields_assemble(x.enc(), b, s);
        lemma_assemble_value(sign_bit(x.enc(), b), be, fr, b, s);
        // The sum stays below the top of the encoding.
        if k < s {
            lemma_pow2_strictly_increases(k, s);
        }
        lemma_pow2_adds((b - 1 - s) as nat, s);
        assert((b - 1) as nat == (b - 1 - s) as nat + s);
        lemma_pow2_adds(1, (b - 1) as nat);
        assert(b == 1 + (b - 1) as nat);
        vstd::arithmetic::power2::lemma2_to64();
        vstd::arithmetic::power2::lemma2_to64_rest();
        assert(be * pow2(s) + fr + pow2(s) < pow2((b - 1) as nat)) by (nonlinear_arith)
            requires
                be + 2 < pow2((b - 1 - s) as nat),
                fr < pow2(s),
                pow2((b - 1) as nat) == pow2((b - 1 - s) as nat) * pow2(s),
        ;
        lemma_wrap_fits(ix.val() + add.val(), false, b);
    }
    let y = ix.wrapping_add(add);
    let not_m = m.bit_not();
    let cleared = y.bit_and(not_m);
    proof {
        lemma_unsigned_raw(y);
        lemma_round_up_bits(y.raw(), k, b);
    }
    F::from_bits(cleared)
}

/// Round `x` to the nearest integer, halfway cases away from zero.
pub fn round<F: Float>(x: F) -> (r: F)
    ensures
        !is_finite(x) ==> r == x,
        is_finite(x) ==> {
            &&& is_finite(r)
            &&& units(r) == round_to_multiple(units(x), one_units::<F>() as int)
            &&& units(r) == 0 ==> is_neg(r) == is_neg(x)
        },
{
    proof {
        F::lemma_format();
        F::lemma_enc(x, x);
        lemma_format_constants();
        lemma_fields_assemble(x.enc(), F::BITS as nat, F::SIG_BITS as nat);
        lemma_pow2_pos((F::EXP_BIAS + F::SIG_BITS - 1) as nat);
    }
    let ghost b = F::BITS as nat;
    let ghost s = F::SIG_BITS as nat;
    let ghost u = one_units::<F>() as int;
    let e = x.exp_unbiased();
    if e >= F::SIG_BITS as i32 {
        // No fractional part (or not a finite number): nothing to round.
        proof {
            if is_finite(x) {
                lemma_round_integral(x);
            }
        }
        return x;
    }
    if e < 0 {
        proof {
            lemma_below_one(x);
            lemma_assemble_fields(false, 0, 0, b, s);
            lemma_assemble_fields(false, F::EXP_BIAS as nat, 0, b, s);
            lemma_assemble_fields(sign_bit(x.enc(), b), 0, 0, b, s);
            lemma_assemble_fields(sign_bit(x.enc(), b), F::EXP_BIAS as nat, 0, b, s);
            lemma_one_units::<F>();
            let mag = enc_magnitude(x.enc(), b, s) as int;
            lemma_fundamental_div_mod_converse(mag, u, 0, mag);
            assert(abs_int(units(x)) == mag);
        }
        if e == -1 {
            // 0.5 <= |x| < 1.0 rounds away from zero, to one.
            return F::one().copysign(x);
        } else {
            // |x| < 0.5 rounds to zero, keeping the sign.
            return F::zero().copysign(x);
        }
    }
    let sh = e.unsigned();
    proof {
        <i32 as Repr>::lemma_repr(e);
        <u32 as Repr>::lemma_repr(sh);
        lemma_width_constants();
        assert(sh == e);
        lemma_unsigned_raw(F::SIG_MASK);
    }
    let ghost k = (s - sh) as nat;
    let half = F::SIG_MASK.shift_right(sh).shift_right(1).wrapping_add(F::Int::ONE);
    proof {
        lemma_mask_shr(s, sh as nat);
        lemma_mask_shr(k, 1);
        <F::Int as MinInt>::lemma_min_int();
        lemma_unsigned_raw(half);
        lemma_pow2_pos(k);
        lemma_pow2_pos((k - 1) as nat);
        lemma_pow2_adds(1, (k - 1) as nat);
        assert(k == 1 + (k - 1) as nat);
        vstd::arithmetic::power2::lemma2_to64();
        lemma_wrap_fits(pow2((k - 1) as nat) - 1 + 1, false, b);
        assert(half.raw() == pow2((k - 1) as nat));
        assert(pow2(k) == 2 * pow2((k - 1) as nat));
    }
    let r = add_and_clear(x, sh, half);
    proof {
        let pk = pow2(k) as int;
        let hk = pow2((k - 1) as nat) as int;
        let fr = frac_field(x.enc(), s) as int;
        let rr = fr % pk;
        lemma_grid_source(x, k);
        lemma_carry(x.enc() as int, pk, hk);
        let t: int = if rr + hk >= pk {
            1
        } else {
            0
        };
        lemma_grid_result(x, k, t, r);
        let be = exp_field(x.enc(), b, s);
        let c = pow2((be - 1) as nat) as int;
        let mag = enc_magnitude(x.enc(), b, s) as int;
        assert((2 * (mag % u) >= u) == (t == 1)) by (nonlinear_arith)
            requires
                mag % u == rr * c,
                u == pk * c,
                pk == 2 * hk,
                c > 0,
                t == (if rr + hk >= pk {
                    1int
                } else {
                    0int
                }),
        ;
        assert(abs_int(units(x)) == mag);
        assert((mag / u + t) * u > 0) by (nonlinear_arith)
            requires
                mag / u >= 1,
                t >= 0,
                u > 0,
        ;
    }
    r
}

/// The number of units in one, from the fields of one.
pub(crate) proof fn lemma_one_units<F: Float>()
    ensures
        enc_magnitude(
            assemble(false, F::EXP_BIAS as nat, 0, F::BITS as nat, F::SIG_BITS as nat),
            F::BITS as nat,
            F::SIG_BITS as nat,
        ) == one_units::<F>(),
        enc_magnitude(
            assemble(true, F::EXP_BIAS as nat, 0, F::BITS as nat, F::SIG_BITS as nat),
            F::BITS as nat,
            F::SIG_BITS as nat,
        ) == one_units::<F>(),
{
    F::lemma_format();
    lemma_format_constants();
    let b = F::BITS as nat;
    let s = F::SIG_BITS as nat;
    lemma_assemble_fields(false, F::EXP_BIAS as nat, 0, b, s);
    lemma_assemble_fields(true, F::EXP_BIAS as nat, 0, b, s);
    lemma_pow2_adds(s, (F::EXP_BIAS - 1) as nat);
    assert((F::EXP_BIAS + F::SIG_BITS - 1) as nat == s + (F::EXP_BIAS - 1) as nat);
}

/// An integral finite number rounds to itself.
pub(crate) proof fn lemma_round_integral<F: Float>(x: F)
    requires
        is_finite(x),
        exp_field(x.enc(), F::BITS as nat, F::SIG_BITS as nat) >= F::EXP_BIAS + F::SIG_BITS,
    ensures
        units(x) % (one_units::<F>() as int) == 0,
        abs_int(units(x)) % (one_units::<F>() as int) == 0,
        (abs_int(units(x)) / (one_units::<F>() as int)) * (one_units::<F>() as int) == abs_int(
            units(x),
        ),
        round_to_multiple(units(x), one_units::<F>() as int) == units(x),
{
    F::lemma_format();
    lemma_pow2_pos((F::EXP_BIAS + F::SIG_BITS - 1) as nat);
    lemma_ceil_integral(x);
    let u = one_units::<F>() as int;
    let v = units(x);
    lemma_multiple_negated(v, u);
    lemma_fundamental_div_mod(abs_int(v), u);
    assert((abs_int(v) / u) * u == abs_int(v)) by (nonlinear_arith)
        requires
            abs_int(v) == u * (abs_int(v) / u) + abs_int(v) % u,
            abs_int(v) % u == 0,
    ;
}

} // verus!
