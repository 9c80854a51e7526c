//! Generic `rint` algorithm: to an integer in the direction of a rounding mode, to the nearest
//! one with halfway cases to the even integer by default.

use vstd::prelude::*;

verus! {

use vstd::arithmetic::power2::{pow2, lemma_pow2_adds, lemma_pow2_pos};
use vstd::arithmetic::div_mod::lemma_fundamental_div_mod_converse;
use crate::support::env::{FpResult, Round, Status, INEXACT_BIT};
use crate::support::float_traits::{
    Float, is_finite, units, one_units, is_neg, sign_bit, exp_field, frac_field, enc_magnitude,
    assemble, lemma_format_constants, lemma_fields_assemble, lemma_assemble_fields,
};
use crate::support::int_traits::{
    Repr, MinInt, Int, abs_int, lemma_unsigned_raw, lemma_width_constants, lemma_wrap_fits,
};
use crate::generic::ceil::{ceil_status, ceil_to_multiple, lemma_mask_shr, lemma_ceil_exact, lemma_assemble_value};
use crate::generic::floor::{floor_status, floor_to_multiple, lemma_multiple_negated};
use crate::generic::lemma_rounding_characterized;
use crate::generic::trunc::trunc_to_multiple;
use crate::generic::round::{
    add_and_clear, lemma_grid_source, lemma_grid_result, lemma_carry, lemma_below_one,
    lemma_one_units, lemma_round_integral,
};

/// The multiple of `u` nearest to `v`; of two equally near, the even multiple.
pub open spec fn rint_to_multiple(v: int, u: int) -> int {
    let m = abs_int(v);
    let q = if 2 * (m % u) > u || (2 * (m % u) == u && (m / u) % 2 == 1) {
        m / u + 1
    } else {
        m / u
    };
    if v < 0 {
        -(q * u)
    } else {
        q * u
    }
}

/// `v` rounded to a multiple of `u` as the rounding mode says.
pub open spec fn round_in_direction(v: int, u: int, round: Round) -> int {
    match round {
        Round::Nearest => rint_to_multiple(v, u),
        Round::Negative => floor_to_multiple(v, u),
        Round::Positive => ceil_to_multiple(v, u),
        Round::Zero => trunc_to_multiple(v, u),
    }
}

/// The flags of rounding a finite number to an integer: inexact unless it already was one.
pub open spec fn rounding_flags<F: Float>(x: F) -> u8 {
    if units(x) % (one_units::<F>() as int) == 0 {
        0
    } else {
        INEXACT_BIT
    }
}

/// Round to the nearest integer, halfway cases to the even one.
fn rint_nearest<F: Float>(x: F) -> (res: FpResult<F>)
    ensures
        !is_finite(x) ==> res.val == x && res.status.flags() == 0,
        is_finite(x) ==> {
            &&& is_finite(res.val)
            &&& units(res.val) == rint_to_multiple(units(x), one_units::<F>() as int)
            &&& units(res.val) == 0 ==> is_neg(res.val) == is_neg(x)
            &&& res.status.flags() == rounding_flags(x)
        },
{
    proof {
        F::lemma_format();
        F::lemma_enc(x, x);
        lemma_format_constants();
        lemma_fields_assemble(x.enc(), F::BITS as nat, F::SIG_BITS as nat);
        lemma_pow2_pos((F::EXP_BIAS + F::SIG_BITS - 1) as nat);
    }
    let ghost b = F::BITS as nat;
    let ghost s = F::SIG_BITS as nat;
    let ghost u = one_units::<F>() as int;
    let e = x.exp_unbiased();
    if e >= F::SIG_BITS as i32 {
        // No fractional part (or not a finite number): nothing to round.
        proof {
            if is_finite(x) {
                lemma_round_integral(x);
            }
        }
        return FpResult::ok(x);
    }
    if e < 0 {
        let magnitude = x.abs().to_bits();
        let exact = magnitude.is_zero();
        let fbits = x.frac();
        let tie_or_less = e != -1 || fbits.is_zero();
        proof {
            lemma_unsigned_raw(fbits);
            lemma_below_one(x);
            lemma_assemble_fields(false, 0, 0, b, s);
            lemma_assemble_fields(false, F::EXP_BIAS as nat, 0, b, s);
            lemma_assemble_fields(sign_bit(x.enc(), b), 0, 0, b, s);
            lemma_assemble_fields(sign_bit(x.enc(), b), F::EXP_BIAS as nat, 0, b, s);
            lemma_one_units::<F>();
            let be = exp_field(x.enc(), b, s);
            let fr = frac_field(x.enc(), s);
            let mag = enc_magnitude(x.enc(), b, s) as int;
            lemma_fundamental_div_mod_converse(mag, u, 0, mag);
            assert(abs_int(units(x)) == mag);
            assert((mag / u) % 2 == 0);
            assert(tie_or_less == (be + 1 < F::EXP_BIAS || fr == 0));
            if be + 1 < F::EXP_BIAS {
                assert(2 * mag < u);
            } else {
                assert(u <= 2 * mag);
                assert((2 * mag == u) == (fr == 0));
            }
            assert(tie_or_less == !(2 * (mag % u) > u || (2 * (mag % u) == u && (mag / u) % 2
                == 1)));
            lemma_multiple_negated(mag, u);
            lemma_unsigned_raw(magnitude);
            lemma_assemble_value(false, be, fr, b, s);
            if be > 0 {
                lemma_pow2_pos((be - 1) as nat);
                lemma_pow2_pos(s);
                assert(mag > 0) by (nonlinear_arith)
                    requires
                        mag == (pow2(s) + fr) * pow2((be - 1) as nat),
                        pow2(s) > 0,
                        pow2((be - 1) as nat) > 0,
                ;
            }
            assert(exact == (mag == 0)) by (nonlinear_arith)
                requires
                    magnitude.raw() == be * pow2(s) + fr,
                    pow2(s) > 0,
                    be == 0 ==> mag == fr,
                    be > 0 ==> mag > 0,
                    exact == (magnitude.raw() == 0),
                    be >= 0,
                    fr >= 0,
            ;
        }
        let status = if exact {
            Status::ok()
        } else {
            Status::inexact_flag()
        };
        let r = if tie_or_less {
            // |x| < 0.5, or a tie between zero and one: the even integer is zero.
            F::zero().copysign(x)
        } else {
            // 0.5 < |x| < 1.0: one is nearer.
            F::one().copysign(x)
        };
        return FpResult::new(r, status);
    }
    let sh = e.unsigned();
    proof {
        <i32 as Repr>::lemma_repr(e);
        <u32 as Repr>::lemma_repr(sh);
        lemma_width_constants();
        assert(sh == e);
        lemma_unsigned_raw(F::SIG_MASK);
        <F::Int as MinInt>::lemma_min_int();
        lemma_unsigned_raw(F::Int::ONE);
    }
    let ghost k = (s - sh) as nat;
    let kk = F::SIG_BITS - sh;
    let ix = x.to_bits();
    let m = F::SIG_MASK.shift_right(sh);
    let below = m.shift_right(1);
    let int_part = ix.shift_right(kk);
    let low = int_part.bit_and(F::Int::ONE);
    let fraction_bits = ix.bit_and(m);
    proof {
        lemma_mask_shr(s, sh as nat);
        lemma_unsigned_raw(m);
        lemma_mask_shr(k, 1);
        lemma_unsigned_raw(below);
        lemma_unsigned_raw(ix);
        lemma_unsigned_raw(int_part);
        lemma_unsigned_raw(low);
        lemma_unsigned_raw(fraction_bits);
        lemma_pow2_pos(k);
        lemma_pow2_pos((k - 1) as nat);
        lemma_pow2_adds(1, (k - 1) as nat);
        assert(k == 1 + (k - 1) as nat);
        vstd::arithmetic::power2::lemma2_to64();
        assert(pow2(k) == 2 * pow2((k - 1) as nat));
        lemma_wrap_fits(pow2((k - 1) as nat) - 1 + 1, false, b);
        vstd::bits::lemma_low_bits_mask_values();
        vstd::bits::lemma_u64_low_bits_mask_is_mod(int_part.raw(), 1);
        vstd::bits::lemma_u64_low_bits_mask_is_mod(ix.raw(), k);
        vstd::bits::lemma_u64_pow2_no_overflow(k);
        assert(m.raw() == (pow2(k) - 1) as u64);
        assert(vstd::bits::low_bits_mask(k) == pow2(k) - 1);
    }
    let odd = !low.is_zero();
    let add = if odd {
        // A tie goes up, to the even neighbour above.
        below.wrapping_add(F::Int::ONE)
    } else {
        // A tie stays, at the even neighbour below.
        below
    };
    let status = if fraction_bits.is_zero() {
        Status::ok()
    } else {
        Status::inexact_flag()
    };
    proof {
        lemma_unsigned_raw(add);
        assert(add.raw() < pow2(k));
    }
    let r = add_and_clear(x, sh, add);
    proof {
        let pk = pow2(k) as int;
        let hk = pow2((k - 1) as nat) as int;
        let fr = frac_field(x.enc(), s) as int;
        let rr = fr % pk;
        lemma_grid_source(x, k);
        lemma_carry(x.enc() as int, pk, add.raw() as int);
        let t: int = if rr + add.raw() >= pk {
            1
        } else {
            0
        };
        lemma_grid_result(x, k, t, r);
        let be = exp_field(x.enc(), b, s);
        let c = pow2((be - 1) as nat) as int;
        let mag = enc_magnitude(x.enc(), b, s) as int;
        let q = mag / u;
        assert(odd == (q % 2 == 1));
        assert((2 * (mag % u) > u || (2 * (mag % u) == u && q % 2 == 1)) == (t == 1))
            by (nonlinear_arith)
            requires
                mag % u == rr * c,
                u == pk * c,
                pk == 2 * hk,
                c > 0,
                odd == (q % 2 == 1),
                add.raw() == (if odd {
                    hk
                } else {
                    hk - 1
                }),
                t == (if rr + add.raw() >= pk {
                    1int
                } else {
                    0int
                }),
        ;
        assert(abs_int(units(x)) == mag);
        assert((mag / u + t) * u > 0) by (nonlinear_arith)
            requires
                mag / u >= 1,
                t >= 0,
                u > 0,
        ;
        assert((mag % u == 0) == (rr == 0)) by (nonlinear_arith)
            requires
                mag % u == rr * c,
                c > 0,
        ;
        lemma_multiple_negated(mag, u);
    }
    FpResult::new(r, status)
}

/// Round `x` to an integer in the direction that `round` names, and report whether that was
/// inexact.
pub fn rint_round<F: Float>(x: F, round: Round) -> (res: FpResult<F>)
    ensures
        !is_finite(x) ==> res.val == x && res.status.flags() == 0,
        is_finite(x) ==> {
            &&& is_finite(res.val)
            &&& units(res.val) == round_in_direction(units(x), one_units::<F>() as int, round)
            &&& units(res.val) == 0 ==> is_neg(res.val) == is_neg(x)
            &&& res.status.flags() == rounding_flags(x)
        },
        is_finite(x) ==> ({
            let v = units(x);
            let t = units(res.val);
            let u = one_units::<F>() as int;
            &&& t % u == 0
            &&& round == Round::Nearest ==> 2 * abs_int(t - v) <= u && (2 * abs_int(t - v) == u
                ==> (t / u) % 2 == 0)
            &&& round == Round::Negative ==> t <= v < t + u
            &&& round == Round::Positive ==> t - u < v <= t
            &&& round == Round::Zero ==> abs_int(t) <= abs_int(v) < abs_int(t) + u && (v < 0
                ==> t <= 0) && (v >= 0 ==> t >= 0)
        }),
{
    proof {
        F::lemma_format();
        lemma_pow2_pos((F::EXP_BIAS + F::SIG_BITS - 1) as nat);
        lemma_rounding_characterized(units(x), one_units::<F>() as int);
    }
    match round {
        Round::Nearest => rint_nearest(x),
        Round::Negative => floor_status(x),
        Round::Positive => ceil_status(x),
        Round::Zero => {
            if x.is_sign_negative() {
                let res = ceil_status(x);
                proof {
                    if is_finite(x) && units(x) >= 0 {
                        // Only a negative zero has its sign bit set and is not below zero.
                        F::lemma_format();
                        lemma_pow2_pos((F::EXP_BIAS + F::SIG_BITS - 1) as nat);
                        lemma_ceil_exact(0, one_units::<F>() as int);
                        assert(floor_to_multiple(0, one_units::<F>() as int) == 0);
                    }
                }
                res
            } else {
                floor_status(x)
            }
        },
    }
}

/// Round `x` to the nearest integer, halfway cases to the even one.
pub fn rint<F: Float>(x: F) -> (r: F)
    ensures
        !is_finite(x) ==> r == x,
        is_finite(x) ==> {
            &&& is_finite(r)
            &&& units(r) == rint_to_multiple(units(x), one_units::<F>() as int)
            &&& units(r) == 0 ==> is_neg(r) == is_neg(x)
        },
        is_finite(x) ==> ({
            let v = units(x);
            let t = units(r);
            let u = one_units::<F>() as int;
            &&& t % u == 0
            &&& 2 * abs_int(t - v) <= u
            &&& 2 * abs_int(t - v) == u ==> (t / u) % 2 == 0
        }),
{
    rint_round(x, Round::Nearest).val
}

} // verus!
