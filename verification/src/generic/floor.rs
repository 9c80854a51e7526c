//! Generic `floor` algorithm: the ceiling of the negated number, negated back.
//!
//! Negation only flips the sign bit, so it is exact for every input, and rounding `-x` up is
//! rounding `x` down.

use vstd::prelude::*;

verus! {

use crate::support::env::{FpResult, INEXACT_BIT};
use crate::support::float_traits::{
    Float, is_finite, units, one_units, is_neg, sign_bit, exp_field, frac_field, assemble,
    enc_magnitude, spec_is_nan, lemma_format_constants, lemma_fields_assemble,
    lemma_assemble_fields,
};
use crate::generic::ceil::{ceil_status, ceil_to_multiple, lemma_ceil_exact};

/// The greatest multiple of `u` that is not above `v`.
pub open spec fn floor_to_multiple(v: int, u: int) -> int {
    (v / u) * u
}

/// The number with the sign bit of `x` flipped and the same magnitude.
pub open spec fn negated_enc<F: Float>(x: F) -> u64 {
    assemble(
        !sign_bit(x.enc(), F::BITS as nat),
        exp_field(x.enc(), F::BITS as nat, F::SIG_BITS as nat),
        frac_field(x.enc(), F::SIG_BITS as nat),
        F::BITS as nat,
        F::SIG_BITS as nat,
    )
}

/// `x` with its sign bit flipped.
fn negate<F: Float>(x: F) -> (r: F)
    ensures
        r.enc() == negated_enc(x),
{
    proof {
        F::lemma_format();
        lemma_format_constants();
        lemma_assemble_fields(
            false,
            F::EXP_BIAS as nat,
            0,
            F::BITS as nat,
            F::SIG_BITS as nat,
        );
        lemma_assemble_fields(true, F::EXP_BIAS as nat, 0, F::BITS as nat, F::SIG_BITS as nat);
    }
    let other = if x.is_sign_negative() {
        F::one()
    } else {
        F::neg_one()
    };
    x.copysign(other)
}

/// Flipping the sign bit negates the value and keeps the class of the number; flipping it
/// twice gives the number back.
pub proof fn lemma_negated<F: Float>(x: F, r: F)
    requires
        r.enc() == negated_enc(x),
    ensures
        is_finite(r) == is_finite(x),
        spec_is_nan(r) == spec_is_nan(x),
        is_neg(r) == !is_neg(x),
        enc_magnitude(r.enc(), F::BITS as nat, F::SIG_BITS as nat) == enc_magnitude(
            x.enc(),
            F::BITS as nat,
            F::SIG_BITS as nat,
        ),
        is_finite(x) ==> units(r) == -units(x),
        negated_enc(r) == x.enc(),
{
    F::lemma_format();
    F::lemma_enc(x, x);
    lemma_format_constants();
    let b = F::BITS as nat;
    let s = F::SIG_BITS as nat;
    lemma_fields_assemble(x.enc(), b, s);
    lemma_assemble_fields(!sign_bit(x.enc(), b), exp_field(x.enc(), b, s), frac_field(x.enc(), s), b, s);
}

/// A multiple of `u` negated is a multiple of `u`, and the other way round.
pub(crate) proof fn lemma_multiple_negated(v: int, u: int)
    requires
        u > 0,
    ensures
        (v % u == 0) == ((-v) % u == 0),
{
    if v % u == 0 {
        lemma_ceil_exact(v, u);
    }
    if (-v) % u == 0 {
        lemma_ceil_exact(-v, u);
        assert(-(-v) == v);
    }
}

/// Round `x` down to the nearest integer, and report whether that was inexact.
pub fn floor_status<F: Float>(x: F) -> (res: FpResult<F>)
    ensures
        !is_finite(x) ==> res.val == x && res.status.flags() == 0,
        is_finite(x) ==> {
            &&& is_finite(res.val)
            &&& units(res.val) == floor_to_multiple(units(x), one_units::<F>() as int)
            &&& units(res.val) == 0 ==> is_neg(res.val) == is_neg(x)
            &&& res.status.flags() == (if units(x) % (one_units::<F>() as int) == 0 {
                0
            } else {
                INEXACT_BIT
            })
        },
{
    let nx = negate(x);
    let up = ceil_status(nx);
    let r = negate(up.val);
    proof {
        lemma_negated(x, nx);
        lemma_negated(up.val, r);
        F::lemma_enc(r, x);
        if is_finite(x) {
            let u = one_units::<F>() as int;
            F::lemma_format();
            vstd::arithmetic::power2::lemma_pow2_pos((F::EXP_BIAS + F::SIG_BITS - 1) as nat);
            lemma_multiple_negated(units(x), u);
            assert(-ceil_to_multiple(-units(x), u) == floor_to_multiple(units(x), u)) by (
            nonlinear_arith)
                requires
                    ceil_to_multiple(-units(x), u) == -((-(-units(x))) / u) * u,
                    -(-units(x)) == units(x),
                    floor_to_multiple(units(x), u) == (units(x) / u) * u,
            ;
        }
    }
    FpResult::new(r, up.status)
}

/// Round `x` down to the nearest integer.
pub fn floor<F: Float>(x: F) -> (r: F)
    ensures
        !is_finite(x) ==> r == x,
        is_finite(x) ==> {
            &&& is_finite(r)
            &&& units(r) == floor_to_multiple(units(x), one_units::<F>() as int)
            &&& units(r) == 0 ==> is_neg(r) == is_neg(x)
        },
{
    floor_status(x).val
}

} // verus!
