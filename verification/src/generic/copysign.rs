//! Copying the sign of one float onto another.

use vstd::prelude::*;

verus! {

use crate::support::float_traits::{
    Float, assemble, sign_bit, exp_field, frac_field, lemma_format_constants, lemma_mask_values,
    lemma_fields_assemble, lemma_assemble_fields,
};
use crate::support::int_traits::{MinInt, Int};

/// Copy the sign of `y` to `x`.
pub fn copysign<F: Float>(x: F, y: F) -> (r: F)
    ensures
        r.enc() == assemble(
            sign_bit(y.enc(), F::BITS as nat),
            exp_field(x.enc(), F::BITS as nat, F::SIG_BITS as nat),
            frac_field(x.enc(), F::SIG_BITS as nat),
            F::BITS as nat,
            F::SIG_BITS as nat,
        ),
{
    proof {
        F::lemma_format();
        F::lemma_enc(x, y);
        F::lemma_enc(y, x);
        lemma_format_constants();
        lemma_mask_values();
    }
    let mut ux = x.to_bits();
    let uy = y.to_bits();
    ux = ux.bit_and(F::SIGN_MASK.bit_not());
    ux = ux.bit_or(uy.bit_and(F::SIGN_MASK));
    proof {
        let a = x.enc();
        let b = y.enc();
        if F::BITS == 32 {
            assert(((a & (!0x8000_0000u64 & 0xffff_ffffu64)) | (b & 0x8000_0000u64)) == (((if (b
                >> 31u64) & 1 == 1 {
                1u64
            } else {
                0u64
            }) << 31u64) | (((a >> 23u64) & 0xff) << 23u64) | (a & 0x7f_ffff)))
                by (bit_vector)
                requires
                    a <= 0xffff_ffff,
                    b <= 0xffff_ffff,
            ;
        } else {
            assert(((a & (!0x8000_0000_0000_0000u64 & 0xffff_ffff_ffff_ffffu64)) | (b
                & 0x8000_0000_0000_0000u64)) == (((if (b >> 63u64) & 1 == 1 {
                1u64
            } else {
                0u64
            }) << 63u64) | (((a >> 52u64) & 0x7ff) << 52u64) | (a & 0xf_ffff_ffff_ffff)))
                by (bit_vector);
        }
    }
    F::from_bits(ux)
}

/// The encoding `e` of a number of the format `F` with its sign bit set to `neg`: what
/// `copysign` gives for a second argument of that sign, and `fabs` for a positive one.
pub open spec fn with_sign<F: Float>(e: u64, neg: bool) -> u64 {
    assemble(
        neg,
        exp_field(e, F::BITS as nat, F::SIG_BITS as nat),
        frac_field(e, F::SIG_BITS as nat),
        F::BITS as nat,
        F::SIG_BITS as nat,
    )
}

/// Setting the sign bit keeps the magnitude and sets the sign; of two settings only the last
/// counts, so `copysign(copysign(x, y), z)` is `copysign(x, z)` and `fabs` of either is
/// `fabs(x)`; and a number with its own sign is itself, so `copysign(x, x)` is `x`.
pub proof fn lemma_with_sign<F: Float>(x: F, neg: bool, neg2: bool)
    ensures
        sign_bit(with_sign::<F>(x.enc(), neg), F::BITS as nat) == neg,
        exp_field(with_sign::<F>(x.enc(), neg), F::BITS as nat, F::SIG_BITS as nat) == exp_field(
            x.enc(),
            F::BITS as nat,
            F::SIG_BITS as nat,
        ),
        frac_field(with_sign::<F>(x.enc(), neg), F::SIG_BITS as nat) == frac_field(
            x.enc(),
            F::SIG_BITS as nat,
        ),
        with_sign::<F>(with_sign::<F>(x.enc(), neg), neg2) == with_sign::<F>(x.enc(), neg2),
        with_sign::<F>(x.enc(), sign_bit(x.enc(), F::BITS as nat)) == x.enc(),
{
    F::lemma_format();
    F::lemma_enc(x, x);
    lemma_format_constants();
    let b = F::BITS as nat;
    let s = F::SIG_BITS as nat;
    lemma_fields_assemble(x.enc(), b, s);
    lemma_assemble_fields(neg, exp_field(x.enc(), b, s), frac_field(x.enc(), s), b, s);
}

} // verus!
