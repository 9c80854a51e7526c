//! Absolute value by clearing the sign bit.

use vstd::prelude::*;

verus! {

use crate::support::float_traits::{
    Float, assemble, exp_field, frac_field, lemma_format_constants, lemma_mask_values,
};
use crate::support::int_traits::{MinInt, Int};

/// Absolute value: `x` with its sign bit cleared, NaNs included.
pub fn fabs<F: Float>(x: F) -> (r: F)
    ensures
        r.enc() == assemble(
            false,
            exp_field(x.enc(), F::BITS as nat, F::SIG_BITS as nat),
            frac_field(x.enc(), F::SIG_BITS as nat),
            F::BITS as nat,
            F::SIG_BITS as nat,
        ),
{
    proof {
        F::lemma_format();
        F::lemma_enc(x, x);
        lemma_format_constants();
        lemma_mask_values();
    }
    let ux = x.to_bits().bit_and(F::SIGN_MASK.bit_not());
    proof {
        let a = x.enc();
        if F::BITS == 32 {
            assert((a & (!0x8000_0000u64 & 0xffff_ffffu64)) == ((0u64 << 31u64) | (((a >> 23u64)
                & 0xff) << 23u64) | (a & 0x7f_ffff))) by (bit_vector)
                requires
                    a <= 0xffff_ffff,
            ;
        } else {
            assert((a & (!0x8000_0000_0000_0000u64 & 0xffff_ffff_ffff_ffffu64)) == ((0u64
                << 63u64) | (((a >> 52u64) & 0x7ff) << 52u64) | (a & 0xf_ffff_ffff_ffff)))
                by (bit_vector);
        }
    }
    F::from_bits(ux)
}

} // verus!
