//! Generic `trunc` algorithm: rounding toward zero is rounding up below zero and down above.

use vstd::prelude::*;

verus! {

use crate::support::float_traits::{Float, is_finite, units, one_units, is_neg};
use crate::generic::ceil::{ceil, ceil_to_multiple};
use crate::generic::floor::{floor, floor_to_multiple};

/// The multiple of `u` nearest to `v` in the direction of zero.
pub open spec fn trunc_to_multiple(v: int, u: int) -> int {
    if v < 0 {
        ceil_to_multiple(v, u)
    } else {
        floor_to_multiple(v, u)
    }
}

/// Round `x` to the integer nearest to it in the direction of zero.
pub fn trunc<F: Float>(x: F) -> (r: F)
    ensures
        !is_finite(x) ==> r == x,
        is_finite(x) ==> {
            &&& is_finite(r)
            &&& units(r) == trunc_to_multiple(units(x), one_units::<F>() as int)
            &&& units(r) == 0 ==> is_neg(r) == is_neg(x)
        },
{
    if x.is_sign_negative() {
        let r = ceil(x);
        proof {
            if is_finite(x) && units(x) >= 0 {
                // Only a negative zero has its sign bit set and is not below zero.
                F::lemma_format();
                vstd::arithmetic::power2::lemma_pow2_pos((F::EXP_BIAS + F::SIG_BITS - 1) as nat);
                assert(units(x) == 0);
                crate::generic::ceil::lemma_ceil_exact(0, one_units::<F>() as int);
                assert(floor_to_multiple(0, one_units::<F>() as int) == 0);
            }
        }
        r
    } else {
        floor(x)
    }
}

} // verus!
