//! Methods of `Libm` for each float format, named after the operation without a suffix.

use vstd::prelude::*;
use core::marker::PhantomData;

verus! {

use crate::support::float_traits::{
    Float, Binary32, Binary64, units, one_units, assemble, exp_field, frac_field,
    lemma_binary32_format, lemma_binary64_format,
};
use crate::generic::rounds_to;
use crate::generic::ceil::{ceil, ceil_to_multiple};
use crate::generic::fabs::fabs;
use crate::generic::floor::{floor, floor_to_multiple};
use crate::generic::rint::{rint, rint_to_multiple};
use crate::generic::round::{round, round_to_multiple};

/// Generic helper for libm functions, abstracting over the binary32 and binary64 formats.
pub struct Libm<T>(PhantomData<T>);

impl Libm<Binary32> {
    /// The smallest integer not below `x`.
    pub fn ceil(x: Binary32) -> (r: Binary32)
        ensures
            rounds_to(x, r, ceil_to_multiple(units(x), one_units::<Binary32>() as int)),
    {
        ceil(x)
    }

    /// The absolute value of `x`: its sign bit cleared.
    pub fn fabs(x: Binary32) -> (r: Binary32)
        ensures
            r.enc() == assemble(false, exp_field(x.enc(), 32, 23), frac_field(x.enc(), 23), 32, 23),
    {
        proof {
            lemma_binary32_format();
        }
        fabs(x)
    }

    /// The largest integer not above `x`.
    pub fn floor(x: Binary32) -> (r: Binary32)
        ensures
            rounds_to(x, r, floor_to_multiple(units(x), one_units::<Binary32>() as int)),
    {
        floor(x)
    }

    /// The integer nearest to `x`, halfway cases to the even one.
    pub fn rint(x: Binary32) -> (r: Binary32)
        ensures
            rounds_to(x, r, rint_to_multiple(units(x), one_units::<Binary32>() as int)),
    {
        rint(x)
    }

    /// The integer nearest to `x`, halfway cases away from zero.
    pub fn round(x: Binary32) -> (r: Binary32)
        ensures
            rounds_to(x, r, round_to_multiple(units(x), one_units::<Binary32>() as int)),
    {
        round(x)
    }

    /// The integer nearest to `x`, halfway cases to the even one.
    pub fn roundeven(x: Binary32) -> (r: Binary32)
        ensures
            rounds_to(x, r, rint_to_multiple(units(x), one_units::<Binary32>() as int)),
    {
        rint(x)
    }
}

impl Libm<Binary64> {
    /// The smallest integer not below `x`.
    pub fn ceil(x: Binary64) -> (r: Binary64)
        ensures
            rounds_to(x, r, ceil_to_multiple(units(x), one_units::<Binary64>() as int)),
    {
        ceil(x)
    }

    /// The absolute value of `x`: its sign bit cleared.
    pub fn fabs(x: Binary64) -> (r: Binary64)
        ensures
            r.enc() == assemble(false, exp_field(x.enc(), 64, 52), frac_field(x.enc(), 52), 64, 52),
    {
        proof {
            lemma_binary64_format();
        }
        fabs(x)
    }

    /// The largest integer not above `x`.
    pub fn floor(x: Binary64) -> (r: Binary64)
        ensures
            rounds_to(x, r, floor_to_multiple(units(x), one_units::<Binary64>() as int)),
    {
        floor(x)
    }

    /// The integer nearest to `x`, halfway cases to the even one.
    pub fn rint(x: Binary64) -> (r: Binary64)
        ensures
            rounds_to(x, r, rint_to_multiple(units(x), one_units::<Binary64>() as int)),
    {
        rint(x)
    }

    /// The integer nearest to `x`, halfway cases away from zero.
    pub fn round(x: Binary64) -> (r: Binary64)
        ensures
            rounds_to(x, r, round_to_multiple(units(x), one_units::<Binary64>() as int)),
    {
        round(x)
    }

    /// The integer nearest to `x`, halfway cases to the even one (the name the binary64
    /// helper has always had).
    pub fn roundevem(x: Binary64) -> (r: Binary64)
        ensures
            rounds_to(x, r, rint_to_multiple(units(x), one_units::<Binary64>() as int)),
    {
        rint(x)
    }
}

} // verus!
