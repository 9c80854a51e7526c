//! Traits and types that the float routines are written against: the float formats, the
//! integer types they are encoded in, and the floating point status.

use vstd::prelude::*;

pub mod env;
pub mod float_convert;
pub mod float_traits;
pub mod int_impls;
pub mod int_traits;

pub use env::{FpResult, Round, Status};
pub use float_convert::{DFloat, HFloat};
pub use float_traits::{Float, Binary32, Binary64};
pub use int_traits::{CastFrom, CastInto, DInt, HInt, Int, MinInt};

verus! {

/// Hint to the compiler that the current path is cold.
pub fn cold_path() {
}

} // verus!
