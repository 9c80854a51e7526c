//! libm in pure Rust, verified: the floating point formats are handled through their
//! IEEE 754 encodings.

pub mod generic;
pub mod libm_helper;
pub mod support;

pub use libm_helper::Libm;
