//! Implementations of the integer traits for the primitive integer types.

pub mod unsigned32;
pub mod signed32;
pub mod unsigned64;
pub mod signed64;
pub mod narrow;
pub mod pointer;
