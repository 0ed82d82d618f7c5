//! Binary floating point on bit patterns.
//!
//! A [`Binary64`] is the bit pattern of an IEEE 754 double. Its arithmetic is
//! carried out on integers, so that every operation is proved to give the
//! correctly rounded result (to nearest, ties to even), for all operands:
//! subnormal numbers, infinities and NaN included.

pub mod arith;
pub mod convert;
pub mod laws;
pub mod order_laws;
pub mod round;
pub mod value;

pub use value::Binary64;
