//! Fixed-width unsigned integer arithmetic.
//!
//! A `FixedBigUint<B>` owns a little-endian sequence of 32-bit digits sized to
//! exactly cover the bit-width declared by the type-level descriptor `B`, plus
//! a mask that keeps the most-significant digit inside that width. The crate
//! provides truncating construction, equality, a total order, and
//! carry-propagating addition (allocating and in-place), each with a proved
//! contract over the numeric value of the digit sequence.

pub mod big_digit;
pub mod fixed_bigint;
pub mod fixed_sizes;
pub mod mod_pow;
