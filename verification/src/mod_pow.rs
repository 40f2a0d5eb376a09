//! Declared modular-exponentiation capability.
//!
//! The surrounding type system reserves a signature for modular
//! exponentiation over a shared integer representation. No implementation is
//! provided by this crate: a complete one would need borrow-propagating
//! subtraction and a reduction step on top of the carry primitives in
//! [`crate::fixed_bigint`].

use vstd::prelude::*;

verus! {

/// Modular exponentiation: `mod_pow(base, exponent, modulus)` is meant to
/// return `base ^ exponent (mod modulus)` in the implementing representation.
pub trait ModPow {
    type IntType;

    fn mod_pow(
        base: Self::IntType,
        exponent: Self::IntType,
        modulus: Self::IntType,
    ) -> Self::IntType;
}

} // verus!
