//! Type-level bit-width descriptors.
//!
//! Each marker type reports one fixed bit-width through the [`BitLength`]
//! trait. The markers carry no runtime state; they only parameterize
//! [`crate::fixed_bigint::FixedBigUint`].

use vstd::prelude::*;

verus! {

/// A width descriptor: a zero-sized marker whose only job is to report the
/// exact number of bits a fixed-width integer must represent.
pub trait BitLength {
    /// The declared bit-width, for use in specifications.
    spec fn spec_bit_len() -> usize;

    /// The declared bit-width. Every descriptor reports a positive width.
    fn bit_len() -> (r: usize)
        ensures
            r == Self::spec_bit_len(),
            r >= 1,
    ;
}

/// A width that is not a multiple of the digit size: only the low 4 bits of
/// the most-significant digit are live. Any positive bit-width is a valid
/// descriptor; this one exercises the masked top digit.
#[derive(PartialEq, Eq)]
pub struct Bits100 {}

impl BitLength for Bits100 {
    open spec fn spec_bit_len() -> usize {
        100
    }

    fn bit_len() -> usize {
        100
    }
}

#[derive(PartialEq, Eq)]
pub struct Bits128 {}

impl BitLength for Bits128 {
    open spec fn spec_bit_len() -> usize {
        128
    }

    fn bit_len() -> usize {
        128
    }
}

#[derive(PartialEq, Eq)]
pub struct Bits256 {}

impl BitLength for Bits256 {
    open spec fn spec_bit_len() -> usize {
        256
    }

    fn bit_len() -> usize {
        256
    }
}

#[derive(PartialEq, Eq)]
pub struct Bits384 {}

impl BitLength for Bits384 {
    open spec fn spec_bit_len() -> usize {
        384
    }

    fn bit_len() -> usize {
        384
    }
}

#[derive(PartialEq, Eq)]
pub struct Bits512 {}

impl BitLength for Bits512 {
    open spec fn spec_bit_len() -> usize {
        512
    }

    fn bit_len() -> usize {
        512
    }
}

#[derive(PartialEq, Eq)]
pub struct Bits768 {}

impl BitLength for Bits768 {
    open spec fn spec_bit_len() -> usize {
        768
    }

    fn bit_len() -> usize {
        768
    }
}

#[derive(PartialEq, Eq)]
pub struct Bits1024 {}

impl BitLength for Bits1024 {
    open spec fn spec_bit_len() -> usize {
        1024
    }

    fn bit_len() -> usize {
        1024
    }
}

#[derive(PartialEq, Eq)]
pub struct Bits2048 {}

impl BitLength for Bits2048 {
    open spec fn spec_bit_len() -> usize {
        2048
    }

    fn bit_len() -> usize {
        2048
    }
}

#[derive(PartialEq, Eq)]
pub struct Bits4096 {}

impl BitLength for Bits4096 {
    open spec fn spec_bit_len() -> usize {
        4096
    }

    fn bit_len() -> usize {
        4096
    }
}

#[derive(PartialEq, Eq)]
pub struct Bits8192 {}

impl BitLength for Bits8192 {
    open spec fn spec_bit_len() -> usize {
        8192
    }

    fn bit_len() -> usize {
        8192
    }
}

#[derive(PartialEq, Eq)]
pub struct Bits16384 {}

impl BitLength for Bits16384 {
    open spec fn spec_bit_len() -> usize {
        16384
    }

    fn bit_len() -> usize {
        16384
    }
}

} // verus!
