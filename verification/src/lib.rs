//! Multi-precision unsigned integers at a fixed, runtime-chosen bit width,
//! with verified big-endian/little-endian byte, hexadecimal, and radix
//! string codecs.

use vstd::prelude::*;

pub mod boxed;
pub mod bytes;
pub mod hex;
pub mod laws;
pub mod model;
pub mod radix;

pub use boxed::BoxedUint;

verus! {

/// A single machine word used as one digit of the base-2^64 positional
/// representation of a [`BoxedUint`].
#[derive(Clone, Copy, Debug, PartialEq, Eq, Structural)]
pub struct Limb(pub u64);

impl Limb {
    /// Width of a limb in bits.
    pub const BITS: u32 = 64;

    /// Width of a limb in bytes.
    pub const BYTES: usize = 8;
}

/// The recoverable failures of the decode paths.
#[derive(Clone, Copy, Debug, PartialEq, Eq, Structural)]
pub enum DecodeError {
    /// The serialized input is larger than the requested precision can hold,
    /// measured before parsing.
    InputSize,
    /// The parsed magnitude needs more bits than the requested precision,
    /// discovered after parsing.
    Precision,
    /// A character is not a valid digit for the stated radix, or not valid hex.
    InvalidDigit,
}

} // verus!
