//! The fixed-width integer representation shared by the engine and the evaluator.

use vstd::prelude::*;

verus! {

/// The engine's sole numeric type: a two's-complement signed integer.
pub type Word = i32;

/// Twice as wide as a [`Word`]; holds a sum before it is saturated.
pub type DoubleWord = i64;

/// The unsigned counterpart of a [`Word`]; holds magnitudes.
pub type UnsignedWord = u32;

/// Width of a [`Word`] in bits.
pub const WORD_BITS: u32 = 32;

/// Largest representable [`Word`], and the upper saturation target.
pub const WORD_MAX: Word = 2147483647;

/// Smallest representable [`Word`], and the lower saturation target.
pub const WORD_MIN: Word = -2147483648;

} // verus!
