//! Errors that the library reports before any value is produced.
use vstd::prelude::*;

verus! {

/// Why a fixed-point operation refused its input.
#[derive(Debug, Clone, Copy, PartialEq, Eq, Structural)]
pub enum FixedPointError {
    /// The precision is outside `[32, 63]` bits.
    PrecisionOutOfRange,
    /// `qmod` was given a negative modulus.
    NegativeModulus,
    /// A division or a modulo by zero.
    DivisionByZero,
    /// Two sequences that must pair up have different lengths.
    LengthMismatch,
    /// A logarithm of a value that is not strictly positive.
    NonPositiveLogarithm,
}

} // verus!
