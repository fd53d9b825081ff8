//! Errors that arithmetic reports instead of a value.
use vstd::prelude::*;

verus! {

/// Why an operation produced no value.
#[derive(Copy, Clone, Debug, PartialEq, Eq, Structural)]
pub enum ArithmeticError {
    /// The divisor is zero.
    DivisionByZero,
    /// A shift amount is not below the bit width.
    InvalidShift,
    /// The operand shares a factor with the modulus, so it has no inverse.
    NotInvertible,
}

} // verus!
