//! Fixed-width, constant-time big unsigned integers.
//!
//! A `Uint<LIMBS>` holds `LIMBS` 64-bit limbs, least significant first, and
//! stands for `sum of limb[i] * 2^(64 i)`. Every operation states its result
//! over that value. Comparison, selection, addition, subtraction,
//! multiplication, shifts, division and square root run the same steps for
//! every operand of a width; modular inversion runs the Euclidean remainder
//! sequence, whose length depends on the operands.

pub mod ct;
pub mod error;
pub mod limb;
pub mod uint;

pub use ct::choice_byte;
pub use error::ArithmeticError;
pub use limb::{Limb, Word};
pub use uint::{Uint, U128, U256, U512, U64};
