//! Constant-time choice flags, as provided by `subtle`.
use subtle::{Choice, ConditionallySelectable};
use vstd::prelude::*;

verus! {

#[verifier::external_type_specification]
#[verifier::external_body]
pub struct ExChoice(Choice);

/// The byte held by a `Choice`: 1 for "set", 0 for "clear".
pub uninterp spec fn choice_byte(c: Choice) -> u8;

/// Relies on `subtle`'s `From<u8> for Choice`, which stores its input (and
/// debug-asserts that it is 0 or 1).
#[verifier::external_body]
pub(crate) fn choice_from_bit(bit: u8) -> (r: Choice)
    requires
        bit == 0 || bit == 1,
    ensures
        choice_byte(r) == bit,
{
    Choice::from(bit)
}

/// Relies on `subtle`'s `ConditionallySelectable for u64`: masks with
/// `-(choice as i64)`, so a clear choice yields `a` and a set one yields `b`.
#[verifier::external_body]
pub(crate) fn select_word(a: u64, b: u64, choice: Choice) -> (r: u64)
    ensures
        choice_byte(choice) == 0 ==> r == a,
        choice_byte(choice) == 1 ==> r == b,
{
    u64::conditional_select(&a, &b, choice)
}

} // verus!
