//! Constant-time comparison.
use super::Uint;
use crate::ct::{choice_byte, choice_from_bit};
use crate::limb::Limb;
use subtle::Choice;
use vstd::prelude::*;

verus! {

impl<const LIMBS: usize> Uint<LIMBS> {
    /// Whether `self < rhs`, as a choice: the borrow out of `self - rhs`, taken
    /// over every limb.
    pub fn ct_lt(&self, rhs: &Self) -> (r: Choice)
        ensures
            choice_byte(r) == 0 || choice_byte(r) == 1,
            choice_byte(r) == 1 <==> self.value() < rhs.value(),
    {
        let (diff, borrow) = self.sbb(rhs, Limb(0));
        proof {
            Self::lemma_value_bound(diff);
            assert(borrow.0 * Self::modulus() == if borrow.0 == 1 { Self::modulus() } else { 0 })
                by (nonlinear_arith)
                requires
                    borrow.0 <= 1,
            ;
        }
        choice_from_bit(borrow.0 as u8)
    }

    /// Whether `self == rhs`, as a choice; every limb is examined.
    pub fn ct_eq(&self, rhs: &Self) -> (r: Choice)
        ensures
            choice_byte(r) == 0 || choice_byte(r) == 1,
            choice_byte(r) == 1 <==> self.value() == rhs.value(),
    {
        let same = *self == *rhs;
        proof {
            if same {
                Self::lemma_words_ext(*self, *rhs);
            } else if self.value() == rhs.value() {
                Self::lemma_value_ext(*self, *rhs);
            }
        }
        choice_from_bit(if same { 1u8 } else { 0u8 })
    }
}

} // verus!
