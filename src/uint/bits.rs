//! Limb-wise bitwise operations, and resizing to another limb count.
use super::{lemma_value_low_high, lemma_zero_words, Uint};
use crate::limb::{base_pow, words_value, Limb};
use vstd::prelude::*;

verus! {

impl<const LIMBS: usize> Uint<LIMBS> {
    /// Bitwise AND of every limb.
    pub fn bitand(&self, rhs: &Self) -> (r: Self)
        ensures
            forall|i: int| 0 <= i < LIMBS ==> #[trigger] r.words()[i] == self.words()[i] & rhs.words()[i],
    {
        let mut limbs = [Limb(0); LIMBS];
        let mut i: usize = 0;
        while i < LIMBS
            invariant
                i <= LIMBS,
                forall|j: int| 0 <= j < i ==> #[trigger] limbs@[j].0 == self.limbs@[j].0 & rhs.limbs@[j].0,
            decreases LIMBS - i,
        {
            limbs[i] = Limb(self.limbs[i].0 & rhs.limbs[i].0);
            i = i + 1;
        }
        Uint { limbs }
    }

    /// Bitwise OR of every limb.
    pub fn bitor(&self, rhs: &Self) -> (r: Self)
        ensures
            forall|i: int| 0 <= i < LIMBS ==> #[trigger] r.words()[i] == self.words()[i] | rhs.words()[i],
    {
        let mut limbs = [Limb(0); LIMBS];
        let mut i: usize = 0;
        while i < LIMBS
            invariant
                i <= LIMBS,
                forall|j: int| 0 <= j < i ==> #[trigger] limbs@[j].0 == self.limbs@[j].0 | rhs.limbs@[j].0,
            decreases LIMBS - i,
        {
            limbs[i] = Limb(self.limbs[i].0 | rhs.limbs[i].0);
            i = i + 1;
        }
        Uint { limbs }
    }

    /// Bitwise XOR of every limb.
    pub fn bitxor(&self, rhs: &Self) -> (r: Self)
        ensures
            forall|i: int| 0 <= i < LIMBS ==> #[trigger] r.words()[i] == self.words()[i] ^ rhs.words()[i],
    {
        let mut limbs = [Limb(0); LIMBS];
        let mut i: usize = 0;
        while i < LIMBS
            invariant
                i <= LIMBS,
                forall|j: int| 0 <= j < i ==> #[trigger] limbs@[j].0 == self.limbs@[j].0 ^ rhs.limbs@[j].0,
            decreases LIMBS - i,
        {
            limbs[i] = Limb(self.limbs[i].0 ^ rhs.limbs[i].0);
            i = i + 1;
        }
        Uint { limbs }
    }

    /// Complement of every limb; as a number, `modulus() - 1 - self`.
    pub fn not(&self) -> (r: Self)
        ensures
            forall|i: int| 0 <= i < LIMBS ==> #[trigger] r.words()[i] == !self.words()[i],
    {
        let mut limbs = [Limb(0); LIMBS];
        let mut i: usize = 0;
        while i < LIMBS
            invariant
                i <= LIMBS,
                forall|j: int| 0 <= j < i ==> #[trigger] limbs@[j].0 == !self.limbs@[j].0,
            decreases LIMBS - i,
        {
            limbs[i] = Limb(!self.limbs[i].0);
            i = i + 1;
        }
        Uint { limbs }
    }

    /// The value in `T` limbs: zero-extended where `T` is wider, and reduced
    /// modulo `2^(64 T)` where it is narrower (the high limbs are dropped).
    pub fn resize<const T: usize>(&self) -> (r: Uint<T>)
        ensures
            r.value() == self.value() % Uint::<T>::modulus(),
    {
        let mut limbs = [Limb(0); T];
        let mut i: usize = 0;
        while i < T && i < LIMBS
            invariant
                i <= T,
                i <= LIMBS,
                forall|j: int| 0 <= j < i ==> limbs@[j] == self.limbs@[j],
                forall|j: int| i <= j < T ==> limbs@[j] == Limb(0),
            decreases T - i,
        {
            limbs[i] = self.limbs[i];
            i = i + 1;
        }
        let r = Uint { limbs };
        proof {
            let w = self.words();
            let rw = r.words();
            Self::lemma_value_bound(*self);
            Uint::<T>::lemma_value_bound(r);
            if T <= LIMBS {
                assert(rw =~= w.subrange(0, T as int));
                assert(w =~= w.subrange(0, T as int) + w.subrange(T as int, LIMBS as int));
                lemma_value_low_high(w.subrange(0, T as int), w.subrange(T as int, LIMBS as int));
                vstd::arithmetic::div_mod::lemma_fundamental_div_mod_converse(
                    self.value() as int,
                    Uint::<T>::modulus() as int,
                    words_value(w.subrange(T as int, LIMBS as int)) as int,
                    r.value() as int,
                );
            } else {
                let zeros = rw.subrange(LIMBS as int, T as int);
                assert forall|j: int| 0 <= j < zeros.len() implies #[trigger] zeros[j] == 0 by {
                    assert(limbs@[LIMBS + j] == Limb(0));
                }
                lemma_zero_words(zeros);
                assert(rw =~= w + zeros);
                lemma_value_low_high(w, zeros);
                assert(base_pow(w.len()) * 0 == 0);
                vstd::arithmetic::div_mod::lemma_small_mod(self.value(), Uint::<T>::modulus());
            }
        }
        r
    }
}

} // verus!
