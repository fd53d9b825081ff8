//! Subtraction with borrow propagation, and negation.
use super::Uint;
use crate::limb::{base_pow, limb_base, lemma_words_value_push, limb_words, words_value, Limb};
use vstd::prelude::*;

verus! {

impl<const LIMBS: usize> Uint<LIMBS> {
    /// Subtracts `rhs` and a borrow of 0 or 1, rippling the borrow through every
    /// limb. Returns the difference modulo `modulus()` and the borrow out (0 or 1).
    pub fn sbb(&self, rhs: &Self, borrow: Limb) -> (r: (Self, Limb))
        requires
            borrow.0 <= 1,
        ensures
            r.1.0 <= 1,
            r.0.value() - r.1.0 * Self::modulus() == self.value() - rhs.value() - borrow.0,
    {
        let mut limbs = [Limb(0); LIMBS];
        let mut c = borrow;
        let mut i: usize = 0;
        let ghost a = self.words();
        let ghost b = rhs.words();
        proof {
            assert(limb_words(limbs@).subrange(0, 0) =~= Seq::empty());
            assert(a.subrange(0, 0) =~= Seq::empty());
            assert(b.subrange(0, 0) =~= Seq::empty());
            assert(base_pow(0) == 1);
            assert(c.0 * 1 == c.0);
        }
        while i < LIMBS
            invariant
                i <= LIMBS,
                c.0 <= 1,
                a == self.words(),
                b == rhs.words(),
                a.len() == LIMBS,
                b.len() == LIMBS,
                words_value(limb_words(limbs@).subrange(0, i as int)) - c.0 * base_pow(i as nat)
                    == words_value(a.subrange(0, i as int)) - words_value(b.subrange(0, i as int)) - borrow.0,
            decreases LIMBS - i,
        {
            let ghost old_limbs = limbs;
            let ghost c0 = c.0;
            let (w, c2) = self.limbs[i].sbb(rhs.limbs[i], c);
            limbs[i] = w;
            c = c2;
            proof {
                let k = i as int;
                assert(limb_words(limbs@).subrange(0, k + 1) =~= limb_words(old_limbs@).subrange(0, k).push(w.0));
                assert(a.subrange(0, k + 1) =~= a.subrange(0, k).push(a[k]));
                assert(b.subrange(0, k + 1) =~= b.subrange(0, k).push(b[k]));
                lemma_words_value_push(limb_words(old_limbs@).subrange(0, k), w.0);
                lemma_words_value_push(a.subrange(0, k), a[k]);
                lemma_words_value_push(b.subrange(0, k), b[k]);
                assert(a[k] == self.limbs@[k].0 && b[k] == rhs.limbs@[k].0);
                let p = base_pow(i as nat);
                assert(base_pow((i + 1) as nat) == limb_base() * p);
                let wi = w.0 as int;
                let ci = c2.0 as int;
                assert((wi - ci * limb_base()) * p == wi * p - ci * (limb_base() * p)) by (nonlinear_arith);
                assert((a[k] - b[k] - c0) * p == a[k] * p - b[k] * p - c0 * p) by (nonlinear_arith);
            }
            i = i + 1;
        }
        let r = Uint { limbs };
        proof {
            assert(limb_words(limbs@).subrange(0, LIMBS as int) =~= r.words());
            assert(a.subrange(0, LIMBS as int) =~= a);
            assert(b.subrange(0, LIMBS as int) =~= b);
        }
        (r, c)
    }

    /// Difference modulo `modulus()`.
    pub fn wrapping_sub(&self, rhs: &Self) -> (r: Self)
        ensures
            r.value() as int == (self.value() - rhs.value()) % (Self::modulus() as int),
    {
        let (diff, borrow) = self.sbb(rhs, Limb(0));
        proof {
            Self::lemma_value_bound(diff);
            let m = Self::modulus() as int;
            let d = diff.value() as int;
            let c = borrow.0 as int;
            assert((d - c * m) % m == d) by (nonlinear_arith)
                requires
                    0 <= d < m,
                    0 <= c <= 1,
            ;
        }
        diff
    }

    /// Subtracting a value from itself gives zero.
    pub proof fn lemma_sub_self(x: Self, diff: Self)
        requires
            diff.value() as int == (x.value() - x.value()) % (Self::modulus() as int),
        ensures
            diff.value() == 0,
    {
        crate::limb::lemma_base_pow_pos(LIMBS as nat);
        assert(x.value() - x.value() == 0);
        vstd::arithmetic::div_mod::lemma_small_mod(0, Self::modulus());
    }

    /// The difference, where `rhs` is at most `self`; `None` where it underflows.
    pub fn checked_sub(&self, rhs: &Self) -> (r: Option<Self>)
        ensures
            r is Some <==> rhs.value() <= self.value(),
            r is Some ==> r->0.value() == self.value() - rhs.value(),
    {
        let (diff, borrow) = self.sbb(rhs, Limb(0));
        proof {
            Self::lemma_value_bound(diff);
            if borrow.0 == 1 {
                assert(diff.value() - Self::modulus() == self.value() - rhs.value());
            } else {
                assert(diff.value() == self.value() - rhs.value());
            }
        }
        if borrow.0 == 0 {
            Some(diff)
        } else {
            None
        }
    }

    /// Two's-complement negation: `-self` modulo `modulus()`; zero stays zero.
    pub fn wrapping_neg(&self) -> (r: Self)
        ensures
            r.value() as int == (0 - self.value()) % (Self::modulus() as int),
    {
        Self::zero().wrapping_sub(self)
    }
}

} // verus!
