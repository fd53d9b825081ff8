//! Addition with carry propagation.
use super::Uint;
use crate::limb::{base_pow, limb_base, lemma_words_value_push, limb_words, words_value, Limb};
use vstd::prelude::*;

verus! {

impl<const LIMBS: usize> Uint<LIMBS> {
    /// Adds `rhs` and a carry of 0 or 1, rippling the carry through every limb.
    /// Returns the sum modulo `modulus()` and the carry out (0 or 1).
    pub fn adc(&self, rhs: &Self, carry: Limb) -> (r: (Self, Limb))
        requires
            carry.0 <= 1,
        ensures
            r.1.0 <= 1,
            r.0.value() + r.1.0 * Self::modulus() == self.value() + rhs.value() + carry.0,
    {
        let mut limbs = [Limb(0); LIMBS];
        let mut c = carry;
        let mut i: usize = 0;
        let ghost a = self.words();
        let ghost b = rhs.words();
        proof {
            assert(limb_words(limbs@).subrange(0, 0) =~= Seq::empty());
            assert(a.subrange(0, 0) =~= Seq::empty());
            assert(b.subrange(0, 0) =~= Seq::empty());
            assert(base_pow(0) == 1);
            assert(c.0 * 1 == c.0);
        }
        while i < LIMBS
            invariant
                i <= LIMBS,
                c.0 <= 1,
                a == self.words(),
                b == rhs.words(),
                a.len() == LIMBS,
                b.len() == LIMBS,
                words_value(limb_words(limbs@).subrange(0, i as int)) + c.0 * base_pow(i as nat)
                    == words_value(a.subrange(0, i as int)) + words_value(b.subrange(0, i as int)) + carry.0,
            decreases LIMBS - i,
        {
            let ghost old_limbs = limbs;
            let ghost c0 = c.0;
            let (w, c2) = self.limbs[i].adc(rhs.limbs[i], c);
            limbs[i] = w;
            c = c2;
            proof {
                let k = i as int;
                assert(limb_words(limbs@).subrange(0, k + 1) =~= limb_words(old_limbs@).subrange(0, k).push(w.0));
                assert(a.subrange(0, k + 1) =~= a.subrange(0, k).push(a[k]));
                assert(b.subrange(0, k + 1) =~= b.subrange(0, k).push(b[k]));
                lemma_words_value_push(limb_words(old_limbs@).subrange(0, k), w.0);
                lemma_words_value_push(a.subrange(0, k), a[k]);
                lemma_words_value_push(b.subrange(0, k), b[k]);
                assert(a[k] == self.limbs@[k].0 && b[k] == rhs.limbs@[k].0);
                let p = base_pow(i as nat);
                assert(base_pow((i + 1) as nat) == limb_base() * p);
                assert((w.0 + c2.0 * limb_base()) * p == w.0 * p + c2.0 * (limb_base() * p)) by (nonlinear_arith);
                assert((a[k] + b[k] + c0) * p == a[k] * p + b[k] * p + c0 * p) by (nonlinear_arith);
            }
            i = i + 1;
        }
        let r = Uint { limbs };
        proof {
            assert(limb_words(limbs@).subrange(0, LIMBS as int) =~= r.words());
            assert(a.subrange(0, LIMBS as int) =~= a);
            assert(b.subrange(0, LIMBS as int) =~= b);
        }
        (r, c)
    }

    /// Adding zero leaves a value unchanged.
    pub proof fn lemma_add_zero(x: Self, zero: Self, sum: Self)
        requires
            zero.value() == 0,
            sum.value() == (x.value() + zero.value()) % Self::modulus(),
        ensures
            sum == x,
    {
        Self::lemma_value_bound(x);
        vstd::arithmetic::div_mod::lemma_small_mod(x.value(), Self::modulus());
        Self::lemma_value_ext(sum, x);
    }

    /// Where the sum of two values exceeds the largest value, the carry out is
    /// one and the result is the sum less `modulus()`, that is, the sum modulo
    /// `modulus()`.
    pub proof fn lemma_add_overflow(a: Self, b: Self, sum: Self, carry: Limb)
        requires
            a.value() + b.value() >= Self::modulus(),
            carry.0 <= 1,
            sum.value() + carry.0 * Self::modulus() == a.value() + b.value() + 0,
        ensures
            carry.0 == 1,
            sum.value() == a.value() + b.value() - Self::modulus(),
            sum.value() == (a.value() + b.value()) % Self::modulus(),
    {
        Self::lemma_value_bound(sum);
        Self::lemma_value_bound(a);
        Self::lemma_value_bound(b);
        let m = Self::modulus();
        let t = a.value() + b.value();
        vstd::arithmetic::div_mod::lemma_fundamental_div_mod_converse(t as int, m as int, 1, t - m);
    }

    /// Sum modulo `modulus()`.
    pub fn wrapping_add(&self, rhs: &Self) -> (r: Self)
        ensures
            r.value() == (self.value() + rhs.value()) % Self::modulus(),
    {
        let (sum, carry) = self.adc(rhs, Limb(0));
        proof {
            Self::lemma_value_bound(sum);
            let m = Self::modulus();
            let s = sum.value();
            let c = carry.0 as nat;
            assert((s + c * m) % m == s) by (nonlinear_arith)
                requires
                    s < m,
                    c <= 1,
            ;
        }
        sum
    }

    /// The sum, where it is below `modulus()`; `None` where it overflows.
    pub fn checked_add(&self, rhs: &Self) -> (r: Option<Self>)
        ensures
            r is Some <==> self.value() + rhs.value() < Self::modulus(),
            r is Some ==> r->0.value() == self.value() + rhs.value(),
    {
        let (sum, carry) = self.adc(rhs, Limb(0));
        proof {
            Self::lemma_value_bound(sum);
        }
        if carry.0 == 0 {
            Some(sum)
        } else {
            None
        }
    }
}

} // verus!
