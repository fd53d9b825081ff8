//! Joining two values into one of twice the width, and splitting it again.
use super::{lemma_value_low_high, Uint};
use crate::limb::Limb;
use vstd::prelude::*;

verus! {

impl<const LIMBS: usize> Uint<LIMBS> {
    /// The value of twice the width whose low half is `low` and high half is `high`.
    pub fn concat<const WIDE: usize>(high: &Self, low: &Self) -> (r: Uint<WIDE>)
        requires
            WIDE == 2 * LIMBS,
        ensures
            r.words() == low.words() + high.words(),
            r.value() == low.value() + high.value() * Self::modulus(),
    {
        let mut limbs = [Limb(0); WIDE];
        let mut i: usize = 0;
        while i < LIMBS
            invariant
                i <= LIMBS,
                WIDE == 2 * LIMBS,
                forall|j: int| 0 <= j < i ==> limbs@[j] == low.limbs@[j],
                forall|j: int| 0 <= j < i ==> limbs@[LIMBS + j] == high.limbs@[j],
            decreases LIMBS - i,
        {
            limbs[i] = low.limbs[i];
            limbs[LIMBS + i] = high.limbs[i];
            i = i + 1;
        }
        let r = Uint { limbs };
        proof {
            assert(r.words() =~= low.words() + high.words());
            Self::lemma_value_bound(*low);
            lemma_value_low_high(low.words(), high.words());
            let m = Self::modulus();
            assert(m * high.value() == high.value() * m) by (nonlinear_arith);
        }
        r
    }

    /// The high and low halves of a value of even limb count.
    pub fn split<const HALF: usize>(&self) -> (r: (Uint<HALF>, Uint<HALF>))
        requires
            LIMBS == 2 * HALF,
        ensures
            r.1.words() == self.words().subrange(0, HALF as int),
            r.0.words() == self.words().subrange(HALF as int, LIMBS as int),
            self.value() == r.1.value() + r.0.value() * Uint::<HALF>::modulus(),
    {
        let mut lo = [Limb(0); HALF];
        let mut hi = [Limb(0); HALF];
        let mut i: usize = 0;
        while i < HALF
            invariant
                i <= HALF,
                LIMBS == 2 * HALF,
                forall|j: int| 0 <= j < i ==> lo@[j] == self.limbs@[j],
                forall|j: int| 0 <= j < i ==> hi@[j] == self.limbs@[HALF + j],
            decreases HALF - i,
        {
            lo[i] = self.limbs[i];
            hi[i] = self.limbs[HALF + i];
            i = i + 1;
        }
        let rlo = Uint { limbs: lo };
        let rhi = Uint { limbs: hi };
        proof {
            let w = self.words();
            assert(rlo.words() =~= w.subrange(0, HALF as int));
            assert(rhi.words() =~= w.subrange(HALF as int, LIMBS as int));
            assert(w =~= rlo.words() + rhi.words());
            Uint::<HALF>::lemma_value_bound(rlo);
            lemma_value_low_high(rlo.words(), rhi.words());
            let m = Uint::<HALF>::modulus();
            assert(m * rhi.value() == rhi.value() * m) by (nonlinear_arith);
        }
        (rhi, rlo)
    }

    /// Splitting a concatenation gives back the two halves.
    pub proof fn lemma_split_concat<const HALF: usize>(
        high: Uint<HALF>,
        low: Uint<HALF>,
        wide: Self,
        parts: (Uint<HALF>, Uint<HALF>),
    )
        requires
            LIMBS == 2 * HALF,
            wide.words() == low.words() + high.words(),
            parts.1.words() == wide.words().subrange(0, HALF as int),
            parts.0.words() == wide.words().subrange(HALF as int, LIMBS as int),
        ensures
            parts == (high, low),
    {
        Uint::<HALF>::lemma_value_bound(low);
        Uint::<HALF>::lemma_value_bound(high);
        assert(parts.1.words() =~= low.words());
        assert(parts.0.words() =~= high.words());
        Uint::<HALF>::lemma_words_ext(parts.1, low);
        Uint::<HALF>::lemma_words_ext(parts.0, high);
    }
}

} // verus!
