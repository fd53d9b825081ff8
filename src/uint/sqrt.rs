//! Integer square root.
use super::Uint;
use crate::ct::choice_from_bit;
use crate::limb::Limb;
use vstd::arithmetic::power2::{lemma2_to64, lemma_pow2_adds, lemma_pow2_strictly_increases, pow2};
use vstd::prelude::*;

verus! {

impl<const LIMBS: usize> Uint<LIMBS> {
    /// `floor(sqrt(self))`, built one bit at a time from the most significant
    /// possible bit down. Every bit position takes the same steps, so the count
    /// depends on the width alone.
    pub fn sqrt(&self) -> (r: Self)
        requires
            Self::bits() <= usize::MAX,
        ensures
            r.value() * r.value() <= self.value(),
            self.value() < (r.value() + 1) * (r.value() + 1),
    {
        let half: usize = LIMBS * 32;
        let ghost x = self.value() as int;
        let ghost m = Self::modulus() as int;
        let one = Self::one();
        let mut root = Self::zero();
        let mut b: usize = half;
        proof {
            super::div::lemma_pow2_base_pow(LIMBS as nat);
            lemma_pow2_adds(half as nat, half as nat);
            Self::lemma_value_bound(*self);
            assert(0 + pow2(half as nat) == pow2(half as nat));
            assert(0int * 0 == 0);
            vstd::arithmetic::power2::lemma_pow2_pos(half as nat);
            if half > 0 {
                lemma_pow2_strictly_increases(half as nat, Self::bits());
            }
        }
        while b > 0
            invariant
                b <= half,
                half == LIMBS * 32,
                half * 2 == Self::bits(),
                Self::bits() <= usize::MAX,
                x == self.value(),
                m == Self::modulus(),
                half == 0 || pow2(half as nat) < m,
                one.value() == if LIMBS == 0 { 0nat } else { 1nat },
                root.value() + pow2(b as nat) <= pow2(half as nat),
                root.value() * root.value() <= x,
                x < (root.value() + pow2(b as nat)) * (root.value() + pow2(b as nat)),
            decreases b,
        {
            let step = match one.shl(b - 1) {
                Ok(s) => s,
                Err(_) => {
                    return root;
                },
            };
            let ghost p = pow2((b - 1) as nat);
            proof {
                lemma_pow2_adds((b - 1) as nat, 1);
                lemma2_to64();
                vstd::arithmetic::power2::lemma_pow2_pos((b - 1) as nat);
                assert(1 * p == p);
                assert(pow2(b as nat) == 2 * p);
                Self::lemma_value_bound(root);
                vstd::arithmetic::div_mod::lemma_small_mod(p as nat, m as nat);
                assert(LIMBS > 0);
                assert(one.value() == 1);
                assert(one.value() * p == p);
                assert(step.value() == p);
            }
            let cand = root.wrapping_add(&step);
            proof {
                vstd::arithmetic::div_mod::lemma_small_mod((root.value() + p) as nat, m as nat);
            }
            let (lo, hi) = cand.mul_wide(&cand);
            let (diff, borrow) = self.sbb(&lo, Limb(0));
            let fits = hi.is_zero() && borrow.0 == 0;
            proof {
                Self::lemma_value_bound(lo);
                Self::lemma_value_bound(hi);
                Self::lemma_value_bound(diff);
                let c = cand.value() as int;
                assert(borrow.0 * m == if borrow.0 == 1 { m } else { 0 }) by (nonlinear_arith)
                    requires
                        borrow.0 <= 1,
                ;
                if hi.value() == 0 {
                    assert(hi.value() * m == 0) by (nonlinear_arith)
                        requires
                            hi.value() == 0,
                    ;
                } else {
                    assert(hi.value() * m >= m) by (nonlinear_arith)
                        requires
                            hi.value() >= 1,
                            m > 0,
                    ;
                }
                assert(fits <==> c * c <= x);
            }
            let choice = choice_from_bit(if fits { 1u8 } else { 0u8 });
            let next = Self::conditional_select(&root, &cand, choice);
            proof {
                let r = root.value() as int;
                assert(cand.value() == r + p);
                if fits {
                    assert(next == cand);
                    assert((r + p) + p == r + 2 * p);
                    assert(next.value() + pow2((b - 1) as nat) == r + pow2(b as nat));
                } else {
                    assert(next == root);
                    assert(r + p <= r + 2 * p);
                }
            }
            root = next;
            b = b - 1;
        }
        proof {
            assert(pow2(0) == 1) by {
                lemma2_to64();
            }
        }
        root
    }
}

} // verus!
