//! Modular addition, subtraction and negation against a supplied modulus.
use super::Uint;
use crate::ct::choice_from_bit;
use crate::limb::Limb;
use vstd::arithmetic::div_mod::{lemma_fundamental_div_mod_converse, lemma_small_mod};
use vstd::prelude::*;

verus! {

/// `t mod p` for `0 <= t < 2p` is `t`, or `t - p` from `p` on.
proof fn lemma_mod_once(t: int, p: int)
    requires
        0 < p,
        0 <= t < 2 * p,
    ensures
        t % p == if t < p { t } else { t - p },
{
    if t < p {
        lemma_small_mod(t as nat, p as nat);
    } else {
        lemma_fundamental_div_mod_converse(t, p, 1, t - p);
    }
}

impl<const LIMBS: usize> Uint<LIMBS> {
    /// `(self + rhs) mod p` for operands already reduced modulo `p`. The raw sum
    /// and the sum less `p` are both computed, and one is selected in constant
    /// time.
    pub fn add_mod(&self, rhs: &Self, p: &Self) -> (r: Self)
        requires
            self.value() < p.value(),
            rhs.value() < p.value(),
        ensures
            r.value() == (self.value() + rhs.value()) % p.value(),
            r.value() < p.value(),
    {
        let (sum, carry) = self.adc(rhs, Limb(0));
        let (reduced, borrow) = sum.sbb(p, Limb(0));
        let take_reduced = (carry.0 | (1 - borrow.0)) as u8;
        proof {
            Self::lemma_value_bound(sum);
            Self::lemma_value_bound(reduced);
            Self::lemma_value_bound(*p);
            let c = carry.0;
            let b = borrow.0;
            let nb = (1 - b) as u64;
            assert((c | nb) == 1 <==> (c == 1 || nb == 1)) by (bit_vector)
                requires
                    c <= 1,
                    nb <= 1,
            ;
            assert((c | nb) <= 1) by (bit_vector)
                requires
                    c <= 1,
                    nb <= 1,
            ;
            let t = (self.value() + rhs.value()) as int;
            let m = Self::modulus() as int;
            lemma_mod_once(t, p.value() as int);
            assert(c * Self::modulus() == if c == 1 { m } else { 0 }) by (nonlinear_arith)
                requires
                    c <= 1,
                    m == Self::modulus(),
            ;
            assert(b * Self::modulus() == if b == 1 { m } else { 0 }) by (nonlinear_arith)
                requires
                    b <= 1,
                    m == Self::modulus(),
            ;
            if c == 1 {
                assert(sum.value() == t - m);
                assert(b == 1);
                assert(reduced.value() == t - p.value());
            } else if b == 0 {
                assert(reduced.value() == t - p.value());
            } else {
                assert(sum.value() == t);
                assert(t < p.value());
            }
        }
        let choice = choice_from_bit(take_reduced);
        let r = Self::conditional_select(&sum, &reduced, choice);
        proof {
            if take_reduced == 1 {
                assert(r == reduced);
            } else {
                assert(r == sum);
            }
        }
        r
    }

    /// `(self - rhs) mod p` for operands already reduced modulo `p`: where the
    /// difference borrows, `p` is added back, selected in constant time.
    pub fn sub_mod(&self, rhs: &Self, p: &Self) -> (r: Self)
        requires
            self.value() < p.value(),
            rhs.value() < p.value(),
        ensures
            r.value() as int == (self.value() - rhs.value()) % (p.value() as int),
            r.value() < p.value(),
    {
        let (diff, borrow) = self.sbb(rhs, Limb(0));
        let restored = diff.wrapping_add(p);
        proof {
            Self::lemma_value_bound(diff);
            Self::lemma_value_bound(*p);
            let m = Self::modulus() as int;
            let t = self.value() - rhs.value();
            if borrow.0 == 1 {
                assert(diff.value() == t + m);
                assert(diff.value() + p.value() == t + p.value() + m);
                lemma_fundamental_div_mod_converse(t + p.value() + m, m, 1, t + p.value());
                lemma_fundamental_div_mod_converse(t, p.value() as int, -1, t + p.value());
                assert(restored.value() == t + p.value());
            } else {
                assert(diff.value() == t);
                lemma_small_mod(t as nat, p.value());
            }
        }
        let choice = choice_from_bit(borrow.0 as u8);
        let r = Self::conditional_select(&diff, &restored, choice);
        proof {
            if borrow.0 == 1 {
                assert(r == restored);
            } else {
                assert(r == diff);
            }
        }
        r
    }

    /// `-self mod p` for an operand already reduced modulo `p`.
    pub fn neg_mod(&self, p: &Self) -> (r: Self)
        requires
            self.value() < p.value(),
        ensures
            r.value() as int == (0 - self.value()) % (p.value() as int),
            r.value() < p.value(),
    {
        Self::zero().sub_mod(self, p)
    }

    /// Adding zero modulo `m` to a value reduced modulo `m` gives the value back;
    /// every modular sum lies in `[0, m)`.
    pub proof fn lemma_add_mod_zero(a: Self, zero: Self, m: Self, r: Self)
        requires
            a.value() < m.value(),
            zero.value() == 0,
            r.value() == (a.value() + zero.value()) % m.value(),
        ensures
            r.value() == a.value() % m.value(),
            r.value() == a.value(),
            r == a,
            r.value() < m.value(),
    {
        lemma_small_mod(a.value(), m.value());
        Self::lemma_value_ext(r, a);
    }
}

} // verus!
