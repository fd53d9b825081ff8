//! Modular multiplication: full product, then reduction by shifting its bits
//! through a remainder.
use super::Uint;
use crate::ct::choice_from_bit;
use crate::limb::Limb;
use vstd::arithmetic::div_mod::lemma_fundamental_div_mod_converse;
use vstd::arithmetic::power2::{lemma2_to64, lemma_pow2_adds, pow2};
use vstd::prelude::*;

verus! {

impl<const LIMBS: usize> Uint<LIMBS> {
    /// `(hi * modulus() + lo) mod p`, for `hi < p`: the bits of `lo` are shifted
    /// one by one into a remainder that starts at `hi`, taking `p` off in
    /// constant time wherever it fits.
    fn reduce_wide(hi: &Self, lo: &Self, p: &Self) -> (r: Self)
        requires
            hi.value() < p.value(),
        ensures
            r.value() == (hi.value() * Self::modulus() + lo.value()) % p.value(),
    {
        let ghost m = Self::modulus() as int;
        let ghost d = p.value() as int;
        let ghost h = hi.value() as int;
        let ghost a0 = lo.value() as int;
        let total: u128 = LIMBS as u128 * 64;
        let mut a = *lo;
        let mut rem = *hi;
        let ghost mut q: int = 0;
        let ghost mut big: int = h;
        let mut t: u128 = 0;
        proof {
            Self::lemma_value_bound(*lo);
            Self::lemma_value_bound(*p);
            super::div::lemma_pow2_base_pow(LIMBS as nat);
            lemma2_to64();
            assert((h * m + a0) * 1 == h * m + a0);
            assert(0 * d + h == h);
        }
        while t < total
            invariant
                t <= total,
                total == LIMBS * 64,
                pow2(total as nat) == m,
                m == Self::modulus(),
                d == p.value(),
                h == hi.value(),
                a0 == lo.value(),
                0 <= h < d < m,
                0 <= a0 < m,
                (h * m + a0) * pow2(t as nat) == big * m + a.value(),
                big == q * d + rem.value(),
                rem.value() < d,
            decreases total - t,
        {
            let (a_next, bit) = a.adc(&a, Limb(0));
            let (r2, c) = rem.adc(&rem, bit);
            let (diff, bo) = r2.sbb(p, Limb(0));
            let nb: u64 = 1 - bo.0;
            let take: u64 = c.0 | nb;
            proof {
                let cc = c.0;
                assert((cc | nb) == 1 <==> (cc == 1 || nb == 1)) by (bit_vector)
                    requires
                        cc <= 1,
                        nb <= 1,
                ;
                assert((cc | nb) <= 1) by (bit_vector)
                    requires
                        cc <= 1,
                        nb <= 1,
                ;
                Self::lemma_value_bound(r2);
                Self::lemma_value_bound(diff);
                super::div::lemma_div_step(
                    m,
                    d,
                    q,
                    rem.value() as int,
                    big,
                    bit.0 as int,
                    c.0 as int,
                    r2.value() as int,
                    diff.value() as int,
                    bo.0 as int,
                    take as int,
                );
            }
            let choice = choice_from_bit(take as u8);
            let rem_next = Self::conditional_select(&r2, &diff, choice);
            proof {
                if take == 1 {
                    assert(rem_next == diff);
                } else {
                    assert(rem_next == r2);
                }
                let pw = pow2(t as nat);
                lemma_pow2_adds(t as nat, 1);
                lemma2_to64();
                assert(pow2((t + 1) as nat) == pw * 2);
                assert((h * m + a0) * (pw * 2) == (2 * big + bit.0) * m + a_next.value()) by (
                nonlinear_arith)
                    requires
                        (h * m + a0) * pw == big * m + a.value(),
                        a_next.value() + bit.0 * m == 2 * a.value(),
                ;
                q = 2 * q + take;
                big = 2 * big + bit.0;
            }
            a = a_next;
            rem = rem_next;
            t = t + 1;
        }
        proof {
            Self::lemma_value_bound(a);
            let x = h * m + a0;
            assert(big == x) by (nonlinear_arith)
                requires
                    x * m == big * m + a.value(),
                    0 <= a.value() < m,
                    0 < m,
            ;
            lemma_fundamental_div_mod_converse(x, d, q, rem.value() as int);
        }
        rem
    }

    /// `(self * rhs) mod p` for operands already reduced modulo `p`: the full
    /// double-width product is reduced modulo `p`.
    pub fn mul_mod(&self, rhs: &Self, p: &Self) -> (r: Self)
        requires
            self.value() < p.value(),
            rhs.value() < p.value(),
        ensures
            r.value() == (self.value() * rhs.value()) % p.value(),
            r.value() < p.value(),
    {
        let (lo, hi) = self.mul_wide(rhs);
        proof {
            Self::lemma_value_bound(lo);
            Self::lemma_value_bound(*p);
            let m = Self::modulus() as int;
            let x = self.value() as int;
            let y = rhs.value() as int;
            let pv = p.value() as int;
            assert(hi.value() < pv) by (nonlinear_arith)
                requires
                    lo.value() + hi.value() * m == x * y,
                    0 <= x < pv,
                    0 <= y < pv,
                    pv <= m,
                    0 <= lo.value(),
            ;
        }
        Self::reduce_wide(&hi, &lo, p)
    }
}

} // verus!
