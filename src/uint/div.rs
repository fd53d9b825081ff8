//! Binary long division.
use super::Uint;
use crate::ct::choice_from_bit;
use crate::error::ArithmeticError;
use crate::limb::{base_pow, Limb};
use vstd::arithmetic::power2::{lemma2_to64, lemma_pow2_adds, lemma_pow2_strictly_increases, pow2};
use vstd::prelude::*;

verus! {

/// `2^(64 n) == limb_base()^n`.
pub proof fn lemma_pow2_base_pow(n: nat)
    ensures
        pow2(64 * n) == base_pow(n),
    decreases n,
{
    if n == 0 {
        lemma2_to64();
    } else {
        lemma_pow2_base_pow((n - 1) as nat);
        lemma_pow2_adds(64 * (n - 1) as nat, 64);
        lemma2_to64();
        assert(64 * (n - 1) as nat + 64 == 64 * n);
        assert(base_pow(n) == crate::limb::limb_base() * base_pow((n - 1) as nat));
    }
}

/// One step of long division: the next dividend bit enters the remainder,
/// and the divisor is taken off where it fits.
pub(crate) proof fn lemma_div_step(
    m: int,
    d: int,
    q: int,
    r: int,
    p: int,
    bit: int,
    c: int,
    r2: int,
    diff: int,
    bo: int,
    take: int,
)
    requires
        0 < d < m,
        0 <= r < d,
        p == q * d + r,
        0 <= bit <= 1,
        0 <= c <= 1,
        0 <= bo <= 1,
        0 <= r2 < m,
        0 <= diff < m,
        r2 + c * m == 2 * r + bit,
        diff - bo * m == r2 - d,
        take == 1 <==> (c == 1 || bo == 0),
        take == 0 || take == 1,
    ensures
        ({
            let r_next = if take == 1 { diff } else { r2 };
            &&& 0 <= r_next < d
            &&& 2 * p + bit == (2 * q + take) * d + r_next
        }),
{
    let f = 2 * r + bit;
    assert(c * m == if c == 1 { m } else { 0 });
    assert(bo * m == if bo == 1 { m } else { 0 });
    if c == 1 {
        assert(r2 == f - m);
        assert(bo == 1);
        assert(diff == f - d);
    }
    assert(2 * p + bit == 2 * q * d + f) by (nonlinear_arith)
        requires
            p == q * d + r,
            f == 2 * r + bit,
    ;
    assert((2 * q + 1) * d == 2 * q * d + d) by (nonlinear_arith);
    assert((2 * q + 0) * d == 2 * q * d) by (nonlinear_arith);
}

impl<const LIMBS: usize> Uint<LIMBS> {
    /// Quotient and remainder: `self == quotient * rhs + remainder` with
    /// `remainder < rhs`. A zero divisor is reported, not divided by.
    ///
    /// Every dividend bit takes one shift, one trial subtraction and one
    /// constant-time selection, so the step count depends on the width alone.
    pub fn div_rem(&self, rhs: &Self) -> (r: Result<(Self, Self), ArithmeticError>)
        ensures
            rhs.value() == 0 <==> r == Err::<(Self, Self), ArithmeticError>(
                ArithmeticError::DivisionByZero,
            ),
            r is Ok <==> rhs.value() != 0,
            r is Ok ==> ({
                let (quotient, remainder) = r->Ok_0;
                &&& self.value() == quotient.value() * rhs.value() + remainder.value()
                &&& remainder.value() < rhs.value()
            }),
    {
        if rhs.is_zero() {
            return Err(ArithmeticError::DivisionByZero);
        }
        let ghost m = Self::modulus() as int;
        let ghost d = rhs.value() as int;
        let ghost a0 = self.value() as int;
        let total: u128 = LIMBS as u128 * 64;
        let mut a = *self;
        let mut q = Self::zero();
        let mut rem = Self::zero();
        let ghost mut p: int = 0;
        let mut t: u128 = 0;
        proof {
            Self::lemma_value_bound(*self);
            Self::lemma_value_bound(*rhs);
            lemma_pow2_base_pow(LIMBS as nat);
            vstd::arithmetic::power2::lemma2_to64();
            assert(a0 * 1 == 0 * m + a0);
        }
        while t < total
            invariant
                t <= total,
                total == LIMBS * 64,
                pow2(total as nat) == m,
                m == Self::modulus(),
                d == rhs.value(),
                a0 == self.value(),
                0 < d < m,
                0 <= a0 < m,
                a0 * pow2(t as nat) == p * m + a.value(),
                p == q.value() * d + rem.value(),
                rem.value() < d,
            decreases total - t,
        {
            let (a_next, bit) = a.adc(&a, Limb(0));
            let (r2, c) = rem.adc(&rem, bit);
            let (diff, bo) = r2.sbb(rhs, Limb(0));
            let nb: u64 = 1 - bo.0;
            let take: u64 = c.0 | nb;
            proof {
                let cc = c.0;
                assert((cc | nb) == 1 <==> (cc == 1 || nb == 1)) by (bit_vector)
                    requires
                        cc <= 1,
                        nb <= 1,
                ;
                assert((cc | nb) <= 1) by (bit_vector)
                    requires
                        cc <= 1,
                        nb <= 1,
                ;
                Self::lemma_value_bound(r2);
                Self::lemma_value_bound(diff);
                Self::lemma_value_bound(a_next);
                lemma_div_step(
                    m,
                    d,
                    q.value() as int,
                    rem.value() as int,
                    p,
                    bit.0 as int,
                    c.0 as int,
                    r2.value() as int,
                    diff.value() as int,
                    bo.0 as int,
                    take as int,
                );
            }
            let choice = choice_from_bit(take as u8);
            let rem_next = Self::conditional_select(&r2, &diff, choice);
            let (q_next, qc) = q.adc(&q, Limb(take));
            proof {
                if take == 1 {
                    assert(rem_next == diff);
                } else {
                    assert(rem_next == r2);
                }
                let pn = 2 * p + bit.0;
                let an = a_next.value() as int;
                let pw = pow2(t as nat);
                lemma_pow2_adds(t as nat, 1);
                lemma2_to64();
                assert(pow2(1) == 2);
                assert(pow2((t + 1) as nat) == pw * 2);
                assert(a0 * (pw * 2) == pn * m + an) by (nonlinear_arith)
                    requires
                        a0 * pw == p * m + a.value(),
                        an + bit.0 * m == 2 * a.value(),
                        pn == 2 * p + bit.0,
                ;
                if t + 1 < total {
                    lemma_pow2_strictly_increases((t + 1) as nat, total as nat);
                }
                assert(pn < m) by (nonlinear_arith)
                    requires
                        a0 * (pw * 2) == pn * m + an,
                        pw * 2 <= m,
                        0 <= a0 < m,
                        0 <= an,
                        0 < m,
                ;
                let qn = 2 * q.value() + take;
                let rn = rem_next.value() as int;
                assert(qn <= pn) by (nonlinear_arith)
                    requires
                        pn == qn * d + rn,
                        0 <= rn,
                        1 <= d,
                        0 <= qn,
                ;
                assert(qc.0 == 0) by (nonlinear_arith)
                    requires
                        q_next.value() + qc.0 * m == qn,
                        qn < m,
                        0 <= q_next.value(),
                        0 <= qc.0,
                        0 < m,
                ;
                assert(qc.0 * m == 0) by (nonlinear_arith)
                    requires
                        qc.0 == 0,
                ;
                assert(q_next.value() == qn);
                assert(pn == q_next.value() * d + rn);
                p = pn;
            }
            a = a_next;
            rem = rem_next;
            q = q_next;
            t = t + 1;
        }
        proof {
            Self::lemma_value_bound(a);
            assert(p == a0) by (nonlinear_arith)
                requires
                    a0 * m == p * m + a.value(),
                    0 <= a.value() < m,
                    0 <= a0 < m,
                    0 < m,
            ;
        }
        Ok((q, rem))
    }

    /// Whether the value is zero, examined across every limb.
    pub fn is_zero(&self) -> (r: bool)
        ensures
            r == (self.value() == 0),
    {
        let z = Self::zero();
        let r = *self == z;
        proof {
            if r {
                Self::lemma_words_ext(*self, z);
            } else if self.value() == 0 {
                Self::lemma_value_ext(*self, z);
            }
        }
        r
    }
}

} // verus!
