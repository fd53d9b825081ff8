//! Logical shifts by a runtime amount.
use super::Uint;
use crate::ct::choice_from_bit;
use crate::error::ArithmeticError;
use vstd::arithmetic::power2::{lemma2_to64, lemma_pow2_adds, lemma_pow2_strictly_increases, pow2};
use vstd::prelude::*;

verus! {

impl<const LIMBS: usize> Uint<LIMBS> {
    /// The bit width, `64 * LIMBS`.
    pub open spec fn bits() -> nat {
        64 * LIMBS as nat
    }

    /// Shift left by `n < bits()`: `self * 2^n` modulo `modulus()`. A larger
    /// amount is reported as `InvalidShift`.
    ///
    /// All `bits()` doubling steps run whatever `n` is; each is kept or dropped
    /// by a constant-time selection.
    pub fn shl(&self, n: usize) -> (r: Result<Self, ArithmeticError>)
        ensures
            n >= Self::bits() <==> r == Err::<Self, ArithmeticError>(ArithmeticError::InvalidShift),
            r is Ok <==> n < Self::bits(),
            r is Ok ==> r->Ok_0.value() == (self.value() * pow2(n as nat)) % Self::modulus(),
    {
        let total: u128 = LIMBS as u128 * 64;
        if n as u128 >= total {
            return Err(ArithmeticError::InvalidShift);
        }
        let ghost m = Self::modulus() as int;
        let ghost x = self.value() as int;
        let mut acc = *self;
        let mut i: u128 = 0;
        proof {
            super::div::lemma_pow2_base_pow(LIMBS as nat);
            lemma2_to64();
            Self::lemma_value_bound(*self);
            vstd::arithmetic::div_mod::lemma_small_mod(self.value(), Self::modulus());
            assert(x * 1 == x);
        }
        while i < total
            invariant
                i <= total,
                total == LIMBS * 64,
                (n as u128) < total,
                m == Self::modulus(),
                x == self.value(),
                m > 0,
                acc.value() == (x * pow2(if i <= n as u128 { i as nat } else { n as nat })) % m,
            decreases total - i,
        {
            let doubled = acc.wrapping_add(&acc);
            let keep: u8 = if i < n as u128 { 1 } else { 0 };
            let choice = choice_from_bit(keep);
            let next = Self::conditional_select(&acc, &doubled, choice);
            proof {
                if keep == 1 {
                    assert(next == doubled);
                    let e = i as nat;
                    lemma_pow2_adds(e, 1);
                    lemma2_to64();
                    assert(pow2(1) == 2);
                    let y = x * pow2(e);
                    vstd::arithmetic::div_mod::lemma_add_mod_noop(y, y, m);
                    assert(x * pow2(e + 1) == y + y) by (nonlinear_arith)
                        requires
                            pow2(e + 1) == pow2(e) * 2,
                            y == x * pow2(e),
                    ;
                } else {
                    assert(next == acc);
                }
            }
            acc = next;
            i = i + 1;
        }
        Ok(acc)
    }

    /// Shift right by `n < bits()`: `self / 2^n`, rounded down. A larger amount
    /// is reported as `InvalidShift`.
    pub fn shr(&self, n: usize) -> (r: Result<Self, ArithmeticError>)
        ensures
            n >= Self::bits() <==> r == Err::<Self, ArithmeticError>(ArithmeticError::InvalidShift),
            r is Ok <==> n < Self::bits(),
            r is Ok ==> r->Ok_0.value() == self.value() / pow2(n as nat),
    {
        let one = Self::one();
        let divisor = match one.shl(n) {
            Ok(d) => d,
            Err(e) => {
                return Err(e);
            },
        };
        proof {
            super::div::lemma_pow2_base_pow(LIMBS as nat);
            if (n as nat) < Self::bits() {
                lemma_pow2_strictly_increases(n as nat, Self::bits());
            }
            vstd::arithmetic::power2::lemma_pow2_pos(n as nat);
            assert(LIMBS > 0);
            assert(1 * pow2(n as nat) == pow2(n as nat));
            vstd::arithmetic::div_mod::lemma_small_mod(pow2(n as nat), Self::modulus());
        }
        match self.div_rem(&divisor) {
            Ok((q, rem)) => {
                proof {
                    vstd::arithmetic::div_mod::lemma_fundamental_div_mod_converse(
                        self.value() as int,
                        pow2(n as nat) as int,
                        q.value() as int,
                        rem.value() as int,
                    );
                }
                Ok(q)
            },
            Err(e) => Err(e),
        }
    }
}

} // verus!
