//! Schoolbook multiplication.
use super::{lemma_base_pow_add, lemma_value_low_high, Uint};
use crate::limb::{base_pow, limb_base, lemma_words_value_push, limb_words, words_value, Limb, Word};
use vstd::prelude::*;

verus! {

/// Replacing digit `k` changes the value by the difference at its place value.
pub proof fn lemma_value_update(s: Seq<Word>, k: int, v: Word)
    requires
        0 <= k < s.len(),
    ensures
        words_value(s.update(k, v)) + s[k] * base_pow(k as nat) == words_value(s) + v * base_pow(
            k as nat,
        ),
    decreases s.len(),
{
    let t = s.update(k, v);
    if k == s.len() - 1 {
        assert(t.drop_last() =~= s.drop_last());
    } else {
        assert(t.drop_last() =~= s.drop_last().update(k, v));
        lemma_value_update(s.drop_last(), k, v);
    }
}

/// One multiply-accumulate step of a row of the schoolbook product.
proof fn lemma_mac_step(
    vold: int,
    c: int,
    w: int,
    c2: int,
    old_k: int,
    ai: int,
    bj: int,
    pk: int,
    pi: int,
    pj: int,
    x: int,
    vb: int,
    b: int,
)
    requires
        w + c2 * b == old_k + ai * bj + c,
        pk == pi * pj,
        vold + c * pk == x + ai * vb * pi,
    ensures
        (vold + (w - old_k) * pk) + c2 * (b * pk) == x + ai * (vb + bj * pj) * pi,
{
    assert((w - old_k) * pk + c2 * (b * pk) == (w + c2 * b - old_k) * pk) by (nonlinear_arith);
    assert((ai * bj + c) * pk == ai * bj * pk + c * pk) by (nonlinear_arith);
    assert(ai * bj * pk == ai * (bj * pj) * pi) by (nonlinear_arith)
        requires
            pk == pi * pj,
    ;
    assert(ai * (vb + bj * pj) * pi == ai * vb * pi + ai * (bj * pj) * pi) by (nonlinear_arith);
}

impl<const LIMBS: usize> Uint<LIMBS> {
    /// The full product, as its low and high halves:
    /// `lo + hi * modulus() == self * rhs`.
    pub fn mul_wide(&self, rhs: &Self) -> (r: (Self, Self))
        ensures
            r.0.value() + r.1.value() * Self::modulus() == self.value() * rhs.value(),
    {
        let mut lo = [Limb(0); LIMBS];
        let mut hi = [Limb(0); LIMBS];
        let ghost a = self.words();
        let ghost b = rhs.words();
        let ghost n = LIMBS as int;
        proof {
            Self::lemma_value_bound(*self);
            crate::uint::lemma_zero_words(limb_words(lo@) + limb_words(hi@));
            assert(a.subrange(0, 0) =~= Seq::empty());
        }
        let mut i: usize = 0;
        while i < LIMBS
            invariant
                i <= LIMBS,
                n == LIMBS,
                a == self.words(),
                b == rhs.words(),
                a.len() == n,
                b.len() == n,
                lo@.len() == n,
                hi@.len() == n,
                forall|k: int| i <= k < n ==> (#[trigger] hi@[k]).0 == 0,
                words_value(limb_words(lo@) + limb_words(hi@)) == words_value(a.subrange(0, i as int))
                    * words_value(b),
            decreases LIMBS - i,
        {
            let ghost x = words_value(a.subrange(0, i as int)) * words_value(b);
            let ghost ai = a[i as int];
            let ghost pi = base_pow(i as nat);
            let mut carry = Limb(0);
            let mut j: usize = 0;
            proof {
                assert(b.subrange(0, 0) =~= Seq::empty());
                assert(words_value(Seq::<Word>::empty()) == 0);
                assert(ai * 0 * pi == 0) by (nonlinear_arith);
                assert(carry.0 * base_pow(i as nat) == 0) by (nonlinear_arith)
                    requires
                        carry.0 == 0,
                ;
                assert(i + 0 == i);
            }
            while j < LIMBS
                invariant
                    i < LIMBS,
                    j <= LIMBS,
                    n == LIMBS,
                    a == self.words(),
                    b == rhs.words(),
                    a.len() == n,
                    b.len() == n,
                    lo@.len() == n,
                    hi@.len() == n,
                    ai == a[i as int],
                    pi == base_pow(i as nat),
                    forall|k: int| i <= k < n ==> (#[trigger] hi@[k]).0 == 0,
                    words_value(limb_words(lo@) + limb_words(hi@)) + carry.0 * base_pow((i + j) as nat)
                        == x + ai * words_value(b.subrange(0, j as int)) * pi,
                decreases LIMBS - j,
            {
                let ghost acc = limb_words(lo@) + limb_words(hi@);
                let ghost k = i + j;
                let ghost c0 = carry.0;
                let ghost bj = b[j as int];
                assert(self.limbs@[i as int].0 == ai && rhs.limbs@[j as int].0 == bj);
                if j < LIMBS - i {
                    let (w, c) = lo[i + j].mac(self.limbs[i], rhs.limbs[j], carry);
                    proof {
                        assert(acc[k] == lo@[k].0);
                        lemma_value_update(acc, k, w.0);
                        assert(limb_words(lo@.update(k, w)) + limb_words(hi@) =~= acc.update(k, w.0));
                    }
                    lo[i + j] = w;
                    carry = c;
                } else {
                    let t = j - (LIMBS - i);
                    let (w, c) = hi[t].mac(self.limbs[i], rhs.limbs[j], carry);
                    proof {
                        assert(k == n + t);
                        assert(acc[k] == hi@[t as int].0);
                        lemma_value_update(acc, k, w.0);
                        assert(limb_words(lo@) + limb_words(hi@.update(t as int, w)) =~= acc.update(k, w.0));
                    }
                    hi[t] = w;
                    carry = c;
                }
                proof {
                    let vold = words_value(acc) as int;
                    let now = limb_words(lo@) + limb_words(hi@);
                    assert(words_value(now) + acc[k] * base_pow(k as nat) == words_value(acc) + now[k] * base_pow(k as nat));
                    let pk = base_pow(k as nat);
                    let pj = base_pow(j as nat);
                    lemma_base_pow_add(i as nat, j as nat);
                    assert(base_pow((k + 1) as nat) == limb_base() * pk);
                    assert(b.subrange(0, j + 1) =~= b.subrange(0, j as int).push(bj));
                    lemma_words_value_push(b.subrange(0, j as int), bj);
                    lemma_mac_step(
                        vold,
                        c0 as int,
                        (limb_words(lo@) + limb_words(hi@))[k] as int,
                        carry.0 as int,
                        acc[k] as int,
                        ai as int,
                        bj as int,
                        pk as int,
                        pi as int,
                        pj as int,
                        x as int,
                        words_value(b.subrange(0, j as int)) as int,
                        limb_base() as int,
                    );
                    assert(words_value(now) == vold + (now[k] - acc[k]) * pk) by (nonlinear_arith)
                        requires
                            words_value(now) + acc[k] * pk == vold + now[k] * pk,
                    ;
                    assert(words_value(b.subrange(0, j + 1)) == words_value(b.subrange(0, j as int)) + bj * pj);
                    assert(base_pow((i + j + 1) as nat) == limb_base() * pk);
                }
                j = j + 1;
            }
            proof {
                let acc = limb_words(lo@) + limb_words(hi@);
                let k = n + i;
                assert(acc[k] == 0);
                lemma_value_update(acc, k, carry.0);
                assert(limb_words(lo@) + limb_words(hi@.update(i as int, carry)) =~= acc.update(k, carry.0));
                assert(b.subrange(0, n) =~= b);
                assert(a.subrange(0, i + 1) =~= a.subrange(0, i as int).push(ai));
                lemma_words_value_push(a.subrange(0, i as int), ai);
                let va = words_value(a.subrange(0, i as int));
                let vb = words_value(b);
                assert((va + ai * pi) * vb == va * vb + ai * vb * pi) by (nonlinear_arith);
            }
            hi[i] = carry;
            i = i + 1;
        }
        let rlo = Uint { limbs: lo };
        let rhi = Uint { limbs: hi };
        proof {
            assert(a.subrange(0, n) =~= a);
            assert(limb_words(lo@) =~= rlo.words());
            assert(limb_words(hi@) =~= rhi.words());
            assert(rlo.words().len() == n);
            lemma_value_low_high(rlo.words(), rhi.words());
            let m = Self::modulus();
            assert(base_pow(rlo.words().len()) == m);
            assert(m * rhi.value() == rhi.value() * m) by (nonlinear_arith);
        }
        (rlo, rhi)
    }

    /// Multiplying by one leaves a value unchanged.
    pub proof fn lemma_mul_one(x: Self, one: Self, product: Self)
        requires
            one.value() == 1,
            product.value() == (x.value() * one.value()) % Self::modulus(),
        ensures
            product == x,
    {
        Self::lemma_value_bound(x);
        vstd::arithmetic::div_mod::lemma_small_mod(x.value(), Self::modulus());
        Self::lemma_value_ext(product, x);
    }

    /// Product modulo `modulus()`.
    pub fn wrapping_mul(&self, rhs: &Self) -> (r: Self)
        ensures
            r.value() == (self.value() * rhs.value()) % Self::modulus(),
    {
        let (lo, hi) = self.mul_wide(rhs);
        proof {
            Self::lemma_value_bound(lo);
            let m = Self::modulus();
            let l = lo.value();
            let h = hi.value();
            assert((l + h * m) % m == l) by (nonlinear_arith)
                requires
                    l < m,
            ;
        }
        lo
    }
}

} // verus!
