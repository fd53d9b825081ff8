//! Big unsigned integers made of a fixed number of limbs.
use crate::ct::{choice_byte, choice_from_bit};
use crate::limb::{base_pow, limb_words, words_value, Limb, Word};
use subtle::Choice;
use vstd::prelude::*;

mod add;
mod add_mod;
mod bits;
mod cmp;
mod concat;
mod div;
mod encoding;
mod hex;
mod inv_mod;
mod mul;
mod mul_mod;
mod shift;
mod sqrt;
mod sub;

verus! {

/// Big unsigned integer of `LIMBS` limbs, least significant first.
#[derive(Copy, Clone, Debug, Hash)]
pub struct Uint<const LIMBS: usize> {
    limbs: [Limb; LIMBS],
}

/// 64-bit unsigned big integer.
pub type U64 = Uint<1>;

/// 128-bit unsigned big integer.
pub type U128 = Uint<2>;

/// 256-bit unsigned big integer.
pub type U256 = Uint<4>;

/// 512-bit unsigned big integer.
pub type U512 = Uint<8>;

impl<const LIMBS: usize> Uint<LIMBS> {
    /// The limbs, least significant first.
    pub closed spec fn limbs_seq(&self) -> Seq<Limb> {
        self.limbs@
    }

    /// The limb words, least significant first.
    pub closed spec fn words(&self) -> Seq<Word> {
        limb_words(self.limbs@)
    }

    /// The number represented: `sum of words()[i] * 2^(64 i)`.
    pub closed spec fn value(&self) -> nat {
        words_value(self.words())
    }

    /// `2^(64 LIMBS)`, one more than the largest value.
    pub open spec fn modulus() -> nat {
        base_pow(LIMBS as nat)
    }

    /// Values with equal words are equal.
    pub proof fn lemma_words_ext(a: Self, b: Self)
        requires
            a.words() == b.words(),
        ensures
            a == b,
    {
        assert(a.limbs@.len() == LIMBS && b.limbs@.len() == LIMBS);
        assert forall|i: int| 0 <= i < LIMBS implies a.limbs@[i] == b.limbs@[i] by {
            assert(a.words()[i] == b.words()[i]);
            assert(a.limbs@[i] == Limb(a.words()[i]));
            assert(b.limbs@[i] == Limb(b.words()[i]));
        }
        assert(a.limbs@ =~= b.limbs@);
        assert(a.limbs =~= b.limbs);
    }

    /// Values of equal value are equal.
    pub proof fn lemma_value_ext(a: Self, b: Self)
        requires
            a.value() == b.value(),
        ensures
            a == b,
    {
        Self::lemma_value_bound(a);
        Self::lemma_value_bound(b);
        lemma_words_value_injective(a.words(), b.words());
        Self::lemma_words_ext(a, b);
    }

    /// The value lies below `modulus()`, and the limb count is `LIMBS`.
    pub proof fn lemma_value_bound(a: Self)
        ensures
            a.value() < Self::modulus(),
            a.words().len() == LIMBS,
            a.limbs_seq().len() == LIMBS,
    {
        crate::limb::lemma_words_value_bound(a.words());
    }

    /// Builds a value from its limbs.
    pub fn new(limbs: [Limb; LIMBS]) -> (r: Self)
        ensures
            r.limbs_seq() == limbs@,
    {
        Uint { limbs }
    }

    /// Builds a value from its words, least significant first.
    pub fn from_words(arr: [Word; LIMBS]) -> (r: Self)
        ensures
            r.words() == arr@,
    {
        let mut limbs = [Limb(0); LIMBS];
        let mut i: usize = 0;
        while i < LIMBS
            invariant
                i <= LIMBS,
                forall|j: int| 0 <= j < i ==> limbs@[j].0 == arr@[j],
            decreases LIMBS - i,
        {
            limbs[i] = Limb(arr[i]);
            i = i + 1;
        }
        let r = Uint { limbs };
        assert(r.words() =~= arr@);
        r
    }

    /// The words of this value, least significant first.
    pub fn to_words(self) -> (r: [Word; LIMBS])
        ensures
            r@ == self.words(),
    {
        let mut arr = [0u64; LIMBS];
        let mut i: usize = 0;
        while i < LIMBS
            invariant
                i <= LIMBS,
                forall|j: int| 0 <= j < i ==> arr@[j] == self.limbs@[j].0,
            decreases LIMBS - i,
        {
            arr[i] = self.limbs[i].0;
            i = i + 1;
        }
        assert(arr@ =~= self.words());
        arr
    }

    /// Borrows the limbs.
    pub fn as_limbs(&self) -> (r: &[Limb; LIMBS])
        ensures
            r@ == self.limbs_seq(),
    {
        &self.limbs
    }

    /// Borrows the limbs mutably; what is written through the borrow becomes the value.
    pub fn as_limbs_mut(&mut self) -> (r: &mut [Limb; LIMBS])
        ensures
            r@ == old(self).limbs_seq(),
            final(self).limbs_seq() == final(r)@,
    {
        &mut self.limbs
    }

    /// Converts this value into its limbs.
    pub fn to_limbs(self) -> (r: [Limb; LIMBS])
        ensures
            r@ == self.limbs_seq(),
    {
        self.limbs
    }

    /// The value 0.
    pub fn zero() -> (r: Self)
        ensures
            r.value() == 0,
            forall|i: int| 0 <= i < LIMBS ==> r.words()[i] == 0,
    {
        let r = Uint { limbs: [Limb(0); LIMBS] };
        proof {
            lemma_zero_words(r.words());
        }
        r
    }

    /// The value 1 (0 where there are no limbs).
    pub fn one() -> (r: Self)
        ensures
            r.value() == if LIMBS == 0 { 0nat } else { 1nat },
    {
        if LIMBS == 0 {
            Self::zero()
        } else {
            let mut limbs = [Limb(0); LIMBS];
            limbs[0] = Limb(1);
            let r = Uint { limbs };
            proof {
                let w = r.words();
                assert(w.len() == LIMBS);
                assert(w =~= seq![1u64].add(w.subrange(1, w.len() as int)));
                assert forall|i: int| 0 <= i < w.len() - 1 implies #[trigger] w.subrange(1, w.len() as int)[i] == 0 by {
                    assert(limbs@[i + 1] == Limb(0));
                }
                lemma_zero_words(w.subrange(1, w.len() as int));
                lemma_value_low_high(seq![1u64], w.subrange(1, w.len() as int));
                lemma_single_word(1u64);
            }
            r
        }
    }

    /// A single word, zero-extended.
    pub fn from_u64(n: u64) -> (r: Self)
        requires
            LIMBS >= 1,
        ensures
            r.value() == n,
    {
        let mut limbs = [Limb(0); LIMBS];
        limbs[0] = Limb(n);
        let r = Uint { limbs };
        proof {
            let w = r.words();
            assert(w =~= seq![n].add(w.subrange(1, w.len() as int)));
            assert forall|i: int| 0 <= i < w.len() - 1 implies #[trigger] w.subrange(1, w.len() as int)[i] == 0 by {
                assert(limbs@[i + 1] == Limb(0));
            }
            lemma_zero_words(w.subrange(1, w.len() as int));
            lemma_value_low_high(seq![n], w.subrange(1, w.len() as int));
            lemma_single_word(n);
            assert(base_pow(1) * 0 == 0);
        }
        r
    }

    /// The largest value, `modulus() - 1`: every limb saturated.
    pub fn max_value() -> (r: Self)
        ensures
            r.value() == Self::modulus() - 1,
            forall|i: int| 0 <= i < LIMBS ==> r.words()[i] == u64::MAX,
    {
        let r = Uint { limbs: [Limb(u64::MAX); LIMBS] };
        proof {
            lemma_max_words(r.words());
        }
        r
    }

    /// A clear choice selects `a`, a set one selects `b`; every limb is selected
    /// the same way, whatever the choice.
    pub fn conditional_select(a: &Self, b: &Self, choice: Choice) -> (r: Self)
        ensures
            choice_byte(choice) == 0 ==> r == *a,
            choice_byte(choice) == 1 ==> r == *b,
    {
        let mut limbs = [Limb(0); LIMBS];
        let mut i: usize = 0;
        while i < LIMBS
            invariant
                i <= LIMBS,
                forall|j: int|
                    0 <= j < i ==> {
                        &&& choice_byte(choice) == 0 ==> limbs@[j] == a.limbs@[j]
                        &&& choice_byte(choice) == 1 ==> limbs@[j] == b.limbs@[j]
                    },
            decreases LIMBS - i,
        {
            limbs[i] = Limb::conditional_select(&a.limbs[i], &b.limbs[i], choice);
            i = i + 1;
        }
        let r = Uint { limbs };
        proof {
            if choice_byte(choice) == 0 {
                assert(r.limbs =~= a.limbs);
            }
            if choice_byte(choice) == 1 {
                assert(r.limbs =~= b.limbs);
            }
        }
        r
    }

    /// Whether the value is odd, as a constant-time choice; with no limbs, even.
    pub fn is_odd(&self) -> (r: Choice)
        ensures
            choice_byte(r) as nat == self.value() % 2,
    {
        if LIMBS == 0 {
            proof {
                assert(self.words().len() == 0);
            }
            choice_from_bit(0)
        } else {
            proof {
                let w = self.words();
                assert(w =~= w.subrange(0, 1).add(w.subrange(1, w.len() as int)));
                lemma_value_low_high(w.subrange(0, 1), w.subrange(1, w.len() as int));
                assert(w.subrange(0, 1) =~= seq![w[0]]);
                lemma_single_word(w[0]);
                assert(self.limbs@[0].0 == w[0]);
                let h = words_value(w.subrange(1, w.len() as int));
                assert((w[0] as nat + crate::limb::limb_base() * h) % 2 == w[0] as nat % 2) by (nonlinear_arith);
            }
            self.limbs[0].is_odd()
        }
    }
}

/// Word sequences of one length and one value are equal.
pub proof fn lemma_words_value_injective(s: Seq<Word>, t: Seq<Word>)
    requires
        s.len() == t.len(),
        words_value(s) == words_value(t),
    ensures
        s == t,
    decreases s.len(),
{
    if s.len() > 0 {
        let n = (s.len() - 1) as nat;
        let p = base_pow(n);
        crate::limb::lemma_words_value_bound(s.drop_last());
        crate::limb::lemma_words_value_bound(t.drop_last());
        let x = words_value(s.drop_last()) as int;
        let y = words_value(t.drop_last()) as int;
        let d = s.last() as int;
        let e = t.last() as int;
        assert(d == e) by (nonlinear_arith)
            requires
                x + d * p == y + e * p,
                0 <= x < p,
                0 <= y < p,
        ;
        lemma_words_value_injective(s.drop_last(), t.drop_last());
        assert(s =~= s.drop_last().push(s.last()));
        assert(t =~= t.drop_last().push(t.last()));
    } else {
        assert(s =~= t);
    }
}

/// A sequence of zero words has value 0.
pub proof fn lemma_zero_words(s: Seq<Word>)
    requires
        forall|i: int| 0 <= i < s.len() ==> s[i] == 0,
    ensures
        words_value(s) == 0,
    decreases s.len(),
{
    if s.len() > 0 {
        assert forall|i: int| 0 <= i < s.len() - 1 implies #[trigger] s.drop_last()[i] == 0 by {
            assert(s[i] == 0);
        }
        lemma_zero_words(s.drop_last());
        assert(s.last() == 0);
    }
}

/// A sequence of saturated words has the largest value of its length.
pub proof fn lemma_max_words(s: Seq<Word>)
    requires
        forall|i: int| 0 <= i < s.len() ==> s[i] == u64::MAX,
    ensures
        words_value(s) == base_pow(s.len()) - 1,
    decreases s.len(),
{
    if s.len() > 0 {
        assert forall|i: int| 0 <= i < s.len() - 1 implies #[trigger] s.drop_last()[i] == u64::MAX by {
            assert(s[i] == u64::MAX);
        }
        lemma_max_words(s.drop_last());
        assert(s.last() == u64::MAX);
        let p = base_pow((s.len() - 1) as nat);
        assert(base_pow(s.len()) == crate::limb::limb_base() * p);
        assert((p - 1) + 0xFFFF_FFFF_FFFF_FFFF * p == crate::limb::limb_base() * p - 1) by (nonlinear_arith);
    }
}

/// A single word is its own value.
pub proof fn lemma_single_word(w: Word)
    ensures
        words_value(seq![w]) == w,
        base_pow(1) == crate::limb::limb_base(),
{
    crate::limb::lemma_words_value_push(Seq::<Word>::empty(), w);
    assert(Seq::<Word>::empty().push(w) =~= seq![w]);
    assert(base_pow(0) == 1);
    assert(base_pow(1) == crate::limb::limb_base() * base_pow(0));
    assert(w * base_pow(0) == w);
}

/// The value of `lo + hi` is that of `lo` plus that of `hi` shifted past `lo`.
pub proof fn lemma_value_low_high(lo: Seq<Word>, hi: Seq<Word>)
    ensures
        words_value(lo + hi) == words_value(lo) + base_pow(lo.len()) * words_value(hi),
    decreases hi.len(),
{
    if hi.len() == 0 {
        assert(lo + hi =~= lo);
        assert(base_pow(lo.len()) * 0 == 0);
    } else {
        let h = hi.drop_last();
        assert((lo + hi).drop_last() =~= lo + h);
        lemma_value_low_high(lo, h);
        lemma_base_pow_add(lo.len(), h.len());
        let p = base_pow(lo.len());
        let q = base_pow(h.len());
        let d = hi.last() as nat;
        assert((lo + hi).last() == hi.last());
        assert((lo + hi).len() - 1 == lo.len() + h.len());
        assert(p * (words_value(h) + d * q) == p * words_value(h) + d * (p * q)) by (nonlinear_arith);
    }
}

/// `base_pow(a + b) == base_pow(a) * base_pow(b)`.
pub proof fn lemma_base_pow_add(a: nat, b: nat)
    ensures
        base_pow(a + b) == base_pow(a) * base_pow(b),
    decreases b,
{
    if b == 0 {
        assert(base_pow(0) == 1);
        assert(base_pow(a) * 1 == base_pow(a));
    } else {
        lemma_base_pow_add(a, (b - 1) as nat);
        assert(base_pow(a + b) == crate::limb::limb_base() * base_pow((a + b - 1) as nat));
        assert(base_pow(b) == crate::limb::limb_base() * base_pow((b - 1) as nat));
        let x = base_pow(a);
        let y = base_pow((b - 1) as nat);
        assert(crate::limb::limb_base() * (x * y) == x * (crate::limb::limb_base() * y)) by (nonlinear_arith);
    }
}

impl<const LIMBS: usize> Default for Uint<LIMBS> {
    /// The value 0.
    fn default() -> (r: Self)
        ensures
            r.value() == 0,
    {
        Self::zero()
    }
}

impl<const LIMBS: usize> PartialEq for Uint<LIMBS> {
    /// Equality of every limb, examined without early exit.
    fn eq(&self, other: &Self) -> (r: bool) {
        let mut diff: u64 = 0;
        let mut i: usize = 0;
        while i < LIMBS
            invariant
                i <= LIMBS,
                (diff == 0) <==> (forall|j: int| 0 <= j < i ==> self.words()[j] == other.words()[j]),
            decreases LIMBS - i,
        {
            let a = self.limbs[i].0;
            let b = other.limbs[i].0;
            let x = a ^ b;
            assert((diff | x) == 0 <==> (diff == 0 && x == 0)) by (bit_vector);
            assert(x == 0 <==> a == b) by (bit_vector)
                requires
                    x == a ^ b,
            ;
            assert(self.words()[i as int] == a && other.words()[i as int] == b);
            diff = diff | x;
            i = i + 1;
        }
        assert((diff == 0) <==> (self.words() =~= other.words()));
        diff == 0
    }
}

impl<const LIMBS: usize> vstd::std_specs::cmp::PartialEqSpecImpl for Uint<LIMBS> {
    open spec fn obeys_eq_spec() -> bool {
        true
    }

    open spec fn eq_spec(&self, other: &Self) -> bool {
        self.words() == other.words()
    }
}

impl<const LIMBS: usize> Eq for Uint<LIMBS> {
}

} // verus!
