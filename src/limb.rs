//! Limbs: the machine words a big integer is made of.
use crate::ct::{choice_byte, choice_from_bit, select_word};
use subtle::Choice;
use vstd::prelude::*;

verus! {

/// The unsigned machine word underlying a limb.
pub type Word = u64;

/// The base of the positional limb representation: `2^64`.
pub open spec fn limb_base() -> nat {
    0x1_0000_0000_0000_0000nat
}

/// `limb_base()` raised to the power `n`.
pub open spec fn base_pow(n: nat) -> nat
    decreases n,
{
    if n == 0 {
        1
    } else {
        limb_base() * base_pow((n - 1) as nat)
    }
}

/// The number whose base-`2^64` digits are `s`, least significant first.
pub open spec fn words_value(s: Seq<Word>) -> nat
    decreases s.len(),
{
    if s.len() == 0 {
        0
    } else {
        words_value(s.drop_last()) + (s.last() as nat) * base_pow((s.len() - 1) as nat)
    }
}

/// Appending a most significant digit adds it at its place value.
pub proof fn lemma_words_value_push(s: Seq<Word>, w: Word)
    ensures
        words_value(s.push(w)) == words_value(s) + w * base_pow(s.len()),
{
    assert(s.push(w).drop_last() =~= s);
}

/// Powers of the base are positive.
pub proof fn lemma_base_pow_pos(n: nat)
    ensures
        base_pow(n) >= 1,
    decreases n,
{
    if n > 0 {
        lemma_base_pow_pos((n - 1) as nat);
        assert(limb_base() * base_pow((n - 1) as nat) >= 1) by (nonlinear_arith)
            requires
                base_pow((n - 1) as nat) >= 1,
        ;
    }
}

/// A number of `n` digits is below `limb_base()^n`.
pub proof fn lemma_words_value_bound(s: Seq<Word>)
    ensures
        words_value(s) < base_pow(s.len()),
    decreases s.len(),
{
    if s.len() > 0 {
        let n = (s.len() - 1) as nat;
        lemma_words_value_bound(s.drop_last());
        let p = base_pow(n);
        let v = words_value(s.drop_last());
        let d = s.last();
        assert(v + d * p < limb_base() * p) by (nonlinear_arith)
            requires
                v < p,
                d < limb_base(),
        ;
    }
}

/// The words of a sequence of limbs.
pub open spec fn limb_words(s: Seq<Limb>) -> Seq<Word> {
    s.map_values(|l: Limb| l.0)
}

/// One limb of a big integer.
#[derive(Copy, Clone, Debug, Hash, PartialEq, Eq, Structural)]
pub struct Limb(pub Word);

impl Limb {
    /// A clear choice selects `a`, a set one selects `b`, limb-wise without branching.
    pub fn conditional_select(a: &Limb, b: &Limb, choice: Choice) -> (r: Limb)
        ensures
            choice_byte(choice) == 0 ==> r == *a,
            choice_byte(choice) == 1 ==> r == *b,
    {
        Limb(select_word(a.0, b.0, choice))
    }

    /// Add with carry: the two words and the carry, as a low word and a carry out.
    pub fn adc(self, rhs: Limb, carry: Limb) -> (r: (Limb, Limb))
        ensures
            r.0.0 + r.1.0 * limb_base() == self.0 + rhs.0 + carry.0,
            r.1.0 <= 2,
            carry.0 <= 1 ==> r.1.0 <= 1,
    {
        let t: u128 = self.0 as u128 + rhs.0 as u128 + carry.0 as u128;
        let lo = (t % 0x1_0000_0000_0000_0000u128) as u64;
        let hi = (t / 0x1_0000_0000_0000_0000u128) as u64;
        (Limb(lo), Limb(hi))
    }

    /// Subtract with borrow: `self - rhs - borrow`, as a low word and a borrow
    /// out of 0 or 1 that stands for `-2^64`.
    pub fn sbb(self, rhs: Limb, borrow: Limb) -> (r: (Limb, Limb))
        requires
            borrow.0 <= 1,
        ensures
            r.0.0 == self.0 - rhs.0 - borrow.0 + r.1.0 * limb_base(),
            r.1.0 <= 1,
            r.1.0 == 1 <==> self.0 < rhs.0 + borrow.0,
    {
        let t: u128 = self.0 as u128 + 0x1_0000_0000_0000_0000u128 - rhs.0 as u128 - borrow.0 as u128;
        let lo = (t % 0x1_0000_0000_0000_0000u128) as u64;
        let hi = (t / 0x1_0000_0000_0000_0000u128) as u64;
        (Limb(lo), Limb(1 - hi))
    }

    /// Multiply and accumulate: `self + b * c + carry`, as a low word and a high word.
    pub fn mac(self, b: Limb, c: Limb, carry: Limb) -> (r: (Limb, Limb))
        ensures
            r.0.0 + r.1.0 * limb_base() == self.0 + b.0 * c.0 + carry.0,
    {
        let x = b.0 as u128;
        let y = c.0 as u128;
        assert(x * y <= 0xFFFF_FFFF_FFFF_FFFE_0000_0000_0000_0001) by (nonlinear_arith)
            requires
                x <= 0xFFFF_FFFF_FFFF_FFFFu128,
                y <= 0xFFFF_FFFF_FFFF_FFFFu128,
        ;
        let bc: u128 = x * y;
        let t: u128 = self.0 as u128 + bc + carry.0 as u128;
        let lo = (t % 0x1_0000_0000_0000_0000u128) as u64;
        let hi = (t / 0x1_0000_0000_0000_0000u128) as u64;
        (Limb(lo), Limb(hi))
    }

    /// Full product of two words, as a low word and a high word.
    pub fn mul_wide(self, rhs: Limb) -> (r: (Limb, Limb))
        ensures
            r.0.0 + r.1.0 * limb_base() == self.0 * rhs.0,
    {
        Limb(0).mac(self, rhs, Limb(0))
    }

    /// Whether the limb is odd, as a constant-time choice.
    pub fn is_odd(&self) -> (r: Choice)
        ensures
            choice_byte(r) as nat == self.0 % 2,
    {
        let w = self.0;
        let bit = (w & 1) as u8;
        assert(w & 1 == w % 2) by (bit_vector);
        choice_from_bit(bit)
    }
}

} // verus!
