//! Hexadecimal text, most significant digit first.
use super::Uint;
use crate::limb::{Limb, Word};
use vstd::prelude::*;

verus! {

broadcast use vstd::string::group_string_axioms;

/// Whether `c` is a hexadecimal digit, of either case.
pub open spec fn is_hex_digit(c: char) -> bool {
    ('0' <= c && c <= '9') || ('a' <= c && c <= 'f') || ('A' <= c && c <= 'F')
}

/// The value of a hexadecimal digit.
pub open spec fn hex_digit_value(c: char) -> nat {
    if '0' <= c && c <= '9' {
        (c as u32 - '0' as u32) as nat
    } else if 'a' <= c && c <= 'f' {
        (c as u32 - 'a' as u32 + 10) as nat
    } else {
        (c as u32 - 'A' as u32 + 10) as nat
    }
}

/// The number written by hexadecimal digits, most significant first.
pub open spec fn hex_value(s: Seq<char>) -> nat
    decreases s.len(),
{
    if s.len() == 0 {
        0
    } else {
        hex_value(s.drop_last()) * 16 + hex_digit_value(s.last())
    }
}

/// `16^n`.
pub open spec fn pow16(n: nat) -> nat
    decreases n,
{
    if n == 0 {
        1
    } else {
        16 * pow16((n - 1) as nat)
    }
}

/// The sixteen digits of word `i` (least significant word first) in hexadecimal
/// text of `n` words, most significant word first.
pub open spec fn hex_word_chunk(s: Seq<char>, n: int, i: int) -> Seq<char> {
    s.subrange(16 * (n - 1 - i), 16 * (n - i))
}

/// Upper-case hexadecimal digit of a value below 16.
pub open spec fn upper_hex_char(d: nat) -> char {
    seq!['0', '1', '2', '3', '4', '5', '6', '7', '8', '9', 'A', 'B', 'C', 'D', 'E', 'F'][d as int]
}

/// Lower-case hexadecimal digit of a value below 16.
pub open spec fn lower_hex_char(d: nat) -> char {
    seq!['0', '1', '2', '3', '4', '5', '6', '7', '8', '9', 'a', 'b', 'c', 'd', 'e', 'f'][d as int]
}

/// Digit `k` of a word in base 16, counting from the most significant of its sixteen.
pub open spec fn word_nibble(w: Word, k: int) -> nat {
    (w as nat / pow16((15 - k) as nat)) % 16
}

/// The sixteen upper-case digits of a word, zero-padded.
pub open spec fn upper_hex_word(w: Word) -> Seq<char> {
    Seq::new(16, |k: int| upper_hex_char(word_nibble(w, k)))
}

/// The sixteen lower-case digits of a word, zero-padded.
pub open spec fn lower_hex_word(w: Word) -> Seq<char> {
    Seq::new(16, |k: int| lower_hex_char(word_nibble(w, k)))
}

/// Upper-case text of a word sequence (least significant word first), most
/// significant word first.
pub open spec fn upper_hex_of(w: Seq<Word>) -> Seq<char>
    decreases w.len(),
{
    if w.len() == 0 {
        Seq::empty()
    } else {
        upper_hex_word(w.last()) + upper_hex_of(w.drop_last())
    }
}

/// Lower-case text of a word sequence (least significant word first), most
/// significant word first.
pub open spec fn lower_hex_of(w: Seq<Word>) -> Seq<char>
    decreases w.len(),
{
    if w.len() == 0 {
        Seq::empty()
    } else {
        lower_hex_word(w.last()) + lower_hex_of(w.drop_last())
    }
}

/// Relies on `format!` with `{:016X}`: the sixteen upper-case digits of the
/// word, zero-padded, after the text so far.
#[verifier::external_body]
fn append_upper_hex(s: String, w: Word) -> (r: String)
    ensures
        r@ == s@ + upper_hex_word(w),
{
    format!("{}{:016X}", s, w)
}

/// Relies on `format!` with `{:016x}`: the sixteen lower-case digits of the
/// word, zero-padded, after the text so far.
#[verifier::external_body]
fn append_lower_hex(s: String, w: Word) -> (r: String)
    ensures
        r@ == s@ + lower_hex_word(w),
{
    format!("{}{:016x}", s, w)
}

/// Hexadecimal digits never exceed a power of sixteen of their count.
pub proof fn lemma_hex_value_bound(s: Seq<char>)
    requires
        forall|i: int| 0 <= i < s.len() ==> is_hex_digit(#[trigger] s[i]),
    ensures
        hex_value(s) < pow16(s.len()),
    decreases s.len(),
{
    if s.len() > 0 {
        assert forall|i: int| 0 <= i < s.len() - 1 implies is_hex_digit(#[trigger] s.drop_last()[i]) by {
            assert(is_hex_digit(s[i]));
        }
        lemma_hex_value_bound(s.drop_last());
        assert(is_hex_digit(s[s.len() - 1]));
        let v = hex_value(s.drop_last());
        let p = pow16((s.len() - 1) as nat);
        let d = hex_digit_value(s.last());
        assert(d < 16);
        assert(v * 16 + d < 16 * p) by (nonlinear_arith)
            requires
                v < p,
                d < 16,
        ;
    }
}

/// Powers of sixteen grow with the exponent.
pub proof fn lemma_pow16_mono(a: nat, b: nat)
    requires
        a <= b,
    ensures
        pow16(a) <= pow16(b),
    decreases b,
{
    if a < b {
        lemma_pow16_mono(a, (b - 1) as nat);
    }
}

/// An upper-case digit reads back as its value.
proof fn lemma_upper_hex_char(d: nat)
    requires
        d < 16,
    ensures
        is_hex_digit(upper_hex_char(d)),
        hex_digit_value(upper_hex_char(d)) == d,
{
    let t = seq!['0', '1', '2', '3', '4', '5', '6', '7', '8', '9', 'A', 'B', 'C', 'D', 'E', 'F'];
    assert(t[0] == '0' && t[1] == '1' && t[2] == '2' && t[3] == '3' && t[4] == '4' && t[5] == '5');
    assert(t[6] == '6' && t[7] == '7' && t[8] == '8' && t[9] == '9' && t[10] == 'A');
    assert(t[11] == 'B' && t[12] == 'C' && t[13] == 'D' && t[14] == 'E' && t[15] == 'F');
}

/// The first `k` upper-case digits of a word read back as the word shifted
/// right by the remaining digits.
proof fn lemma_upper_hex_word_prefix(w: Word, k: int)
    requires
        0 <= k <= 16,
    ensures
        forall|j: int| 0 <= j < k ==> is_hex_digit(#[trigger] upper_hex_word(w).subrange(0, k)[j]),
        hex_value(upper_hex_word(w).subrange(0, k)) == w as nat / pow16((16 - k) as nat),
    decreases k,
{
    let s = upper_hex_word(w).subrange(0, k);
    if k == 0 {
        reveal_with_fuel(pow16, 17);
        assert(pow16(16) == 0x1_0000_0000_0000_0000);
        vstd::arithmetic::div_mod::lemma_basic_div(w as int, pow16(16) as int);
    } else {
        lemma_upper_hex_word_prefix(w, k - 1);
        assert(s.drop_last() =~= upper_hex_word(w).subrange(0, k - 1));
        let p = pow16((16 - k) as nat);
        assert(pow16((16 - k + 1) as nat) == 16 * p);
        lemma_pow16_pos((16 - k) as nat);
        let x = w as nat;
        vstd::arithmetic::div_mod::lemma_div_denominator(x as int, p as int, 16);
        vstd::arithmetic::div_mod::lemma_fundamental_div_mod((x / p) as int, 16);
        assert(15 - (k - 1) == 16 - k);
        lemma_upper_hex_char(word_nibble(w, k - 1));
        assert forall|j: int| 0 <= j < k implies is_hex_digit(#[trigger] s[j]) by {
            lemma_upper_hex_char(word_nibble(w, j));
        }
    }
}

/// Digits written after others: `hex_value(a + b) == hex_value(a) * 16^|b| + hex_value(b)`.
proof fn lemma_hex_value_concat(a: Seq<char>, b: Seq<char>)
    ensures
        hex_value(a + b) == hex_value(a) * pow16(b.len()) + hex_value(b),
    decreases b.len(),
{
    if b.len() == 0 {
        assert(a + b =~= a);
        assert(hex_value(a) * 1 == hex_value(a));
    } else {
        let b2 = b.drop_last();
        assert((a + b).drop_last() =~= a + b2);
        assert((a + b).last() == b.last());
        lemma_hex_value_concat(a, b2);
        let x = hex_value(a);
        let p = pow16(b2.len());
        let y = hex_value(b2);
        assert((x * p + y) * 16 == x * (16 * p) + y * 16) by (nonlinear_arith);
    }
}

/// `16^(a + b) == 16^a * 16^b`.
proof fn lemma_pow16_adds(a: nat, b: nat)
    ensures
        pow16(a + b) == pow16(a) * pow16(b),
    decreases b,
{
    if b == 0 {
        assert(pow16(a) * 1 == pow16(a));
    } else {
        lemma_pow16_adds(a, (b - 1) as nat);
        assert(pow16(a + b) == 16 * pow16((a + b - 1) as nat));
        let x = pow16(a);
        let y = pow16((b - 1) as nat);
        assert(16 * (x * y) == x * (16 * y)) by (nonlinear_arith);
    }
}

/// `16^(16 n) == 2^(64 n)`.
proof fn lemma_pow16_base_pow(n: nat)
    ensures
        pow16(16 * n) == crate::limb::base_pow(n),
    decreases n,
{
    if n > 0 {
        lemma_pow16_base_pow((n - 1) as nat);
        lemma_pow16_adds(16 * (n - 1) as nat, 16);
        reveal_with_fuel(pow16, 17);
        assert(16 * (n - 1) as nat + 16 == 16 * n);
        assert(crate::limb::base_pow(n) == crate::limb::limb_base() * crate::limb::base_pow(
            (n - 1) as nat,
        ));
    } else {
        assert(crate::limb::base_pow(0) == 1);
    }
}

/// Words read from the sixteen-digit groups of a text have the text's value.
proof fn lemma_hex_chunks_value(s: Seq<char>, w: Seq<Word>)
    requires
        s.len() == 16 * w.len(),
        forall|i: int|
            0 <= i < w.len() ==> #[trigger] w[i] as nat == hex_value(
                hex_word_chunk(s, w.len() as int, i),
            ),
    ensures
        crate::limb::words_value(w) == hex_value(s),
    decreases w.len(),
{
    let n = w.len() as int;
    if n == 0 {
        assert(s =~= Seq::<char>::empty());
    } else {
        let head = s.subrange(0, 16);
        let tail = s.subrange(16, s.len() as int);
        let w2 = w.drop_last();
        assert forall|i: int| 0 <= i < w2.len() implies #[trigger] w2[i] as nat == hex_value(
            hex_word_chunk(tail, w2.len() as int, i),
        ) by {
            assert(hex_word_chunk(tail, n - 1, i) =~= hex_word_chunk(s, n, i));
            assert(w[i] as nat == hex_value(hex_word_chunk(s, n, i)));
        }
        lemma_hex_chunks_value(tail, w2);
        assert(hex_word_chunk(s, n, n - 1) =~= head);
        assert(w[n - 1] as nat == hex_value(hex_word_chunk(s, n, n - 1)));
        assert(s =~= head + tail);
        lemma_hex_value_concat(head, tail);
        lemma_pow16_base_pow((n - 1) as nat);
        assert(tail.len() == 16 * (n - 1));
    }
}

/// Powers of sixteen are positive.
proof fn lemma_pow16_pos(n: nat)
    ensures
        pow16(n) >= 1,
    decreases n,
{
    if n > 0 {
        lemma_pow16_pos((n - 1) as nat);
    }
}

/// Each group of sixteen characters of the text of a word sequence is the text
/// of one word.
proof fn lemma_upper_hex_of_chunks(w: Seq<Word>)
    ensures
        upper_hex_of(w).len() == 16 * w.len(),
        forall|i: int|
            0 <= i < w.len() ==> #[trigger] hex_word_chunk(upper_hex_of(w), w.len() as int, i)
                == upper_hex_word(w[i]),
    decreases w.len(),
{
    if w.len() > 0 {
        let n = w.len() as int;
        let rest = w.drop_last();
        lemma_upper_hex_of_chunks(rest);
        let s = upper_hex_of(w);
        assert forall|i: int| 0 <= i < n implies #[trigger] hex_word_chunk(s, n, i) == upper_hex_word(w[i]) by {
            if i == n - 1 {
                assert(hex_word_chunk(s, n, i) =~= upper_hex_word(w[i]));
            } else {
                assert(hex_word_chunk(upper_hex_of(rest), n - 1, i) == upper_hex_word(rest[i]));
                assert(hex_word_chunk(s, n, i) =~= hex_word_chunk(upper_hex_of(rest), n - 1, i));
            }
        }
    }
}

/// The value of one hexadecimal digit held in a byte.
fn digit_value(b: u8) -> (r: u64)
    requires
        is_hex_digit(b as char),
    ensures
        r == hex_digit_value(b as char),
        r < 16,
{
    if b >= 48 && b <= 57 {
        (b - 48) as u64
    } else if b >= 97 && b <= 102 {
        (b - 87) as u64
    } else {
        (b - 55) as u64
    }
}

impl<const LIMBS: usize> Uint<LIMBS> {
    /// Parses `16 * LIMBS` hexadecimal digits, most significant first; each
    /// group of sixteen is one word.
    pub fn from_be_hex(hex: &str) -> (r: Self)
        requires
            hex@.len() == 16 * LIMBS,
            forall|i: int| 0 <= i < hex@.len() ==> is_hex_digit(#[trigger] hex@[i]),
        ensures
            forall|i: int|
                0 <= i < LIMBS ==> #[trigger] r.words()[i] as nat == hex_value(
                    hex_word_chunk(hex@, LIMBS as int, i),
                ),
            r.value() == hex_value(hex@),
    {
        proof {
            assert(vstd::string::is_ascii(hex));
            vstd::string::is_ascii_spec_bytes(hex);
        }
        let bytes = hex.as_bytes();
        let _n = bytes.len();
        assert(bytes@.len() == 16 * LIMBS);
        let mut limbs = [Limb(0); LIMBS];
        let mut i: usize = 0;
        proof {
            reveal_with_fuel(pow16, 17);
            assert(pow16(16) == 0x1_0000_0000_0000_0000);
        }
        while i < LIMBS
            invariant
                i <= LIMBS,
                _n == bytes@.len(),
                bytes@.len() == 16 * LIMBS,
                hex@.len() == 16 * LIMBS,
                forall|j: int| 0 <= j < hex@.len() ==> is_hex_digit(#[trigger] hex@[j]),
                forall|j: int| 0 <= j < hex@.len() ==> bytes@[j] == #[trigger] hex@[j] as u8,
                pow16(16) == 0x1_0000_0000_0000_0000,
                forall|j: int|
                    0 <= j < i ==> #[trigger] limbs@[j].0 as nat == hex_value(
                        hex_word_chunk(hex@, LIMBS as int, j),
                    ),
            decreases LIMBS - i,
        {
            let start = 16 * (LIMBS - 1 - i);
            let ghost chunk = hex_word_chunk(hex@, LIMBS as int, i as int);
            let mut acc: u64 = 0;
            let mut k: usize = 0;
            while k < 16
                invariant
                    i < LIMBS,
                    k <= 16,
                    start == 16 * (LIMBS - 1 - i),
                    _n == bytes@.len(),
                    bytes@.len() == 16 * LIMBS,
                    hex@.len() == 16 * LIMBS,
                    chunk == hex_word_chunk(hex@, LIMBS as int, i as int),
                    forall|j: int| 0 <= j < hex@.len() ==> is_hex_digit(#[trigger] hex@[j]),
                    forall|j: int| 0 <= j < hex@.len() ==> bytes@[j] == #[trigger] hex@[j] as u8,
                    pow16(16) == 0x1_0000_0000_0000_0000,
                    acc as nat == hex_value(chunk.subrange(0, k as int)),
                decreases 16 - k,
            {
                let b = bytes[start + k];
                let ghost c = hex@[start + k];
                assert(chunk[k as int] == c);
                assert(b as char == c);
                let d = digit_value(b);
                proof {
                    let sub = chunk.subrange(0, k as int + 1);
                    assert(sub.drop_last() =~= chunk.subrange(0, k as int));
                    assert forall|j: int| 0 <= j < sub.len() implies is_hex_digit(#[trigger] sub[j]) by {
                        assert(sub[j] == hex@[start + j]);
                    }
                    lemma_hex_value_bound(sub);
                    lemma_pow16_mono(k as nat + 1, 16);
                }
                acc = acc * 16 + d;
                k = k + 1;
            }
            assert(chunk.subrange(0, 16) =~= chunk);
            limbs[i] = Limb(acc);
            i = i + 1;
        }
        let r = Uint { limbs };
        proof {
            Self::lemma_value_bound(r);
            lemma_hex_chunks_value(hex@, r.words());
        }
        r
    }

    /// Parsing the upper-case text of a value gives the value back: the text
    /// has `16 * LIMBS` hexadecimal digits, and each group of sixteen reads back
    /// as its word.
    pub proof fn lemma_hex_round_trip(x: Self)
        ensures
            upper_hex_of(x.words()).len() == 16 * LIMBS,
            forall|i: int|
                0 <= i < upper_hex_of(x.words()).len() ==> is_hex_digit(
                    #[trigger] upper_hex_of(x.words())[i],
                ),
            forall|i: int|
                0 <= i < LIMBS ==> hex_value(
                    #[trigger] hex_word_chunk(upper_hex_of(x.words()), LIMBS as int, i),
                ) == x.words()[i],
    {
        let w = x.words();
        let s = upper_hex_of(w);
        Self::lemma_value_bound(x);
        lemma_upper_hex_of_chunks(w);
        assert forall|i: int| 0 <= i < LIMBS implies hex_value(
            #[trigger] hex_word_chunk(s, LIMBS as int, i),
        ) == w[i] by {
            assert(hex_word_chunk(s, w.len() as int, i) == upper_hex_word(w[i]));
            lemma_upper_hex_word_prefix(w[i], 16);
            assert(upper_hex_word(w[i]).subrange(0, 16) =~= upper_hex_word(w[i]));
            assert(pow16(0) == 1);
            assert(w[i] as nat / 1 == w[i]);
        }
        assert forall|j: int| 0 <= j < s.len() implies is_hex_digit(#[trigger] s[j]) by {
            let i = LIMBS - 1 - j / 16;
            assert(0 <= i < LIMBS);
            assert(hex_word_chunk(s, LIMBS as int, i) == upper_hex_word(w[i]));
            lemma_upper_hex_word_prefix(w[i], 16);
            assert(upper_hex_word(w[i]).subrange(0, 16) =~= upper_hex_word(w[i]));
            let o = j - 16 * (LIMBS - 1 - i);
            assert(0 <= o < 16);
            assert(s[j] == hex_word_chunk(s, LIMBS as int, i)[o]);
        }
    }

    /// Upper-case hexadecimal text: sixteen digits per word, most significant first.
    pub fn to_string(&self) -> (r: String)
        ensures
            r@ == upper_hex_of(self.words()),
    {
        let mut s = String::new();
        let mut i: usize = LIMBS;
        let ghost w = self.words();
        assert(w.subrange(0, LIMBS as int) =~= w);
        while i > 0
            invariant
                i <= LIMBS,
                w == self.words(),
                w.len() == LIMBS,
                s@ + upper_hex_of(w.subrange(0, i as int)) == upper_hex_of(w),
            decreases i,
        {
            let ghost pre = w.subrange(0, i as int);
            assert(pre.drop_last() =~= w.subrange(0, i - 1));
            assert(pre.last() == self.limbs@[i - 1].0);
            s = append_upper_hex(s, self.limbs[i - 1].0);
            i = i - 1;
            assert(s@ + upper_hex_of(w.subrange(0, i as int)) =~= upper_hex_of(w));
        }
        assert(upper_hex_of(w.subrange(0, 0)) =~= Seq::empty());
        assert(s@ =~= s@ + Seq::<char>::empty());
        s
    }

    /// Lower-case hexadecimal text: sixteen digits per word, most significant first.
    pub fn to_lower_hex(&self) -> (r: String)
        ensures
            r@ == lower_hex_of(self.words()),
    {
        let mut s = String::new();
        let mut i: usize = LIMBS;
        let ghost w = self.words();
        assert(w.subrange(0, LIMBS as int) =~= w);
        while i > 0
            invariant
                i <= LIMBS,
                w == self.words(),
                w.len() == LIMBS,
                s@ + lower_hex_of(w.subrange(0, i as int)) == lower_hex_of(w),
            decreases i,
        {
            let ghost pre = w.subrange(0, i as int);
            assert(pre.drop_last() =~= w.subrange(0, i - 1));
            assert(pre.last() == self.limbs@[i - 1].0);
            s = append_lower_hex(s, self.limbs[i - 1].0);
            i = i - 1;
            assert(s@ + lower_hex_of(w.subrange(0, i as int)) =~= lower_hex_of(w));
        }
        assert(lower_hex_of(w.subrange(0, 0)) =~= Seq::empty());
        assert(s@ =~= s@ + Seq::<char>::empty());
        s
    }
}

} // verus!
