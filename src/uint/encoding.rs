//! Big-endian and little-endian byte encodings, and hexadecimal text.
use super::Uint;
use crate::limb::{Limb, Word};
use vstd::prelude::*;

verus! {

/// Byte `k` (0 is the least significant) of a word.
pub open spec fn word_byte(w: Word, k: int) -> u8 {
    ((w >> (8 * k) as u64) & 0xffu64) as u8
}

/// The word whose little-endian bytes are `b[s..s + 8]`.
pub open spec fn word_from_le(b: Seq<u8>, s: int) -> Word {
    (b[s] as u64) | ((b[s + 1] as u64) << 8u64) | ((b[s + 2] as u64) << 16u64) | ((b[s + 3] as u64)
        << 24u64) | ((b[s + 4] as u64) << 32u64) | ((b[s + 5] as u64) << 40u64) | ((b[s + 6] as u64)
        << 48u64) | ((b[s + 7] as u64) << 56u64)
}

/// The word whose big-endian bytes are `b[s..s + 8]`.
pub open spec fn word_from_be(b: Seq<u8>, s: int) -> Word {
    word_from_le(Seq::new(8, |t: int| b[s + 7 - t]), 0)
}

/// The little-endian bytes of a word sequence (least significant word first).
pub open spec fn le_bytes_of(w: Seq<Word>) -> Seq<u8> {
    Seq::new(8 * w.len(), |j: int| word_byte(w[j / 8], j % 8))
}

/// The big-endian bytes of a word sequence (least significant word first).
pub open spec fn be_bytes_of(w: Seq<Word>) -> Seq<u8> {
    Seq::new(8 * w.len(), |j: int| word_byte(w[w.len() - 1 - j / 8], 7 - j % 8))
}

/// The words, least significant first, of a little-endian byte sequence.
pub open spec fn words_of_le(b: Seq<u8>) -> Seq<Word> {
    Seq::new(b.len() / 8, |i: int| word_from_le(b, 8 * i))
}

/// The words, least significant first, of a big-endian byte sequence.
pub open spec fn words_of_be(b: Seq<u8>) -> Seq<Word> {
    Seq::new(b.len() / 8, |i: int| word_from_be(b, b.len() - 8 * (i + 1)))
}

/// Reassembling the eight bytes of a word gives the word back.
pub proof fn lemma_word_bytes(w: Word)
    ensures
        word_from_le(Seq::new(8, |k: int| word_byte(w, k)), 0) == w,
{
    let b = Seq::new(8, |k: int| word_byte(w, k));
    let b0 = w & 0xff;
    let b1 = (w >> 8u64) & 0xff;
    let b2 = (w >> 16u64) & 0xff;
    let b3 = (w >> 24u64) & 0xff;
    let b4 = (w >> 32u64) & 0xff;
    let b5 = (w >> 40u64) & 0xff;
    let b6 = (w >> 48u64) & 0xff;
    let b7 = (w >> 56u64) & 0xff;
    assert(b0 < 256 && b1 < 256 && b2 < 256 && b3 < 256 && b4 < 256 && b5 < 256 && b6 < 256 && b7
        < 256) by (bit_vector)
        requires
            b0 == w & 0xff,
            b1 == (w >> 8u64) & 0xff,
            b2 == (w >> 16u64) & 0xff,
            b3 == (w >> 24u64) & 0xff,
            b4 == (w >> 32u64) & 0xff,
            b5 == (w >> 40u64) & 0xff,
            b6 == (w >> 48u64) & 0xff,
            b7 == (w >> 56u64) & 0xff,
    ;
    assert(w >> 0u64 == w) by (bit_vector);
    assert(b[0] as u64 == b0 && b[1] as u64 == b1 && b[2] as u64 == b2 && b[3] as u64 == b3);
    assert(b[4] as u64 == b4 && b[5] as u64 == b5 && b[6] as u64 == b6 && b[7] as u64 == b7);
    assert(b0 | (b1 << 8u64) | (b2 << 16u64) | (b3 << 24u64) | (b4 << 32u64) | (b5 << 40u64) | (b6
        << 48u64) | (b7 << 56u64) == w) by (bit_vector)
        requires
            b0 == w & 0xff,
            b1 == (w >> 8u64) & 0xff,
            b2 == (w >> 16u64) & 0xff,
            b3 == (w >> 24u64) & 0xff,
            b4 == (w >> 32u64) & 0xff,
            b5 == (w >> 40u64) & 0xff,
            b6 == (w >> 48u64) & 0xff,
            b7 == (w >> 56u64) & 0xff,
    ;
}

/// `word_from_le` reads only the eight bytes at its offset.
proof fn lemma_word_from_le_window(b: Seq<u8>, s: int, c: Seq<u8>)
    requires
        0 <= s,
        s + 8 <= b.len(),
        c.len() == 8,
        forall|t: int| 0 <= t < 8 ==> b[s + t] == #[trigger] c[t],
    ensures
        word_from_le(b, s) == word_from_le(c, 0),
{
    assert(b[s] == c[0] && b[s + 1] == c[1] && b[s + 2] == c[2] && b[s + 3] == c[3]);
    assert(b[s + 4] == c[4] && b[s + 5] == c[5] && b[s + 6] == c[6] && b[s + 7] == c[7]);
}

/// Decoding the little-endian encoding of any words gives them back.
pub proof fn lemma_le_bytes_round_trip(w: Seq<Word>)
    ensures
        words_of_le(le_bytes_of(w)) == w,
{
    let b = le_bytes_of(w);
    assert forall|i: int| 0 <= i < w.len() implies #[trigger] words_of_le(b)[i] == w[i] by {
        let c = Seq::new(8, |k: int| word_byte(w[i], k));
        assert forall|t: int| 0 <= t < 8 implies b[8 * i + t] == #[trigger] c[t] by {
            assert((8 * i + t) / 8 == i && (8 * i + t) % 8 == t);
        }
        lemma_word_from_le_window(b, 8 * i, c);
        lemma_word_bytes(w[i]);
    }
    assert(words_of_le(b) =~= w);
}

/// Decoding the big-endian encoding of any words gives them back.
pub proof fn lemma_be_bytes_round_trip(w: Seq<Word>)
    ensures
        words_of_be(be_bytes_of(w)) == w,
{
    let b = be_bytes_of(w);
    let n = b.len();
    assert forall|i: int| 0 <= i < w.len() implies #[trigger] words_of_be(b)[i] == w[i] by {
        let s = n - 8 * (i + 1);
        let rev = Seq::new(8, |t: int| b[s + 7 - t]);
        let c = Seq::new(8, |k: int| word_byte(w[i], k));
        assert forall|t: int| 0 <= t < 8 implies rev[t] == #[trigger] c[t] by {
            let j = s + 7 - t;
            assert(j == 8 * (w.len() - 1 - i) + (7 - t));
            assert(j / 8 == w.len() - 1 - i && j % 8 == 7 - t);
        }
        assert(rev =~= c);
        lemma_word_bytes(w[i]);
    }
    assert(words_of_be(b) =~= w);
}

/// The little-endian encoding is the big-endian encoding reversed.
pub proof fn lemma_be_reversed_is_le(w: Seq<Word>)
    ensures
        be_bytes_of(w).reverse() == le_bytes_of(w),
{
    let be = be_bytes_of(w);
    let le = le_bytes_of(w);
    let n = be.len();
    if n > 0 {
        assert forall|j: int| 0 <= j < n implies #[trigger] be.reverse()[j] == le[j] by {
            let q = j / 8;
            let r = j % 8;
            assert(j == 8 * q + r);
            let k = n - 1 - j;
            assert(k == 8 * (w.len() - 1 - q) + (7 - r));
            assert(k / 8 == w.len() - 1 - q && k % 8 == 7 - r);
        }
        assert(be.reverse() =~= le);
    } else {
        assert(be.reverse() =~= le);
    }
}

/// Byte `k` of a word, computed.
fn get_byte(w: Word, k: u64) -> (r: u8)
    requires
        k < 8,
    ensures
        r == word_byte(w, k as int),
{
    let x = (w >> (8 * k)) & 0xff;
    assert(((w >> (8 * k)) & 0xff) < 256) by (bit_vector);
    x as u8
}

/// The word whose little-endian bytes are `b[s..s + 8]`, computed.
fn read_le_word(b: &Vec<u8>, s: usize) -> (r: Word)
    requires
        s + 8 <= b@.len(),
    ensures
        r == word_from_le(b@, s as int),
{
    let _n = b.len();
    (b[s] as u64) | ((b[s + 1] as u64) << 8u64) | ((b[s + 2] as u64) << 16u64) | ((b[s + 3] as u64)
        << 24u64) | ((b[s + 4] as u64) << 32u64) | ((b[s + 5] as u64) << 40u64) | ((b[s + 6] as u64)
        << 48u64) | ((b[s + 7] as u64) << 56u64)
}

/// The word whose big-endian bytes are `b[s..s + 8]`, computed.
fn read_be_word(b: &Vec<u8>, s: usize) -> (r: Word)
    requires
        s + 8 <= b@.len(),
    ensures
        r == word_from_be(b@, s as int),
{
    let _n = b.len();
    let ghost rev = Seq::new(8, |t: int| b@[s as int + 7 - t]);
    let r = (b[s + 7] as u64) | ((b[s + 6] as u64) << 8u64) | ((b[s + 5] as u64) << 16u64) | ((b[s
        + 4] as u64) << 24u64) | ((b[s + 3] as u64) << 32u64) | ((b[s + 2] as u64) << 40u64) | ((b[s
        + 1] as u64) << 48u64) | ((b[s] as u64) << 56u64);
    assert(rev[0] == b@[s + 7] && rev[1] == b@[s + 6] && rev[2] == b@[s + 5] && rev[3] == b@[s + 4]);
    assert(rev[4] == b@[s + 3] && rev[5] == b@[s + 2] && rev[6] == b@[s + 1] && rev[7] == b@[s as int]);
    r
}

impl<const LIMBS: usize> Uint<LIMBS> {
    /// Decoding the little-endian encoding of a value gives the value back.
    pub proof fn lemma_le_round_trip(x: Self, decoded: Self)
        requires
            decoded.words() == words_of_le(le_bytes_of(x.words())),
        ensures
            decoded == x,
    {
        lemma_le_bytes_round_trip(x.words());
        Self::lemma_words_ext(decoded, x);
    }

    /// Decoding the big-endian encoding of a value gives the value back.
    pub proof fn lemma_be_round_trip(x: Self, decoded: Self)
        requires
            decoded.words() == words_of_be(be_bytes_of(x.words())),
        ensures
            decoded == x,
    {
        lemma_be_bytes_round_trip(x.words());
        Self::lemma_words_ext(decoded, x);
    }

    /// The little-endian encoding: `8 * LIMBS` bytes, least significant first.
    pub fn to_le_bytes(&self) -> (r: Vec<u8>)
        ensures
            r@ == le_bytes_of(self.words()),
    {
        let mut out: Vec<u8> = Vec::new();
        let mut i: usize = 0;
        let ghost w = self.words();
        while i < LIMBS
            invariant
                i <= LIMBS,
                w == self.words(),
                w.len() == LIMBS,
                out@.len() == 8 * i,
                forall|j: int| 0 <= j < out@.len() ==> out@[j] == word_byte(w[j / 8], j % 8),
            decreases LIMBS - i,
        {
            let word = self.limbs[i].0;
            assert(word == w[i as int]);
            let mut k: u64 = 0;
            while k < 8
                invariant
                    i < LIMBS,
                    k <= 8,
                    word == w[i as int],
                    out@.len() == 8 * i + k,
                    forall|j: int| 0 <= j < out@.len() ==> out@[j] == word_byte(w[j / 8], j % 8),
                decreases 8 - k,
            {
                let ghost j = 8 * i + k;
                assert(j / 8 == i && j % 8 == k);
                out.push(get_byte(word, k));
                k = k + 1;
            }
            i = i + 1;
        }
        assert(out@ =~= le_bytes_of(w));
        out
    }

    /// The big-endian encoding: `8 * LIMBS` bytes, most significant first.
    pub fn to_be_bytes(&self) -> (r: Vec<u8>)
        ensures
            r@ == be_bytes_of(self.words()),
    {
        let mut out: Vec<u8> = Vec::new();
        let mut i: usize = 0;
        let ghost w = self.words();
        while i < LIMBS
            invariant
                i <= LIMBS,
                w == self.words(),
                w.len() == LIMBS,
                out@.len() == 8 * i,
                forall|j: int|
                    0 <= j < out@.len() ==> out@[j] == word_byte(w[w.len() - 1 - j / 8], 7 - j % 8),
            decreases LIMBS - i,
        {
            let word = self.limbs[LIMBS - 1 - i].0;
            assert(word == w[LIMBS - 1 - i]);
            let mut k: u64 = 0;
            while k < 8
                invariant
                    i < LIMBS,
                    k <= 8,
                    w.len() == LIMBS,
                    word == w[LIMBS - 1 - i],
                    out@.len() == 8 * i + k,
                    forall|j: int|
                        0 <= j < out@.len() ==> out@[j] == word_byte(w[w.len() - 1 - j / 8], 7 - j % 8),
                decreases 8 - k,
            {
                let ghost j = 8 * i + k;
                assert(j / 8 == i && j % 8 == k);
                out.push(get_byte(word, 7 - k));
                k = k + 1;
            }
            i = i + 1;
        }
        assert(out@ =~= be_bytes_of(w));
        out
    }

    /// Decodes `8 * LIMBS` little-endian bytes.
    pub fn from_le_bytes(bytes: Vec<u8>) -> (r: Self)
        requires
            bytes@.len() == 8 * LIMBS,
        ensures
            r.words() == words_of_le(bytes@),
    {
        let mut limbs = [Limb(0); LIMBS];
        let mut i: usize = 0;
        let _n = bytes.len();
        while i < LIMBS
            invariant
                i <= LIMBS,
                _n == bytes@.len(),
                bytes@.len() == 8 * LIMBS,
                forall|j: int| 0 <= j < i ==> limbs@[j].0 == word_from_le(bytes@, 8 * j),
            decreases LIMBS - i,
        {
            limbs[i] = Limb(read_le_word(&bytes, 8 * i));
            i = i + 1;
        }
        let r = Uint { limbs };
        assert(r.words() =~= words_of_le(bytes@));
        r
    }

    /// Decodes `8 * LIMBS` big-endian bytes.
    pub fn from_be_bytes(bytes: Vec<u8>) -> (r: Self)
        requires
            bytes@.len() == 8 * LIMBS,
        ensures
            r.words() == words_of_be(bytes@),
    {
        let mut limbs = [Limb(0); LIMBS];
        let mut i: usize = 0;
        let _n = bytes.len();
        while i < LIMBS
            invariant
                i <= LIMBS,
                _n == bytes@.len(),
                bytes@.len() == 8 * LIMBS,
                forall|j: int|
                    0 <= j < i ==> limbs@[j].0 == word_from_be(bytes@, bytes@.len() - 8 * (j + 1)),
            decreases LIMBS - i,
        {
            limbs[i] = Limb(read_be_word(&bytes, 8 * (LIMBS - 1 - i)));
            i = i + 1;
        }
        let r = Uint { limbs };
        assert(r.words() =~= words_of_be(bytes@));
        r
    }
}

} // verus!
