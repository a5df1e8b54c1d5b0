//! ASCII case folding and the 64-bit presence summary built on it.
//!
//! A summary has one bit for each value of the low six bits of a folded byte.
//! It answers "might this text contain every byte of that pattern?" in constant
//! time: a `false` is certain, a `true` is only a maybe.

use vstd::prelude::*;

verus! {

/// The ASCII case fold of a byte: `A..=Z` map to `a..=z`, every other byte to itself.
pub open spec fn case_fold(c: u8) -> u8 {
    if 0x41 <= c && c <= 0x5a {
        (c + 0x20) as u8
    } else {
        c
    }
}

/// Two bytes are the same up to ASCII case.
pub open spec fn folded_eq(a: u8, b: u8) -> bool {
    case_fold(a) == case_fold(b)
}

/// Two byte strings of one length are the same up to ASCII case.
pub open spec fn same_folded(a: Seq<u8>, b: Seq<u8>) -> bool {
    &&& a.len() == b.len()
    &&& forall|i: int| 0 <= i < a.len() ==> folded_eq(#[trigger] a[i], b[i])
}

/// The summary bit that stands for the byte `c`.
pub open spec fn bloom_bit(c: u8) -> u64 {
    1u64 << ((case_fold(c) & 0x3f) as u64)
}

/// The summary of a byte string: the union of the bits of its bytes.
pub open spec fn bloom_bits(s: Seq<u8>) -> u64
    decreases s.len(),
{
    if s.len() == 0 {
        0
    } else {
        bloom_bits(s.drop_last()) | bloom_bit(s.last())
    }
}

/// Every bit of `pattern` is also set in `text`.
pub open spec fn bloom_covers(text: u64, pattern: u64) -> bool {
    text & pattern == pattern
}

/// Folds one byte to lower case.
pub fn to_lower(c: u8) -> (r: u8)
    ensures
        r == case_fold(c),
{
    if c >= 0x41 && c <= 0x5a {
        c + 0x20
    } else {
        c
    }
}

/// A summary covers itself.
pub proof fn lemma_bloom_covers_self(bits: u64)
    ensures
        bloom_covers(bits, bits),
{
    assert(bits & bits == bits) by (bit_vector);
}

/// The summary of a string covers the bit of each of its bytes.
pub proof fn lemma_bloom_covers_member(s: Seq<u8>, i: int)
    requires
        0 <= i < s.len(),
    ensures
        bloom_covers(bloom_bits(s), bloom_bit(s[i])),
    decreases s.len(),
{
    let rest = bloom_bits(s.drop_last());
    let last = bloom_bit(s.last());
    let b = bloom_bit(s[i]);
    if i == s.len() - 1 {
        assert((rest | last) & last == last) by (bit_vector);
    } else {
        lemma_bloom_covers_member(s.drop_last(), i);
        assert(s.drop_last()[i] == s[i]);
        assert((rest | last) & b == b) by (bit_vector)
            requires
                rest & b == b,
        ;
    }
}

/// Strings that are equal up to ASCII case have the same summary.
pub proof fn lemma_bloom_ignores_case(a: Seq<u8>, b: Seq<u8>)
    requires
        same_folded(a, b),
    ensures
        bloom_bits(a) == bloom_bits(b),
    decreases a.len(),
{
    if a.len() > 0 {
        assert(folded_eq(a[a.len() - 1], b[a.len() - 1]));
        assert forall|i: int| 0 <= i < a.drop_last().len() implies folded_eq(
            #[trigger] a.drop_last()[i],
            b.drop_last()[i],
        ) by {
            assert(folded_eq(a[i], b[i]));
        }
        lemma_bloom_ignores_case(a.drop_last(), b.drop_last());
    }
}

/// A text that holds, up to ASCII case, every byte of a pattern has a summary
/// that covers the pattern's: the filter never rejects such a pair.
pub proof fn lemma_bloom_covers_bytes(text: Seq<u8>, pattern: Seq<u8>)
    requires
        forall|i: int|
            0 <= i < pattern.len() ==> exists|j: int|
                0 <= j < text.len() && folded_eq(#[trigger] pattern[i], text[j]),
    ensures
        bloom_covers(bloom_bits(text), bloom_bits(pattern)),
    decreases pattern.len(),
{
    let t = bloom_bits(text);
    if pattern.len() == 0 {
        assert(t & 0 == 0) by (bit_vector);
    } else {
        let rest = pattern.drop_last();
        assert forall|i: int| 0 <= i < rest.len() implies exists|j: int|
            0 <= j < text.len() && folded_eq(#[trigger] rest[i], text[j]) by {
            assert(rest[i] == pattern[i]);
        }
        lemma_bloom_covers_bytes(text, rest);
        let last = pattern.last();
        assert(last == pattern[pattern.len() - 1]);
        let j = choose|j: int| 0 <= j < text.len() && folded_eq(last, text[j]);
        lemma_bloom_covers_member(text, j);
        let a = bloom_bits(rest);
        let b = bloom_bit(last);
        assert(b == bloom_bit(text[j]));
        assert(t & (a | b) == (a | b)) by (bit_vector)
            requires
                t & a == a,
                t & b == b,
        ;
    }
}

/// A 64-bit presence summary of a byte string.
#[derive(Clone, Copy, Debug, PartialEq, Eq, Structural)]
pub struct BloomFilter(pub u64);

impl BloomFilter {
    /// The summary of the empty string.
    pub fn new() -> (filter: Self)
        ensures
            filter.0 == 0,
            filter.0 == bloom_bits(Seq::<u8>::empty()),
    {
        BloomFilter(0)
    }

    /// Builds the summary of `text`.
    pub fn from_text(text: &[u8]) -> (filter: Self)
        ensures
            filter.0 == bloom_bits(text@),
    {
        let mut bits: u64 = 0;
        let mut i: usize = 0;
        while i < text.len()
            invariant
                i <= text.len(),
                bits == bloom_bits(text@.take(i as int)),
            decreases text.len() - i,
        {
            let lower: u8 = to_lower(text[i]);
            let idx: u8 = lower & 0x3f;
            assert(idx < 64) by (bit_vector)
                requires
                    idx == lower & 0x3f,
            ;
            proof {
                let next = text@.take(i as int + 1);
                assert(next.drop_last() == text@.take(i as int));
                assert(next.last() == text@[i as int]);
            }
            bits = bits | (1u64 << (idx as u64));
            i = i + 1;
        }
        proof {
            assert(text@.take(text.len() as int) == text@);
        }
        BloomFilter(bits)
    }

    /// Whether a text with this summary might contain a pattern with the
    /// summary `pattern`: true exactly when every bit of `pattern` is set here.
    pub fn might_contain(&self, pattern: BloomFilter) -> (maybe: bool)
        ensures
            maybe == bloom_covers(self.0, pattern.0),
    {
        (self.0 & pattern.0) == pattern.0
    }

    /// The raw bits.
    pub fn bits(&self) -> (bits: u64)
        ensures
            bits == self.0,
    {
        self.0
    }
}

} // verus!
