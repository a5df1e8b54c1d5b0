//! The bit-parallel matcher and the score of what it finds.
//!
//! A searcher keeps, for every byte value, a 32-bit mask with one bit for each
//! pattern position that the byte matches. A search walks the text once and
//! keeps one 32-bit register for each error count: bit `i` of register `d`
//! says that the first `i + 1` pattern bytes occur, with at most `d` errors,
//! ending at the byte just read.

use vstd::prelude::*;
use crate::bloom::{bloom_bits, case_fold, folded_eq, to_lower, BloomFilter};
use crate::matching::{
    clamp_errors, first_match, first_match_from, least_errors, lemma_budget_monotone,
    lemma_no_match_for_empty, prefix_matches,
};
use crate::types::{SearchMatch, MAX_ERRORS, MAX_PATTERN_LEN, MAX_SCORE};

verus! {

/// Bit `i` of `x` is set.
pub open spec fn bit_set(x: u32, i: u32) -> bool {
    (x >> i) & 1 == 1
}

/// The part of a pattern that a searcher keeps: its first `MAX_PATTERN_LEN` bytes.
pub open spec fn truncated(pattern: Seq<u8>) -> Seq<u8> {
    if pattern.len() > MAX_PATTERN_LEN {
        pattern.take(MAX_PATTERN_LEN as int)
    } else {
        pattern
    }
}

/// The masks belong to the pattern `p`: bit `i` of the mask of the byte `c`
/// is set exactly when `i` is a position of `p` and `p[i]` equals `c` up to
/// ASCII case.
pub open spec fn masks_of(masks: Seq<u32>, p: Seq<u8>) -> bool {
    &&& masks.len() == 256
    &&& forall|c: int, i: u32|
        0 <= c < 256 && i < 32 ==> (#[trigger] bit_set(masks[c], i) <==> (i < p.len() && folded_eq(
            p[i as int],
            c as u8,
        )))
}

/// The score of an occurrence with `errors` errors that ends at `end_pos`,
/// for a pattern of `pattern_len` bytes: 1000 less 250 for each error, but not
/// below 0; plus 50 where the occurrence starts the text and 25 where it starts
/// within its first ten bytes; at most 1000. The start is taken as `end_pos`
/// less `pattern_len`, or 0 where that is negative.
pub open spec fn score_of(errors: nat, pattern_len: nat, end_pos: nat) -> nat {
    let base: nat = if errors >= 4 {
        0
    } else {
        (1000 - 250 * errors) as nat
    };
    let start: nat = if end_pos >= pattern_len {
        (end_pos - pattern_len) as nat
    } else {
        0
    };
    let bonus: nat = if start == 0 {
        50
    } else if start < 10 {
        25
    } else {
        0
    };
    if base + bonus > 1000 {
        1000
    } else {
        base + bonus
    }
}

/// Computes the score of an occurrence.
pub fn compute_score(errors: u32, pattern_len: u32, end_pos: usize) -> (score: u16)
    ensures
        score == score_of(errors as nat, pattern_len as nat, end_pos as nat),
        score <= MAX_SCORE,
{
    let base: u16 = if errors >= 4 {
        0
    } else if errors == 3 {
        250
    } else if errors == 2 {
        500
    } else if errors == 1 {
        750
    } else {
        1000
    };
    let start: usize = if end_pos >= pattern_len as usize {
        end_pos - pattern_len as usize
    } else {
        0
    };
    let bonus: u16 = if start == 0 {
        50
    } else if start < 10 {
        25
    } else {
        0
    };
    let score: u16 = base + bonus;
    if score > 1000 {
        1000
    } else {
        score
    }
}

/// An occurrence without errors at the start of the text has the highest score.
pub proof fn lemma_score_exact_at_start(pattern_len: nat)
    ensures
        score_of(0, pattern_len, pattern_len) == MAX_SCORE,
{
}

/// No score is above the highest.
pub proof fn lemma_score_bounded(errors: nat, pattern_len: nat, end_pos: nat)
    ensures
        score_of(errors, pattern_len, end_pos) <= MAX_SCORE,
{
}

/// Fewer errors never lower the score.
pub proof fn lemma_score_monotone_in_errors(fewer: nat, more: nat, pattern_len: nat, end_pos: nat)
    requires
        fewer <= more,
    ensures
        score_of(fewer, pattern_len, end_pos) >= score_of(more, pattern_len, end_pos),
{
}

/// An earlier end never lowers the score.
pub proof fn lemma_score_monotone_in_position(
    errors: nat,
    pattern_len: nat,
    earlier: nat,
    later: nat,
)
    requires
        earlier <= later,
    ensures
        score_of(errors, pattern_len, earlier) >= score_of(errors, pattern_len, later),
{
}

proof fn lemma_bit_or(x: u32, y: u32, i: u32)
    by (bit_vector)
    requires
        i < 32,
    ensures
        ((x | y) >> i) & 1 == 1 <==> ((x >> i) & 1 == 1 || (y >> i) & 1 == 1),
{
}

proof fn lemma_bit_and(x: u32, y: u32, i: u32)
    by (bit_vector)
    requires
        i < 32,
    ensures
        ((x & y) >> i) & 1 == 1 <==> ((x >> i) & 1 == 1 && (y >> i) & 1 == 1),
{
}

proof fn lemma_bit_shift_in(x: u32, i: u32)
    by (bit_vector)
    requires
        i < 32,
    ensures
        i == 0 ==> (((x << 1) | 1) >> i) & 1 == 1,
        i >= 1 ==> ((((x << 1) | 1) >> i) & 1 == 1 <==> (x >> ((i - 1) as u32)) & 1 == 1),
{
}

proof fn lemma_bit_single(x: u32, i: u32, b: u32)
    by (bit_vector)
    requires
        i < 32,
        b < 32,
    ensures
        ((x | (1u32 << i)) >> b) & 1 == 1 <==> ((x >> b) & 1 == 1 || b == i),
{
}

proof fn lemma_bit_test(x: u32, i: u32)
    by (bit_vector)
    requires
        i < 32,
    ensures
        (x & (1u32 << i)) != 0 <==> (x >> i) & 1 == 1,
{
}

proof fn lemma_bit_zero(i: u32)
    by (bit_vector)
    requires
        i < 32,
    ensures
        !((0u32 >> i) & 1 == 1),
{
}

/// The register of error count `d` after `j` text bytes: bit `b` is set
/// exactly when the first `b + 1` pattern bytes occur before `j` within `d`
/// errors.
pub open spec fn tracks(r: u32, p: Seq<u8>, t: Seq<u8>, j: nat, d: nat) -> bool {
    forall|b: u32|
        b < p.len() && b < 32 ==> (#[trigger] bit_set(r, b) <==> prefix_matches(
            p,
            t,
            (b + 1) as nat,
            j,
            d,
        ))
}

/// One step of the register of error count 0.
proof fn lemma_step_exact(r: u32, mask: u32, p: Seq<u8>, t: Seq<u8>, j: nat)
    requires
        p.len() <= 32,
        j < t.len(),
        tracks(r, p, t, j, 0),
        forall|i: u32| i < 32 ==> (#[trigger] bit_set(mask, i) <==> (i < p.len() && folded_eq(
            p[i as int],
            t[j as int],
        ))),
    ensures
        tracks(((r << 1) | 1) & mask, p, t, j + 1, 0),
{
    let n = ((r << 1) | 1) & mask;
    assert forall|b: u32| b < p.len() && b < 32 implies (#[trigger] bit_set(n, b)
        <==> prefix_matches(p, t, (b + 1) as nat, j + 1, 0)) by {
        lemma_bit_and((r << 1) | 1, mask, b);
        lemma_bit_shift_in(r, b);
        assert(bit_set(mask, b) <==> folded_eq(p[b as int], t[j as int]));
        if b >= 1 {
            let a = (b - 1) as u32;
            assert(bit_set(r, a) <==> prefix_matches(p, t, (a + 1) as nat, j, 0));
        } else {
            assert(prefix_matches(p, t, 0, j, 0));
        }
    }
}

/// One step of the register of an error count `d` above 0.
proof fn lemma_step_errors(r: u32, below: u32, mask: u32, p: Seq<u8>, t: Seq<u8>, j: nat, d: nat)
    requires
        p.len() <= 32,
        j < t.len(),
        d >= 1,
        tracks(r, p, t, j, d),
        tracks(below, p, t, j, (d - 1) as nat),
        forall|i: u32| i < 32 ==> (#[trigger] bit_set(mask, i) <==> (i < p.len() && folded_eq(
            p[i as int],
            t[j as int],
        ))),
    ensures
        tracks((((r << 1) | 1) & mask) | ((below << 1) | 1) | below, p, t, j + 1, d),
{
    let hit = ((r << 1) | 1) & mask;
    let swap = (below << 1) | 1;
    let n = hit | swap | below;
    assert forall|b: u32| b < p.len() && b < 32 implies (#[trigger] bit_set(n, b)
        <==> prefix_matches(p, t, (b + 1) as nat, j + 1, d)) by {
        lemma_bit_or(hit | swap, below, b);
        lemma_bit_or(hit, swap, b);
        lemma_bit_and((r << 1) | 1, mask, b);
        lemma_bit_shift_in(r, b);
        lemma_bit_shift_in(below, b);
        assert(bit_set(mask, b) <==> folded_eq(p[b as int], t[j as int]));
        assert(bit_set(below, b) <==> prefix_matches(p, t, (b + 1) as nat, j, (d - 1) as nat));
        if b >= 1 {
            let a = (b - 1) as u32;
            assert(bit_set(r, a) <==> prefix_matches(p, t, (a + 1) as nat, j, d));
            assert(bit_set(below, a) <==> prefix_matches(
                p,
                t,
                (a + 1) as nat,
                j,
                (d - 1) as nat,
            ));
        } else {
            assert(prefix_matches(p, t, 0, j, d));
            assert(prefix_matches(p, t, 0, j, (d - 1) as nat));
        }
    }
}

/// Before any text byte no register has a bit set.
proof fn lemma_tracks_start(p: Seq<u8>, t: Seq<u8>, d: nat)
    ensures
        tracks(0, p, t, 0, d),
{
    assert forall|b: u32| b < p.len() && b < 32 implies (#[trigger] bit_set(0u32, b)
        <==> prefix_matches(p, t, (b + 1) as nat, 0, d)) by {
        lemma_bit_zero(b);
    }
}

/// A pattern made ready for searching: its masks, its bytes and its summary.
pub struct BitapSearcher {
    char_masks: Vec<u32>,
    pattern: Vec<u8>,
    pattern_bloom: BloomFilter,
}

impl BitapSearcher {
    /// The pattern that is searched for.
    pub closed spec fn pattern(&self) -> Seq<u8> {
        self.pattern@
    }

    /// The mask of each byte value.
    pub closed spec fn masks(&self) -> Seq<u32> {
        self.char_masks@
    }

    /// The summary of the pattern.
    pub closed spec fn bloom_spec(&self) -> BloomFilter {
        self.pattern_bloom
    }

    /// The masks and the summary belong to the pattern, which has at most
    /// `MAX_PATTERN_LEN` bytes.
    pub open spec fn wf(&self) -> bool {
        &&& self.pattern().len() <= MAX_PATTERN_LEN
        &&& masks_of(self.masks(), self.pattern())
        &&& self.bloom_spec().0 == bloom_bits(self.pattern())
    }

    /// Makes the first `MAX_PATTERN_LEN` bytes of `pattern` ready for searching.
    pub fn new(pattern: &[u8]) -> (searcher: Self)
        ensures
            searcher.wf(),
            searcher.pattern() == truncated(pattern@),
    {
        let len: usize = if pattern.len() > MAX_PATTERN_LEN {
            MAX_PATTERN_LEN
        } else {
            pattern.len()
        };
        let mut char_masks: Vec<u32> = vec![0u32; 256];
        let mut kept: Vec<u8> = Vec::with_capacity(MAX_PATTERN_LEN);
        let mut bits: u64 = 0;
        proof {
            assert forall|c: int, i: u32| 0 <= c < 256 && i < 32 implies !#[trigger] bit_set(
                char_masks@[c],
                i,
            ) by {
                lemma_bit_zero(i);
            }
        }
        let mut i: usize = 0;
        while i < len
            invariant
                i <= len <= pattern.len(),
                len <= MAX_PATTERN_LEN,
                kept@ == pattern@.take(i as int),
                masks_of(char_masks@, kept@),
                bits == bloom_bits(kept@),
            decreases len - i,
        {
            let ch: u8 = pattern[i];
            let lower: u8 = to_lower(ch);
            let bit: u32 = 1u32 << (i as u32);
            let ghost before = char_masks@;
            let ghost prev = kept@;
            let m: u32 = char_masks[lower as usize];
            char_masks.set(lower as usize, m | bit);
            if lower >= 0x61 && lower <= 0x7a {
                let upper: u8 = lower - 0x20;
                let mu: u32 = char_masks[upper as usize];
                char_masks.set(upper as usize, mu | bit);
            }
            let idx: u8 = lower & 0x3f;
            assert(idx < 64) by (bit_vector)
                requires
                    idx == lower & 0x3f,
            ;
            bits = bits | (1u64 << (idx as u64));
            kept.push(ch);
            proof {
                let next = kept@;
                assert(next == pattern@.take(i as int + 1));
                assert(next.drop_last() == prev);
                assert(next.last() == ch);
                assert forall|c: int, b: u32| 0 <= c < 256 && b < 32 implies (#[trigger] bit_set(
                    char_masks@[c],
                    b,
                ) <==> (b < next.len() && folded_eq(next[b as int], c as u8))) by {
                    lemma_bit_single(before[c], i as u32, b);
                    assert(bit_set(before[c], b) <==> (b < prev.len() && folded_eq(
                        prev[b as int],
                        c as u8,
                    )));
                    if b < prev.len() {
                        assert(next[b as int] == prev[b as int]);
                    }
                    assert(case_fold(c as u8) == lower <==> (c == lower || (0x61 <= lower <= 0x7a
                        && c == lower - 0x20)));
                }
            }
            i = i + 1;
        }
        proof {
            if pattern.len() <= MAX_PATTERN_LEN {
                assert(pattern@.take(pattern.len() as int) == pattern@);
            }
        }
        BitapSearcher { char_masks, pattern: kept, pattern_bloom: BloomFilter(bits) }
    }

    /// The number of pattern bytes that are searched for.
    pub fn pattern_len(&self) -> (len: usize)
        ensures
            len == self.pattern().len(),
    {
        self.pattern.len()
    }

    /// The summary of the pattern.
    pub fn bloom(&self) -> (filter: BloomFilter)
        ensures
            filter == self.bloom_spec(),
    {
        self.pattern_bloom
    }

    /// Searches `text` for the pattern with at most `max_errors` errors, and
    /// at most `MAX_ERRORS`. Reports the occurrence that ends first and, of
    /// those that end there, the least error count.
    pub fn search(&self, text: &[u8], max_errors: u32) -> (found: Option<SearchMatch>)
        requires
            self.wf(),
        ensures
            found == first_match(self.pattern(), text@, max_errors),
    {
        let m: usize = self.pattern.len();
        let k: u32 = if max_errors > MAX_ERRORS {
            MAX_ERRORS
        } else {
            max_errors
        };
        let ghost p = self.pattern@;
        let ghost t = text@;
        let ghost kn = clamp_errors(max_errors);
        if m == 0 {
            proof {
                lemma_no_match_for_empty(p, t, kn, 1);
            }
            return None;
        }
        let match_bit: u32 = 1u32 << ((m - 1) as u32);
        let mut r0: u32 = 0;
        let mut r1: u32 = 0;
        let mut r2: u32 = 0;
        let mut r3: u32 = 0;
        proof {
            lemma_tracks_start(p, t, 0);
            lemma_tracks_start(p, t, 1);
            lemma_tracks_start(p, t, 2);
            lemma_tracks_start(p, t, 3);
        }
        let mut pos: usize = 0;
        while pos < text.len()
            invariant
                self.wf(),
                p == self.pattern(),
                p == self.pattern@,
                t == text@,
                kn == clamp_errors(max_errors),
                kn == k,
                k <= 3,
                1 <= m <= 32,
                m == p.len(),
                match_bit == 1u32 << ((m - 1) as u32),
                pos <= text.len(),
                tracks(r0, p, t, pos as nat, 0),
                tracks(r1, p, t, pos as nat, 1),
                tracks(r2, p, t, pos as nat, 2),
                tracks(r3, p, t, pos as nat, 3),
                first_match_from(p, t, kn, 1) == first_match_from(p, t, kn, pos as nat + 1),
            decreases text.len() - pos,
        {
            let c: u8 = to_lower(text[pos]);
            let mask: u32 = self.char_masks[c as usize];
            proof {
                assert forall|i: u32| i < 32 implies (#[trigger] bit_set(mask, i) <==> (i < p.len()
                    && folded_eq(p[i as int], t[pos as int]))) by {
                    assert(bit_set(self.masks()[c as int], i) <==> (i < p.len() && folded_eq(
                        p[i as int],
                        c,
                    )));
                }
                lemma_step_errors(r3, r2, mask, p, t, pos as nat, 3);
                lemma_step_errors(r2, r1, mask, p, t, pos as nat, 2);
                lemma_step_errors(r1, r0, mask, p, t, pos as nat, 1);
                lemma_step_exact(r0, mask, p, t, pos as nat);
            }
            r3 = (((r3 << 1) | 1) & mask) | ((r2 << 1) | 1) | r2;
            r2 = (((r2 << 1) | 1) & mask) | ((r1 << 1) | 1) | r1;
            r1 = (((r1 << 1) | 1) & mask) | ((r0 << 1) | 1) | r0;
            r0 = ((r0 << 1) | 1) & mask;
            pos = pos + 1;
            let hit0: bool = (r0 & match_bit) != 0;
            let hit1: bool = (r1 & match_bit) != 0;
            let hit2: bool = (r2 & match_bit) != 0;
            let hit3: bool = (r3 & match_bit) != 0;
            proof {
                let top = (m - 1) as u32;
                lemma_bit_test(r0, top);
                lemma_bit_test(r1, top);
                lemma_bit_test(r2, top);
                lemma_bit_test(r3, top);
                assert(bit_set(r0, top) <==> prefix_matches(p, t, (top + 1) as nat, pos as nat, 0));
                assert(bit_set(r1, top) <==> prefix_matches(p, t, (top + 1) as nat, pos as nat, 1));
                assert(bit_set(r2, top) <==> prefix_matches(p, t, (top + 1) as nat, pos as nat, 2));
                assert(bit_set(r3, top) <==> prefix_matches(p, t, (top + 1) as nat, pos as nat, 3));
                if hit0 {
                    lemma_budget_monotone(p, t, m as nat, pos as nat, 0, kn);
                }
                if hit1 && k >= 1 {
                    lemma_budget_monotone(p, t, m as nat, pos as nat, 1, kn);
                }
                if hit2 && k >= 2 {
                    lemma_budget_monotone(p, t, m as nat, pos as nat, 2, kn);
                }
                reveal_with_fuel(least_errors, 5);
            }
            if hit0 {
                return Some(SearchMatch { errors: 0, end_pos: pos });
            }
            if k >= 1 && hit1 {
                return Some(SearchMatch { errors: 1, end_pos: pos });
            }
            if k >= 2 && hit2 {
                return Some(SearchMatch { errors: 2, end_pos: pos });
            }
            if k >= 3 && hit3 {
                return Some(SearchMatch { errors: 3, end_pos: pos });
            }
        }
        None
    }
}

} // verus!
