//! The result buffer: the best results so far, best first.
//!
//! The buffer is kept in order of falling score. A new result goes behind
//! every kept result that scores at least as much, so that among equal scores
//! the one offered first stays first. A full buffer gives up its last entry
//! for a new result that scores more than that entry, and for no other.

use vstd::prelude::*;
use crate::types::ScoredResult;

verus! {

/// The scores never rise from one entry to the next.
pub open spec fn sorted_desc(buf: Seq<ScoredResult>) -> bool {
    forall|i: int, j: int| 0 <= i <= j < buf.len() ==> buf[i].score >= buf[j].score
}

/// The first index whose entry scores less than `score`; the length where
/// there is none.
pub open spec fn insertion_point(buf: Seq<ScoredResult>, score: u16) -> nat
    decreases buf.len(),
{
    if buf.len() == 0 || buf[0].score < score {
        0
    } else {
        1 + insertion_point(buf.drop_first(), score)
    }
}

/// A buffer that is limited to `capacity` entries has no room for `result`:
/// it is full and its last entry scores at least as much.
pub open spec fn turned_away(buf: Seq<ScoredResult>, result: ScoredResult, capacity: nat) -> bool {
    capacity == 0 || (buf.len() >= capacity && result.score <= buf.last().score)
}

/// The entries that stay when `result` is taken in: all of them, or all but
/// the last where the buffer is full.
pub open spec fn kept_entries(buf: Seq<ScoredResult>, capacity: nat) -> Seq<ScoredResult> {
    if buf.len() >= capacity && buf.len() > 0 {
        buf.drop_last()
    } else {
        buf
    }
}

/// The buffer after `result` was offered to it.
pub open spec fn offer(buf: Seq<ScoredResult>, result: ScoredResult, capacity: nat) -> Seq<
    ScoredResult,
> {
    if turned_away(buf, result, capacity) {
        buf
    } else {
        let kept = kept_entries(buf, capacity);
        kept.insert(insertion_point(kept, result.score) as int, result)
    }
}

/// What `insertion_point` finds: everything before it scores at least
/// `score`, and the entry at it, if there is one, scores less.
pub proof fn lemma_insertion_point(buf: Seq<ScoredResult>, score: u16)
    ensures
        insertion_point(buf, score) <= buf.len(),
        forall|i: int| 0 <= i < insertion_point(buf, score) ==> (#[trigger] buf[i]).score >= score,
        insertion_point(buf, score) < buf.len() ==> buf[insertion_point(buf, score) as int].score
            < score,
    decreases buf.len(),
{
    if !(buf.len() == 0 || buf[0].score < score) {
        let rest = buf.drop_first();
        lemma_insertion_point(rest, score);
        let p = insertion_point(rest, score);
        assert forall|i: int| 0 <= i < p + 1 implies (#[trigger] buf[i]).score >= score by {
            if i > 0 {
                assert(buf[i] == rest[i - 1]);
            }
        }
        if p < rest.len() {
            assert(buf[p as int + 1] == rest[p as int]);
        }
    }
}

/// The index that has only entries scoring at least `score` before it, and an
/// entry scoring less at it or nothing, is the insertion point.
pub proof fn lemma_insertion_point_unique(buf: Seq<ScoredResult>, score: u16, pos: nat)
    requires
        pos <= buf.len(),
        forall|i: int| 0 <= i < pos ==> (#[trigger] buf[i]).score >= score,
        pos < buf.len() ==> buf[pos as int].score < score,
    ensures
        insertion_point(buf, score) == pos,
    decreases buf.len(),
{
    if buf.len() == 0 || buf[0].score < score {
        if pos > 0 {
            assert(buf[0].score >= score);
        }
    } else {
        let rest = buf.drop_first();
        assert forall|i: int| 0 <= i < pos - 1 implies (#[trigger] rest[i]).score >= score by {
            assert(rest[i] == buf[i + 1]);
        }
        if pos < buf.len() {
            assert(rest[pos - 1] == buf[pos as int]);
        }
        lemma_insertion_point_unique(rest, score, (pos - 1) as nat);
    }
}

/// Offering a result to an ordered buffer leaves it ordered.
pub proof fn lemma_offer_sorted(buf: Seq<ScoredResult>, result: ScoredResult, capacity: nat)
    requires
        sorted_desc(buf),
    ensures
        sorted_desc(offer(buf, result, capacity)),
{
    if !turned_away(buf, result, capacity) {
        let kept = kept_entries(buf, capacity);
        let pos = insertion_point(kept, result.score);
        lemma_insertion_point(kept, result.score);
        let out = kept.insert(pos as int, result);
        assert forall|i: int, j: int| 0 <= i <= j < out.len() implies out[i].score
            >= out[j].score by {
            if j < pos {
                assert(out[i] == kept[i] && out[j] == kept[j]);
            } else if j == pos {
                if i < pos {
                    assert(out[i] == kept[i]);
                }
            } else {
                assert(out[j] == kept[j - 1]);
                assert(kept[pos as int].score >= kept[j - 1].score);
                if i < pos {
                    assert(out[i] == kept[i]);
                } else if i > pos {
                    assert(out[i] == kept[i - 1]);
                }
            }
        }
    }
}

/// Offering a result to a buffer within its limit leaves it within its limit,
/// and never shortens it.
pub proof fn lemma_offer_len(buf: Seq<ScoredResult>, result: ScoredResult, capacity: nat)
    requires
        buf.len() <= capacity,
    ensures
        buf.len() <= offer(buf, result, capacity).len() <= capacity,
        offer(buf, result, capacity).len() <= buf.len() + 1,
{
    lemma_insertion_point(kept_entries(buf, capacity), result.score);
}

/// A result that is not turned away is in the buffer afterwards, at its
/// insertion point.
pub proof fn lemma_offer_holds(buf: Seq<ScoredResult>, result: ScoredResult, capacity: nat)
    requires
        !turned_away(buf, result, capacity),
    ensures
        insertion_point(kept_entries(buf, capacity), result.score) < offer(
            buf,
            result,
            capacity,
        ).len(),
        offer(buf, result, capacity)[insertion_point(
            kept_entries(buf, capacity),
            result.score,
        ) as int] == result,
{
    lemma_insertion_point(kept_entries(buf, capacity), result.score);
}

/// Offers `result` to a buffer that is limited to `capacity` entries.
pub fn insert_result(results: &mut Vec<ScoredResult>, result: ScoredResult, capacity: usize)
    ensures
        final(results)@ == offer(old(results)@, result, capacity as nat),
{
    if capacity == 0 {
        return ;
    }
    let len: usize = results.len();
    if len >= capacity {
        if result.score <= results[len - 1].score {
            return ;
        }
        results.pop();
    }
    let ghost kept = results@;
    let n: usize = results.len();
    let mut pos: usize = 0;
    while pos < n && results[pos].score >= result.score
        invariant
            n == results.len(),
            results@ == kept,
            pos <= n,
            forall|i: int| 0 <= i < pos ==> (#[trigger] kept[i]).score >= result.score,
        decreases n - pos,
    {
        pos = pos + 1;
    }
    proof {
        lemma_insertion_point_unique(kept, result.score, pos as nat);
    }
    results.insert(pos, result);
}

} // verus!
