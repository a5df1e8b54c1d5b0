//! What holds of every engine, proved of the model.

use vstd::prelude::*;
use crate::arena::{
    lemma_first_live, lemma_first_live_agree, STATUS_ADDED, STATUS_CAPACITY_EXCEEDED,
    STATUS_EMPTY_INPUT, STATUS_POOL_EXHAUSTED,
};
use crate::bloom::{
    bloom_bits, bloom_covers, folded_eq, lemma_bloom_covers_bytes, lemma_bloom_covers_self,
    lemma_bloom_ignores_case, same_folded,
};
use crate::matching::{
    clamp_errors, equals_at, first_match, lemma_budget_monotone, lemma_exact_occurrence,
    lemma_first_match_from_ignores_case, lemma_first_match_from_some, lemma_match_of_equal_text,
    lemma_occurrence_needs_room, occurs_at,
};
use crate::model::{
    lemma_add_record_valid, lemma_configure_valid, lemma_init_valid,
    lemma_prepare_pattern_valid, lemma_remove_record_valid, lemma_reset_valid,
    lemma_results_upto, lemma_search_valid, lemma_stage, lemma_stage_valid, EngineState, Step,
};
use crate::results::{
    insertion_point, kept_entries, lemma_insertion_point, lemma_offer_holds, turned_away,
};
use crate::types::{
    ScoredResult, MAX_PATTERN_LEN, MAX_RECORDS, MAX_SCORE, SCRATCHPAD_SIZE, STRING_POOL_SIZE,
};

verus! {

/// A fresh engine is valid and is what `init` leads to.
pub proof fn lemma_fresh_valid()
    ensures
        EngineState::fresh().valid(),
        EngineState::fresh().init() == EngineState::fresh(),
{
}

/// Every operation keeps a valid state valid.
pub proof fn lemma_step_valid(s: EngineState, step: Step)
    requires
        s.valid(),
        step.admissible(),
    ensures
        s.step(step).valid(),
{
    match step {
        Step::Init => lemma_init_valid(s),
        Step::Reset => lemma_reset_valid(s),
        Step::SetMaxErrors(errors) => lemma_configure_valid(s, errors),
        Step::SetThreshold(threshold) => lemma_configure_valid(s, threshold),
        Step::SetMaxResults(max) => lemma_configure_valid(s, max),
        Step::Write(bytes) => lemma_stage_valid(s, bytes, 0),
        Step::CommitWrite(len) => lemma_stage_valid(s, s.scratch, len),
        Step::AddRecord(id) => lemma_add_record_valid(s, id),
        Step::RemoveRecord(id) => lemma_remove_record_valid(s, id),
        Step::PreparePattern => lemma_prepare_pattern_valid(s),
        Step::Search => lemma_search_valid(s),
    }
}

/// Whatever is done to a fresh engine, and in whatever order, its state is
/// valid after every operation.
pub proof fn lemma_every_trace_valid(steps: Seq<Step>)
    requires
        forall|i: int| 0 <= i < steps.len() ==> (#[trigger] steps[i]).admissible(),
    ensures
        EngineState::fresh().run(steps).valid(),
    decreases steps.len(),
{
    if steps.len() > 0 {
        lemma_every_trace_valid(steps.drop_last());
        lemma_step_valid(EngineState::fresh().run(steps.drop_last()), steps.last());
    }
}

/// Initialising twice is initialising once.
pub proof fn lemma_init_idempotent(s: EngineState)
    ensures
        s.init().init() == s.init(),
{
}

/// When adding a record fails, and how: with "capacity exceeded" exactly when
/// the table is full; with "empty input" exactly when it is not and nothing
/// is staged; with "pool exhausted" exactly when neither holds and the staged
/// bytes do not fit into the pool; never otherwise.
pub proof fn lemma_add_status(s: EngineState)
    requires
        s.valid(),
    ensures
        s.add_status() == STATUS_CAPACITY_EXCEEDED <==> s.arena.records.len() == MAX_RECORDS,
        s.add_status() == STATUS_EMPTY_INPUT <==> s.arena.records.len() < MAX_RECORDS
            && s.staged_len == 0,
        s.add_status() == STATUS_POOL_EXHAUSTED <==> s.arena.records.len() < MAX_RECORDS
            && s.staged_len > 0 && s.arena.pool.len() + s.staged_len > STRING_POOL_SIZE,
        s.add_status() == STATUS_ADDED <==> s.arena.records.len() < MAX_RECORDS && s.staged_len
            > 0 && s.arena.pool.len() + s.staged_len <= STRING_POOL_SIZE,
{
}

/// The filter never rejects an exact occurrence: where the summary of a text
/// does not cover that of a pattern, a search without errors finds nothing.
pub proof fn lemma_bloom_sound_without_errors(pattern: Seq<u8>, text: Seq<u8>)
    requires
        text.len() <= usize::MAX,
        !bloom_covers(bloom_bits(text), bloom_bits(pattern)),
    ensures
        first_match(pattern, text, 0) is None,
{
    if first_match(pattern, text, 0) is Some {
        let m = first_match(pattern, text, 0).unwrap();
        lemma_first_match_from_some(pattern, text, 0, 1, m);
        let j = m.end_pos as nat;
        lemma_exact_occurrence(pattern, text, j);
        assert forall|i: int| 0 <= i < pattern.len() implies exists|x: int|
            0 <= x < text.len() && folded_eq(#[trigger] pattern[i], text[x]) by {
            let x = j - pattern.len() + i;
            assert(folded_eq(pattern[i], text[x]));
        }
        lemma_bloom_covers_bytes(text, pattern);
    }
}

/// Two states with one pattern and one configuration whose first `n` records
/// contribute the same have the same buffer after `n` records.
pub proof fn lemma_results_upto_agree(a: EngineState, b: EngineState, n: nat)
    requires
        a.config == b.config,
        forall|i: int| 0 <= i < n ==> a.candidate(i) == b.candidate(i),
    ensures
        a.results_upto(n) == b.results_upto(n),
    decreases n,
{
    if n > 0 {
        lemma_results_upto_agree(a, b, (n - 1) as nat);
    }
}

/// Only the first `MAX_PATTERN_LEN` bytes of a pattern govern a search:
/// preparing a longer pattern is preparing its first `MAX_PATTERN_LEN` bytes.
pub proof fn lemma_long_pattern_is_cut(s: EngineState, pattern: Seq<u8>)
    requires
        s.valid(),
        MAX_PATTERN_LEN < pattern.len() <= SCRATCHPAD_SIZE,
    ensures
        s.stage(pattern).prepare_pattern().pattern == pattern.take(MAX_PATTERN_LEN as int),
        s.stage(pattern).prepare_pattern().search().results == s.stage(
            pattern.take(MAX_PATTERN_LEN as int),
        ).prepare_pattern().search().results,
{
    let cut = pattern.take(MAX_PATTERN_LEN as int);
    lemma_stage(s, pattern);
    lemma_stage(s, cut);
    let a = s.stage(pattern).prepare_pattern();
    let b = s.stage(cut).prepare_pattern();
    assert(a.pattern == b.pattern);
    assert forall|i: int| 0 <= i < a.arena.records.len() implies a.candidate(i) == b.candidate(
        i,
    ) by {}
    lemma_results_upto_agree(a, b, a.arena.records.len());
}

/// Every result of a search comes from a record of its own: the returned
/// sequence names, for each slot of the buffer after `n` records, the index
/// of the record that contributed it, and no index twice. Of two results
/// with one score, the one of the earlier record comes first.
pub proof fn lemma_result_sources(s: EngineState, n: nat) -> (src: Seq<int>)
    ensures
        src.len() == s.results_upto(n).len(),
        forall|a: int|
            0 <= a < src.len() ==> 0 <= #[trigger] src[a] < n && s.candidate(src[a]) == Some(
                s.results_upto(n)[a],
            ),
        forall|a: int, b: int| 0 <= a < b < src.len() ==> src[a] != src[b],
        forall|a: int, b: int|
            0 <= a < b < src.len() && s.results_upto(n)[a].score == s.results_upto(n)[b].score
                ==> src[a] < src[b],
    decreases n,
{
    if n == 0 {
        Seq::empty()
    } else {
        let prev = lemma_result_sources(s, (n - 1) as nat);
        let before = s.results_upto((n - 1) as nat);
        let cap = s.config.max_results as nat;
        match s.candidate(n - 1) {
            None => prev,
            Some(r) => {
                if turned_away(before, r, cap) {
                    prev
                } else {
                    let kept = kept_entries(before, cap);
                    let kept_src = if before.len() >= cap && before.len() > 0 {
                        prev.drop_last()
                    } else {
                        prev
                    };
                    let pos = insertion_point(kept, r.score) as int;
                    lemma_insertion_point(kept, r.score);
                    let src = kept_src.insert(pos, n - 1);
                    let out = kept.insert(pos, r);
                    assert(out == s.results_upto(n));
                    assert forall|a: int| 0 <= a < src.len() implies 0 <= #[trigger] src[a] < n
                        && s.candidate(src[a]) == Some(out[a]) by {
                        if a < pos {
                            assert(src[a] == prev[a] && out[a] == before[a]);
                        } else if a > pos {
                            assert(src[a] == prev[a - 1] && out[a] == before[a - 1]);
                        }
                    }
                    assert forall|a: int, b: int| 0 <= a < b < src.len() implies src[a]
                        != src[b] by {
                        let a0 = if a < pos {
                            a
                        } else {
                            a - 1
                        };
                        let b0 = if b < pos {
                            b
                        } else {
                            b - 1
                        };
                        if a != pos {
                            assert(src[a] == prev[a0]);
                        }
                        if b != pos {
                            assert(src[b] == prev[b0]);
                        }
                    }
                    lemma_results_upto(s, (n - 1) as nat);
                    assert forall|a: int, b: int|
                        0 <= a < b < src.len() && out[a].score == out[b].score implies src[a]
                        < src[b] by {
                        let a0 = if a < pos {
                            a
                        } else {
                            a - 1
                        };
                        let b0 = if b < pos {
                            b
                        } else {
                            b - 1
                        };
                        if a != pos {
                            assert(src[a] == prev[a0] && out[a] == before[a0]);
                        }
                        if b != pos {
                            assert(src[b] == prev[b0] && out[b] == before[b0]);
                        }
                        if a == pos {
                            assert(before[pos].score >= before[b0].score);
                        }
                    }
                    src
                }
            },
        }
    }
}

/// A search returns as many results as can be read: each slot below the
/// count holds the result of a record of its own, and no slot from the count
/// on holds anything. Of two results with one score, the one of the earlier
/// record comes first. The returned sequence names the record of each slot.
pub proof fn lemma_search_results_distinct(s: EngineState) -> (src: Seq<int>)
    requires
        s.valid(),
    ensures
        src.len() == s.search().results.len(),
        forall|a: int|
            0 <= a < src.len() ==> 0 <= #[trigger] src[a] < s.arena.records.len() && s.candidate(
                src[a],
            ) == s.search().result_at(a as u32),
        forall|a: int, b: int| 0 <= a < b < src.len() ==> src[a] != src[b],
        forall|a: int, b: int|
            0 <= a < b < src.len() && s.search().results[a].score == s.search().results[b].score
                ==> src[a] < src[b],
        forall|index: u32| index >= src.len() ==> s.search().result_at(index) is None,
{
    lemma_results_upto(s, s.arena.records.len());
    if s.pattern.len() == 0 {
        Seq::empty()
    } else {
        lemma_result_sources(s, s.arena.records.len())
    }
}

/// A search keeps the best: what one of the first `n` records contributes is
/// in the buffer after `n` records, unless the buffer is full, or has no
/// room at all, and its last result scores at least as much.
pub proof fn lemma_search_keeps_best(s: EngineState, n: nat, i: int)
    requires
        0 <= i < n,
        s.candidate(i) is Some,
    ensures
        s.results_upto(n).contains(s.candidate(i).unwrap()) || s.config.max_results == 0 || (
        s.results_upto(n).len() == s.config.max_results && s.results_upto(n).last().score
            >= s.candidate(i).unwrap().score),
    decreases n,
{
    let c = s.candidate(i).unwrap();
    let cap = s.config.max_results as nat;
    let before = s.results_upto((n - 1) as nat);
    let buf = s.results_upto(n);
    lemma_results_upto(s, (n - 1) as nat);
    lemma_results_upto(s, n);
    if i == n - 1 {
        if !turned_away(before, c, cap) {
            lemma_offer_holds(before, c, cap);
            let pos = insertion_point(kept_entries(before, cap), c.score) as int;
            assert(buf[pos] == c);
        }
    } else {
        lemma_search_keeps_best(s, (n - 1) as nat, i);
        match s.candidate(n - 1) {
            None => {},
            Some(r) => {
                if !turned_away(before, r, cap) {
                    let kept = kept_entries(before, cap);
                    let pos = insertion_point(kept, r.score) as int;
                    lemma_insertion_point(kept, r.score);
                    assert(buf == kept.insert(pos, r));
                    if before.len() >= cap {
                        assert(buf.len() == cap);
                        let last = before.len() - 1;
                        if pos == kept.len() {
                            assert(buf.last() == r);
                        } else {
                            assert(buf.last() == kept[last - 1]);
                            assert(before[last - 1].score >= before[last].score);
                        }
                        assert(buf.last().score >= before.last().score);
                    }
                    if before.contains(c) {
                        let a = choose|a: int| 0 <= a < before.len() && before[a] == c;
                        if a < kept.len() {
                            if a < pos {
                                assert(buf[a] == c);
                            } else {
                                assert(buf[a + 1] == c);
                            }
                        }
                    }
                }
            },
        }
    }
}

/// What every result of a search is: the result of an active record, whose
/// summary covers the pattern's, in whose text the pattern occurs within the
/// error budget, ending at the result's end; its start is its end less the
/// pattern's length, and its score is at least the threshold and at most the
/// highest score. The returned number is the index of the record.
pub proof fn lemma_result_shape(s: EngineState, slot: int) -> (record: int)
    requires
        s.valid(),
        0 <= slot < s.search().results.len(),
    ensures
        0 <= record < s.arena.records.len(),
        s.candidate(record) == Some(s.search().results[slot]),
        s.arena.records[record].active,
        s.arena.records[record].id == s.search().results[slot].id,
        bloom_covers(s.arena.records[record].bloom, bloom_bits(s.pattern)),
        occurs_at(
            s.pattern,
            s.arena.text(record),
            s.search().results[slot].end as nat,
            clamp_errors(s.config.max_errors),
        ),
        s.pattern.len() <= s.search().results[slot].end <= s.arena.records[record].text_len,
        s.search().results[slot].start + s.pattern.len() == s.search().results[slot].end,
        s.config.threshold <= s.search().results[slot].score <= MAX_SCORE,
{
    let src = lemma_search_results_distinct(s);
    let record = src[slot];
    let text = s.arena.text(record);
    let k = clamp_errors(s.config.max_errors);
    lemma_results_upto(s, s.arena.records.len());
    assert(s.search().result_at(slot as u32) == Some(s.search().results[slot]));
    assert(s.candidate(record) == Some(s.search().results[slot]));
    let m = first_match(s.pattern, text, s.config.max_errors).unwrap();
    assert(text.len() == s.arena.records[record].text_len) by {
        assert(s.arena.records[record].text_end() <= s.arena.pool.len());
    }
    lemma_first_match_from_some(s.pattern, text, k, 1, m);
    lemma_occurrence_needs_room(s.pattern, text, s.pattern.len(), m.end_pos as nat, m.errors as nat);
    lemma_budget_monotone(s.pattern, text, s.pattern.len(), m.end_pos as nat, m.errors as nat, k);
    record
}

/// With an error budget of 0 a search reports exact occurrences only: every
/// result comes from a record whose text holds the pattern, up to ASCII case,
/// in the bytes from the result's start to its end. The returned number is
/// the index of that record.
pub proof fn lemma_no_errors_only_exact(s: EngineState, slot: int) -> (record: int)
    requires
        s.valid(),
        s.config.max_errors == 0,
        0 <= slot < s.search().results.len(),
    ensures
        0 <= record < s.arena.records.len(),
        s.arena.records[record].active,
        s.arena.records[record].id == s.search().results[slot].id,
        s.search().results[slot].end == s.search().results[slot].start + s.pattern.len(),
        equals_at(s.pattern, s.arena.text(record), s.search().results[slot].end as nat),
{
    let record = lemma_result_shape(s, slot);
    lemma_exact_occurrence(
        s.pattern,
        s.arena.text(record),
        s.search().results[slot].end as nat,
    );
    record
}

/// A search starts from an empty buffer: what it finds does not depend on
/// what was found before, and searching again finds the same.
pub proof fn lemma_search_is_repeatable(s: EngineState, earlier: Seq<ScoredResult>)
    ensures
        (EngineState { results: earlier, ..s }).search() == s.search(),
        s.search().search() == s.search(),
{
    let a = EngineState { results: earlier, ..s };
    assert forall|i: int| 0 <= i < s.arena.records.len() implies a.candidate(i) == s.candidate(
        i,
    ) by {}
    lemma_results_upto_agree(a, s, s.arena.records.len());
    let b = s.search();
    assert forall|i: int| 0 <= i < s.arena.records.len() implies b.candidate(i) == s.candidate(
        i,
    ) by {}
    lemma_results_upto_agree(b, s, s.arena.records.len());
}

/// A record that was added and removed again is not found: where no active
/// record had the identifier before, a search after the two steps gives what
/// it gives without them, whatever the text and whatever the pattern.
pub proof fn lemma_removed_record_is_not_found(
    s: EngineState,
    id: u32,
    text: Seq<u8>,
    pattern: Seq<u8>,
)
    requires
        s.valid(),
        text.len() <= SCRATCHPAD_SIZE,
        pattern.len() <= SCRATCHPAD_SIZE,
        !s.arena.has_live(id),
    ensures
        s.stage(text).add_record(id).remove_record(id).stage(
            pattern,
        ).prepare_pattern().search().results == s.stage(
            pattern,
        ).prepare_pattern().search().results,
{
    let n = s.arena.records.len();
    lemma_stage(s, text);
    lemma_stage(s, pattern);
    let a = s.stage(text);
    let b = a.add_record(id);
    let c = b.remove_record(id);
    lemma_add_record_valid(a, id);
    lemma_remove_record_valid(b, id);
    lemma_stage(c, pattern);
    let d = c.stage(pattern).prepare_pattern();
    let e = s.stage(pattern).prepare_pattern();
    lemma_first_live(s.arena, id, n);
    assert(s.arena.first_live(id, n) == n);
    if a.add_status() == STATUS_ADDED {
        lemma_first_live_agree(s.arena, b.arena, id, n);
        assert(b.arena.first_live(id, n + 1) == n);
        assert(c.arena.records.len() == n + 1);
        assert(!c.arena.records[n as int].active);
        assert forall|i: int| 0 <= i < n implies d.candidate(i) == e.candidate(i) by {
            assert(c.arena.records[i] == s.arena.records[i]);
            assert(s.arena.records[i].text_end() <= s.arena.pool.len());
            assert(c.arena.text(i) =~= s.arena.text(i));
        }
        lemma_results_upto_agree(d, e, n);
        assert(d.candidate(n as int) is None);
        assert(d.results_upto(n + 1) == d.results_upto(n));
    } else {
        assert(c.arena == s.arena);
        assert forall|i: int| 0 <= i < n implies d.candidate(i) == e.candidate(i) by {}
        lemma_results_upto_agree(d, e, n);
    }
}

/// The pattern, the pool and everything else of two states are the same up
/// to the case of ASCII letters.
pub open spec fn same_up_to_case(a: EngineState, b: EngineState) -> bool {
    &&& a.config == b.config
    &&& same_folded(a.pattern, b.pattern)
    &&& same_folded(a.arena.pool, b.arena.pool)
    &&& a.arena.records.len() == b.arena.records.len()
    &&& forall|i: int|
        0 <= i < a.arena.records.len() ==> {
            &&& (#[trigger] a.arena.records[i]).id == b.arena.records[i].id
            &&& a.arena.records[i].text_start == b.arena.records[i].text_start
            &&& a.arena.records[i].text_len == b.arena.records[i].text_len
            &&& a.arena.records[i].active == b.arena.records[i].active
        }
}

/// A search does not depend on the case of any ASCII letter, in the pattern
/// or in a text: the results are the same, scores included.
pub proof fn lemma_search_ignores_case(a: EngineState, b: EngineState)
    requires
        a.valid(),
        b.valid(),
        same_up_to_case(a, b),
    ensures
        a.search().results == b.search().results,
{
    let n = a.arena.records.len();
    lemma_bloom_ignores_case(a.pattern, b.pattern);
    assert forall|i: int| 0 <= i < n implies a.candidate(i) == b.candidate(i) by {
        let ra = a.arena.records[i];
        let rb = b.arena.records[i];
        assert(ra.id == rb.id);
        assert(ra.text_end() <= a.arena.pool.len());
        let ta = a.arena.text(i);
        let tb = b.arena.text(i);
        assert(same_folded(ta, tb)) by {
            assert forall|x: int| 0 <= x < ta.len() implies folded_eq(#[trigger] ta[x], tb[x]) by {
                assert(folded_eq(a.arena.pool[ra.text_start + x], b.arena.pool[ra.text_start + x]));
            }
        }
        lemma_bloom_ignores_case(ta, tb);
        lemma_first_match_from_ignores_case(
            a.pattern,
            ta,
            b.pattern,
            tb,
            clamp_errors(a.config.max_errors),
            1,
        );
    }
    lemma_results_upto_agree(a, b, n);
}

/// The result that a record with the text `text` gets from a search for
/// `text`.
pub open spec fn exact_result(id: u32, text: Seq<u8>) -> ScoredResult {
    ScoredResult { id, score: MAX_SCORE, start: 0, end: text.len() as u32 }
}

/// A record is found by its own text: after a text of at most
/// `MAX_PATTERN_LEN` bytes was added and then searched for, some result has
/// the record's identifier, the highest score, and the whole text as its
/// occurrence. This needs a threshold that a score can reach, a buffer that
/// may hold a result, and room in it: the buffer of the same search without
/// the new record is not full of results with the highest score. The
/// returned number is the slot of the result.
pub proof fn lemma_exact_match_is_found(s: EngineState, id: u32, text: Seq<u8>) -> (slot: int)
    requires
        s.valid(),
        1 <= text.len() <= MAX_PATTERN_LEN,
        s.stage(text).add_status() == STATUS_ADDED,
        s.config.threshold <= MAX_SCORE,
        s.config.max_results >= 1,
        s.stage(text).prepare_pattern().search().results.len() < s.config.max_results || s.stage(
            text,
        ).prepare_pattern().search().results.last().score < MAX_SCORE,
    ensures
        s.stage(text).add_record(id).stage(text).prepare_pattern().search().results.len() >= 1,
        0 <= slot < s.stage(text).add_record(id).stage(
            text,
        ).prepare_pattern().search().results.len(),
        s.stage(text).add_record(id).stage(text).prepare_pattern().search().results[slot]
            == exact_result(id, text),
{
    let n = s.arena.records.len();
    lemma_stage(s, text);
    let a = s.stage(text);
    let b = a.add_record(id);
    lemma_add_record_valid(a, id);
    lemma_stage(b, text);
    let d = b.stage(text).prepare_pattern();
    let e = s.stage(text).prepare_pattern();
    let cap = s.config.max_results as nat;
    assert(d.pattern == text);
    assert(e.pattern == text);
    assert(d.arena.records.len() == n + 1);
    assert forall|i: int| 0 <= i < n implies d.candidate(i) == e.candidate(i) by {
        assert(d.arena.records[i] == s.arena.records[i]);
        assert(s.arena.records[i].text_end() <= s.arena.pool.len());
        assert(d.arena.text(i) =~= s.arena.text(i));
    }
    lemma_results_upto_agree(d, e, n);
    let before = d.results_upto(n);
    assert(before == e.search().results);
    assert(d.arena.text(n as int) =~= text);
    lemma_bloom_covers_self(bloom_bits(text));
    lemma_match_of_equal_text(text, text, d.config.max_errors);
    let r = exact_result(id, text);
    assert(d.candidate(n as int) == Some(r));
    assert(!turned_away(before, r, cap));
    lemma_offer_holds(before, r, cap);
    insertion_point(kept_entries(before, cap), r.score) as int
}

} // verus!
