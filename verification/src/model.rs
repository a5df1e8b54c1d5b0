//! The engine as a state and the steps that change it.
//!
//! Every operation of the engine is stated here as a function from one state
//! to the next, over sequences and numbers. The executable engine is held to
//! these functions, and what holds of every engine is proved of them.

use vstd::prelude::*;
use crate::arena::{
    lemma_add_valid, lemma_remove_valid, ArenaState, STATUS_ADDED,
};
use crate::bitap::{score_of, truncated};
use crate::bloom::{bloom_bits, bloom_covers};
use crate::matching::first_match;
use crate::results::{lemma_offer_len, lemma_offer_sorted, offer, sorted_desc};
use crate::types::{
    ScoredResult, SearchConfig, MAX_ERRORS, MAX_PATTERN_LEN, MAX_RESULTS, SCRATCHPAD_SIZE,
};

verus! {

/// Everything an engine holds.
pub struct EngineState {
    /// The records and the pool.
    pub arena: ArenaState,
    /// The pattern that was prepared last, cut to `MAX_PATTERN_LEN` bytes.
    pub pattern: Seq<u8>,
    /// The configuration.
    pub config: SearchConfig,
    /// The results of the last search, best first.
    pub results: Seq<ScoredResult>,
    /// The bytes of the scratchpad.
    pub scratch: Seq<u8>,
    /// How many bytes of the scratchpad are staged for the next operation.
    pub staged_len: nat,
}

/// Where an occurrence that ends at `end_pos` is taken to start.
pub open spec fn match_start(end_pos: nat, pattern_len: nat) -> nat {
    if end_pos >= pattern_len {
        (end_pos - pattern_len) as nat
    } else {
        0
    }
}

/// An error budget within its bounds.
pub open spec fn clamp_max_errors(errors: u32) -> u32 {
    if errors > MAX_ERRORS {
        MAX_ERRORS
    } else {
        errors
    }
}

/// A result limit within its bounds.
pub open spec fn clamp_max_results(max: u32) -> usize {
    if max > MAX_RESULTS {
        MAX_RESULTS
    } else {
        max as usize
    }
}

/// A length within the scratchpad.
pub open spec fn clamp_staged(len: u32) -> nat {
    if len > SCRATCHPAD_SIZE {
        SCRATCHPAD_SIZE as nat
    } else {
        len as nat
    }
}

/// The low 16 bits of a threshold.
pub open spec fn stored_threshold(threshold: u32) -> u16 {
    (threshold % 0x1_0000) as u16
}

impl EngineState {
    /// The table, the pool, the pattern, the configuration and the staged
    /// length are within their limits; the results are no more than the
    /// configuration allows and their scores never rise.
    pub open spec fn valid(self) -> bool {
        &&& self.arena.valid()
        &&& self.pattern.len() <= MAX_PATTERN_LEN
        &&& self.config.valid()
        &&& self.results.len() <= self.config.max_results
        &&& sorted_desc(self.results)
        &&& self.scratch.len() == SCRATCHPAD_SIZE
        &&& self.staged_len <= SCRATCHPAD_SIZE
    }

    /// The state of a fresh engine: nothing is held, the configuration is the
    /// default one, and the scratchpad holds zeros.
    pub open spec fn fresh() -> Self {
        EngineState {
            arena: ArenaState::empty(),
            pattern: Seq::empty(),
            config: SearchConfig::initial(),
            results: Seq::empty(),
            scratch: Seq::new(SCRATCHPAD_SIZE as nat, |i: int| 0u8),
            staged_len: 0,
        }
    }

    /// The bytes that are staged for the next operation.
    pub open spec fn staged(self) -> Seq<u8> {
        self.scratch.take(self.staged_len as int)
    }

    /// The state after `init`: nothing is held and the configuration is the
    /// default one. The bytes of the scratchpad stay; none is staged.
    pub open spec fn init(self) -> Self {
        EngineState {
            arena: ArenaState::empty(),
            pattern: Seq::empty(),
            config: SearchConfig::initial(),
            results: Seq::empty(),
            scratch: self.scratch,
            staged_len: 0,
        }
    }

    /// The state after `reset`: records, pool, results and pattern are gone;
    /// the configuration and the scratchpad stay.
    pub open spec fn reset(self) -> Self {
        EngineState {
            arena: ArenaState::empty(),
            pattern: Seq::empty(),
            results: Seq::empty(),
            ..self
        }
    }

    /// The state after `set_max_errors`.
    pub open spec fn set_max_errors(self, errors: u32) -> Self {
        EngineState {
            config: SearchConfig { max_errors: clamp_max_errors(errors), ..self.config },
            ..self
        }
    }

    /// The state after `set_threshold`.
    pub open spec fn set_threshold(self, threshold: u32) -> Self {
        EngineState {
            config: SearchConfig { threshold: stored_threshold(threshold), ..self.config },
            ..self
        }
    }

    /// The state after `set_max_results`: results beyond the new limit are
    /// dropped.
    pub open spec fn set_max_results(self, max: u32) -> Self {
        let limit = clamp_max_results(max);
        EngineState {
            config: SearchConfig { max_results: limit, ..self.config },
            results: if self.results.len() > limit {
                self.results.take(limit as int)
            } else {
                self.results
            },
            ..self
        }
    }

    /// The state after the scratchpad was written: its bytes are `bytes`.
    pub open spec fn write(self, bytes: Seq<u8>) -> Self {
        EngineState { scratch: bytes, ..self }
    }

    /// The state after a host wrote `bytes` to the front of the scratchpad and
    /// committed their length: a write followed by `commit_write`.
    pub open spec fn stage(self, bytes: Seq<u8>) -> Self {
        EngineState {
            scratch: bytes + self.scratch.skip(bytes.len() as int),
            staged_len: bytes.len(),
            ..self
        }
    }

    /// The state after `commit_write`.
    pub open spec fn commit_write(self, len: u32) -> Self {
        EngineState { staged_len: clamp_staged(len), ..self }
    }

    /// What `add_record` returns.
    pub open spec fn add_status(self) -> i32 {
        self.arena.add_status(self.staged())
    }

    /// The state after `add_record`: on success the staged bytes are the text
    /// of a new record and nothing is staged any more; on failure nothing
    /// changes.
    pub open spec fn add_record(self, id: u32) -> Self {
        if self.add_status() == STATUS_ADDED {
            EngineState { arena: self.arena.add(id, self.staged()), staged_len: 0, ..self }
        } else {
            self
        }
    }

    /// The state after `remove_record`.
    pub open spec fn remove_record(self, id: u32) -> Self {
        EngineState { arena: self.arena.remove(id), ..self }
    }

    /// The state after `prepare_pattern`: the staged bytes, cut to
    /// `MAX_PATTERN_LEN`, are the pattern, and nothing is staged any more.
    pub open spec fn prepare_pattern(self) -> Self {
        EngineState { pattern: truncated(self.staged()), staged_len: 0, ..self }
    }

    /// What record `i` contributes to a search: nothing where it was removed,
    /// where its summary does not cover the pattern's, where the pattern does
    /// not occur in its text within the error budget, or where the occurrence
    /// scores below the threshold; else the scored occurrence.
    pub open spec fn candidate(self, i: int) -> Option<ScoredResult> {
        let record = self.arena.records[i];
        if !record.active || !bloom_covers(record.bloom, bloom_bits(self.pattern)) {
            None
        } else {
            match first_match(self.pattern, self.arena.text(i), self.config.max_errors) {
                None => None,
                Some(m) => {
                    let score = score_of(m.errors as nat, self.pattern.len(), m.end_pos as nat);
                    if score < self.config.threshold {
                        None
                    } else {
                        Some(
                            ScoredResult {
                                id: record.id,
                                score: score as u16,
                                start: match_start(m.end_pos as nat, self.pattern.len()) as u32,
                                end: m.end_pos as u32,
                            },
                        )
                    }
                },
            }
        }
    }

    /// The result buffer after the first `n` records were looked at, in the
    /// order in which they were added.
    pub open spec fn results_upto(self, n: nat) -> Seq<ScoredResult>
        decreases n,
    {
        if n == 0 {
            Seq::empty()
        } else {
            let before = self.results_upto((n - 1) as nat);
            match self.candidate(n - 1) {
                None => before,
                Some(r) => offer(before, r, self.config.max_results as nat),
            }
        }
    }

    /// The results of a search: none for an empty pattern, else what the
    /// records contribute, offered to the buffer one after the other.
    pub open spec fn search_results(self) -> Seq<ScoredResult> {
        if self.pattern.len() == 0 {
            Seq::empty()
        } else {
            self.results_upto(self.arena.records.len())
        }
    }

    /// The state after `search`.
    pub open spec fn search(self) -> Self {
        EngineState { results: self.search_results(), ..self }
    }

    /// The result at `index`, if there is one.
    pub open spec fn result_at(self, index: u32) -> Option<ScoredResult> {
        if index < self.results.len() {
            Some(self.results[index as int])
        } else {
            None
        }
    }
}

/// One operation that changes an engine.
pub enum Step {
    /// `init`.
    Init,
    /// `reset`.
    Reset,
    /// `set_max_errors` with its argument.
    SetMaxErrors(u32),
    /// `set_threshold` with its argument.
    SetThreshold(u32),
    /// `set_max_results` with its argument.
    SetMaxResults(u32),
    /// A write to the scratchpad, with the bytes that it holds afterwards.
    Write(Seq<u8>),
    /// `commit_write` with its argument.
    CommitWrite(u32),
    /// `add_record` with its argument.
    AddRecord(u32),
    /// `remove_record` with its argument.
    RemoveRecord(u32),
    /// `prepare_pattern`.
    PreparePattern,
    /// `search`.
    Search,
}

impl Step {
    /// A write leaves the scratchpad as long as it is.
    pub open spec fn admissible(self) -> bool {
        self matches Step::Write(bytes) ==> bytes.len() == SCRATCHPAD_SIZE
    }
}

impl EngineState {
    /// The state after one operation.
    pub open spec fn step(self, step: Step) -> Self {
        match step {
            Step::Init => self.init(),
            Step::Reset => self.reset(),
            Step::SetMaxErrors(errors) => self.set_max_errors(errors),
            Step::SetThreshold(threshold) => self.set_threshold(threshold),
            Step::SetMaxResults(max) => self.set_max_results(max),
            Step::Write(bytes) => self.write(bytes),
            Step::CommitWrite(len) => self.commit_write(len),
            Step::AddRecord(id) => self.add_record(id),
            Step::RemoveRecord(id) => self.remove_record(id),
            Step::PreparePattern => self.prepare_pattern(),
            Step::Search => self.search(),
        }
    }

    /// The state after a sequence of operations, the first of them first.
    pub open spec fn run(self, steps: Seq<Step>) -> Self
        decreases steps.len(),
    {
        if steps.len() == 0 {
            self
        } else {
            self.run(steps.drop_last()).step(steps.last())
        }
    }
}

/// The buffer of a search is ordered and within the limit at every step.
pub proof fn lemma_results_upto(s: EngineState, n: nat)
    ensures
        sorted_desc(s.results_upto(n)),
        s.results_upto(n).len() <= s.config.max_results,
        s.results_upto(n).len() <= n,
    decreases n,
{
    if n > 0 {
        lemma_results_upto(s, (n - 1) as nat);
        let before = s.results_upto((n - 1) as nat);
        match s.candidate(n - 1) {
            None => {},
            Some(r) => {
                lemma_offer_sorted(before, r, s.config.max_results as nat);
                lemma_offer_len(before, r, s.config.max_results as nat);
            },
        }
    }
}

/// `init` leads to a valid state.
pub proof fn lemma_init_valid(s: EngineState)
    requires
        s.scratch.len() == SCRATCHPAD_SIZE,
    ensures
        s.init().valid(),
{
}

/// `reset` keeps a state valid.
pub proof fn lemma_reset_valid(s: EngineState)
    requires
        s.valid(),
    ensures
        s.reset().valid(),
{
}

/// The three setters keep a state valid.
pub proof fn lemma_configure_valid(s: EngineState, value: u32)
    requires
        s.valid(),
    ensures
        s.set_max_errors(value).valid(),
        s.set_threshold(value).valid(),
        s.set_max_results(value).valid(),
{
    let t = s.set_max_results(value);
    assert forall|i: int, j: int| 0 <= i <= j < t.results.len() implies t.results[i].score
        >= t.results[j].score by {
        assert(t.results[i] == s.results[i] && t.results[j] == s.results[j]);
    }
}

/// Writing the scratchpad and staging bytes keep a state valid.
pub proof fn lemma_stage_valid(s: EngineState, bytes: Seq<u8>, len: u32)
    requires
        s.valid(),
        bytes.len() == SCRATCHPAD_SIZE,
    ensures
        s.write(bytes).valid(),
        s.commit_write(len).valid(),
{
}

/// Staging bytes that fit into the scratchpad is a write and a
/// `commit_write`; it keeps a state valid and stages just these bytes.
pub proof fn lemma_stage(s: EngineState, bytes: Seq<u8>)
    requires
        s.valid(),
        bytes.len() <= SCRATCHPAD_SIZE,
    ensures
        s.stage(bytes) == s.write(bytes + s.scratch.skip(bytes.len() as int)).commit_write(
            bytes.len() as u32,
        ),
        s.stage(bytes).valid(),
        s.stage(bytes).staged() == bytes,
{
    assert(s.stage(bytes).staged() =~= bytes);
}

/// `add_record` keeps a state valid.
pub proof fn lemma_add_record_valid(s: EngineState, id: u32)
    requires
        s.valid(),
    ensures
        s.add_record(id).valid(),
{
    lemma_add_valid(s.arena, id, s.staged());
}

/// `remove_record` keeps a state valid.
pub proof fn lemma_remove_record_valid(s: EngineState, id: u32)
    requires
        s.valid(),
    ensures
        s.remove_record(id).valid(),
{
    lemma_remove_valid(s.arena, id);
}

/// `prepare_pattern` keeps a state valid.
pub proof fn lemma_prepare_pattern_valid(s: EngineState)
    requires
        s.valid(),
    ensures
        s.prepare_pattern().valid(),
{
}

/// `search` keeps a state valid.
pub proof fn lemma_search_valid(s: EngineState)
    requires
        s.valid(),
    ensures
        s.search().valid(),
{
    lemma_results_upto(s, s.arena.records.len());
}

} // verus!
