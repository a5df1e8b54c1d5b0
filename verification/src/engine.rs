//! The engine: records in, ranked results out.
//!
//! A host stages bytes in the scratchpad and then commits them, either as the
//! text of a new record or as the pattern of the searches to come. A search
//! looks at the records in the order in which they were added and keeps the
//! best results, which are then read by position.

use vstd::prelude::*;
use vstd::slice::slice_subrange;
use crate::arena::{Record, RecordArena, STATUS_ADDED};
use crate::bitap::{compute_score, masks_of, BitapSearcher};
use crate::bloom::{bloom_bits, BloomFilter};
use crate::matching::{clamp_errors, lemma_first_match_from_some};
use crate::model::{
    lemma_add_record_valid, lemma_configure_valid, lemma_remove_record_valid,
    lemma_results_upto, EngineState,
};
use crate::results::insert_result;
use crate::types::{
    ScoredResult, SearchConfig, MAX_ERRORS, MAX_RESULTS, SCRATCHPAD_SIZE, STRING_POOL_SIZE,
};

verus! {

/// A fuzzy search index with its scratchpad, pattern and results.
pub struct Engine {
    arena: RecordArena,
    searcher: BitapSearcher,
    config: SearchConfig,
    results: Vec<ScoredResult>,
    scratchpad: Vec<u8>,
    scratchpad_len: usize,
}

impl View for Engine {
    type V = EngineState;

    closed spec fn view(&self) -> EngineState {
        EngineState {
            arena: self.arena@,
            pattern: self.searcher.pattern(),
            config: self.config,
            results: self.results@,
            scratch: self.scratchpad@,
            staged_len: self.scratchpad_len as nat,
        }
    }
}

impl Engine {
    /// The mask that the engine keeps for each byte value.
    pub closed spec fn char_masks(&self) -> Seq<u32> {
        self.searcher.masks()
    }

    /// The summary that the engine keeps of its pattern.
    pub closed spec fn pattern_bloom(&self) -> u64 {
        self.searcher.bloom_spec().0
    }

    /// The engine's state is valid, and its masks and its summary belong to
    /// its pattern.
    pub open spec fn wf(&self) -> bool {
        &&& self@.valid()
        &&& masks_of(self.char_masks(), self@.pattern)
        &&& self.pattern_bloom() == bloom_bits(self@.pattern)
    }

    /// A fresh engine: no records, no pattern, no results, nothing staged, the
    /// default configuration, and a scratchpad of zeros.
    pub fn new() -> (engine: Self)
        ensures
            engine.wf(),
            engine@ == EngineState::fresh(),
    {
        let scratchpad: Vec<u8> = vec![0u8; SCRATCHPAD_SIZE];
        let empty: Vec<u8> = Vec::new();
        let searcher = BitapSearcher::new(empty.as_slice());
        let engine = Engine {
            arena: RecordArena::new(),
            searcher,
            config: SearchConfig::default(),
            results: Vec::with_capacity(MAX_RESULTS + 1),
            scratchpad,
            scratchpad_len: 0,
        };
        proof {
            assert(engine@.pattern =~= Seq::<u8>::empty());
            assert(engine@.results =~= Seq::<ScoredResult>::empty());
            assert(engine@.scratch =~= EngineState::fresh().scratch);
        }
        engine
    }

    /// Puts the engine back into its first state: no records, no pattern, no
    /// results, nothing staged, the default configuration.
    pub fn init(&mut self)
        requires
            old(self).wf(),
        ensures
            final(self).wf(),
            final(self)@ == old(self)@.init(),
    {
        let empty: Vec<u8> = Vec::new();
        self.arena.reset();
        self.searcher = BitapSearcher::new(empty.as_slice());
        self.results.clear();
        self.scratchpad_len = 0;
        self.config = SearchConfig::default();
        proof {
            assert(self@.pattern =~= Seq::<u8>::empty());
            assert(self@.results =~= Seq::<ScoredResult>::empty());
        }
    }

    /// Drops records, pool, results and pattern; keeps the configuration and
    /// the scratchpad.
    pub fn reset(&mut self)
        requires
            old(self).wf(),
        ensures
            final(self).wf(),
            final(self)@ == old(self)@.reset(),
    {
        let empty: Vec<u8> = Vec::new();
        self.arena.reset();
        self.searcher = BitapSearcher::new(empty.as_slice());
        self.results.clear();
        proof {
            assert(self@.pattern =~= Seq::<u8>::empty());
            assert(self@.results =~= Seq::<ScoredResult>::empty());
        }
    }

    /// Sets the error budget of the searches to come, at most `MAX_ERRORS`.
    pub fn set_max_errors(&mut self, errors: u32)
        requires
            old(self).wf(),
        ensures
            final(self).wf(),
            final(self)@ == old(self)@.set_max_errors(errors),
    {
        self.config.max_errors = if errors > MAX_ERRORS {
            MAX_ERRORS
        } else {
            errors
        };
    }

    /// Sets the lowest score that is reported. Only the low 16 bits of
    /// `threshold` are kept.
    pub fn set_threshold(&mut self, threshold: u32)
        requires
            old(self).wf(),
        ensures
            final(self).wf(),
            final(self)@ == old(self)@.set_threshold(threshold),
    {
        let low: u32 = threshold & 0xffff;
        assert(low == threshold % 0x1_0000 && low < 0x1_0000) by (bit_vector)
            requires
                low == threshold & 0xffff,
        ;
        self.config.threshold = low as u16;
    }

    /// Sets the most results that a search keeps, at most `MAX_RESULTS`.
    /// Results beyond the new limit are dropped.
    pub fn set_max_results(&mut self, max: u32)
        requires
            old(self).wf(),
        ensures
            final(self).wf(),
            final(self)@ == old(self)@.set_max_results(max),
    {
        let limit: usize = if max as usize > MAX_RESULTS {
            MAX_RESULTS
        } else {
            max as usize
        };
        self.config.max_results = limit;
        self.results.truncate(limit);
        proof {
            lemma_configure_valid(old(self)@, max);
            assert(self@.results =~= old(self)@.set_max_results(max).results);
        }
    }

    /// The number of slots of the record table that are in use, removed
    /// records included.
    pub fn get_record_count(&self) -> (count: u32)
        requires
            self.wf(),
        ensures
            count == self@.arena.records.len(),
    {
        self.arena.record_count() as u32
    }

    /// The number of pool bytes that are in use.
    pub fn get_string_pool_used(&self) -> (used: u32)
        requires
            self.wf(),
        ensures
            used == self@.arena.pool.len(),
    {
        self.arena.pool_used() as u32
    }

    /// The number of pool bytes that are free.
    pub fn get_available_memory(&self) -> (free: u32)
        requires
            self.wf(),
        ensures
            free == STRING_POOL_SIZE - self@.arena.pool.len(),
    {
        (STRING_POOL_SIZE - self.arena.pool_used()) as u32
    }

    /// Hands out the scratchpad for writing, where `size` bytes fit into it;
    /// `None`, and no change, where they do not. What is written to the
    /// scratchpad is what the engine holds afterwards.
    pub fn get_write_buffer(&mut self, size: u32) -> (buffer: Option<&mut [u8]>)
        requires
            old(self).wf(),
        ensures
            size > SCRATCHPAD_SIZE ==> buffer is None,
            size > SCRATCHPAD_SIZE ==> final(self).wf(),
            size > SCRATCHPAD_SIZE ==> final(self)@ == old(self)@,
            size <= SCRATCHPAD_SIZE ==> buffer is Some,
            size <= SCRATCHPAD_SIZE ==> buffer.unwrap()@ == old(self)@.scratch,
            size <= SCRATCHPAD_SIZE ==> final(self)@ == old(self)@.write(final(buffer.unwrap())@),
            size <= SCRATCHPAD_SIZE && final(buffer.unwrap())@.len() == SCRATCHPAD_SIZE
                ==> final(self).wf(),
    {
        if size as usize > SCRATCHPAD_SIZE {
            None
        } else {
            Some(self.scratchpad.as_mut_slice())
        }
    }

    /// Stages the first `len` bytes of the scratchpad, or all of them where
    /// `len` is more than the scratchpad holds.
    pub fn commit_write(&mut self, len: u32)
        requires
            old(self).wf(),
        ensures
            final(self).wf(),
            final(self)@ == old(self)@.commit_write(len),
    {
        self.scratchpad_len = if len as usize > SCRATCHPAD_SIZE {
            SCRATCHPAD_SIZE
        } else {
            len as usize
        };
    }

    /// Adds the staged bytes as the text of a new record with the identifier
    /// `id`. Returns 1 and unstages the bytes on success. Returns -1 where the
    /// record table is full, else -2 where nothing is staged, else -3 where
    /// the pool lacks room; nothing changes then.
    pub fn add_record(&mut self, id: u32) -> (status: i32)
        requires
            old(self).wf(),
        ensures
            final(self).wf(),
            status == old(self)@.add_status(),
            final(self)@ == old(self)@.add_record(id),
    {
        let staged = slice_subrange(self.scratchpad.as_slice(), 0, self.scratchpad_len);
        proof {
            assert(staged@ =~= old(self)@.staged());
            lemma_add_record_valid(old(self)@, id);
        }
        let status = self.arena.add_record(id, staged);
        if status == STATUS_ADDED {
            self.scratchpad_len = 0;
        }
        status
    }

    /// Removes the first record that is active and has the identifier `id`.
    /// Returns 1 where there was one and 0 where not.
    pub fn remove_record(&mut self, id: u32) -> (status: i32)
        requires
            old(self).wf(),
        ensures
            final(self).wf(),
            status == if old(self)@.arena.has_live(id) {
                1i32
            } else {
                0i32
            },
            final(self)@ == old(self)@.remove_record(id),
    {
        proof {
            lemma_remove_record_valid(old(self)@, id);
        }
        self.arena.remove_record(id)
    }

    /// Makes the staged bytes, cut to `MAX_PATTERN_LEN`, the pattern of the
    /// searches to come, and unstages them.
    pub fn prepare_pattern(&mut self)
        requires
            old(self).wf(),
        ensures
            final(self).wf(),
            final(self)@ == old(self)@.prepare_pattern(),
    {
        let staged = slice_subrange(self.scratchpad.as_slice(), 0, self.scratchpad_len);
        proof {
            assert(staged@ =~= old(self)@.staged());
        }
        self.searcher = BitapSearcher::new(staged);
        self.scratchpad_len = 0;
    }

    /// What record `i` contributes to a search.
    fn candidate(&self, i: usize) -> (found: Option<ScoredResult>)
        requires
            self.wf(),
            i < self@.arena.records.len(),
        ensures
            found == self@.candidate(i as int),
    {
        let record: Record = self.arena.record(i);
        if !record.active {
            return None;
        }
        let text_bloom = BloomFilter(record.bloom);
        if !text_bloom.might_contain(self.searcher.bloom()) {
            return None;
        }
        let text = self.arena.text(i);
        match self.searcher.search(text, self.config.max_errors) {
            None => None,
            Some(m) => {
                proof {
                    lemma_first_match_from_some(
                        self@.pattern,
                        text@,
                        clamp_errors(self.config.max_errors),
                        1,
                        m,
                    );
                }
                let pattern_len: usize = self.searcher.pattern_len();
                let score: u16 = compute_score(m.errors, pattern_len as u32, m.end_pos);
                if score < self.config.threshold {
                    None
                } else {
                    let start: usize = if m.end_pos >= pattern_len {
                        m.end_pos - pattern_len
                    } else {
                        0
                    };
                    Some(
                        ScoredResult {
                            id: record.id,
                            score,
                            start: start as u32,
                            end: m.end_pos as u32,
                        },
                    )
                }
            },
        }
    }

    /// Searches the records for the pattern and fills the result buffer.
    /// Returns the number of results. Without a pattern there are none.
    pub fn search(&mut self) -> (count: u32)
        requires
            old(self).wf(),
        ensures
            final(self).wf(),
            final(self)@ == old(self)@.search(),
            count == final(self)@.results.len(),
    {
        self.results.clear();
        let ghost s0 = old(self)@;
        if self.searcher.pattern_len() == 0 {
            proof {
                assert(self@.results =~= s0.search_results());
            }
            return 0;
        }
        let n: usize = self.arena.record_count();
        let mut i: usize = 0;
        proof {
            assert(self@.results =~= s0.results_upto(0));
        }
        while i < n
            invariant
                i <= n,
                n == s0.arena.records.len(),
                s0 == old(self)@,
                s0.valid(),
                s0.pattern.len() > 0,
                self.searcher.wf(),
                self@ == (EngineState { results: s0.results_upto(i as nat), ..s0 }),
            decreases n - i,
        {
            proof {
                lemma_results_upto(s0, i as nat);
                lemma_results_upto(s0, i as nat + 1);
            }
            let found = self.candidate(i);
            assert(found == s0.candidate(i as int));
            match found {
                Some(r) => {
                    insert_result(&mut self.results, r, self.config.max_results);
                },
                None => {},
            }
            i = i + 1;
        }
        proof {
            lemma_results_upto(s0, n as nat);
        }
        self.results.len() as u32
    }

    /// The identifier of the result at `index`; 0 where there is none.
    pub fn get_result_id(&self, index: u32) -> (id: u32)
        ensures
            id == match self@.result_at(index) {
                Some(r) => r.id,
                None => 0,
            },
    {
        if (index as usize) < self.results.len() {
            self.results[index as usize].id
        } else {
            0
        }
    }

    /// The score of the result at `index`; 0 where there is none.
    pub fn get_result_score(&self, index: u32) -> (score: u32)
        ensures
            score == match self@.result_at(index) {
                Some(r) => r.score as u32,
                None => 0,
            },
    {
        if (index as usize) < self.results.len() {
            self.results[index as usize].score as u32
        } else {
            0
        }
    }

    /// The start offset of the result at `index`; 0 where there is none.
    pub fn get_result_start(&self, index: u32) -> (start: u32)
        ensures
            start == match self@.result_at(index) {
                Some(r) => r.start,
                None => 0,
            },
    {
        if (index as usize) < self.results.len() {
            self.results[index as usize].start
        } else {
            0
        }
    }

    /// The end offset of the result at `index`; 0 where there is none.
    pub fn get_result_end(&self, index: u32) -> (end: u32)
        ensures
            end == match self@.result_at(index) {
                Some(r) => r.end,
                None => 0,
            },
    {
        if (index as usize) < self.results.len() {
            self.results[index as usize].end
        } else {
            0
        }
    }

    /// Does nothing and returns the number of slots in use: removed records
    /// keep their slots.
    pub fn compact(&self) -> (count: u32)
        requires
            self.wf(),
        ensures
            count == self@.arena.records.len(),
    {
        self.arena.record_count() as u32
    }
}

} // verus!
