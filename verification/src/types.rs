//! Limits, defaults and the plain values that the engine hands out.

use vstd::prelude::*;

verus! {

/// The most records the record table holds, tombstoned ones included.
pub const MAX_RECORDS: usize = 100_000;

/// The most results one search keeps.
pub const MAX_RESULTS: usize = 100;

/// The size of the string pool in bytes.
pub const STRING_POOL_SIZE: usize = 4 * 1024 * 1024;

/// The size of the scratchpad in bytes.
pub const SCRATCHPAD_SIZE: usize = 64 * 1024;

/// The longest pattern that is searched for; longer ones are cut to this length.
pub const MAX_PATTERN_LEN: usize = 32;

/// The highest error budget of a search.
pub const MAX_ERRORS: u32 = 3;

/// The highest score.
pub const MAX_SCORE: u16 = 1000;

/// The threshold of a freshly initialised engine.
pub const DEFAULT_THRESHOLD: u16 = 250;

/// The error budget of a freshly initialised engine.
pub const DEFAULT_MAX_ERRORS: u32 = 2;

/// The result limit of a freshly initialised engine.
pub const DEFAULT_MAX_RESULTS: usize = 50;

/// Where the matcher found the pattern in a text.
#[derive(Clone, Copy, Debug, PartialEq, Eq, Structural)]
pub struct SearchMatch {
    /// The number of errors of the occurrence.
    pub errors: u32,
    /// The offset just behind the occurrence's last byte.
    pub end_pos: usize,
}

/// One entry of the result buffer.
#[derive(Clone, Copy, Debug, PartialEq, Eq, Structural)]
pub struct ScoredResult {
    /// The identifier of the record.
    pub id: u32,
    /// The score of the occurrence, at most `MAX_SCORE`.
    pub score: u16,
    /// The offset of the occurrence's first byte in the record's text.
    pub start: u32,
    /// The offset just behind the occurrence's last byte.
    pub end: u32,
}

impl ScoredResult {
    /// Puts the four values together.
    pub fn new(id: u32, score: u16, start: u32, end: u32) -> (result: Self)
        ensures
            result == (ScoredResult { id, score, start, end }),
    {
        ScoredResult { id, score, start, end }
    }
}

/// What a search is run with.
#[derive(Clone, Copy, Debug, PartialEq, Eq, Structural)]
pub struct SearchConfig {
    /// The error budget, at most `MAX_ERRORS`.
    pub max_errors: u32,
    /// The lowest score that is reported.
    pub threshold: u16,
    /// The most results that are kept, at most `MAX_RESULTS`.
    pub max_results: usize,
}

impl SearchConfig {
    /// The configuration of a freshly initialised engine.
    pub open spec fn initial() -> Self {
        SearchConfig {
            max_errors: DEFAULT_MAX_ERRORS,
            threshold: DEFAULT_THRESHOLD,
            max_results: DEFAULT_MAX_RESULTS,
        }
    }

    /// Both limits are within their bounds.
    pub open spec fn valid(self) -> bool {
        self.max_errors <= MAX_ERRORS && self.max_results <= MAX_RESULTS
    }
}

impl Default for SearchConfig {
    fn default() -> (config: Self)
        ensures
            config == SearchConfig::initial(),
    {
        SearchConfig {
            max_errors: DEFAULT_MAX_ERRORS,
            threshold: DEFAULT_THRESHOLD,
            max_results: DEFAULT_MAX_RESULTS,
        }
    }
}

} // verus!
