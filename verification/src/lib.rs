//! An in-memory fuzzy search index over short byte strings.
//!
//! The index holds a bounded number of text records under caller-chosen
//! identifiers. A search for a pattern reports the records in whose text the
//! pattern occurs with a few errors, the best first, and only so many of them
//! as the configuration allows. All sizes are fixed: see `types`.
//!
//! - `bloom`: ASCII case folding and the 64-bit summary that filters records
//!   before they are searched.
//! - `matching`: what it means for a pattern to occur in a text with errors.
//! - `bitap`: the bit-parallel matcher, proved against `matching`, and the
//!   score of an occurrence.
//! - `results`: the ordered buffer of the best results.
//! - `arena`: the record table and the string pool.
//! - `model`: the engine as a state and its operations as functions on it.
//! - `engine`: the executable engine, proved against `model`.
//! - `laws`: what holds of every engine.

pub mod arena;
pub mod bitap;
pub mod bloom;
pub mod engine;
pub mod laws;
pub mod matching;
pub mod model;
pub mod results;
pub mod types;
