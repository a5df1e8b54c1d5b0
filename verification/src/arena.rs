//! The record table and the string pool behind it.
//!
//! Texts are appended to one pool of bytes and never moved. A record names its
//! text by offset and length, carries the text's summary, and is removed by
//! clearing its `active` flag: its slot and its bytes stay until `reset`.

use vstd::prelude::*;
use vstd::slice::slice_subrange;
use crate::bloom::{bloom_bits, BloomFilter};
use crate::types::{MAX_RECORDS, SCRATCHPAD_SIZE, STRING_POOL_SIZE};

verus! {

/// The record was added.
pub const STATUS_ADDED: i32 = 1;

/// The record table is full.
pub const STATUS_CAPACITY_EXCEEDED: i32 = -1;

/// No bytes were given.
pub const STATUS_EMPTY_INPUT: i32 = -2;

/// The string pool has no room for the bytes.
pub const STATUS_POOL_EXHAUSTED: i32 = -3;

/// The header of one record.
#[derive(Clone, Copy, Debug, PartialEq, Eq, Structural)]
pub struct Record {
    /// The identifier that the caller chose; several records may share one.
    pub id: u32,
    /// The offset of the text in the pool.
    pub text_start: u32,
    /// The length of the text, at least 1 and at most `SCRATCHPAD_SIZE`.
    pub text_len: u32,
    /// The summary of the text.
    pub bloom: u64,
    /// Cleared when the record is removed.
    pub active: bool,
}

impl Record {
    /// The offset just behind the text.
    pub open spec fn text_end(self) -> int {
        self.text_start + self.text_len
    }
}

/// What an arena holds: its records, oldest first, and its pool.
pub struct ArenaState {
    pub records: Seq<Record>,
    pub pool: Seq<u8>,
}

impl ArenaState {
    /// The arena without records.
    pub open spec fn empty() -> Self {
        ArenaState { records: Seq::empty(), pool: Seq::empty() }
    }

    /// The text of record `i`.
    pub open spec fn text(self, i: int) -> Seq<u8> {
        self.pool.subrange(self.records[i].text_start as int, self.records[i].text_end())
    }

    /// The table and the pool are within their limits; every text lies in the
    /// pool, is not empty and has its summary in its header; the texts follow
    /// one another in the order in which the records were added, without a gap,
    /// and fill the pool.
    pub open spec fn valid(self) -> bool {
        &&& self.records.len() <= MAX_RECORDS
        &&& self.pool.len() <= STRING_POOL_SIZE
        &&& forall|i: int|
            0 <= i < self.records.len() ==> {
                &&& 1 <= (#[trigger] self.records[i]).text_len <= SCRATCHPAD_SIZE
                &&& self.records[i].text_end() <= self.pool.len()
                &&& self.records[i].bloom == bloom_bits(self.text(i))
            }
        &&& forall|i: int, j: int|
            0 <= i < j < self.records.len() ==> (#[trigger] self.records[i]).text_end() <= (
            #[trigger] self.records[j]).text_start
        &&& forall|i: int|
            0 <= i < self.records.len() - 1 ==> (#[trigger] self.records[i]).text_end()
                == self.records[i + 1].text_start
        &&& self.records.len() > 0 ==> self.records[0].text_start == 0
        &&& self.pool.len() == if self.records.len() == 0 {
            0
        } else {
            self.records.last().text_end()
        }
    }

    /// What adding `bytes` returns: the first of the three failures that
    /// applies, or success.
    pub open spec fn add_status(self, bytes: Seq<u8>) -> i32 {
        if self.records.len() >= MAX_RECORDS {
            STATUS_CAPACITY_EXCEEDED
        } else if bytes.len() == 0 {
            STATUS_EMPTY_INPUT
        } else if self.pool.len() + bytes.len() > STRING_POOL_SIZE {
            STATUS_POOL_EXHAUSTED
        } else {
            STATUS_ADDED
        }
    }

    /// The header that a record of `bytes` gets.
    pub open spec fn new_record(self, id: u32, bytes: Seq<u8>) -> Record {
        Record {
            id,
            text_start: self.pool.len() as u32,
            text_len: bytes.len() as u32,
            bloom: bloom_bits(bytes),
            active: true,
        }
    }

    /// The arena after `bytes` were offered under `id`: unchanged on failure,
    /// else with the bytes at the end of the pool and their record at the end
    /// of the table.
    pub open spec fn add(self, id: u32, bytes: Seq<u8>) -> Self {
        if self.add_status(bytes) == STATUS_ADDED {
            ArenaState {
                records: self.records.push(self.new_record(id, bytes)),
                pool: self.pool + bytes,
            }
        } else {
            self
        }
    }

    /// Record `i` is active and has the identifier `id`.
    pub open spec fn is_live(self, i: int, id: u32) -> bool {
        0 <= i < self.records.len() && self.records[i].active && self.records[i].id == id
    }

    /// The index of the first active record among the first `n` that has the
    /// identifier `id`; `n` where there is none.
    pub open spec fn first_live(self, id: u32, n: nat) -> nat
        decreases n,
    {
        if n == 0 {
            0
        } else {
            let before = self.first_live(id, (n - 1) as nat);
            if before < n - 1 {
                before
            } else if self.is_live(n - 1, id) {
                (n - 1) as nat
            } else {
                n
            }
        }
    }

    /// Some active record has the identifier `id`.
    pub open spec fn has_live(self, id: u32) -> bool {
        self.first_live(id, self.records.len()) < self.records.len()
    }

    /// The arena after the removal of `id`: the first active record with that
    /// identifier is no longer active; nothing changes where there is none.
    pub open spec fn remove(self, id: u32) -> Self {
        let i = self.first_live(id, self.records.len()) as int;
        if i < self.records.len() {
            ArenaState {
                records: self.records.update(i, Record { active: false, ..self.records[i] }),
                pool: self.pool,
            }
        } else {
            self
        }
    }
}

/// What `first_live` finds: an active record with the identifier, with none
/// before it, or `n` where the first `n` records hold none.
pub proof fn lemma_first_live(s: ArenaState, id: u32, n: nat)
    requires
        n <= s.records.len(),
    ensures
        s.first_live(id, n) <= n,
        s.first_live(id, n) < n ==> s.is_live(s.first_live(id, n) as int, id),
        forall|i: int| 0 <= i < s.first_live(id, n) ==> !s.is_live(i, id),
    decreases n,
{
    if n > 0 {
        lemma_first_live(s, id, (n - 1) as nat);
    }
}

/// Adding a record keeps an arena valid.
pub proof fn lemma_add_valid(s: ArenaState, id: u32, bytes: Seq<u8>)
    requires
        s.valid(),
        bytes.len() <= SCRATCHPAD_SIZE,
    ensures
        s.add(id, bytes).valid(),
{
    if s.add_status(bytes) == STATUS_ADDED {
        let a = s.add(id, bytes);
        let n = s.records.len() as int;
        assert(a.records[n] == s.new_record(id, bytes));
        assert(a.text(n) == bytes);
        assert forall|i: int| 0 <= i < a.records.len() implies {
            &&& 1 <= (#[trigger] a.records[i]).text_len <= SCRATCHPAD_SIZE
            &&& a.records[i].text_end() <= a.pool.len()
            &&& a.records[i].bloom == bloom_bits(a.text(i))
        } by {
            if i < n {
                assert(a.records[i] == s.records[i]);
                assert(a.text(i) == s.text(i));
            }
        }
        assert forall|i: int, j: int| 0 <= i < j < a.records.len() implies (
        #[trigger] a.records[i]).text_end() <= (#[trigger] a.records[j]).text_start by {
            assert(a.records[i] == s.records[i]);
            if j < n {
                assert(a.records[j] == s.records[j]);
            }
        }
        assert forall|i: int| 0 <= i < a.records.len() - 1 implies (
        #[trigger] a.records[i]).text_end() == a.records[i + 1].text_start by {
            assert(a.records[i] == s.records[i]);
            if i + 1 < n {
                assert(a.records[i + 1] == s.records[i + 1]);
            }
        }
        if n > 0 {
            assert(a.records[0] == s.records[0]);
        }
    }
}

/// Removing a record keeps an arena valid.
pub proof fn lemma_remove_valid(s: ArenaState, id: u32)
    requires
        s.valid(),
    ensures
        s.remove(id).valid(),
{
    lemma_first_live(s, id, s.records.len());
    let r = s.remove(id);
    let k = s.first_live(id, s.records.len()) as int;
    if k < s.records.len() {
        assert forall|i: int| 0 <= i < r.records.len() implies {
            &&& 1 <= (#[trigger] r.records[i]).text_len <= SCRATCHPAD_SIZE
            &&& r.records[i].text_end() <= r.pool.len()
            &&& r.records[i].bloom == bloom_bits(r.text(i))
        } by {
            assert(r.records[i].text_start == s.records[i].text_start);
            assert(r.records[i].text_len == s.records[i].text_len);
            assert(r.text(i) == s.text(i));
        }
        assert forall|i: int, j: int| 0 <= i < j < r.records.len() implies (
        #[trigger] r.records[i]).text_end() <= (#[trigger] r.records[j]).text_start by {
            assert(s.records[i].text_end() <= s.records[j].text_start);
        }
        assert forall|i: int| 0 <= i < r.records.len() - 1 implies (
        #[trigger] r.records[i]).text_end() == r.records[i + 1].text_start by {
            assert(s.records[i].text_end() == s.records[i + 1].text_start);
        }
    }
}

/// The record table and the string pool.
pub struct RecordArena {
    records: Vec<Record>,
    pool: Vec<u8>,
}

impl View for RecordArena {
    type V = ArenaState;

    closed spec fn view(&self) -> ArenaState {
        ArenaState { records: self.records@, pool: self.pool@ }
    }
}

impl RecordArena {
    /// The arena's invariant holds.
    pub open spec fn wf(&self) -> bool {
        self@.valid()
    }

    /// An arena without records, with room for all that it may hold.
    pub fn new() -> (arena: Self)
        ensures
            arena.wf(),
            arena@ == ArenaState::empty(),
    {
        RecordArena {
            records: Vec::with_capacity(MAX_RECORDS),
            pool: Vec::with_capacity(STRING_POOL_SIZE),
        }
    }

    /// The number of slots in use, removed records included.
    pub fn record_count(&self) -> (count: usize)
        ensures
            count == self@.records.len(),
    {
        self.records.len()
    }

    /// The number of pool bytes in use.
    pub fn pool_used(&self) -> (used: usize)
        ensures
            used == self@.pool.len(),
    {
        self.pool.len()
    }

    /// The header of record `i`.
    pub fn record(&self, i: usize) -> (record: Record)
        requires
            i < self@.records.len(),
        ensures
            record == self@.records[i as int],
    {
        self.records[i]
    }

    /// The text of record `i`.
    pub fn text(&self, i: usize) -> (text: &[u8])
        requires
            self.wf(),
            i < self@.records.len(),
        ensures
            text@ == self@.text(i as int),
    {
        let record: Record = self.records[i];
        let start: usize = record.text_start as usize;
        let end: usize = start + record.text_len as usize;
        slice_subrange(self.pool.as_slice(), start, end)
    }

    /// Appends a record with the text `bytes`, which is at most
    /// `SCRATCHPAD_SIZE` bytes long. Fails, and changes nothing, where the
    /// table is full, where `bytes` is empty, or where the pool lacks room,
    /// in this order.
    pub fn add_record(&mut self, id: u32, bytes: &[u8]) -> (status: i32)
        requires
            old(self).wf(),
            bytes@.len() <= SCRATCHPAD_SIZE,
        ensures
            final(self).wf(),
            status == old(self)@.add_status(bytes@),
            final(self)@ == old(self)@.add(id, bytes@),
    {
        if self.records.len() >= MAX_RECORDS {
            return STATUS_CAPACITY_EXCEEDED;
        }
        let len: usize = bytes.len();
        if len == 0 {
            return STATUS_EMPTY_INPUT;
        }
        let start: usize = self.pool.len();
        if len > STRING_POOL_SIZE - start {
            return STATUS_POOL_EXHAUSTED;
        }
        let bloom: BloomFilter = BloomFilter::from_text(bytes);
        let mut i: usize = 0;
        while i < len
            invariant
                i <= len,
                len == bytes@.len(),
                self.records@ == old(self).records@,
                self.pool@ == old(self).pool@ + bytes@.take(i as int),
            decreases len - i,
        {
            self.pool.push(bytes[i]);
            proof {
                assert(bytes@.take(i as int + 1) == bytes@.take(i as int).push(bytes@[i as int]));
            }
            i = i + 1;
        }
        proof {
            assert(bytes@.take(len as int) == bytes@);
        }
        self.records.push(
            Record {
                id,
                text_start: start as u32,
                text_len: len as u32,
                bloom: bloom.bits(),
                active: true,
            },
        );
        proof {
            lemma_add_valid(old(self)@, id, bytes@);
        }
        STATUS_ADDED
    }

    /// Clears the `active` flag of the first active record with the
    /// identifier `id`. Returns 1 where there was one and 0 where not.
    pub fn remove_record(&mut self, id: u32) -> (status: i32)
        requires
            old(self).wf(),
        ensures
            final(self).wf(),
            status == if old(self)@.has_live(id) {
                1i32
            } else {
                0i32
            },
            final(self)@ == old(self)@.remove(id),
    {
        let n: usize = self.records.len();
        let mut i: usize = 0;
        while i < n
            invariant
                i <= n,
                n == self.records@.len(),
                old(self).wf(),
                self.records@ == old(self).records@,
                self.pool@ == old(self).pool@,
                self@.first_live(id, i as nat) == i,
            decreases n - i,
        {
            let record: Record = self.records[i];
            if record.id == id && record.active {
                proof {
                    lemma_first_live_stays(self@, id, i as nat, n as nat);
                    lemma_remove_valid(old(self)@, id);
                }
                self.records.set(i, Record { active: false, ..record });
                return 1;
            }
            i = i + 1;
        }
        0
    }

    /// Drops every record and empties the pool.
    pub fn reset(&mut self)
        ensures
            final(self).wf(),
            final(self)@ == ArenaState::empty(),
    {
        self.records.clear();
        self.pool.clear();
    }
}

/// Once an active record with the identifier is found, looking further finds
/// the same one.
pub proof fn lemma_first_live_stays(s: ArenaState, id: u32, i: nat, n: nat)
    requires
        i < n <= s.records.len(),
        s.first_live(id, i) == i,
        s.is_live(i as int, id),
    ensures
        s.first_live(id, n) == i,
    decreases n - i,
{
    if n > i + 1 {
        lemma_first_live_stays(s, id, i, (n - 1) as nat);
    }
}

/// Where the first `n` records of two arenas are the same, the first active
/// record with an identifier among them is the same.
pub proof fn lemma_first_live_agree(a: ArenaState, b: ArenaState, id: u32, n: nat)
    requires
        n <= a.records.len(),
        n <= b.records.len(),
        forall|i: int| 0 <= i < n ==> a.records[i] == b.records[i],
    ensures
        a.first_live(id, n) == b.first_live(id, n),
    decreases n,
{
    if n > 0 {
        lemma_first_live_agree(a, b, id, (n - 1) as nat);
    }
}

} // verus!
