//! The log store: an append-only log of records held as bytes, with the
//! in-memory index from key to the offset of that key's latest record.
//!
//! The store owns the log image and the index. Opening a store takes the
//! existing log bytes and leaves the index empty; `load` replays the log to
//! populate the index; writes append a record and keep the index current.
//! Reading the bytes from a file and appending written bytes to it are the
//! caller's concern.

use vstd::prelude::*;

use crate::checksum::crc32_cksum;
use crate::codec::decode_at;
use crate::codec::encode;
use crate::codec::lemma_encode_valid;
use crate::codec::lemma_rec_stable;
use crate::codec::rec_complete;
use crate::codec::rec_key;
use crate::codec::rec_payload;
use crate::codec::rec_stored_sum;
use crate::codec::rec_valid;
use crate::codec::rec_value;
use crate::codec::spec_encode;
use crate::codec::Decoded;
use crate::codec::KeyValuePair;
use crate::index::bytes_eq;
use crate::index::entries_distinct;
use crate::index::entries_map;
use crate::index::index_lookup;
use crate::index::index_put;
use crate::index::IndexEntry;
use crate::replay::scan_count;
use crate::replay::scan_find;
use crate::replay::scan_index;
use crate::replay::scan_ok;
use crate::replay::scan_stop;

verus! {

/// An error surfaced by a store operation.
#[derive(Debug, Clone, Copy, PartialEq, Eq, Structural)]
pub enum StoreError {
    /// No complete record starts at `offset`.
    UnexpectedEnd { offset: u64 },
    /// The complete record at `offset` stores a checksum that differs from
    /// the one computed over its payload. `records_before` counts the
    /// records the failing operation decoded before reaching this one.
    DataCorruption { offset: u64, stored: u32, computed: u32, records_before: u64 },
}

/// The key-value store: the log bytes and the in-memory index.
pub struct ActionKv {
    log: Vec<u8>,
    index: Vec<IndexEntry>,
}

/// The index entries that an in-progress linear search has produced so far,
/// viewed abstractly.
spec fn found_view(f: Option<(u64, Vec<u8>)>) -> Option<(u64, Seq<u8>)> {
    match f {
        Option::None => Option::None,
        Option::Some((o, v)) => Option::Some((o, v@)),
    }
}

impl ActionKv {
    /// The log bytes.
    pub closed spec fn log_view(self) -> Seq<u8> {
        self.log@
    }

    /// The index, as a mapping from key bytes to offset.
    pub closed spec fn index_view(self) -> Map<Seq<u8>, u64> {
        entries_map(self.index@)
    }

    /// Well-formedness: the index holds pairwise distinct keys, and every
    /// entry points at a valid record that holds exactly that key.
    pub closed spec fn wf(self) -> bool {
        &&& entries_distinct(self.index@)
        &&& forall|k: Seq<u8>| #[trigger]
            entries_map(self.index@).contains_key(k) ==> rec_valid(
                self.log@,
                entries_map(self.index@)[k] as int,
            ) && rec_key(self.log@, entries_map(self.index@)[k] as int) == k
    }

    /// Opens a store over existing log bytes. The index starts empty; call
    /// `load` to populate it by replay.
    pub fn open(log: Vec<u8>) -> (kv: ActionKv)
        ensures
            kv.wf(),
            kv.log_view() == log@,
            kv.index_view() == Map::<Seq<u8>, u64>::empty(),
    {
        let kv = ActionKv { log, index: Vec::new() };
        proof {
            assert(entries_map(kv.index@) =~= Map::<Seq<u8>, u64>::empty());
        }
        kv
    }

    /// The log bytes, for callers that persist them.
    pub fn log_bytes(&self) -> (r: &Vec<u8>)
        ensures
            r@ == self.log_view(),
    {
        &self.log
    }

    /// The end-of-log offset: where the next append will land.
    pub fn seek_to_end(&self) -> (r: u64)
        ensures
            r == self.log_view().len(),
    {
        self.log.len() as u64
    }

    /// Replays the log from the start, inserting each valid record's key
    /// and offset into the index, so that for every key the latest record
    /// wins. Stops without error at the end of the log or at a truncated
    /// partial tail; stops and reports corruption at a complete record
    /// whose checksum does not match, keeping the entries replayed so far.
    pub fn load(&mut self) -> (r: Result<(), StoreError>)
        requires
            old(self).wf(),
        ensures
            final(self).wf(),
            final(self).log_view() == old(self).log_view(),
            final(self).index_view() == scan_index(
                old(self).log_view(),
                0,
                old(self).index_view(),
            ),
            match r {
                Result::Ok(()) => scan_ok(old(self).log_view(), 0),
                Result::Err(e) => {
                    &&& !scan_ok(old(self).log_view(), 0)
                    &&& e matches StoreError::DataCorruption {
                        offset,
                        stored,
                        computed,
                        records_before,
                    }
                    &&& offset == scan_stop(old(self).log_view(), 0)
                    &&& stored == rec_stored_sum(
                        old(self).log_view(),
                        scan_stop(old(self).log_view(), 0),
                    )
                    &&& computed == crc32_cksum(
                        rec_payload(old(self).log_view(), scan_stop(old(self).log_view(), 0)),
                    )
                    &&& records_before == scan_count(old(self).log_view(), 0)
                },
            },
    {
        let ghost log = self.log@;
        let mut position: u64 = 0;
        let mut count: u64 = 0;
        loop
            invariant
                log == old(self).log@,
                self.log@ == log,
                entries_distinct(self.index@),
                forall|k: Seq<u8>| #[trigger]
                    entries_map(self.index@).contains_key(k) ==> rec_valid(
                        log,
                        entries_map(self.index@)[k] as int,
                    ) && rec_key(log, entries_map(self.index@)[k] as int) == k,
                position <= log.len(),
                12 * count <= position,
                scan_index(log, position as int, entries_map(self.index@)) == scan_index(
                    log,
                    0,
                    old(self).index_view(),
                ),
                scan_ok(log, 0) == scan_ok(log, position as int),
                scan_stop(log, 0) == scan_stop(log, position as int),
                scan_count(log, 0) == count + scan_count(log, position as int),
            decreases log.len() - position,
        {
            match decode_at(&self.log, position) {
                Decoded::Record { kv, next } => {
                    index_put(&mut self.index, kv.key.as_slice(), position);
                    proof {
                        assert(12 * (count + 1) <= next);
                    }
                    position = next;
                    count = count + 1;
                },
                Decoded::EndOfLog => {
                    return Result::Ok(());
                },
                Decoded::Corrupt { stored, computed } => {
                    return Result::Err(
                        StoreError::DataCorruption {
                            offset: position,
                            stored,
                            computed,
                            records_before: count,
                        },
                    );
                },
            }
        }
    }

    /// Looks the key up in the index and, if an offset is there, decodes
    /// the record at that offset and returns its value. A key absent from
    /// the index yields `Ok(None)`: "not found" is a normal result. Under
    /// well-formedness every index entry points at a valid record, so this
    /// never returns an error.
    pub fn get(&self, key: &[u8]) -> (r: Result<Option<Vec<u8>>, StoreError>)
        requires
            self.wf(),
        ensures
            match r {
                Result::Ok(found) => match found {
                    Option::Some(v) => self.index_view().contains_key(key@) && v@ == rec_value(
                        self.log_view(),
                        self.index_view()[key@] as int,
                    ),
                    Option::None => !self.index_view().contains_key(key@),
                },
                Result::Err(_) => false,
            },
    {
        let position = match index_lookup(&self.index, key) {
            Option::None => {
                return Result::Ok(Option::None);
            },
            Option::Some(p) => p,
        };
        match decode_at(&self.log, position) {
            Decoded::Record { kv, .. } => Result::Ok(Option::Some(kv.value)),
            Decoded::EndOfLog => Result::Err(StoreError::UnexpectedEnd { offset: position }),
            Decoded::Corrupt { stored, computed } => Result::Err(
                StoreError::DataCorruption {
                    offset: position,
                    stored,
                    computed,
                    records_before: 0,
                },
            ),
        }
    }

    /// Decodes exactly one record starting at `position`. An offset where
    /// no complete record starts yields `UnexpectedEnd`; a complete record
    /// with a mismatched checksum yields `DataCorruption`.
    pub fn get_at(&self, position: u64) -> (r: Result<KeyValuePair, StoreError>)
        ensures
            match r {
                Result::Ok(kv) => {
                    &&& rec_valid(self.log_view(), position as int)
                    &&& kv.key@ == rec_key(self.log_view(), position as int)
                    &&& kv.value@ == rec_value(self.log_view(), position as int)
                },
                Result::Err(e) => match e {
                    StoreError::UnexpectedEnd { offset } => !rec_complete(
                        self.log_view(),
                        position as int,
                    ) && offset == position,
                    StoreError::DataCorruption { offset, stored, computed, records_before } => {
                        &&& rec_complete(self.log_view(), position as int)
                        &&& !rec_valid(self.log_view(), position as int)
                        &&& offset == position
                        &&& stored == rec_stored_sum(self.log_view(), position as int)
                        &&& computed == crc32_cksum(rec_payload(self.log_view(), position as int))
                        &&& records_before == 0
                    },
                },
            },
    {
        match decode_at(&self.log, position) {
            Decoded::Record { kv, .. } => Result::Ok(kv),
            Decoded::EndOfLog => Result::Err(StoreError::UnexpectedEnd { offset: position }),
            Decoded::Corrupt { stored, computed } => Result::Err(
                StoreError::DataCorruption {
                    offset: position,
                    stored,
                    computed,
                    records_before: 0,
                },
            ),
        }
    }

    /// Scans the whole log and returns the offset and value of the last
    /// valid record whose key equals `target`, without consulting the
    /// index. Stops without error at the end of the log or at a truncated
    /// tail; a complete record with a mismatched checksum is reported as
    /// corruption.
    pub fn find(&self, target: &[u8]) -> (r: Result<Option<(u64, Vec<u8>)>, StoreError>)
        ensures
            match r {
                Result::Ok(found) => {
                    &&& scan_ok(self.log_view(), 0)
                    &&& match found {
                        Option::None => scan_find(
                            self.log_view(),
                            0,
                            target@,
                            Option::None,
                        ) is None,
                        Option::Some((o, v)) => scan_find(self.log_view(), 0, target@, Option::None)
                            == Option::Some((o, v@)),
                    }
                },
                Result::Err(e) => {
                    &&& !scan_ok(self.log_view(), 0)
                    &&& e matches StoreError::DataCorruption {
                        offset,
                        stored,
                        computed,
                        records_before,
                    }
                    &&& offset == scan_stop(self.log_view(), 0)
                    &&& stored == rec_stored_sum(self.log_view(), scan_stop(self.log_view(), 0))
                    &&& computed == crc32_cksum(
                        rec_payload(self.log_view(), scan_stop(self.log_view(), 0)),
                    )
                    &&& records_before == scan_count(self.log_view(), 0)
                },
            },
    {
        let ghost log = self.log@;
        let mut found: Option<(u64, Vec<u8>)> = Option::None;
        let mut position: u64 = 0;
        let mut count: u64 = 0;
        loop
            invariant
                log == self.log@,
                position <= log.len(),
                12 * count <= position,
                scan_find(log, position as int, target@, found_view(found)) == scan_find(
                    log,
                    0,
                    target@,
                    Option::None,
                ),
                scan_ok(log, 0) == scan_ok(log, position as int),
                scan_stop(log, 0) == scan_stop(log, position as int),
                scan_count(log, 0) == count + scan_count(log, position as int),
            decreases log.len() - position,
        {
            match decode_at(&self.log, position) {
                Decoded::Record { kv, next } => {
                    if bytes_eq(kv.key.as_slice(), target) {
                        found = Option::Some((position, kv.value));
                    }
                    proof {
                        assert(12 * (count + 1) <= next);
                    }
                    position = next;
                    count = count + 1;
                },
                Decoded::EndOfLog => {
                    return Result::Ok(found);
                },
                Decoded::Corrupt { stored, computed } => {
                    return Result::Err(
                        StoreError::DataCorruption {
                            offset: position,
                            stored,
                            computed,
                            records_before: count,
                        },
                    );
                },
            }
        }
    }

    /// Appends a record for `(key, value)` at the end of the log without
    /// touching the index, and returns the offset where the record starts.
    pub fn insert_but_ignore_index(&mut self, key: &[u8], value: &[u8]) -> (r: u64)
        requires
            old(self).wf(),
            key@.len() + value@.len() <= u32::MAX,
        ensures
            final(self).wf(),
            final(self).log_view() == old(self).log_view() + spec_encode(key@, value@),
            final(self).index_view() == old(self).index_view(),
            r == old(self).log_view().len(),
    {
        let mut rec = encode(key, value);
        let position = self.log.len() as u64;
        self.log.append(&mut rec);
        proof {
            let old_log = old(self).log@;
            let ext = spec_encode(key@, value@);
            let m = entries_map(self.index@);
            assert forall|k: Seq<u8>| #[trigger]
                m.contains_key(k) implies rec_valid(self.log@, m[k] as int) && rec_key(
                self.log@,
                m[k] as int,
            ) == k by {
                lemma_rec_stable(old_log, ext, m[k] as int);
            }
        }
        position
    }

    /// Appends a record for `(key, value)` at the end of the log, points
    /// the index entry for `key` at it, and returns its offset.
    pub fn insert(&mut self, key: &[u8], value: &[u8]) -> (r: u64)
        requires
            old(self).wf(),
            key@.len() + value@.len() <= u32::MAX,
        ensures
            final(self).wf(),
            final(self).log_view() == old(self).log_view() + spec_encode(key@, value@),
            final(self).index_view() == old(self).index_view().insert(
                key@,
                old(self).log_view().len() as u64,
            ),
            r == old(self).log_view().len(),
    {
        let position = self.insert_but_ignore_index(key, value);
        proof {
            lemma_encode_valid(old(self).log@, key@, value@);
        }
        index_put(&mut self.index, key, position);
        position
    }

    /// Appends a new record for the key, exactly as `insert` does: the log
    /// format has no distinct update record, recency is positional.
    pub fn update(&mut self, key: &[u8], value: &[u8]) -> (r: u64)
        requires
            old(self).wf(),
            key@.len() + value@.len() <= u32::MAX,
        ensures
            final(self).wf(),
            final(self).log_view() == old(self).log_view() + spec_encode(key@, value@),
            final(self).index_view() == old(self).index_view().insert(
                key@,
                old(self).log_view().len() as u64,
            ),
            r == old(self).log_view().len(),
    {
        self.insert(key, value)
    }

    /// Appends a tombstone: a record for the key with an empty value. The
    /// key afterwards looks up to the empty value, not to "not found".
    pub fn delete(&mut self, key: &[u8]) -> (r: u64)
        requires
            old(self).wf(),
            key@.len() <= u32::MAX,
        ensures
            final(self).wf(),
            final(self).log_view() == old(self).log_view() + spec_encode(
                key@,
                Seq::<u8>::empty(),
            ),
            final(self).index_view() == old(self).index_view().insert(
                key@,
                old(self).log_view().len() as u64,
            ),
            r == old(self).log_view().len(),
    {
        let empty: Vec<u8> = Vec::new();
        self.insert(key, empty.as_slice())
    }
}

} // verus!
