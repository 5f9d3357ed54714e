//! The record codec: the fixed binary layout of one key-value record and
//! the functions that read and write it.
//!
//! A record is, in order: a 4-byte checksum of `key ++ value`, a 4-byte key
//! length, a 4-byte value length (all little-endian unsigned 32-bit), then
//! the key bytes and the value bytes.

use vstd::prelude::*;

use crate::checksum::crc32_cksum;
use crate::checksum::crc32_of;

verus! {

/// The unsigned 32-bit value stored little-endian in four bytes.
pub open spec fn le32(b0: u8, b1: u8, b2: u8, b3: u8) -> u32 {
    (b0 as u32) | ((b1 as u32) << 8) | ((b2 as u32) << 16) | ((b3 as u32) << 24)
}

/// The four little-endian bytes of an unsigned 32-bit value.
pub open spec fn le32_bytes(n: u32) -> Seq<u8> {
    seq![
        (n & 0xff) as u8,
        ((n >> 8) & 0xff) as u8,
        ((n >> 16) & 0xff) as u8,
        ((n >> 24) & 0xff) as u8,
    ]
}

/// Reading back the four little-endian bytes of `n` yields `n`.
pub proof fn lemma_le32_roundtrip(n: u32)
    ensures
        le32(le32_bytes(n)[0], le32_bytes(n)[1], le32_bytes(n)[2], le32_bytes(n)[3]) == n,
{
    assert(((n & 0xff) as u8 as u32) | ((((n >> 8) & 0xff) as u8 as u32) << 8) | ((((n >> 16)
        & 0xff) as u8 as u32) << 16) | ((((n >> 24) & 0xff) as u8 as u32) << 24) == n)
        by (bit_vector);
}

/// The word stored little-endian at `pos` in `log`.
pub open spec fn word_at(log: Seq<u8>, pos: int) -> u32
    recommends
        0 <= pos,
        pos + 4 <= log.len(),
{
    le32(log[pos], log[pos + 1], log[pos + 2], log[pos + 3])
}

/// Reads the little-endian word at `p`.
fn read_word(log: &Vec<u8>, p: usize) -> (r: u32)
    requires
        p + 4 <= log@.len(),
    ensures
        r == word_at(log@, p as int),
{
    // the length, a usize, bounds the index sums below
    let _n = log.len();
    let b0 = log[p];
    let b1 = log[p + 1];
    let b2 = log[p + 2];
    let b3 = log[p + 3];
    (b0 as u32) | ((b1 as u32) << 8) | ((b2 as u32) << 16) | ((b3 as u32) << 24)
}

/// Appends the four little-endian bytes of `n`.
fn push_word(out: &mut Vec<u8>, n: u32)
    ensures
        final(out)@ == old(out)@ + le32_bytes(n),
{
    out.push((n & 0xff) as u8);
    out.push(((n >> 8) & 0xff) as u8);
    out.push(((n >> 16) & 0xff) as u8);
    out.push(((n >> 24) & 0xff) as u8);
    proof {
        assert(out@ =~= old(out)@ + le32_bytes(n));
    }
}

/// One key-value record, as decoded from the log.
pub struct KeyValuePair {
    pub key: Vec<u8>,
    pub value: Vec<u8>,
}

/// Whether `log` holds a full record header at `pos`.
pub open spec fn rec_header_ok(log: Seq<u8>, pos: int) -> bool {
    0 <= pos && pos + 12 <= log.len()
}

/// The checksum stored in the record at `pos`.
pub open spec fn rec_stored_sum(log: Seq<u8>, pos: int) -> u32 {
    word_at(log, pos)
}

/// The key length stored in the record at `pos`.
pub open spec fn rec_key_len(log: Seq<u8>, pos: int) -> int {
    word_at(log, pos + 4) as int
}

/// The value length stored in the record at `pos`.
pub open spec fn rec_value_len(log: Seq<u8>, pos: int) -> int {
    word_at(log, pos + 8) as int
}

/// The position just past the record at `pos`: where the next record starts.
pub open spec fn rec_end(log: Seq<u8>, pos: int) -> int {
    pos + 12 + rec_key_len(log, pos) + rec_value_len(log, pos)
}

/// Whether the record at `pos` lies entirely within `log`: its header is
/// present and the payload its header announces is present in full.
pub open spec fn rec_complete(log: Seq<u8>, pos: int) -> bool {
    rec_header_ok(log, pos) && rec_end(log, pos) <= log.len()
}

/// The payload (key bytes then value bytes) of the record at `pos`.
pub open spec fn rec_payload(log: Seq<u8>, pos: int) -> Seq<u8> {
    log.subrange(pos + 12, rec_end(log, pos))
}

/// The key bytes of the record at `pos`.
pub open spec fn rec_key(log: Seq<u8>, pos: int) -> Seq<u8> {
    log.subrange(pos + 12, pos + 12 + rec_key_len(log, pos))
}

/// The value bytes of the record at `pos`.
pub open spec fn rec_value(log: Seq<u8>, pos: int) -> Seq<u8> {
    log.subrange(pos + 12 + rec_key_len(log, pos), rec_end(log, pos))
}

/// Whether the record at `pos` is complete and its stored checksum matches
/// the checksum of its payload.
pub open spec fn rec_valid(log: Seq<u8>, pos: int) -> bool {
    rec_complete(log, pos) && rec_stored_sum(log, pos) == crc32_cksum(rec_payload(log, pos))
}

/// The encoding of one record: checksum of `key ++ value`, key length,
/// value length (each four bytes little-endian), then key, then value.
pub open spec fn spec_encode(key: Seq<u8>, value: Seq<u8>) -> Seq<u8>
    recommends
        key.len() + value.len() <= u32::MAX,
{
    le32_bytes(crc32_cksum(key + value)) + le32_bytes(key.len() as u32) + le32_bytes(
        value.len() as u32,
    ) + key + value
}

/// Appending an encoded record to any log yields a valid record at the old
/// end of the log, holding exactly the encoded key and value and ending
/// exactly at the new end of the log.
pub proof fn lemma_encode_valid(log: Seq<u8>, key: Seq<u8>, value: Seq<u8>)
    requires
        key.len() + value.len() <= u32::MAX,
    ensures
        rec_valid(log + spec_encode(key, value), log.len() as int),
        rec_key(log + spec_encode(key, value), log.len() as int) == key,
        rec_value(log + spec_encode(key, value), log.len() as int) == value,
        rec_end(log + spec_encode(key, value), log.len() as int) == log.len()
            + spec_encode(key, value).len(),
        rec_key_len(log + spec_encode(key, value), log.len() as int) == key.len(),
        rec_value_len(log + spec_encode(key, value), log.len() as int) == value.len(),
{
    let enc = spec_encode(key, value);
    let log2 = log + enc;
    let pos = log.len() as int;
    let sum = crc32_cksum(key + value);
    let kl = key.len() as u32;
    let vl = value.len() as u32;
    assert(enc.len() == 12 + key.len() + value.len());
    assert forall|i: int| 0 <= i < enc.len() implies log2[pos + i] == enc[i] by {
    }
    assert forall|i: int| 0 <= i < 4 implies enc[i] == le32_bytes(sum)[i] by {
    }
    assert forall|i: int| 0 <= i < 4 implies enc[4 + i] == le32_bytes(kl)[i] by {
    }
    assert forall|i: int| 0 <= i < 4 implies enc[8 + i] == le32_bytes(vl)[i] by {
    }
    lemma_le32_roundtrip(sum);
    lemma_le32_roundtrip(kl);
    lemma_le32_roundtrip(vl);
    assert(rec_stored_sum(log2, pos) == sum);
    assert(rec_key_len(log2, pos) == key.len());
    assert(rec_value_len(log2, pos) == value.len());
    assert(rec_end(log2, pos) == log2.len());
    assert(rec_complete(log2, pos));
    assert forall|i: int| 0 <= i < 12 + key.len() + value.len() implies enc[i] == (le32_bytes(sum)
        + le32_bytes(kl) + le32_bytes(vl) + key + value)[i] by {
    }
    assert(rec_payload(log2, pos) =~= key + value);
    assert(rec_key(log2, pos) =~= key);
    assert(rec_value(log2, pos) =~= value);
}

/// The record functions at a position inside a log read nothing past the
/// record's own end, so appending bytes to the log leaves them unchanged.
pub proof fn lemma_rec_stable(log: Seq<u8>, ext: Seq<u8>, pos: int)
    requires
        rec_complete(log, pos),
    ensures
        rec_complete(log + ext, pos),
        rec_stored_sum(log + ext, pos) == rec_stored_sum(log, pos),
        rec_key_len(log + ext, pos) == rec_key_len(log, pos),
        rec_value_len(log + ext, pos) == rec_value_len(log, pos),
        rec_end(log + ext, pos) == rec_end(log, pos),
        rec_payload(log + ext, pos) == rec_payload(log, pos),
        rec_key(log + ext, pos) == rec_key(log, pos),
        rec_value(log + ext, pos) == rec_value(log, pos),
        rec_valid(log + ext, pos) == rec_valid(log, pos),
{
    let log2 = log + ext;
    assert forall|i: int| 0 <= i < log.len() implies log2[i] == log[i] by {
    }
    assert(rec_stored_sum(log2, pos) == rec_stored_sum(log, pos));
    assert(rec_key_len(log2, pos) == rec_key_len(log, pos));
    assert(rec_value_len(log2, pos) == rec_value_len(log, pos));
    assert(rec_payload(log2, pos) =~= rec_payload(log, pos));
    assert(rec_key(log2, pos) =~= rec_key(log, pos));
    assert(rec_value(log2, pos) =~= rec_value(log, pos));
}

/// The outcome of decoding one record at a given position.
pub enum Decoded {
    /// A complete record with a matching checksum; `next` is the position
    /// just past it.
    Record { kv: KeyValuePair, next: u64 },
    /// No complete record starts here: either the log ends cleanly at this
    /// position or only a truncated partial record follows.
    EndOfLog,
    /// A complete record whose stored checksum does not match the checksum
    /// computed over its payload.
    Corrupt { stored: u32, computed: u32 },
}

/// Appends all bytes of `src` to `out`.
fn push_slice(out: &mut Vec<u8>, src: &[u8])
    ensures
        final(out)@ == old(out)@ + src@,
{
    let mut i: usize = 0;
    while i < src.len()
        invariant
            i <= src@.len(),
            out@ == old(out)@ + src@.subrange(0, i as int),
        decreases src@.len() - i,
    {
        out.push(src[i]);
        proof {
            assert(src@.subrange(0, i + 1 as int) =~= src@.subrange(0, i as int).push(
                src@[i as int],
            ));
        }
        i = i + 1;
    }
    proof {
        assert(src@.subrange(0, src@.len() as int) =~= src@);
    }
}

/// Appends the bytes of `src` in `[from, to)` to `out`.
fn push_range(out: &mut Vec<u8>, src: &Vec<u8>, from: usize, to: usize)
    requires
        from <= to,
        to <= src@.len(),
    ensures
        final(out)@ == old(out)@ + src@.subrange(from as int, to as int),
{
    let mut i: usize = from;
    while i < to
        invariant
            from <= i <= to,
            to <= src@.len(),
            out@ == old(out)@ + src@.subrange(from as int, i as int),
        decreases to - i,
    {
        out.push(src[i]);
        proof {
            assert(src@.subrange(from as int, i + 1 as int) =~= src@.subrange(
                from as int,
                i as int,
            ).push(src@[i as int]));
        }
        i = i + 1;
    }
}

/// Encodes one record: the checksum of `key ++ value`, the two lengths,
/// then the key and value bytes.
pub fn encode(key: &[u8], value: &[u8]) -> (r: Vec<u8>)
    requires
        key@.len() + value@.len() <= u32::MAX,
    ensures
        r@ == spec_encode(key@, value@),
        r@.len() == 12 + key@.len() + value@.len(),
{
    let mut payload: Vec<u8> = Vec::new();
    push_slice(&mut payload, key);
    push_slice(&mut payload, value);
    let sum = crc32_of(payload.as_slice());
    let mut out: Vec<u8> = Vec::new();
    push_word(&mut out, sum);
    push_word(&mut out, key.len() as u32);
    push_word(&mut out, value.len() as u32);
    push_slice(&mut out, payload.as_slice());
    proof {
        assert(out@ =~= spec_encode(key@, value@));
    }
    out
}

/// Decodes the record starting at `position`, if a complete one is there,
/// and verifies its checksum.
pub fn decode_at(log: &Vec<u8>, position: u64) -> (r: Decoded)
    ensures
        match r {
            Decoded::Record { kv, next } => rec_valid(log@, position as int) && kv.key@ == rec_key(
                log@,
                position as int,
            ) && kv.value@ == rec_value(log@, position as int) && next == rec_end(
                log@,
                position as int,
            ),
            Decoded::EndOfLog => !rec_complete(log@, position as int),
            Decoded::Corrupt { stored, computed } => rec_complete(log@, position as int)
                && !rec_valid(log@, position as int) && stored == rec_stored_sum(
                log@,
                position as int,
            ) && computed == crc32_cksum(rec_payload(log@, position as int)),
        },
{
    let n = log.len();
    if position > n as u64 || (n as u64) - position < 12 {
        return Decoded::EndOfLog;
    }
    let p = position as usize;
    let stored = read_word(log, p);
    let key_len = read_word(log, p + 4);
    let value_len = read_word(log, p + 8);
    let data_len: u64 = key_len as u64 + value_len as u64;
    if ((n - p - 12) as u64) < data_len {
        return Decoded::EndOfLog;
    }
    let kl = key_len as usize;
    let end = p + 12 + data_len as usize;
    let mut payload: Vec<u8> = Vec::new();
    push_range(&mut payload, log, p + 12, end);
    let computed = crc32_of(payload.as_slice());
    if computed != stored {
        return Decoded::Corrupt { stored, computed };
    }
    let mut key: Vec<u8> = Vec::new();
    push_range(&mut key, log, p + 12, p + 12 + kl);
    let mut value: Vec<u8> = Vec::new();
    push_range(&mut value, log, p + 12 + kl, end);
    Decoded::Record { kv: KeyValuePair { key, value }, next: end as u64 }
}

} // verus!
