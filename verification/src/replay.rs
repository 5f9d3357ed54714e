//! Replay semantics of the log: scanning records from a position, the index
//! that the scan builds, and how the scan behaves when bytes are appended.
//!
//! A scan steps from record to record while each is complete and carries a
//! matching checksum. It stops gracefully where no complete record starts
//! (the end of the log or a truncated tail) and stops with corruption where
//! a complete record's checksum does not match.

use vstd::prelude::*;

use crate::codec::lemma_rec_stable;
use crate::codec::rec_complete;
use crate::codec::rec_end;
use crate::codec::rec_key;
use crate::codec::rec_valid;
use crate::codec::rec_value;

verus! {

/// Whether a scan from `pos` reaches a graceful end: it never meets a
/// complete record with a mismatched checksum.
pub open spec fn scan_ok(log: Seq<u8>, pos: int) -> bool
    decreases log.len() - pos,
{
    if rec_valid(log, pos) {
        scan_ok(log, rec_end(log, pos))
    } else {
        !rec_complete(log, pos)
    }
}

/// The position where a scan from `pos` stops: the start of the first
/// record that is not valid.
pub open spec fn scan_stop(log: Seq<u8>, pos: int) -> int
    decreases log.len() - pos,
{
    if rec_valid(log, pos) {
        scan_stop(log, rec_end(log, pos))
    } else {
        pos
    }
}

/// The index built by a scan from `pos` starting from the entries in `acc`:
/// each valid record maps its key to its own start offset, later records
/// overwriting earlier ones.
pub open spec fn scan_index(log: Seq<u8>, pos: int, acc: Map<Seq<u8>, u64>) -> Map<Seq<u8>, u64>
    decreases log.len() - pos,
{
    if rec_valid(log, pos) {
        scan_index(log, rec_end(log, pos), acc.insert(rec_key(log, pos), pos as u64))
    } else {
        acc
    }
}

/// How many valid records a scan from `pos` steps over before it stops.
pub open spec fn scan_count(log: Seq<u8>, pos: int) -> nat
    decreases log.len() - pos,
{
    if rec_valid(log, pos) {
        1 + scan_count(log, rec_end(log, pos))
    } else {
        0
    }
}

/// The offset and value of the last valid record with key `target` that a
/// scan from `pos` steps over, starting from the candidate `acc`.
pub open spec fn scan_find(
    log: Seq<u8>,
    pos: int,
    target: Seq<u8>,
    acc: Option<(u64, Seq<u8>)>,
) -> Option<(u64, Seq<u8>)>
    decreases log.len() - pos,
{
    if rec_valid(log, pos) {
        scan_find(
            log,
            rec_end(log, pos),
            target,
            if rec_key(log, pos) == target {
                Some((pos as u64, rec_value(log, pos)))
            } else {
                acc
            },
        )
    } else {
        acc
    }
}

/// A scan of `log` from `pos` that ends gracefully exactly at the end of
/// `log` steps over the same records in `log + ext`, and then goes on from
/// `log.len()`; the index, count and search results compose accordingly.
pub proof fn lemma_scan_append(
    log: Seq<u8>,
    ext: Seq<u8>,
    pos: int,
    acc: Map<Seq<u8>, u64>,
    target: Seq<u8>,
    accf: Option<(u64, Seq<u8>)>,
)
    requires
        0 <= pos <= log.len(),
        scan_ok(log, pos),
        scan_stop(log, pos) == log.len(),
    ensures
        scan_ok(log + ext, pos) == scan_ok(log + ext, log.len() as int),
        scan_stop(log + ext, pos) == scan_stop(log + ext, log.len() as int),
        scan_index(log + ext, pos, acc) == scan_index(
            log + ext,
            log.len() as int,
            scan_index(log, pos, acc),
        ),
        scan_count(log + ext, pos) == scan_count(log, pos) + scan_count(
            log + ext,
            log.len() as int,
        ),
        scan_find(log + ext, pos, target, accf) == scan_find(
            log + ext,
            log.len() as int,
            target,
            scan_find(log, pos, target, accf),
        ),
    decreases log.len() - pos,
{
    let log2 = log + ext;
    if pos == log.len() {
        assert(!rec_complete(log, pos));
        assert(scan_index(log, pos, acc) == acc);
        assert(scan_find(log, pos, target, accf) == accf);
        assert(scan_count(log, pos) == 0);
    } else {
        if !rec_valid(log, pos) {
            assert(scan_stop(log, pos) == pos);
            assert(false);
        }
        lemma_rec_stable(log, ext, pos);
        lemma_scan_append(
            log,
            ext,
            rec_end(log, pos),
            acc.insert(rec_key(log, pos), pos as u64),
            target,
            if rec_key(log, pos) == target {
                Some((pos as u64, rec_value(log, pos)))
            } else {
                accf
            },
        );
    }
}

} // verus!
