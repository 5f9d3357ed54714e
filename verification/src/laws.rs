//! Laws of the store, stated over the log and index models that the
//! operations' contracts use: what `insert` promises about the log and the
//! index is here connected to what `load`, `get` and `find` read back.

use vstd::prelude::*;

use crate::codec::lemma_encode_valid;
use crate::codec::lemma_rec_stable;
use crate::codec::rec_end;
use crate::codec::rec_complete;
use crate::codec::rec_key;
use crate::codec::rec_valid;
use crate::codec::rec_value;
use crate::codec::spec_encode;
use crate::replay::lemma_scan_append;
use crate::replay::scan_count;
use crate::replay::scan_find;
use crate::replay::scan_index;
use crate::replay::scan_ok;
use crate::replay::scan_stop;

verus! {

/// Round trip: after an insert of `(key, value)` — which appends the
/// record's encoding and points the index entry for `key` at it — looking
/// the key up through the index yields exactly `value`.
pub proof fn lemma_round_trip(
    log: Seq<u8>,
    index: Map<Seq<u8>, u64>,
    key: Seq<u8>,
    value: Seq<u8>,
)
    requires
        key.len() + value.len() <= u32::MAX,
        log.len() <= u64::MAX,
    ensures
        index.insert(key, log.len() as u64).contains_key(key),
        rec_valid(
            log + spec_encode(key, value),
            index.insert(key, log.len() as u64)[key] as int,
        ),
        rec_key(log + spec_encode(key, value), index.insert(key, log.len() as u64)[key] as int)
            == key,
        rec_value(log + spec_encode(key, value), index.insert(key, log.len() as u64)[key] as int)
            == value,
{
    lemma_encode_valid(log, key, value);
}

/// Tombstone: a delete appends a record with the empty value, so the key
/// afterwards looks up to the empty value — it stays present, it does not
/// become "not found".
pub proof fn lemma_tombstone(log: Seq<u8>, index: Map<Seq<u8>, u64>, key: Seq<u8>)
    requires
        key.len() <= u32::MAX,
        log.len() <= u64::MAX,
    ensures
        index.insert(key, log.len() as u64).contains_key(key),
        rec_value(
            log + spec_encode(key, Seq::<u8>::empty()),
            index.insert(key, log.len() as u64)[key] as int,
        ) == Seq::<u8>::empty(),
{
    lemma_round_trip(log, index, key, Seq::<u8>::empty());
}

/// A sequence of writes, each a key and the value it appends; an update is
/// a write like any other and a delete is a write of the empty value.
pub open spec fn ops_wf(ops: Seq<(Seq<u8>, Seq<u8>)>) -> bool {
    forall|i: int| 0 <= i < ops.len() ==> (#[trigger] ops[i]).0.len() + ops[i].1.len() <= u32::MAX
}

/// The log that a sequence of writes appends, record by record.
pub open spec fn build_log(ops: Seq<(Seq<u8>, Seq<u8>)>) -> Seq<u8>
    decreases ops.len(),
{
    if ops.len() == 0 {
        Seq::empty()
    } else {
        build_log(ops.drop_last()) + spec_encode(ops.last().0, ops.last().1)
    }
}

/// The index that the same writes build in memory: each write points its
/// key at the offset where its record lands, the last write per key wins.
pub open spec fn build_index(ops: Seq<(Seq<u8>, Seq<u8>)>) -> Map<Seq<u8>, u64>
    decreases ops.len(),
{
    if ops.len() == 0 {
        Map::empty()
    } else {
        build_index(ops.drop_last()).insert(
            ops.last().0,
            build_log(ops.drop_last()).len() as u64,
        )
    }
}

/// Replay correctness: for any sequence of writes, replaying the log they
/// produced — as `load` does after a restart — ends gracefully exactly at
/// the end of the log and rebuilds precisely the index that the writes
/// maintained in memory.
pub proof fn lemma_replay_matches_memory(ops: Seq<(Seq<u8>, Seq<u8>)>)
    requires
        ops_wf(ops),
        build_log(ops).len() <= u64::MAX,
    ensures
        scan_ok(build_log(ops), 0),
        scan_stop(build_log(ops), 0) == build_log(ops).len(),
        scan_index(build_log(ops), 0, Map::<Seq<u8>, u64>::empty()) == build_index(ops),
    decreases ops.len(),
{
    if ops.len() == 0 {
        assert(!rec_complete(build_log(ops), 0));
        assert(scan_ok(build_log(ops), 0));
        assert(scan_stop(build_log(ops), 0) == 0);
    } else {
        let pre = ops.drop_last();
        let key = ops.last().0;
        let value = ops.last().1;
        let log1 = build_log(pre);
        let enc = spec_encode(key, value);
        let log2 = build_log(ops);
        assert(ops[ops.len() - 1] == ops.last());
        assert(log2 == log1 + enc);
        lemma_replay_matches_memory(pre);
        lemma_scan_append(log1, enc, 0, Map::<Seq<u8>, u64>::empty(), Seq::empty(), Option::None);
        lemma_encode_valid(log1, key, value);
        let pos1 = log1.len() as int;
        assert(rec_valid(log2, pos1));
        assert(rec_end(log2, pos1) == log2.len());
        assert(!rec_complete(log2, log2.len() as int));
        assert(scan_ok(log2, log2.len() as int));
        assert(scan_stop(log2, log2.len() as int) == log2.len());
        assert(scan_ok(log2, pos1) == scan_ok(log2, log2.len() as int));
        assert(scan_stop(log2, pos1) == scan_stop(log2, log2.len() as int));
        assert(scan_ok(log2, 0));
        assert(scan_stop(log2, 0) == log2.len());
        assert(scan_index(log2, log2.len() as int, build_index(ops)) == build_index(ops));
        assert(scan_index(log2, pos1, build_index(pre)) == build_index(ops));
        assert(scan_index(log2, 0, Map::<Seq<u8>, u64>::empty()) == build_index(ops));
    }
}

/// The value of the last write to `key` in a sequence of writes, if any.
pub open spec fn last_write(ops: Seq<(Seq<u8>, Seq<u8>)>, key: Seq<u8>) -> Option<Seq<u8>>
    decreases ops.len(),
{
    if ops.len() == 0 {
        Option::None
    } else if ops.last().0 == key {
        Option::Some(ops.last().1)
    } else {
        last_write(ops.drop_last(), key)
    }
}

/// Reading a key back after replay: the index that `load` rebuilds holds a
/// key exactly when some write wrote it, and then points at a valid record
/// whose value is the value of the last write to that key.
pub proof fn lemma_get_after_replay(ops: Seq<(Seq<u8>, Seq<u8>)>, key: Seq<u8>)
    requires
        ops_wf(ops),
        build_log(ops).len() <= u64::MAX,
    ensures
        match last_write(ops, key) {
            Option::None => !build_index(ops).contains_key(key),
            Option::Some(v) => {
                &&& build_index(ops).contains_key(key)
                &&& rec_valid(build_log(ops), build_index(ops)[key] as int)
                &&& rec_key(build_log(ops), build_index(ops)[key] as int) == key
                &&& rec_value(build_log(ops), build_index(ops)[key] as int) == v
            },
        },
    decreases ops.len(),
{
    if ops.len() > 0 {
        let pre = ops.drop_last();
        let log1 = build_log(pre);
        let enc = spec_encode(ops.last().0, ops.last().1);
        let log2 = build_log(ops);
        assert(ops[ops.len() - 1] == ops.last());
        assert(log2 == log1 + enc);
        lemma_encode_valid(log1, ops.last().0, ops.last().1);
        if ops.last().0 == key {
            assert(build_index(ops)[key] == log1.len() as u64);
        } else {
            lemma_get_after_replay(pre, key);
            if last_write(pre, key) is Some {
                let off = build_index(pre)[key] as int;
                lemma_rec_stable(log1, enc, off);
            }
        }
    }
}

/// The scan that `find` makes and the index that replay builds agree on
/// every key, given matching starting accumulators.
proof fn lemma_scan_agree_rec(
    log: Seq<u8>,
    pos: int,
    k: Seq<u8>,
    acc: Map<Seq<u8>, u64>,
    accf: Option<(u64, Seq<u8>)>,
)
    requires
        0 <= pos,
        log.len() <= u64::MAX,
        scan_ok(log, pos),
        match accf {
            Option::None => !acc.contains_key(k),
            Option::Some((o, v)) => acc.contains_key(k) && acc[k] == o && rec_valid(log, o as int)
                && rec_key(log, o as int) == k && rec_value(log, o as int) == v,
        },
    ensures
        match scan_find(log, pos, k, accf) {
            Option::None => !scan_index(log, pos, acc).contains_key(k),
            Option::Some((o, v)) => scan_index(log, pos, acc).contains_key(k) && scan_index(
                log,
                pos,
                acc,
            )[k] == o && rec_valid(log, o as int) && rec_key(log, o as int) == k && rec_value(
                log,
                o as int,
            ) == v,
        },
    decreases log.len() - pos,
{
    if rec_valid(log, pos) {
        let acc2 = acc.insert(rec_key(log, pos), pos as u64);
        let accf2 = if rec_key(log, pos) == k {
            Option::Some((pos as u64, rec_value(log, pos)))
        } else {
            accf
        };
        lemma_scan_agree_rec(log, rec_end(log, pos), k, acc2, accf2);
    }
}

/// Scan and index agree: on a log whose replay ends gracefully, the linear
/// search `find` makes for a key returns an offset and value exactly when
/// the replayed index holds that key, and then the offset is the index
/// entry and the value is the value of the record there. In particular the
/// latest write to a key wins in both views.
pub proof fn lemma_find_matches_index(log: Seq<u8>, k: Seq<u8>)
    requires
        scan_ok(log, 0),
        log.len() <= u64::MAX,
    ensures
        match scan_find(log, 0, k, Option::None) {
            Option::None => !scan_index(log, 0, Map::<Seq<u8>, u64>::empty()).contains_key(k),
            Option::Some((o, v)) => scan_index(log, 0, Map::<Seq<u8>, u64>::empty()).contains_key(
                k,
            ) && scan_index(log, 0, Map::<Seq<u8>, u64>::empty())[k] == o && rec_valid(
                log,
                o as int,
            ) && rec_key(log, o as int) == k && rec_value(log, o as int) == v,
        },
{
    lemma_scan_agree_rec(log, 0, k, Map::<Seq<u8>, u64>::empty(), Option::None);
}

/// Last write wins: after writing `(key, a)` and then `(key, b)` on top of
/// any earlier writes, the in-memory index, the replayed index and the
/// linear search all name the offset of the second record, whose value is
/// `b`.
pub proof fn lemma_last_write_wins(
    ops: Seq<(Seq<u8>, Seq<u8>)>,
    key: Seq<u8>,
    a: Seq<u8>,
    b: Seq<u8>,
)
    requires
        ops_wf(ops),
        key.len() + a.len() <= u32::MAX,
        key.len() + b.len() <= u32::MAX,
        build_log(ops.push((key, a)).push((key, b))).len() <= u64::MAX,
    ensures
        ({
            let ops2 = ops.push((key, a)).push((key, b));
            let log = build_log(ops2);
            let boff = build_log(ops.push((key, a))).len() as u64;
            &&& build_index(ops2)[key] == boff
            &&& scan_index(log, 0, Map::<Seq<u8>, u64>::empty()) == build_index(ops2)
            &&& rec_value(log, boff as int) == b
            &&& scan_find(log, 0, key, Option::None) == Option::Some((boff, b))
        }),
{
    let ops1 = ops.push((key, a));
    let ops2 = ops1.push((key, b));
    let log1 = build_log(ops1);
    let log = build_log(ops2);
    let boff = log1.len() as u64;
    assert(ops2.drop_last() =~= ops1);
    assert(ops2.last() == (key, b));
    assert(ops1.drop_last() =~= ops);
    assert(ops1.last() == (key, a));
    assert(forall|i: int| 0 <= i < ops2.len() ==> (#[trigger] ops2[i]).0.len() + ops2[i].1.len()
        <= u32::MAX);
    lemma_replay_matches_memory(ops2);
    assert(build_index(ops2) == build_index(ops1).insert(key, boff));
    assert(build_index(ops2)[key] == boff);
    lemma_encode_valid(log1, key, b);
    assert(log == log1 + spec_encode(key, b));
    assert(rec_value(log, boff as int) == b);
    lemma_find_matches_index(log, key);
    assert(scan_index(log, 0, Map::<Seq<u8>, u64>::empty()).contains_key(key));
    let f = scan_find(log, 0, key, Option::None);
    assert(f is Some);
    assert(f->Some_0.0 == boff);
    assert(f->Some_0.1 == rec_value(log, boff as int));
}

/// Truncated-tail tolerance: appending any partial record — too few bytes
/// for a header, or a header whose announced payload is not all there —
/// after a log whose replay ends gracefully at its end leaves replay
/// without error and the index it builds unchanged.
pub proof fn lemma_truncated_tail(log: Seq<u8>, tail: Seq<u8>, acc: Map<Seq<u8>, u64>)
    requires
        scan_ok(log, 0),
        scan_stop(log, 0) == log.len(),
        !rec_complete(log + tail, log.len() as int),
    ensures
        scan_ok(log + tail, 0),
        scan_stop(log + tail, 0) == log.len(),
        scan_index(log + tail, 0, acc) == scan_index(log, 0, acc),
        scan_count(log + tail, 0) == scan_count(log, 0),
{
    lemma_scan_append(log, tail, 0, acc, Seq::empty(), Option::None);
    assert(!rec_valid(log + tail, log.len() as int));
    assert(scan_index(log + tail, log.len() as int, scan_index(log, 0, acc)) == scan_index(
        log,
        0,
        acc,
    ));
}

} // verus!
