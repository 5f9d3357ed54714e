//! The in-memory index: a mapping from key bytes to the offset of that
//! key's latest record, kept as a list of entries with pairwise distinct
//! keys and viewed abstractly as a `Map`.

use vstd::pervasive::VecAdditionalExecFns;
use vstd::prelude::*;

verus! {

/// One index entry: a key and the offset of its latest record.
pub struct IndexEntry {
    pub key: Vec<u8>,
    pub offset: u64,
}

/// The mapping that a list of entries represents; a later entry for the
/// same key overrides an earlier one.
pub open spec fn entries_map(s: Seq<IndexEntry>) -> Map<Seq<u8>, u64>
    decreases s.len(),
{
    if s.len() == 0 {
        Map::empty()
    } else {
        entries_map(s.drop_last()).insert(s.last().key@, s.last().offset)
    }
}

/// Whether the entries carry pairwise distinct keys.
pub open spec fn entries_distinct(s: Seq<IndexEntry>) -> bool {
    forall|i: int, j: int| 0 <= i < j < s.len() ==> s[i].key@ != s[j].key@
}

/// The map of a list of entries contains exactly the keys of the entries.
pub proof fn lemma_entries_map_domain(s: Seq<IndexEntry>, k: Seq<u8>)
    ensures
        entries_map(s).contains_key(k) <==> exists|i: int| 0 <= i < s.len() && s[i].key@ == k,
    decreases s.len(),
{
    if s.len() > 0 {
        lemma_entries_map_domain(s.drop_last(), k);
        if s.last().key@ == k {
            assert(s[s.len() - 1].key@ == k);
        } else if exists|i: int| 0 <= i < s.len() && s[i].key@ == k {
            let i = choose|i: int| 0 <= i < s.len() && s[i].key@ == k;
            assert(s.drop_last()[i].key@ == k);
        }
    }
}

/// With distinct keys, the map sends each entry's key to its offset.
pub proof fn lemma_entries_map_at(s: Seq<IndexEntry>, i: int)
    requires
        entries_distinct(s),
        0 <= i < s.len(),
    ensures
        entries_map(s).contains_key(s[i].key@),
        entries_map(s)[s[i].key@] == s[i].offset,
    decreases s.len(),
{
    if i == s.len() - 1 {
        assert(s.last() == s[i]);
    } else {
        assert(entries_distinct(s.drop_last()));
        lemma_entries_map_at(s.drop_last(), i);
        assert(s.drop_last()[i] == s[i]);
        assert(s[i].key@ != s.last().key@);
    }
}

/// Appending an entry inserts its key into the map.
pub proof fn lemma_entries_map_push(s: Seq<IndexEntry>, e: IndexEntry)
    ensures
        entries_map(s.push(e)) == entries_map(s).insert(e.key@, e.offset),
{
    assert(s.push(e).drop_last() =~= s);
    assert(s.push(e).last() == e);
}

/// Overwriting the entry that holds a key re-inserts that key into the map.
pub proof fn lemma_entries_map_update(s: Seq<IndexEntry>, i: int, e: IndexEntry)
    requires
        entries_distinct(s),
        0 <= i < s.len(),
        s[i].key@ == e.key@,
    ensures
        entries_map(s.update(i, e)) == entries_map(s).insert(e.key@, e.offset),
    decreases s.len(),
{
    let s2 = s.update(i, e);
    if i == s.len() - 1 {
        assert(s2.drop_last() =~= s.drop_last());
        assert(s2.last() == e);
        assert(entries_map(s2) =~= entries_map(s).insert(e.key@, e.offset));
    } else {
        assert(s2.drop_last() =~= s.drop_last().update(i, e));
        assert(entries_distinct(s.drop_last()));
        assert(s.drop_last()[i] == s[i]);
        lemma_entries_map_update(s.drop_last(), i, e);
        assert(s2.last() == s.last());
        assert(s[i].key@ != s.last().key@);
        assert(entries_map(s2) =~= entries_map(s).insert(e.key@, e.offset));
    }
}

/// Compares two byte strings for equality.
pub fn bytes_eq(a: &[u8], b: &[u8]) -> (r: bool)
    ensures
        r <==> a@ == b@,
{
    if a.len() != b.len() {
        proof {
            assert(a@ != b@);
        }
        return false;
    }
    let n = a.len();
    let mut i: usize = 0;
    while i < n
        invariant
            n == a@.len() == b@.len(),
            i <= n,
            forall|j: int| 0 <= j < i ==> a@[j] == b@[j],
        decreases n - i,
    {
        if a[i] != b[i] {
            proof {
                assert(a@[i as int] != b@[i as int]);
            }
            return false;
        }
        i = i + 1;
    }
    proof {
        assert(a@ =~= b@);
    }
    true
}

/// Looks a key up among the entries.
pub fn index_lookup(entries: &Vec<IndexEntry>, key: &[u8]) -> (r: Option<u64>)
    requires
        entries_distinct(entries@),
    ensures
        match r {
            Some(o) => entries_map(entries@).contains_key(key@) && entries_map(entries@)[key@]
                == o,
            None => !entries_map(entries@).contains_key(key@),
        },
{
    let n = entries.len();
    let mut i: usize = 0;
    while i < n
        invariant
            n == entries@.len(),
            i <= n,
            entries_distinct(entries@),
            forall|j: int| 0 <= j < i ==> entries@[j].key@ != key@,
        decreases n - i,
    {
        if bytes_eq(entries[i].key.as_slice(), key) {
            proof {
                lemma_entries_map_at(entries@, i as int);
            }
            return Some(entries[i].offset);
        }
        i = i + 1;
    }
    proof {
        lemma_entries_map_domain(entries@, key@);
    }
    None
}

/// Sets the offset for a key, overwriting the entry that holds the key or
/// appending a new entry.
pub fn index_put(entries: &mut Vec<IndexEntry>, key: &[u8], offset: u64)
    requires
        entries_distinct(old(entries)@),
    ensures
        entries_distinct(final(entries)@),
        entries_map(final(entries)@) == entries_map(old(entries)@).insert(key@, offset),
{
    let n = entries.len();
    let mut i: usize = 0;
    while i < n
        invariant
            n == entries@.len(),
            i <= n,
            entries@ == old(entries)@,
            entries_distinct(entries@),
            forall|j: int| 0 <= j < i ==> entries@[j].key@ != key@,
        decreases n - i,
    {
        if bytes_eq(entries[i].key.as_slice(), key) {
            let e = IndexEntry { key: vstd::slice::slice_to_vec(key), offset };
            proof {
                lemma_entries_map_update(entries@, i as int, e);
            }
            entries.set(i, e);
            return ;
        }
        i = i + 1;
    }
    let e = IndexEntry { key: vstd::slice::slice_to_vec(key), offset };
    proof {
        lemma_entries_map_push(entries@, e);
    }
    entries.push(e);
}

} // verus!
