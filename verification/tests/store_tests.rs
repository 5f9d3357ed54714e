use actionkv::ActionKv;
use actionkv::StoreError;

fn get_value(kv: &ActionKv, key: &[u8]) -> Option<Vec<u8>> {
    match kv.get(key) {
        Ok(found) => found,
        Err(_) => panic!("get reported an error"),
    }
}

#[test]
fn round_trip_insert_get() {
    let mut kv = ActionKv::open(Vec::new());
    let off = kv.insert(b"alpha", b"first value");
    assert_eq!(off, 0);
    assert_eq!(get_value(&kv, b"alpha"), Some(b"first value".to_vec()));
}

#[test]
fn round_trip_empty_key() {
    let mut kv = ActionKv::open(Vec::new());
    kv.insert(b"", b"anonymous");
    assert_eq!(get_value(&kv, b""), Some(b"anonymous".to_vec()));
}

#[test]
fn get_missing_key_is_none() {
    let mut kv = ActionKv::open(Vec::new());
    kv.insert(b"present", b"1");
    assert_eq!(get_value(&kv, b"absent"), None);
}

#[test]
fn last_write_wins_in_get_and_find() {
    let mut kv = ActionKv::open(Vec::new());
    kv.insert(b"k", b"A");
    let second = kv.insert(b"k", b"B");
    assert_eq!(get_value(&kv, b"k"), Some(b"B".to_vec()));
    match kv.find(b"k") {
        Ok(Some((offset, value))) => {
            assert_eq!(offset, second);
            assert_eq!(value, b"B".to_vec());
        },
        _ => panic!("find missed the key"),
    }
}

#[test]
fn update_behaves_as_insert() {
    let mut kv = ActionKv::open(Vec::new());
    kv.insert(b"k", b"old");
    kv.update(b"k", b"new");
    assert_eq!(get_value(&kv, b"k"), Some(b"new".to_vec()));
}

#[test]
fn tombstone_reads_as_empty_value() {
    let mut kv = ActionKv::open(Vec::new());
    kv.insert(b"k", b"v");
    kv.delete(b"k");
    assert_eq!(get_value(&kv, b"k"), Some(Vec::new()));
}

#[test]
fn find_missing_key_is_none() {
    let mut kv = ActionKv::open(Vec::new());
    kv.insert(b"k", b"v");
    match kv.find(b"other") {
        Ok(None) => {},
        _ => panic!("expected no match"),
    }
}

#[test]
fn seek_to_end_reports_append_position() {
    let mut kv = ActionKv::open(Vec::new());
    assert_eq!(kv.seek_to_end(), 0);
    kv.insert(b"ab", b"cde");
    assert_eq!(kv.seek_to_end(), 12 + 2 + 3);
    let off = kv.insert(b"x", b"y");
    assert_eq!(off, 17);
    assert_eq!(kv.seek_to_end(), 17 + 12 + 2);
}

#[test]
fn insert_but_ignore_index_defers_visibility() {
    let mut kv = ActionKv::open(Vec::new());
    let off = kv.insert_but_ignore_index(b"k", b"v");
    assert_eq!(off, 0);
    assert_eq!(get_value(&kv, b"k"), None);
    assert!(kv.load().is_ok());
    assert_eq!(get_value(&kv, b"k"), Some(b"v".to_vec()));
}

#[test]
fn get_at_returns_record_at_offset() {
    let mut kv = ActionKv::open(Vec::new());
    kv.insert(b"one", b"1");
    let off = kv.insert(b"two", b"22");
    match kv.get_at(off) {
        Ok(pair) => {
            assert_eq!(pair.key, b"two".to_vec());
            assert_eq!(pair.value, b"22".to_vec());
        },
        Err(_) => panic!("get_at failed"),
    }
}

#[test]
fn get_at_past_end_is_unexpected_end() {
    let mut kv = ActionKv::open(Vec::new());
    kv.insert(b"k", b"v");
    let end = kv.seek_to_end();
    match kv.get_at(end) {
        Err(StoreError::UnexpectedEnd { offset }) => assert_eq!(offset, end),
        _ => panic!("expected the end-of-log error"),
    }
    match kv.get_at(end + 40) {
        Err(StoreError::UnexpectedEnd { offset }) => assert_eq!(offset, end + 40),
        _ => panic!("expected the end-of-log error"),
    }
}

#[test]
fn replay_rebuilds_index_after_restart() {
    let mut kv = ActionKv::open(Vec::new());
    kv.insert(b"a", b"1");
    kv.insert(b"b", b"2");
    kv.update(b"a", b"3");
    kv.delete(b"b");
    kv.insert(b"c", b"4");
    let bytes = kv.log_bytes().clone();

    let mut reopened = ActionKv::open(bytes);
    assert_eq!(get_value(&reopened, b"a"), None);
    assert!(reopened.load().is_ok());
    assert_eq!(get_value(&reopened, b"a"), Some(b"3".to_vec()));
    assert_eq!(get_value(&reopened, b"b"), Some(Vec::new()));
    assert_eq!(get_value(&reopened, b"c"), Some(b"4".to_vec()));
    assert_eq!(get_value(&reopened, b"d"), None);
}

#[test]
fn load_is_idempotent() {
    let mut kv = ActionKv::open(Vec::new());
    kv.insert(b"a", b"1");
    kv.insert(b"a", b"2");
    assert!(kv.load().is_ok());
    assert!(kv.load().is_ok());
    assert_eq!(get_value(&kv, b"a"), Some(b"2".to_vec()));
}

#[test]
fn load_reports_corruption_with_progress() {
    let mut kv = ActionKv::open(Vec::new());
    kv.insert(b"a", b"1");
    let second = kv.insert(b"b", b"2");
    let mut bytes = kv.log_bytes().clone();
    let last = bytes.len() - 1;
    bytes[last] ^= 0x01;

    let mut reopened = ActionKv::open(bytes);
    match reopened.load() {
        Err(StoreError::DataCorruption { offset, stored, computed, records_before }) => {
            assert_eq!(offset, second);
            assert_ne!(stored, computed);
            assert_eq!(records_before, 1);
        },
        _ => panic!("corruption not reported"),
    }
    // the records before the corrupt one were recovered
    assert_eq!(get_value(&reopened, b"a"), Some(b"1".to_vec()));
    assert_eq!(get_value(&reopened, b"b"), None);
}

#[test]
fn bit_flips_in_record_body_are_detected() {
    let mut kv = ActionKv::open(Vec::new());
    kv.insert(b"key", b"value");
    let bytes = kv.log_bytes().clone();
    for i in 12..bytes.len() {
        for bit in 0..8 {
            let mut bad = bytes.clone();
            bad[i] ^= 1 << bit;
            let mut reopened = ActionKv::open(bad);
            match reopened.load() {
                Err(StoreError::DataCorruption { offset, records_before, .. }) => {
                    assert_eq!(offset, 0);
                    assert_eq!(records_before, 0);
                },
                _ => panic!("corruption not reported by load"),
            }
            assert!(matches!(
                reopened.get_at(0),
                Err(StoreError::DataCorruption { offset: 0, .. })
            ));
        }
    }
}

#[test]
fn find_reports_corruption() {
    let mut kv = ActionKv::open(Vec::new());
    kv.insert(b"k", b"v");
    let mut bytes = kv.log_bytes().clone();
    bytes[13] ^= 0x80;
    let reopened = ActionKv::open(bytes);
    assert!(matches!(reopened.find(b"k"), Err(StoreError::DataCorruption { offset: 0, .. })));
}

#[test]
fn truncated_tail_is_tolerated() {
    let mut kv = ActionKv::open(Vec::new());
    kv.insert(b"a", b"1");
    kv.insert(b"b", b"2");
    let base = kv.log_bytes().clone();
    let spare = actionkv::codec::encode(b"c", b"3");
    for cut in 1..spare.len() {
        let mut bytes = base.clone();
        bytes.extend_from_slice(&spare[0..cut]);
        let mut reopened = ActionKv::open(bytes);
        assert!(reopened.load().is_ok());
        assert_eq!(get_value(&reopened, b"a"), Some(b"1".to_vec()));
        assert_eq!(get_value(&reopened, b"b"), Some(b"2".to_vec()));
        assert_eq!(get_value(&reopened, b"c"), None);
    }
}

#[test]
fn scenario_inserts_update_and_delete() {
    let mut kv = ActionKv::open(Vec::new());
    kv.insert(b"alpha", b"1");
    kv.insert(b"beta", b"2");
    let third = kv.insert(b"alpha", b"3");
    kv.delete(b"beta");

    assert_eq!(get_value(&kv, b"alpha"), Some(b"3".to_vec()));
    assert_eq!(get_value(&kv, b"beta"), Some(Vec::new()));
    match kv.find(b"alpha") {
        Ok(Some((offset, value))) => {
            assert_eq!(offset, third);
            assert_eq!(value, b"3".to_vec());
        },
        _ => panic!("find missed alpha"),
    }

    let mut reopened = ActionKv::open(kv.log_bytes().clone());
    assert!(reopened.load().is_ok());
    assert_eq!(get_value(&reopened, b"alpha"), Some(b"3".to_vec()));
    assert_eq!(get_value(&reopened, b"beta"), Some(Vec::new()));
    match reopened.find(b"alpha") {
        Ok(Some((offset, value))) => {
            assert_eq!(offset, third);
            assert_eq!(value, b"3".to_vec());
        },
        _ => panic!("find missed alpha after reload"),
    }
}
