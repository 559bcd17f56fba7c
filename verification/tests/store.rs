use walstore::kv::KVStore;
use walstore::wal::{serialize, LogRecord};

/// Routes a mutation as the store's owner does: append the record's frame
/// durably to the log (here an in-memory byte buffer standing for the file),
/// then update the map.
fn set_through_log(log: &mut Vec<u8>, store: &mut KVStore, key: &[u8], value: &[u8]) {
    let frame = serialize(&LogRecord {
        key: key.to_vec(),
        value: value.to_vec(),
    });
    log.extend_from_slice(&frame);
    store.set(key.to_vec(), value.to_vec());
}

#[test]
fn test_set_and_get() {
    let mut log: Vec<u8> = Vec::new();
    let mut store = KVStore::open(&log);

    set_through_log(&mut log, &mut store, b"key1", b"value1");

    assert_eq!(store.get(b"key1"), Some(&b"value1".to_vec()));
    assert_eq!(store.len(), 1);
}

#[test]
fn test_recovery() {
    let mut log: Vec<u8> = Vec::new();
    {
        let mut store = KVStore::open(&log);
        set_through_log(&mut log, &mut store, b"key1", b"value1");
        set_through_log(&mut log, &mut store, b"key2", b"value2");
        set_through_log(&mut log, &mut store, b"key1", b"value1_updated");
    }

    let recovered_store = KVStore::open(&log);

    assert_eq!(recovered_store.len(), 2);
    assert_eq!(recovered_store.get(b"key1"), Some(&b"value1_updated".to_vec()));
    assert_eq!(recovered_store.get(b"key2"), Some(&b"value2".to_vec()));
}

#[test]
fn test_compaction() {
    let mut log: Vec<u8> = Vec::new();
    let mut store = KVStore::open(&log);

    set_through_log(&mut log, &mut store, b"test_key", b"initial_value");

    for i in 0..100 {
        let value = format!("value_{}", i).into_bytes();
        set_through_log(&mut log, &mut store, b"test_key", &value);
    }

    let size_before = log.len();

    let compacted = store.compact();
    let size_after = compacted.len();

    assert!(size_after < size_before, "Compaction should reduce file size");
    assert_eq!(store.len(), 1);
    assert_eq!(store.get(b"test_key"), Some(&b"value_99".to_vec()));

    drop(store);

    let final_store = KVStore::open(&compacted);
    assert_eq!(final_store.len(), 1);
    assert_eq!(final_store.get(b"test_key"), Some(&b"value_99".to_vec()));
}

#[test]
fn test_example_scenario() {
    let mut log: Vec<u8> = Vec::new();
    let mut store = KVStore::open(&log);

    set_through_log(&mut log, &mut store, b"k1", b"v1");
    set_through_log(&mut log, &mut store, b"k2", b"v2");
    set_through_log(&mut log, &mut store, b"k1", b"v1b");

    assert_eq!(store.len(), 2);
    assert_eq!(store.get(b"k1"), Some(&b"v1b".to_vec()));
    assert_eq!(store.get(b"k2"), Some(&b"v2".to_vec()));

    drop(store);

    let reopened = KVStore::open(&log);
    assert_eq!(reopened.len(), 2);
    assert_eq!(reopened.get(b"k1"), Some(&b"v1b".to_vec()));
    assert_eq!(reopened.get(b"k2"), Some(&b"v2".to_vec()));
}

#[test]
fn test_get_absent_key() {
    let log: Vec<u8> = Vec::new();
    let store = KVStore::open(&log);
    assert_eq!(store.get(b"missing"), None);
    assert_eq!(store.len(), 0);
}

#[test]
fn test_durability_per_set() {
    // After each simulated durable append, reopening the log recovers the
    // key's latest value.
    let mut log: Vec<u8> = Vec::new();
    let mut store = KVStore::open(&log);
    for i in 0..10 {
        let key = format!("key_{}", i % 3).into_bytes();
        let value = format!("value_{}", i).into_bytes();
        set_through_log(&mut log, &mut store, &key, &value);

        let reopened = KVStore::open(&log);
        assert_eq!(reopened.get(&key), Some(&value));
    }
}

#[test]
fn test_crash_tail_tolerance() {
    // A multi-record log cut at any byte offset opens without error and
    // yields exactly the records whose frames lie wholly before the cut.
    let records: [(&[u8], &[u8]); 3] = [(b"alpha", b"1"), (b"beta", b"22"), (b"gamma", b"333")];

    let mut log: Vec<u8> = Vec::new();
    let mut frame_ends: Vec<usize> = Vec::new();
    for (key, value) in records.iter() {
        let frame = serialize(&LogRecord {
            key: key.to_vec(),
            value: value.to_vec(),
        });
        log.extend_from_slice(&frame);
        frame_ends.push(log.len());
    }

    for cut in 0..=log.len() {
        let store = KVStore::open(&log[..cut]);
        let whole_frames = frame_ends.iter().filter(|&&end| end <= cut).count();
        assert_eq!(store.len(), whole_frames);
        for (i, (key, value)) in records.iter().enumerate() {
            if i < whole_frames {
                assert_eq!(store.get(key), Some(&value.to_vec()));
            } else {
                assert_eq!(store.get(key), None);
            }
        }
    }
}

#[test]
fn test_corrupt_tail_swallowed() {
    // Corruption in the last frame ends recovery there; earlier records
    // survive and no error surfaces.
    let mut log: Vec<u8> = Vec::new();
    let mut store = KVStore::open(&log);
    set_through_log(&mut log, &mut store, b"good", b"kept");
    let tail_start = log.len();
    set_through_log(&mut log, &mut store, b"bad", b"lost");
    log[tail_start + 25] ^= 0x40;

    let reopened = KVStore::open(&log);
    assert_eq!(reopened.len(), 1);
    assert_eq!(reopened.get(b"good"), Some(&b"kept".to_vec()));
    assert_eq!(reopened.get(b"bad"), None);
}

#[test]
fn test_compaction_preserves_every_key() {
    let mut log: Vec<u8> = Vec::new();
    let mut store = KVStore::open(&log);
    for i in 0..20 {
        let key = format!("key_{}", i % 5).into_bytes();
        let value = format!("value_{}", i).into_bytes();
        set_through_log(&mut log, &mut store, &key, &value);
    }
    assert_eq!(store.len(), 5);

    let compacted = store.compact();
    assert!(compacted.len() < log.len());

    let reopened = KVStore::open(&compacted);
    assert_eq!(reopened.len(), 5);
    for k in 0..5 {
        let key = format!("key_{}", k).into_bytes();
        let latest = format!("value_{}", 15 + k).into_bytes();
        assert_eq!(reopened.get(&key), Some(&latest));
    }
}

#[test]
fn test_overwrite_keeps_count() {
    let mut log: Vec<u8> = Vec::new();
    let mut store = KVStore::open(&log);
    set_through_log(&mut log, &mut store, b"k", b"first");
    set_through_log(&mut log, &mut store, b"k", b"second");
    set_through_log(&mut log, &mut store, b"k", b"third");
    // Three frames in the log, one live key in the map.
    assert_eq!(store.len(), 1);
    assert_eq!(store.get(b"k"), Some(&b"third".to_vec()));
}
