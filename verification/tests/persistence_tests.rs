use noah_kv::persistence::{decode_snapshot, encode_snapshot, PersistenceManager, Snapshot};
use noah_kv::store::NanoEngine;
use noah_kv::NoahError;

#[test]
fn snapshot_round_trip_restores_entries() {
    let entries = vec![
        ("alpha".to_string(), b"one".to_vec()),
        ("empty".to_string(), vec![]),
        ("cl\u{e9}".to_string(), b"accent".to_vec()),
        ("\u{43a}\u{43b}\u{44e}\u{447}".to_string(), vec![0u8, 255, 128]),
    ];
    let snapshot = Snapshot { timestamp: 1700000000, data: entries.clone() };
    let bytes = encode_snapshot(&snapshot);
    let restored = decode_snapshot(&bytes).expect("an encoded snapshot decodes");
    assert_eq!(restored.timestamp, 1700000000);
    assert_eq!(restored.data, entries);
}

#[test]
fn empty_snapshot_round_trips() {
    let snapshot = Snapshot { timestamp: 0, data: vec![] };
    let bytes = encode_snapshot(&snapshot);
    assert_eq!(bytes.len(), 16);
    let restored = decode_snapshot(&bytes).expect("an empty snapshot decodes");
    assert_eq!(restored.timestamp, 0);
    assert!(restored.data.is_empty());
}

#[test]
fn encode_layout_is_exact() {
    let snapshot = Snapshot { timestamp: 1, data: vec![("a".to_string(), vec![49u8])] };
    let bytes = encode_snapshot(&snapshot);
    let mut expected = vec![1u8, 0, 0, 0, 0, 0, 0, 0]; // timestamp
    expected.extend_from_slice(&[1, 0, 0, 0, 0, 0, 0, 0]); // entry count
    expected.extend_from_slice(&[1, 0, 0, 0, 0, 0, 0, 0]); // key length
    expected.push(b'a');
    expected.extend_from_slice(&[1, 0, 0, 0, 0, 0, 0, 0]); // value length
    expected.push(49);
    assert_eq!(bytes, expected);
}

#[test]
fn truncated_snapshot_is_an_error() {
    let err = decode_snapshot(&vec![1, 2, 3]).unwrap_err();
    assert!(matches!(err, NoahError::InvalidOperation(_)));
}

#[test]
fn trailing_garbage_is_an_error() {
    let snapshot = Snapshot { timestamp: 9, data: vec![("k".to_string(), b"v".to_vec())] };
    let mut bytes = encode_snapshot(&snapshot);
    bytes.push(0);
    assert!(matches!(decode_snapshot(&bytes), Err(NoahError::InvalidOperation(_))));
}

#[test]
fn invalid_utf8_key_is_an_error() {
    // One entry whose key bytes are not valid UTF-8.
    let mut bytes = vec![0u8; 8]; // timestamp
    bytes.extend_from_slice(&[1, 0, 0, 0, 0, 0, 0, 0]); // entry count
    bytes.extend_from_slice(&[2, 0, 0, 0, 0, 0, 0, 0]); // key length
    bytes.extend_from_slice(&[0xff, 0xfe]); // not UTF-8
    bytes.extend_from_slice(&[0, 0, 0, 0, 0, 0, 0, 0]); // value length
    assert!(matches!(decode_snapshot(&bytes), Err(NoahError::InvalidOperation(_))));
}

#[test]
fn manager_builds_the_well_known_paths() {
    let manager = PersistenceManager::new("./data");
    assert_eq!(manager.snapshot_path(), "./data/snapshot.rdb");
    assert_eq!(manager.aof_path(), "./data/appendonly.aof");
}

#[test]
fn save_then_load_restores_entries() {
    let manager = PersistenceManager::new("./data");
    let entries = vec![("k".to_string(), b"v".to_vec()), ("q".to_string(), vec![])];
    let bytes = manager.save_snapshot(42, entries.clone());
    let loaded = manager.load_snapshot(Some(bytes)).expect("saved bytes load");
    assert_eq!(loaded, entries);
}

#[test]
fn missing_snapshot_file_is_a_fresh_start() {
    let manager = PersistenceManager::new("./data");
    let loaded = manager.load_snapshot(None).expect("no file is not an error");
    assert!(loaded.is_empty());
}

#[test]
fn checkpoint_then_restart_restores_the_store() {
    let manager = PersistenceManager::new("./data");
    let mut engine = NanoEngine::new();
    for i in 0..100 {
        engine.set(&format!("key_{}", i), format!("value_{}", i).into_bytes());
    }
    engine.delete("key_50");

    // A checkpoint tick: dump everything, encode it.
    let bytes = manager.save_snapshot(7, engine.get_all_data());

    // A restart: load the bytes and seed a fresh engine.
    let mut restarted = NanoEngine::new();
    for (key, value) in manager.load_snapshot(Some(bytes)).expect("snapshot loads") {
        restarted.set(&key, value);
    }
    assert_eq!(restarted.get("key_0"), Some(b"value_0".to_vec()));
    assert_eq!(restarted.get("key_99"), Some(b"value_99".to_vec()));
    assert_eq!(restarted.get("key_50"), None);
    assert_eq!(restarted.list_keys("").len(), 99);
}

#[test]
fn corrupt_snapshot_file_is_fatal() {
    let manager = PersistenceManager::new("./data");
    assert!(matches!(
        manager.load_snapshot(Some(vec![0xde, 0xad])),
        Err(NoahError::InvalidOperation(_))
    ));
}
