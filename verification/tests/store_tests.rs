//! End-to-end tests of the storage engine over in-memory segments.

use kvs::{KvStore, KvsError, Segment};

fn open_empty() -> KvStore {
    KvStore::open(Vec::new()).expect("open of an empty directory succeeds")
}

#[test]
fn set_then_get() {
    let mut store = open_empty();
    store.set("a".to_string(), "1".to_string()).unwrap();
    assert_eq!(store.get("a".to_string()).unwrap(), Some("1".to_string()));
    assert_eq!(store.get("b".to_string()).unwrap(), None);
}

#[test]
fn overwrite_remove_and_remove_again() {
    let mut store = open_empty();
    store.set("a".to_string(), "1".to_string()).unwrap();
    store.set("a".to_string(), "2".to_string()).unwrap();
    assert_eq!(store.get("a".to_string()).unwrap(), Some("2".to_string()));
    store.remove("a".to_string()).unwrap();
    assert_eq!(store.get("a".to_string()).unwrap(), None);
    assert_eq!(store.remove("a".to_string()), Err(KvsError::KeyNotFound));
}

#[test]
fn remove_missing_key_fails() {
    let mut store = open_empty();
    assert_eq!(store.remove("ghost".to_string()), Err(KvsError::KeyNotFound));
}

#[test]
fn hundred_keys_survive_reopen() {
    let mut store = open_empty();
    let value: String = "v".repeat(10_000);
    for i in 0..100 {
        store.set(format!("k{}", i), value.clone()).unwrap();
    }
    let files: Vec<Segment> = store.disk_files().clone();
    let mut reopened = KvStore::open(files).expect("replay succeeds");
    for i in 0..100 {
        assert_eq!(reopened.get(format!("k{}", i)).unwrap(), Some(value.clone()));
    }
    assert_eq!(reopened.get("k100".to_string()).unwrap(), None);
}

#[test]
fn reopen_after_removals_keeps_only_live_keys() {
    let mut store = open_empty();
    for i in 0..20 {
        store.set(format!("k{}", i), format!("v{}", i)).unwrap();
    }
    for i in 0..10 {
        store.remove(format!("k{}", i)).unwrap();
    }
    let mut reopened = KvStore::open(store.disk_files().clone()).unwrap();
    for i in 0..10 {
        assert_eq!(reopened.get(format!("k{}", i)).unwrap(), None);
    }
    for i in 10..20 {
        assert_eq!(reopened.get(format!("k{}", i)).unwrap(), Some(format!("v{}", i)));
    }
}

#[test]
fn compaction_bounds_disk_size() {
    let mut store = open_empty();
    let value: String = "x".repeat(10_000);
    for _ in 0..10_000 {
        store.set("k".to_string(), value.clone()).unwrap();
    }
    assert_eq!(store.get("k".to_string()).unwrap(), Some(value));
    // S4: far below 5 MB once compaction keeps reclaiming dead bytes
    assert!(store.disk_size() < 5 * 1024 * 1024, "disk size {}", store.disk_size());
}

#[test]
fn reads_stay_correct_across_compactions() {
    let mut store = open_empty();
    let filler: String = "f".repeat(50_000);
    store.set("stable".to_string(), "pinned".to_string()).unwrap();
    for round in 0..100 {
        store.set("churn".to_string(), filler.clone()).unwrap();
        // the stable key answers correctly before, across and after
        // every compaction the churn triggers
        assert_eq!(
            store.get("stable".to_string()).unwrap(),
            Some("pinned".to_string()),
            "round {}",
            round
        );
    }
    assert_eq!(store.get("churn".to_string()).unwrap(), Some(filler));
}

#[test]
fn durability_across_many_compactions() {
    let mut store = open_empty();
    let filler: String = "f".repeat(20_000);
    for i in 0..300 {
        store.set(format!("key{}", i % 7), filler.clone()).unwrap();
        store.set("fixed".to_string(), format!("gen{}", i)).unwrap();
    }
    store.remove("key0".to_string()).unwrap();
    let mut reopened = KvStore::open(store.disk_files().clone()).unwrap();
    assert_eq!(reopened.get("fixed".to_string()).unwrap(), Some("gen299".to_string()));
    assert_eq!(reopened.get("key0".to_string()).unwrap(), None);
    assert_eq!(reopened.get("key1".to_string()).unwrap(), Some(filler));
}

#[test]
fn unicode_and_escaped_keys_round_trip() {
    let mut store = open_empty();
    let key = "k\"quote\\slash\nnewline\u{1F600}".to_string();
    let val = "v\u{0007}bell\tand ünïcode".to_string();
    store.set(key.clone(), val.clone()).unwrap();
    assert_eq!(store.get(key.clone()).unwrap(), Some(val.clone()));
    let mut reopened = KvStore::open(store.disk_files().clone()).unwrap();
    assert_eq!(reopened.get(key).unwrap(), Some(val));
}

#[test]
fn empty_key_and_value_are_stored() {
    let mut store = open_empty();
    store.set(String::new(), String::new()).unwrap();
    assert_eq!(store.get(String::new()).unwrap(), Some(String::new()));
    store.remove(String::new()).unwrap();
    assert_eq!(store.get(String::new()).unwrap(), None);
}

#[test]
fn open_rejects_corrupt_segment() {
    let files = vec![Segment { gen: 1, data: b"{\"Set\":{\"key\":\"a\",\"value\":\"1\"".to_vec() }];
    match KvStore::open(files) {
        Err(KvsError::Serde(_)) => {}
        Err(other) => panic!("expected a Serde error, got {:?}", other),
        Ok(_) => panic!("expected a Serde error, got a store"),
    }
}

#[test]
fn open_rejects_trailing_garbage() {
    let mut data = kvs::encode_command(&kvs::Command::SetCmd {
        key: "a".to_string(),
        value: "1".to_string(),
    });
    data.push(b'x');
    match KvStore::open(vec![Segment { gen: 1, data }]) {
        Err(KvsError::Serde(_)) => {}
        Err(other) => panic!("expected a Serde error, got {:?}", other),
        Ok(_) => panic!("expected a Serde error, got a store"),
    }
}

#[test]
fn open_replays_handwritten_log() {
    // a log written record by record, as the store itself would write it
    let mut data = Vec::new();
    data.extend(kvs::encode_command(&kvs::Command::SetCmd {
        key: "a".to_string(),
        value: "1".to_string(),
    }));
    data.extend(kvs::encode_command(&kvs::Command::SetCmd {
        key: "b".to_string(),
        value: "2".to_string(),
    }));
    data.extend(kvs::encode_command(&kvs::Command::Rm { key: "a".to_string() }));
    let mut store = KvStore::open(vec![Segment { gen: 3, data }]).unwrap();
    assert_eq!(store.get("a".to_string()).unwrap(), None);
    assert_eq!(store.get("b".to_string()).unwrap(), Some("2".to_string()));
}

#[test]
fn compacted_segment_is_key_ordered() {
    let mut store = open_empty();
    let filler: String = "z".repeat(600_000);
    store.set("b".to_string(), "vb".to_string()).unwrap();
    store.set("a".to_string(), "va".to_string()).unwrap();
    store.set("c".to_string(), "vc".to_string()).unwrap();
    // two large overwritten values push `uncompacted` past the threshold
    store.set("big".to_string(), filler.clone()).unwrap();
    store.set("big".to_string(), filler.clone()).unwrap();
    store.set("big".to_string(), "small".to_string()).unwrap();
    assert_eq!(store.get("a".to_string()).unwrap(), Some("va".to_string()));
    // after compaction the oldest segment holds the live records in
    // ascending key order
    let files = store.disk_files().clone();
    let first = &files[0];
    let mut expected = Vec::new();
    expected.extend(kvs::encode_command(&kvs::Command::SetCmd {
        key: "a".to_string(),
        value: "va".to_string(),
    }));
    assert_eq!(&first.data[..expected.len()], &expected[..]);
}
