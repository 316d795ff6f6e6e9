use std::collections::BTreeMap;

use kvs::kv::{Effect, KvStore, Segment};
use kvs::KvError;

/// A directory mirror: applies the journal of file effects the way a host
/// applies them to real files.
fn apply_effects(files: &mut BTreeMap<u64, Vec<u8>>, effects: Vec<Effect>) {
    for e in effects {
        match e {
            Effect::Create { gen } => {
                files.entry(gen).or_insert_with(Vec::new);
            }
            Effect::Append { gen, bytes } => {
                files.get_mut(&gen).expect("append to a missing segment").extend_from_slice(&bytes);
            }
            Effect::Delete { gen } => {
                files.remove(&gen);
            }
        }
    }
}

fn mirror(files: &BTreeMap<u64, Vec<u8>>) -> Vec<Segment> {
    files.iter().map(|(gen, data)| Segment { gen: *gen, data: data.clone() }).collect()
}

fn fresh() -> (KvStore, BTreeMap<u64, Vec<u8>>) {
    let mut store = KvStore::open(Vec::new()).expect("open on an empty directory");
    let mut files = BTreeMap::new();
    apply_effects(&mut files, store.take_effects());
    (store, files)
}

fn sync(store: &mut KvStore, files: &mut BTreeMap<u64, Vec<u8>>) {
    apply_effects(files, store.take_effects());
}

#[test]
fn set_then_get() {
    let (mut store, _files) = fresh();
    store.set("k1".to_string(), "v1".to_string()).unwrap();
    assert_eq!(store.get("k1".to_string()).unwrap(), Some("v1".to_string()));
    assert_eq!(store.get("missing".to_string()).unwrap(), None);
}

#[test]
fn overwrite_then_remove() {
    let (mut store, _files) = fresh();
    store.set("k".to_string(), "v1".to_string()).unwrap();
    store.set("k".to_string(), "v2".to_string()).unwrap();
    assert_eq!(store.get("k".to_string()).unwrap(), Some("v2".to_string()));
    store.remove("k".to_string()).unwrap();
    assert_eq!(store.get("k".to_string()).unwrap(), None);
    match store.remove("k".to_string()) {
        Err(KvError::KeyNotFound) => {}
        other => panic!("expected KeyNotFound, got {:?}", other),
    }
}

#[test]
fn remove_absent_writes_nothing() {
    let (mut store, mut files) = fresh();
    store.set("a".to_string(), "1".to_string()).unwrap();
    sync(&mut store, &mut files);
    let before = files.clone();
    match store.remove("zzz".to_string()) {
        Err(KvError::KeyNotFound) => {}
        other => panic!("expected KeyNotFound, got {:?}", other),
    }
    sync(&mut store, &mut files);
    assert_eq!(before, files);
}

#[test]
fn empty_value_is_kept() {
    let (mut store, _files) = fresh();
    store.set("a".to_string(), "".to_string()).unwrap();
    assert_eq!(store.get("a".to_string()).unwrap(), Some("".to_string()));
}

#[test]
fn exotic_keys_and_values_are_kept() {
    let (mut store, mut files) = fresh();
    let key = "k y\t\"quoted\" \u{00fc}\u{1f600}".to_string();
    let value = "v\n\"als\u{00f6}\" \u{2603}".to_string();
    store.set(key.clone(), value.clone()).unwrap();
    assert_eq!(store.get(key.clone()).unwrap(), Some(value.clone()));
    sync(&mut store, &mut files);
    drop(store);
    let mut reopened = KvStore::open(mirror(&files)).expect("reopen");
    assert_eq!(reopened.get(key).unwrap(), Some(value));
    let _ = reopened.take_effects();
}

#[test]
fn set_is_idempotent_for_gets() {
    let (mut store, _files) = fresh();
    store.set("k".to_string(), "v".to_string()).unwrap();
    store.set("k".to_string(), "v".to_string()).unwrap();
    assert_eq!(store.get("k".to_string()).unwrap(), Some("v".to_string()));
}

#[test]
fn thousand_keys_survive_reopen() {
    let (mut store, mut files) = fresh();
    for i in 1..=1000u32 {
        store.set(format!("key{}", i), format!("value{}", i)).unwrap();
    }
    sync(&mut store, &mut files);
    drop(store);
    let store2 = KvStore::open(mirror(&files)).expect("reopen");
    assert_eq!(store2.get("key500".to_string()).unwrap(), Some("value500".to_string()));
}

#[test]
fn ten_thousand_overwrites_stay_compact() {
    let (mut store, mut files) = fresh();
    for i in 1..=10000u32 {
        store.set(format!("key{}", i), format!("value{}", i)).unwrap();
    }
    for i in 1..=10000u32 {
        store.set(format!("key{}", i), format!("VALUE{}", i)).unwrap();
    }
    assert_eq!(store.get("key1".to_string()).unwrap(), Some("VALUE1".to_string()));
    assert!(store.segment_count() <= 2, "segment count {}", store.segment_count());
    sync(&mut store, &mut files);
}

#[test]
fn removes_survive_reopen() {
    let (mut store, mut files) = fresh();
    store.set("a".to_string(), "1".to_string()).unwrap();
    store.set("b".to_string(), "2".to_string()).unwrap();
    store.remove("a".to_string()).unwrap();
    sync(&mut store, &mut files);
    drop(store);
    let store2 = KvStore::open(mirror(&files)).expect("reopen");
    assert_eq!(store2.get("a".to_string()).unwrap(), None);
    assert_eq!(store2.get("b".to_string()).unwrap(), Some("2".to_string()));
}

#[test]
fn compaction_reclaims_overwritten_space() {
    let (mut store, mut files) = fresh();
    let value: String = std::iter::repeat('x').take(1024).collect();
    for i in 0..2000u32 {
        store.set(format!("key{}", i), value.clone()).unwrap();
    }
    let value2: String = std::iter::repeat('y').take(1024).collect();
    for i in 0..2000u32 {
        store.set(format!("key{}", i), value2.clone()).unwrap();
    }
    sync(&mut store, &mut files);
    for i in 0..2000u32 {
        assert_eq!(store.get(format!("key{}", i)).unwrap(), Some(value2.clone()));
    }
    // At least one compaction ran: the original segment is gone, and only
    // the compaction segment and the active one remain.
    let gens = store.segment_gens();
    assert!(!gens.contains(&1), "first segment should have been deleted: {:?}", gens);
    assert!(gens.len() <= 2, "segments left: {:?}", gens);
    // The mirrored directory agrees with the store's own layout.
    let disk_gens: Vec<u64> = files.keys().cloned().collect();
    assert_eq!(gens, disk_gens);
}

#[test]
fn reopen_after_every_kind_of_mutation_matches() {
    let (mut store, mut files) = fresh();
    store.set("one".to_string(), "1".to_string()).unwrap();
    store.set("two".to_string(), "2".to_string()).unwrap();
    store.set("one".to_string(), "uno".to_string()).unwrap();
    store.remove("two".to_string()).unwrap();
    store.set("three".to_string(), "3".to_string()).unwrap();
    sync(&mut store, &mut files);
    let before = vec![
        ("one".to_string(), store.get("one".to_string()).unwrap()),
        ("two".to_string(), store.get("two".to_string()).unwrap()),
        ("three".to_string(), store.get("three".to_string()).unwrap()),
    ];
    drop(store);
    let store2 = KvStore::open(mirror(&files)).expect("reopen");
    for (key, expected) in before {
        assert_eq!(store2.get(key).unwrap(), expected);
    }
}

#[test]
fn corrupt_segment_fails_open() {
    let segments = vec![Segment { gen: 1, data: vec![9, 9, 9, 9, 9, 9, 9, 9, 9, 9] }];
    match KvStore::open(segments) {
        Err(KvError::Decode) => {}
        other => panic!("expected a decode error, got {:?}", other.map(|_| ())),
    }
}

#[test]
fn truncated_tail_is_tolerated() {
    let (mut store, mut files) = fresh();
    store.set("a".to_string(), "1".to_string()).unwrap();
    store.set("b".to_string(), "2".to_string()).unwrap();
    sync(&mut store, &mut files);
    drop(store);
    // Chop bytes off the end of the active segment: the partial trailing
    // record is dropped, the rest replays.
    let mut segments = mirror(&files);
    let last = segments.last_mut().unwrap();
    let n = last.data.len();
    last.data.truncate(n - 3);
    let store2 = KvStore::open(segments).expect("open with a truncated tail");
    assert_eq!(store2.get("a".to_string()).unwrap(), Some("1".to_string()));
    assert_eq!(store2.get("b".to_string()).unwrap(), None);
}

#[test]
fn stale_counter_stays_under_threshold() {
    let (mut store, _files) = fresh();
    let value: String = std::iter::repeat('z').take(4096).collect();
    for round in 0..3u32 {
        for i in 0..300u32 {
            store.set(format!("key{}", i), format!("{}{}", value, round)).unwrap();
        }
        assert!(store.stale_size() < 1048576);
    }
}
