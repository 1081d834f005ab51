use kvs::errors::KvsError;
use kvs::kv_store::KvStore;
use kvs::log::SegmentFile;

fn snapshot(store: &KvStore) -> Vec<SegmentFile> {
    store
        .segments()
        .iter()
        .map(|s| SegmentFile { seq_id: s.seq_id, data: s.data.clone() })
        .collect()
}

// Should get previously stored value
#[test]
fn get_stored_value() {
    let mut store = KvStore::new();

    store.set("key1", "value1").unwrap();
    store.set("key2", "value2").unwrap();

    assert_eq!(store.get("key1").unwrap(), Some("value1".to_string()));
    assert_eq!(store.get("key2").unwrap(), Some("value2".to_string()));
}

// Should overwrite existent value
#[test]
fn overwrite_value() {
    let mut store = KvStore::new();

    store.set("key1", "value1").unwrap();
    assert_eq!(store.get("key1").unwrap(), Some("value1".to_string()));

    store.set("key1", "value2").unwrap();
    assert_eq!(store.get("key1").unwrap(), Some("value2".to_string()));
}

// Should get `None` when getting a non-existent key
#[test]
fn get_non_existent_value() {
    let mut store = KvStore::new();

    store.set("key1", "value1").unwrap();
    assert_eq!(store.get("key2").unwrap(), None);
}

#[test]
fn remove_key() {
    let mut store = KvStore::new();

    store.set("key1", "value1").unwrap();
    store.remove("key1").unwrap();
    assert_eq!(store.get("key1").unwrap(), None);
}

#[test]
fn basic_set_get() {
    let mut store = KvStore::new();
    store.set("a", "1").unwrap();
    store.set("b", "2").unwrap();
    assert_eq!(store.get("a").unwrap(), Some("1".to_string()));
    assert_eq!(store.get("b").unwrap(), Some("2".to_string()));
    assert_eq!(store.get("c").unwrap(), None);
}

#[test]
fn overwrite_and_remove() {
    let mut store = KvStore::new();
    store.set("k", "v1").unwrap();
    store.set("k", "v2").unwrap();
    assert_eq!(store.get("k").unwrap(), Some("v2".to_string()));
    store.remove("k").unwrap();
    assert_eq!(store.get("k").unwrap(), None);
    assert_eq!(store.remove("k"), Err(KvsError::KeyNotFound));
}

#[test]
fn remove_absent_key_fails() {
    let mut store = KvStore::new();
    assert_eq!(store.remove("missing"), Err(KvsError::KeyNotFound));
}

#[test]
fn reopen_preserves_data() {
    let mut store = KvStore::new();
    store.set("x", "y").unwrap();
    let files = snapshot(&store);
    drop(store);
    let store2 = KvStore::open(files).unwrap();
    assert_eq!(store2.get("x").unwrap(), Some("y".to_string()));
}

#[test]
fn reopen_preserves_removals_and_overwrites() {
    let mut store = KvStore::new();
    store.set("a", "1").unwrap();
    store.set("b", "2").unwrap();
    store.set("a", "3").unwrap();
    store.remove("b").unwrap();
    let files = snapshot(&store);
    let store2 = KvStore::open(files).unwrap();
    assert_eq!(store2.get("a").unwrap(), Some("3".to_string()));
    assert_eq!(store2.get("b").unwrap(), None);
    assert_eq!(store2.get("c").unwrap(), None);
}

#[test]
fn large_value_roundtrip() {
    let big = "A".repeat(10_000);
    let mut store = KvStore::new();
    store.set("k", &big).unwrap();
    assert_eq!(store.get("k").unwrap(), Some(big.clone()));
    let files = snapshot(&store);
    let store2 = KvStore::open(files).unwrap();
    assert_eq!(store2.get("k").unwrap(), Some(big));
}

#[test]
fn multibyte_keys_and_values_roundtrip() {
    let mut store = KvStore::new();
    store.set("clé", "värde 🗝").unwrap();
    assert_eq!(store.get("clé").unwrap(), Some("värde 🗝".to_string()));
    let files = snapshot(&store);
    let store2 = KvStore::open(files).unwrap();
    assert_eq!(store2.get("clé").unwrap(), Some("värde 🗝".to_string()));
}

#[test]
fn compaction_trigger() {
    let mut store = KvStore::new();
    let first_id = store.segments().first().unwrap().seq_id;
    let mut stale_removed = false;
    let mut bytes_reclaimed = false;
    let mut max_bytes = 0usize;
    let mut last = String::new();
    for i in 0..100_000u32 {
        last = format!("{}", i);
        store.set("k", &last).unwrap();
        if !store.segments().iter().any(|s| s.seq_id == first_id) {
            stale_removed = true;
        }
        let total: usize = store.segments().iter().map(|s| s.data.len()).sum();
        if total < max_bytes {
            bytes_reclaimed = true;
        }
        if total > max_bytes {
            max_bytes = total;
        }
    }
    assert!(stale_removed, "the initial segment was never discarded");
    assert!(bytes_reclaimed, "compaction never reclaimed space");
    assert_eq!(store.get("k").unwrap(), Some(last.clone()));
    let files = snapshot(&store);
    let store2 = KvStore::open(files).unwrap();
    assert_eq!(store2.get("k").unwrap(), Some(last));
}

#[test]
fn compaction_preserves_all_live_keys() {
    let mut store = KvStore::new();
    let filler = "z".repeat(4_096);
    for i in 0..400u32 {
        store.set(&format!("key{}", i % 8), &format!("{}{}", filler, i)).unwrap();
    }
    for i in 0..8u32 {
        let got = store.get(&format!("key{}", i)).unwrap();
        assert!(got.is_some());
    }
    let files = snapshot(&store);
    let store2 = KvStore::open(files).unwrap();
    for i in 0..8u32 {
        assert_eq!(
            store2.get(&format!("key{}", i)).unwrap(),
            store.get(&format!("key{}", i)).unwrap()
        );
    }
}

#[test]
fn segment_ids_strictly_increase() {
    let mut store = KvStore::new();
    let filler = "y".repeat(65_536);
    let mut highest_seen = 0u64;
    for i in 0..40u32 {
        store.set("k", &format!("{}{}", filler, i)).unwrap();
        let ids: Vec<u64> = store.segments().iter().map(|s| s.seq_id).collect();
        for w in ids.windows(2) {
            assert!(w[0] < w[1], "segment ids out of order");
        }
        let top = *ids.last().unwrap();
        assert!(top >= highest_seen, "active segment id went backwards");
        highest_seen = top;
    }
}

#[test]
fn torn_tail_is_tolerated() {
    let mut store = KvStore::new();
    store.set("a", "1").unwrap();
    store.set("b", "2").unwrap();
    let mut files = snapshot(&store);
    drop(store);
    let active = files.last_mut().unwrap();
    let len = active.data.len();
    active.data.truncate(len - 1);
    let mut store2 = KvStore::open(files).unwrap();
    assert_eq!(store2.get("a").unwrap(), Some("1".to_string()));
    assert_eq!(store2.get("b").unwrap(), None);
    store2.set("b", "2").unwrap();
    assert_eq!(store2.get("b").unwrap(), Some("2".to_string()));
}

#[test]
fn torn_tail_any_cut_length() {
    let mut store = KvStore::new();
    store.set("a", "1").unwrap();
    store.set("b", "2").unwrap();
    let pristine = snapshot(&store);
    let full_len = pristine.last().unwrap().data.len();
    let before_b = {
        let mut probe = KvStore::new();
        probe.set("a", "1").unwrap();
        snapshot(&probe).last().unwrap().data.len()
    };
    let record_len = full_len - before_b;
    for cut in 1..=record_len {
        let mut files: Vec<_> = pristine
            .iter()
            .map(|s| SegmentFile { seq_id: s.seq_id, data: s.data.clone() })
            .collect();
        let active = files.last_mut().unwrap();
        active.data.truncate(full_len - cut);
        let reopened = KvStore::open(files).unwrap();
        assert_eq!(reopened.get("a").unwrap(), Some("1".to_string()));
        assert_eq!(reopened.get("b").unwrap(), None, "cut of {} bytes exposed b", cut);
    }
}

#[test]
fn open_rejects_exhausted_sequence_numbers() {
    let files = vec![SegmentFile { seq_id: u64::MAX, data: Vec::new() }];
    assert_eq!(KvStore::open(files).err(), Some(KvsError::Io));
}

#[test]
fn default_store_is_empty() {
    let store = KvStore::default();
    assert_eq!(store.get("k").unwrap(), None);
}

#[test]
fn open_empty_directory() {
    let store = KvStore::open(Vec::new()).unwrap();
    assert_eq!(store.get("anything").unwrap(), None);
    assert_eq!(store.segments().len(), 1);
}
