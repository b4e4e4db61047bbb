//! Indexing in bulk while a dataset loads.
use valkey_timeseries::index::bulk_build::{bulk_entry, entry_footprint, BulkBuild};
use valkey_timeseries::index::databases::Databases;
use valkey_timeseries::labels::Label;
use valkey_timeseries::postings::key::IndexKey;
use valkey_timeseries::postings::mutation::BulkIndexEntry;

const CAP: usize = 1 << 20;

fn entry(id: u64, key: &str, labels: &[(&str, &str)]) -> BulkIndexEntry {
    BulkIndexEntry {
        id,
        key: key.as_bytes().to_vec(),
        label_keys: labels
            .iter()
            .map(|(name, value)| IndexKey::for_label_value(name, value))
            .collect(),
    }
}

#[test]
fn test_buffer_and_drain_on_load_end() {
    const DB: i32 = 240;
    let mut build = BulkBuild::new();
    let mut databases = Databases::new();
    build.on_load_started(false);
    assert!(build.is_active());

    let drained = build.buffer_entry(DB, entry(1, "key1", &[("host", "a"), ("job", "web")]), CAP);
    assert!(drained.is_none());
    let drained = build.buffer_entry(DB, entry(2, "key2", &[("host", "b"), ("job", "web")]), CAP);
    assert!(drained.is_none());
    assert!(build.buffered_bytes() > 0);

    databases.index_lists(build.on_load_ended());
    assert_eq!(build.buffered_bytes(), 0);

    let postings = databases.get(DB).unwrap();
    assert_eq!(postings.count(), 2);
    let web = postings.postings_for_label_value("job", "web");
    assert!(web.contains(1) && web.contains(2));
    assert!(postings.postings_for_label_value("host", "a").contains(1));
    assert_eq!(
        postings.get_key_by_id(2).map(|k| k.as_slice()),
        Some(&b"key2"[..])
    );
}

#[test]
fn test_aof_window_disables_buffering() {
    let mut build = BulkBuild::new();
    build.on_load_started(true);
    assert!(!build.is_active());
    assert!(build.on_load_ended().is_empty());
}

#[test]
fn test_load_failed_discards_buffer() {
    const DB: i32 = 241;
    let mut build = BulkBuild::new();
    build.on_load_started(false);
    let drained = build.buffer_entry(DB, entry(10, "doomed", &[("host", "x")]), CAP);
    assert!(drained.is_none());
    build.on_load_failed();

    assert_eq!(build.buffered_bytes(), 0);
    assert!(build.on_load_ended().is_empty());
}

#[test]
fn test_memory_cap_drains_and_degrades() {
    const DB: i32 = 242;
    let mut build = BulkBuild::new();
    let mut databases = Databases::new();

    build.on_load_started(false);
    // Cap below one entry's footprint: the first buffered entry crosses it.
    let drained = build.buffer_entry(DB, entry(20, "key20", &[("host", "cap")]), 1);
    databases.index_lists(drained.expect("the cap was crossed"));

    // The cap crossing drained immediately and degraded the window.
    assert!(build.has_degraded());
    assert_eq!(build.buffered_bytes(), 0);
    assert!(!build.is_buffering());
    assert!(databases
        .get(DB)
        .unwrap()
        .postings_for_label_value("host", "cap")
        .contains(20));
    assert!(build.on_load_ended().is_empty());
}

/// What an entry takes: itself, its key, and each label with its closing byte.
#[test]
fn footprint_of_an_entry() {
    let e = entry(1, "abc", &[("a", "1"), ("bc", "23")]);
    assert_eq!(
        entry_footprint(&e),
        std::mem::size_of::<BulkIndexEntry>()
            + 3
            + 2 * std::mem::size_of::<IndexKey>()
            + 4
            + 6
    );
}

/// The entry of a series has the key of each of its labels.
#[test]
fn entry_of_a_series() {
    let e = bulk_entry(5, b"k", &vec![Label::new("a", "1"), Label::new("b", "2")]);
    assert_eq!(e.id, 5);
    assert_eq!(e.key, b"k".to_vec());
    let keys: Vec<&[u8]> = e.label_keys.iter().map(|k| k.as_bytes()).collect();
    assert_eq!(keys, vec![&b"a=1\0"[..], &b"b=2\0"[..]]);
}
