//! Slots, and series that move between nodes.
use valkey_timeseries::index::ids::IdGenerator;
use valkey_timeseries::index::migration::{
    index_imported_series, index_timeseries_in_batch, migration_event, remove_non_owned_keys,
    supports_atomic_slot_migration, AtomicSlotMigrationEvent, ImportedKey, MigrationAction,
    SlotMigrations,
};
use valkey_timeseries::index::slots::{calculate_hash_slot, parse_slot_ranges, SlotError, SlotSet};
use valkey_timeseries::labels::Label;
use valkey_timeseries::postings::Postings;

fn slots(keys: &[&[u8]]) -> SlotSet {
    let mut set = SlotSet::new();
    for k in keys {
        let slot = calculate_hash_slot(k);
        set.insert(slot, slot);
    }
    set
}

#[test]
fn test_overlapping_imports_are_tracked_per_slot() {
    // Two imports in flight: `{a}` keys belong to the first, `{b}` keys to the second.
    let first = slots(&[b"{a}x"]);
    let second = slots(&[b"{b}x"]);
    assert_ne!(first.ranges(), second.ranges());
    const DB: i32 = 91;
    let mut migrations = SlotMigrations::new();

    let _ = migrations.slot_migration_event_handler(AtomicSlotMigrationEvent::ImportStarted, &first);
    let _ = migrations.slot_migration_event_handler(AtomicSlotMigrationEvent::ImportStarted, &second);
    assert!(migrations.is_key_in_slot_import(b"{a}1"));
    assert!(migrations.is_key_in_slot_import(b"{b}1"));
    assert!(
        !migrations.is_key_in_slot_import(b"{c}1"),
        "a key outside both imports is indexed now"
    );

    migrations.add_delayed_indexing_key(DB, b"{a}1");
    migrations.add_delayed_indexing_key(DB, b"{b}1");
    migrations.add_delayed_indexing_key(DB, b"{b}2");

    // Aborting the first drops its queued key only, and leaves the second import running.
    let _ = migrations.slot_migration_event_handler(AtomicSlotMigrationEvent::ImportAborted, &first);
    assert!(!migrations.is_key_in_slot_import(b"{a}1"));
    assert!(
        migrations.is_key_in_slot_import(b"{b}1"),
        "the second import is still in progress"
    );
    let remaining = migrations.take_delayed_keys_in_slots(DB, &second);
    let mut remaining: Vec<&[u8]> = remaining.iter().map(|k| k.as_slice()).collect();
    remaining.sort();
    assert_eq!(remaining, vec![&b"{b}1"[..], &b"{b}2"[..]]);
    assert!(migrations.take_delayed_keys_in_slots(DB, &first).is_empty());

    migrations.remove_importing_slots(&second);
    assert!(!migrations.is_key_in_slot_import(b"{b}1"));
}

#[test]
fn test_parse_single_range() {
    let s = "0-100";
    let r = parse_slot_ranges(s).unwrap();
    let ranges = r.ranges();
    assert_eq!(ranges.len(), 1);
    assert_eq!(ranges[0].0, 0);
    assert_eq!(ranges[0].1, 100);
}

#[test]
fn test_parse_multiple_ranges_space() {
    let s = "0-10 20-30";
    let r = parse_slot_ranges(s).unwrap();
    let ranges = r.ranges();
    assert_eq!(ranges.len(), 2);
    assert_eq!(ranges[0].0, 0);
    assert_eq!(ranges[0].1, 10);
    assert_eq!(ranges[1].0, 20);
    assert_eq!(ranges[1].1, 30);
}

#[test]
fn test_parse_multiple_ranges_comma() {
    let s = "0-10,20-30";
    let r = parse_slot_ranges(s).unwrap();
    let ranges = r.ranges();
    assert_eq!(ranges.len(), 2);
    assert_eq!(ranges[0].0, 0);
    assert_eq!(ranges[0].1, 10);
    assert_eq!(ranges[1].0, 20);
    assert_eq!(ranges[1].1, 30);
}

#[test]
fn test_parse_single_slot() {
    let s = "5";
    let r = parse_slot_ranges(s).unwrap();
    let ranges = r.ranges();
    assert_eq!(ranges.len(), 1);
    assert_eq!(ranges[0].0, 5);
    assert_eq!(ranges[0].1, 5);
}

/// The check value of the polynomial, and slots of some keys.
#[test]
fn slots_of_keys() {
    assert_eq!(calculate_hash_slot(b"123456789"), 0x31C3 % 16384);
    assert_eq!(calculate_hash_slot(b""), 0);
    assert_eq!(calculate_hash_slot(b"foo"), 12182);
    // Only what stands in the first pair of braces decides.
    assert_eq!(calculate_hash_slot(b"{foo}.x"), calculate_hash_slot(b"foo"));
    assert_eq!(calculate_hash_slot(b"y{foo}{bar}"), calculate_hash_slot(b"foo"));
    // Nothing between the braces: the whole key decides.
    assert_ne!(calculate_hash_slot(b"{}foo"), calculate_hash_slot(b"{}bar"));
}

/// What is wrong with a list of slots is told.
#[test]
fn slot_lists_that_cannot_be_read() {
    let error = |s: &str| parse_slot_ranges(s).err().unwrap();
    assert_eq!(error("a-5"), SlotError::Start("a".to_string()));
    assert_eq!(error("1-b"), SlotError::End("b".to_string()));
    assert_eq!(error("10-5"), SlotError::Order(10, 5));
    assert_eq!(error("1-16384"), SlotError::EndOutOfRange(16384));
    assert_eq!(error("a"), SlotError::Slot("a".to_string()));
    assert_eq!(error("16384"), SlotError::SlotOutOfRange(16384));
    assert!(parse_slot_ranges("").ok().unwrap().is_empty());
    assert!(parse_slot_ranges("0-16383").is_ok());
    let r: Result<SlotSet, SlotError> = parse_slot_ranges("3,1-2 9");
    assert_eq!(r.ok().unwrap().ranges(), vec![(1, 3), (9, 9)]);
}

/// A set of slots grows and shrinks by ranges.
#[test]
fn slot_sets() {
    let mut a = SlotSet::new();
    assert!(a.is_empty());
    a.insert(1, 10);
    let b = SlotSet::of_ranges(&vec![(4, 5), (20, 30)]);
    a.extend(&b);
    assert_eq!(a.ranges(), vec![(1, 10), (20, 30)]);
    a.remove(&b);
    assert_eq!(a.ranges(), vec![(1, 3), (6, 10)]);
    assert!(a.contains(3) && !a.contains(4));
}

/// Series in slots that went away are marked, and the others stay.
#[test]
fn keys_in_lost_slots_are_marked() {
    let mut postings = Postings::new();
    for (id, key) in [(1u64, "{a}1"), (2, "{b}1"), (3, "{a}2")] {
        postings.index_labels(id, &vec![Label::new("k", key)], key.as_bytes());
    }
    assert_eq!(remove_non_owned_keys(&mut postings, &slots(&[b"{a}x"])), 2);
    assert_eq!(postings.count(), 1);
    assert!(postings.has_id(2));
    assert!(postings.stale_ids.contains(1) && postings.stale_ids.contains(3));
    assert_eq!(remove_non_owned_keys(&mut postings, &slots(&[b"{a}x"])), 0);
}

/// A series whose id another one has gets a new id; one that is there already keeps it.
#[test]
fn imported_series_are_kept_apart() {
    let mut postings = Postings::new();
    let mut generator = IdGenerator::with_epoch(1);
    let labels = vec![Label::new("a", "1")];
    postings.index_labels(7, &labels, b"here");

    let same = index_imported_series(&mut postings, &mut generator, 7, &labels, b"here");
    assert_eq!(same, Some(7));
    let other = index_imported_series(&mut postings, &mut generator, 7, &labels, b"there").unwrap();
    assert_ne!(other, 7);
    assert_eq!(postings.get_key_by_id(7).unwrap().as_slice(), b"here");
    assert_eq!(postings.get_key_by_id(other).unwrap().as_slice(), b"there");
    assert_eq!(postings.postings_for_label_value("a", "1").cardinality(), 2);
}

/// Keys without a series are told, and the others are indexed.
#[test]
fn a_batch_of_imported_keys() {
    let mut postings = Postings::new();
    let mut generator = IdGenerator::with_epoch(1);
    let batch = vec![
        ImportedKey { key: b"k1".to_vec(), series: Some((4, vec![Label::new("a", "1")])) },
        ImportedKey { key: b"k2".to_vec(), series: None },
    ];
    let (ids, missing) = index_timeseries_in_batch(&mut postings, &mut generator, &batch);
    assert_eq!(ids, vec![Some(4), None]);
    assert_eq!(missing, 1);
    assert_eq!(postings.count(), 1);
}

/// Atomic migration takes a cluster and a server that is new enough.
#[test]
fn migration_support() {
    assert!(!supports_atomic_slot_migration(false, Some((9, 0, 0))));
    assert!(!supports_atomic_slot_migration(true, None));
    assert!(!supports_atomic_slot_migration(true, Some((8, 1, 9))));
    assert!(supports_atomic_slot_migration(true, Some((9, 0, 0))));
}

/// What is queued is indexed once an import ends.
#[test]
fn a_finished_import_is_indexed() {
    let mut migrations = SlotMigrations::new();
    let set = slots(&[b"{a}x"]);
    let _ = migrations.slot_migration_event_handler(AtomicSlotMigrationEvent::ImportStarted, &set);
    migrations.add_delayed_indexing_key(3, b"{a}1");
    let action =
        migrations.slot_migration_event_handler(AtomicSlotMigrationEvent::ImportCompleted, &set);
    assert!(matches!(action, MigrationAction::IndexQueued(dbs) if dbs == vec![3]));
    assert!(migration_event(99).is_none());
}
