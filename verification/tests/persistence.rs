//! Saving and loading indexes.
use valkey_timeseries::aggregation::PickAggregator;
use valkey_timeseries::encoding::{
    try_read_byte_slice_exact, write_byte_slice, write_u8, write_uvarint, DecodeError,
};
use valkey_timeseries::index::load::{
    entry_hash, indexed_entries, loaded_entry_hash, read_indexed_stats, LoadStats, LoadWindow,
};
use valkey_timeseries::index::persistence::{
    build_aux_payload, parse_aux_payload, serialize_postings_section, INDEX_AUX_VERSION, MAGIC_0,
    MAGIC_1, MAGIC_2, MAGIC_3,
};
use valkey_timeseries::labels::Label;
use valkey_timeseries::postings::key::IndexKey;
use valkey_timeseries::postings::mutation::BulkIndexEntry;
use valkey_timeseries::postings::serialization::read_bitmap;
use valkey_timeseries::postings::Postings;
use valkey_timeseries::series::store::TimeSeries;

const MAGIC: [u8; 4] = [MAGIC_0, MAGIC_1, MAGIC_2, MAGIC_3];

fn sample_postings() -> Postings {
    let mut postings = Postings::default();
    for id in [1, 2, 3] {
        postings.add_posting_for_label_value(id, "region", "us-east-1");
    }
    for id in [2, 3] {
        postings.add_posting_for_label_value(id, "service", "api");
    }
    for (id, key) in [(1u64, "ts:one"), (2, "ts:two"), (3, "ts:three")] {
        postings.set_timeseries_key(id, key.as_bytes());
    }
    postings
}

fn assert_postings_eq(a: &Postings, b: &Postings) {
    assert_eq!(a.id_to_key, b.id_to_key);
    assert_eq!(a.all_postings, b.all_postings);
    assert_eq!(a.stale_ids.bitmaps(), b.stale_ids.bitmaps());
    assert_eq!(a.posting_lists(), b.posting_lists());
}

fn build_payload(sections: &[(i32, &Postings)]) -> Vec<u8> {
    let mut body = Vec::new();
    for (db, postings) in sections {
        serialize_postings_section(&mut body, *db, postings);
    }
    let mut buf = Vec::new();
    buf.extend_from_slice(&MAGIC);
    write_u8(&mut buf, INDEX_AUX_VERSION);
    write_uvarint(&mut buf, sections.len() as u64);
    buf.extend_from_slice(&body);
    buf
}

#[test]
fn payload_roundtrip_single_db() {
    let postings = sample_postings();
    let payload = build_payload(&[(0, &postings)]);
    let sections = parse_aux_payload(&payload).unwrap();
    assert_eq!(sections.len(), 1);
    assert_eq!(sections[0].0, 0);
    assert_postings_eq(&sections[0].1, &postings);
}

/// Stale ids are subtracted at save time: the loaded index must look like the state a
/// completed GC drain would produce — clean bitmaps, no stale set, empty entries dropped.
#[test]
fn save_subtracts_stale_ids() {
    let mut postings = sample_postings();
    // A label whose bitmap holds only the id about to go stale: its entry must vanish.
    postings.add_posting_for_label_value(2, "host", "h2");
    // Removes id 2 from id_to_key/all_postings, leaves it in the label bitmaps.
    postings.mark_ids_as_stale(&[2]);
    assert!(postings.stale_ids.contains(2));

    let payload = build_payload(&[(0, &postings)]);
    let sections = parse_aux_payload(&payload).unwrap();
    let loaded = &sections[0].1;

    assert!(loaded.stale_ids.is_empty(), "stale set is not persisted");
    assert!(loaded.get_key_by_id(2).is_none());
    assert!(!loaded.all_postings.contains(2));
    for (key, bitmap) in loaded.posting_lists() {
        assert!(!bitmap.contains(2), "stale id survived in {key:?}");
        assert!(!bitmap.is_empty());
    }
    assert!(
        loaded
            .raw_postings(&IndexKey::for_label_value("host", "h2"))
            .is_none(),
        "entry that became empty must be dropped"
    );
    // The live ids are untouched.
    assert_eq!(loaded.count(), 2);
    assert!(loaded.all_postings.contains(1) && loaded.all_postings.contains(3));
}

fn count_occurrences(haystack: &[u8], needle: &[u8]) -> usize {
    haystack
        .windows(needle.len())
        .filter(|w| *w == needle)
        .count()
}

/// The point of the grouped encoding: a label name shared by many values is written once,
/// not once per value.
#[test]
fn label_name_is_written_once_per_group() {
    let mut postings = Postings::default();
    for i in 0..200u64 {
        postings.add_posting_for_label_value(i, "region", &format!("us-east-{i}"));
    }

    let payload = build_payload(&[(0, &postings)]);
    assert_eq!(
        count_occurrences(&payload, b"region="),
        1,
        "the shared label name must appear exactly once in the payload"
    );
    assert_postings_eq(&parse_aux_payload(&payload).unwrap()[0].1, &postings);
}

/// `prefix ++ suffix` must reproduce every key byte for byte, including shapes that
/// `IndexKey::for_label_value` never produces: a value containing `=`, and a key with no
/// `=` at all. Also covers the grouping edge cases — a name that extends another name, and
/// a group whose single entry has an empty suffix.
#[test]
fn roundtrip_preserves_unusual_key_shapes() {
    let keys = ["bare", "a=1", "a=2", "ab=1", "eq=x=y", "eq=x=y=z"];
    let mut postings = Postings::default();
    for (i, key) in keys.iter().enumerate() {
        postings.bulk_index(vec![BulkIndexEntry {
            id: i as u64 + 1,
            key: format!("ts:{i}").into_bytes(),
            label_keys: vec![IndexKey::from_bytes(format!("{key}\0").as_bytes())],
        }]);
    }

    let payload = build_payload(&[(0, &postings)]);
    let sections = parse_aux_payload(&payload).unwrap();
    assert_postings_eq(&sections[0].1, &postings);

    let loaded: Vec<String> = sections[0]
        .1
        .posting_lists()
        .iter()
        .map(|(k, _)| String::from_utf8(k[..k.len() - 1].to_vec()).unwrap())
        .collect();
    let mut expected: Vec<String> = keys.iter().map(|k| k.to_string()).collect();
    expected.sort();
    assert_eq!(loaded, expected);

    // The two `eq=` keys were grouped despite the `=` inside their values, and the
    // `=`-less key formed its own group rather than being merged into a neighbour.
    assert_eq!(count_occurrences(&payload, b"eq="), 1);
    assert_eq!(count_occurrences(&payload, b"bare"), 1);
}

#[test]
fn payload_roundtrip_multiple_dbs() {
    let postings_a = sample_postings();
    let postings_b = Postings::default();
    let payload = build_payload(&[(0, &postings_a), (5, &postings_b)]);
    let sections = parse_aux_payload(&payload).unwrap();
    assert_eq!(sections.len(), 2);
    assert_eq!(sections[0].0, 0);
    assert_eq!(sections[1].0, 5);
    assert_postings_eq(&sections[0].1, &postings_a);
    assert_postings_eq(&sections[1].1, &postings_b);
}

#[test]
fn payload_roundtrip_empty_postings() {
    let postings = Postings::default();
    let payload = build_payload(&[(2, &postings)]);
    let sections = parse_aux_payload(&payload).unwrap();
    assert_eq!(sections.len(), 1);
    assert_eq!(sections[0].0, 2);
    assert_postings_eq(&sections[0].1, &postings);
}

#[test]
fn rejects_bad_magic() {
    let postings = sample_postings();
    let mut payload = build_payload(&[(0, &postings)]);
    payload[0] ^= 0xFF;
    assert!(parse_aux_payload(&payload).is_err());
}

#[test]
fn rejects_unknown_version() {
    let postings = sample_postings();
    let mut payload = build_payload(&[(0, &postings)]);
    payload[MAGIC.len()] = INDEX_AUX_VERSION + 1;
    assert!(parse_aux_payload(&payload).is_err());
}

#[test]
fn rejects_truncated_payload() {
    let postings = sample_postings();
    let payload = build_payload(&[(0, &postings)]);
    for len in 0..payload.len() {
        assert!(
            parse_aux_payload(&payload[..len]).is_err(),
            "truncation at {len} bytes should fail"
        );
    }
}

#[test]
fn rejects_trailing_garbage() {
    let postings = sample_postings();
    let mut payload = build_payload(&[(0, &postings)]);
    payload.push(0xAB);
    assert!(parse_aux_payload(&payload).is_err());
}

#[test]
fn persistence_rejects_corrupt_bitmap_blob() {
    // A blob whose declared length is intact but whose contents are not a valid portable
    // bitmap: the leading u64 bucket count is absurd relative to the remaining bytes.
    // (Bit flips that still decode as *some* valid bitmap are the RDB CRC's job to catch.)
    let mut buf = Vec::new();
    write_byte_slice(&mut buf, &[0xFF; 9]);
    let mut slice = buf.as_slice();
    assert!(read_bitmap(&mut slice).is_err());
}

/// The repair-scan scenario: the reconciliation sweep marks an id stale, then the keyspace
/// scan re-indexes the same id under its real key. Re-indexing must revoke the stale marking,
/// or the next GC drain would strip the id from the label bitmaps while it stays in
/// `id_to_key` — and the outcome would depend on GC timing.
#[test]
fn reindex_revokes_stale_marking() {
    let mut postings = Postings::default();
    let mut ts: TimeSeries<PickAggregator> = TimeSeries::new(424242, 4096);
    ts.labels = vec![
        Label::new("__name__", "metric"),
        Label::new("region", "us-east-4"),
    ];

    postings.index_timeseries(&ts, b"ts:4");
    postings.mark_ids_as_stale(&[ts.id]);
    assert!(postings.stale_ids.contains(ts.id));

    postings.index_timeseries(&ts, b"tz:4");
    assert!(
        !postings.stale_ids.contains(ts.id),
        "re-indexing must revoke the stale marking"
    );

    // A GC drain must now be a no-op for this id.
    let mut cursor = None;
    while let Some(next) = postings.remove_stale_ids(cursor.take(), 16) {
        cursor = Some(next);
    }
    let key = IndexKey::for_label_value("region", "us-east-4");
    let bitmap = postings
        .raw_postings(&key)
        .expect("label bitmap must survive the GC drain");
    assert!(bitmap.contains(ts.id));
    assert_eq!(
        postings.get_key_by_id(ts.id).map(|k| k.to_vec()),
        Some(b"tz:4".to_vec())
    );
    assert_eq!(postings.count(), 1);
}

#[test]
fn load_window_lifecycle() {
    const DB_A: i32 = 91;
    const DB_B: i32 = 92;

    let mut window = LoadWindow::new();
    window.on_loading_started();
    assert!(
        !window.should_skip_load_indexing(DB_A),
        "no skip before this db's index is preloaded"
    );

    // DB_A is preloaded, and some series are loaded.
    window.note_preloaded(DB_A);
    window.note_series_loaded(DB_A, Some(entry_hash(1, b"ts:one")));
    window.note_series_loaded(DB_A, Some(entry_hash(2, b"ts:two")));
    window.note_series_loaded(DB_B, Some(entry_hash(3, b"ts:three")));

    assert!(window.should_skip_load_indexing(DB_A));
    assert!(
        !window.should_skip_load_indexing(DB_B),
        "dbs without a preloaded index keep the per-key path"
    );

    let mut stats = window.take_loaded_stats();
    stats.sort_unstable_by_key(|(db, _)| *db);
    let counts: Vec<(i32, u64)> = stats.iter().map(|(db, st)| (*db, st.count)).collect();
    assert_eq!(counts, vec![(DB_A, 2), (DB_B, 1)]);
    // Digest accumulation is order-independent and matches the index-side computation.
    assert_eq!(
        stats[0].1.digest,
        entry_hash(2, b"ts:two").wrapping_add(entry_hash(1, b"ts:one"))
    );
    assert!(stats.iter().all(|(_, st)| !st.incomplete));
    assert!(
        window.take_loaded_stats().is_empty(),
        "stats are consumed on take"
    );

    // Failure path: window closes, preloaded state is dropped.
    window.on_loading_failed();
    assert!(
        !window.should_skip_load_indexing(DB_A),
        "no skip outside a load window"
    );
    assert!(window.take_preloaded_dbs().is_empty());

    // A new load window starts clean.
    window.note_series_loaded(DB_A, Some(entry_hash(1, b"ts:one")));
    window.on_loading_started();
    assert!(window.take_loaded_stats().is_empty());
}

/// The property the digest exists for: a key that loads under a different name than the
/// index believes leaves the counts equal, so only the digest can catch it.
#[test]
fn digest_detects_rename_that_count_alone_misses() {
    let indexed = [(1u64, &b"ts:one"[..]), (2, b"ts:two"), (3, b"ts:three")];
    // Same ids, same cardinality, one key loaded under a different name.
    let loaded = [(1u64, &b"ts:one"[..]), (2, b"ts:two"), (3, b"tz:three")];

    let summarize = |entries: &[(u64, &[u8])]| {
        entries.iter().fold(LoadStats::default(), |st, (id, key)| {
            st.observe(Some(entry_hash(*id, key)))
        })
    };

    let a = summarize(&indexed);
    let b = summarize(&loaded);
    assert_eq!(a.count, b.count, "cardinality is blind to the rename");
    assert_ne!(a.digest, b.digest, "digest must catch the rename");
    assert_ne!(a, b);
}

/// Digest accumulation must not depend on the order entries are observed in: the loader
/// walks the stream, the index side walks `id_to_key` in id order.
#[test]
fn digest_is_order_independent() {
    let forward = [(1u64, &b"ts:one"[..]), (2, b"ts:two"), (3, b"ts:three")];
    let mut reversed = forward;
    reversed.reverse();

    let summarize = |entries: &[(u64, &[u8])]| {
        entries.iter().fold(LoadStats::default(), |st, (id, key)| {
            st.observe(Some(entry_hash(*id, key)))
        })
    };
    assert_eq!(summarize(&forward), summarize(&reversed));
}

/// A key name that cannot be read leaves the digest incomplete; it does not count as nothing.
#[test]
fn missing_key_name_marks_stats_incomplete() {
    let stats = LoadStats::default()
        .observe(Some(entry_hash(1, b"ts:one")))
        .observe(None);
    assert_eq!(stats.count, 2, "the series still counts");
    assert!(stats.incomplete);
}

#[test]
fn id_delta_encoding_handles_epoch_style_ids() {
    // Ids with large shared high bits (epoch) and dense low bits.
    let epoch = 0x0000_ABCD_u64 << 40;
    let mut postings = Postings::default();
    for i in 1..=100u64 {
        let id = epoch | i;
        postings
            .id_to_key
            .insert(id, format!("key:{i}").into_bytes());
        postings.all_postings.add(id);
    }
    let payload = build_payload(&[(0, &postings)]);
    let sections = parse_aux_payload(&payload).unwrap();
    assert_postings_eq(&sections[0].1, &postings);
}

/// The magic of a payload, its version, and the number of sections stand first.
#[test]
fn payload_starts_with_its_frame() {
    let postings = sample_postings();
    let empty = Postings::default();
    let payload = build_aux_payload(&vec![(7, Some(&postings)), (3, Some(&empty))]).unwrap();
    assert_eq!(&payload[..4], b"TSIX");
    assert_eq!(payload[4], INDEX_AUX_VERSION);
    assert_eq!(payload[5], 1);
    let sections = parse_aux_payload(&payload).unwrap();
    assert_eq!(sections.len(), 1);
    assert_eq!(sections[0].0, 7);
    assert_postings_eq(&sections[0].1, &postings);
}

/// Where no database has a series there is nothing to save, nor where an index cannot be read.
#[test]
fn nothing_to_save_without_indexes() {
    let postings = sample_postings();
    let empty = Postings::default();
    assert!(build_aux_payload(&vec![(1, Some(&postings)), (0, None)]).is_none());
    assert!(build_aux_payload(&vec![(0, Some(&empty))]).is_none());
    assert!(build_aux_payload(&vec![]).is_none());
}

/// What the index tells of itself is what loading the same series tells.
#[test]
fn indexed_stats_match_what_was_loaded() {
    let postings = sample_postings();
    let loaded = LoadStats::default()
        .observe(Some(entry_hash(3, b"ts:three")))
        .observe(Some(entry_hash(1, b"ts:one")))
        .observe(Some(entry_hash(2, b"ts:two")));
    assert_eq!(read_indexed_stats(&postings), loaded);
}

/// The hash of an entry depends on both of its parts.
#[test]
fn entry_hash_sees_id_and_key() {
    assert_eq!(loaded_entry_hash(1, None), None);
    assert_eq!(loaded_entry_hash(1, Some(b"a")), Some(entry_hash(1, b"a")));
    assert_ne!(entry_hash(1, b"a"), entry_hash(2, b"a"));
    assert_ne!(entry_hash(1, b"a"), entry_hash(1, b"b"));
}

/// What an index sums up to is made of the entries of its directory.
#[test]
fn indexed_entries_are_those_of_the_directory() {
    let mut postings = Postings::default();
    postings.set_timeseries_key(7, b"ts:seven");
    postings.set_timeseries_key(3, b"ts:three");
    let entries = indexed_entries(&postings);
    assert_eq!(entries, vec![(3, b"ts:three".to_vec()), (7, b"ts:seven".to_vec())]);
    let stats = read_indexed_stats(&postings);
    let sum = entry_hash(3, b"ts:three").wrapping_add(entry_hash(7, b"ts:seven"));
    assert_eq!(stats.digest, sum);
    postings.set_timeseries_key(7, b"ts:other");
    assert_ne!(read_indexed_stats(&postings).digest, sum);
}

/// As many bytes are read as are asked for, or none.
#[test]
fn exact_slices_are_read_or_nothing_is() {
    let mut buf: &[u8] = b"abcdef";
    assert_eq!(try_read_byte_slice_exact(&mut buf, 4), Ok(&b"abcd"[..]));
    assert_eq!(try_read_byte_slice_exact(&mut buf, 3), Err(DecodeError::UnexpectedEnd));
    assert_eq!(buf, b"ef");
    assert_eq!(try_read_byte_slice_exact(&mut buf, 0), Ok(&b""[..]));
    assert_eq!(try_read_byte_slice_exact(&mut buf, 2), Ok(&b"ef"[..]));
    assert!(buf.is_empty());
}
