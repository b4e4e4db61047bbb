//! The inverted index.
use regex::Regex;
use std::borrow::Cow;
use valkey_timeseries::aggregation::PickAggregator;
use valkey_timeseries::encoding::write_byte_slice;
use valkey_timeseries::labels::{Label, LabelFilter, MatchOp, PredicateMatch, PredicateValue};
use valkey_timeseries::postings::key::IndexKey;
use valkey_timeseries::postings::mutation::BulkIndexEntry;
use valkey_timeseries::postings::serialization::{deserialize, read_bitmap, serialize};
use valkey_timeseries::postings::Postings;
use valkey_timeseries::series::store::TimeSeries;

fn make_series(id: u64, labels: &[(&str, &str)]) -> TimeSeries<PickAggregator> {
    let mut series = TimeSeries::new(id, 4096);
    series.labels = labels
        .iter()
        .map(|(name, value)| Label::new(name, value))
        .collect();
    series
}

fn make_bulk_entry(id: u64, key: &str, labels: &[(&str, &str)]) -> BulkIndexEntry {
    BulkIndexEntry {
        id,
        key: key.as_bytes().to_vec(),
        label_keys: labels
            .iter()
            .map(|(name, value)| IndexKey::for_label_value(name, value))
            .collect(),
    }
}

/// The two indexes hold the same keys, posting lists, directory and live ids.
fn assert_postings_eq(a: &Postings, b: &Postings) {
    assert_eq!(a.id_to_key, b.id_to_key);
    assert_eq!(a.all_postings, b.all_postings, "all_postings differ");
    let a_entries = a.posting_lists();
    let b_entries = b.posting_lists();
    assert_eq!(a_entries.len(), b_entries.len(), "label key counts differ");
    for ((ka, va), (kb, vb)) in a_entries.iter().zip(b_entries.iter()) {
        assert_eq!(ka, kb);
        assert_eq!(va, vb, "posting list for {ka:?} differs");
    }
}

type SeriesSpec = (u64, String, Vec<(String, String)>);

#[test]
fn test_bulk_index_matches_per_key_indexing() {
    // 40 series over overlapping labels: shared job/env values, unique instance values.
    let specs: Vec<SeriesSpec> = (1..=40u64)
        .map(|i| {
            let key = format!("ts:{i}");
            let labels = vec![
                ("job".to_string(), format!("job{}", i % 3)),
                (
                    "env".to_string(),
                    if i % 2 == 0 { "prod" } else { "dev" }.to_string(),
                ),
                ("instance".to_string(), format!("host-{i}")),
            ];
            (i, key, labels)
        })
        .collect();

    let mut per_key = Postings::default();
    for (id, key, labels) in &specs {
        let labels: Vec<(&str, &str)> = labels
            .iter()
            .map(|(n, v)| (n.as_str(), v.as_str()))
            .collect();
        let series = make_series(*id, &labels);
        per_key.index_timeseries(&series, key.as_bytes());
    }

    let mut bulk = Postings::default();
    let entries: Vec<BulkIndexEntry> = specs
        .iter()
        .map(|(id, key, labels)| {
            let labels: Vec<(&str, &str)> = labels
                .iter()
                .map(|(n, v)| (n.as_str(), v.as_str()))
                .collect();
            make_bulk_entry(*id, key, &labels)
        })
        .collect();
    bulk.bulk_index(entries);

    assert_postings_eq(&per_key, &bulk);
}

#[test]
fn test_bulk_index_merges_into_non_empty_index() {
    // Pre-populate per-key (as in a degraded window: some keys per-key, some bulk).
    let mut postings = Postings::default();
    let series = make_series(1, &[("job", "web"), ("host", "a")]);
    postings.index_timeseries(&series, b"key1");

    postings.bulk_index(vec![
        make_bulk_entry(2, "key2", &[("job", "web"), ("host", "b")]),
        make_bulk_entry(3, "key3", &[("job", "batch"), ("host", "a")]),
    ]);

    let web = postings.postings_for_label_value("job", "web");
    assert!(web.contains(1) && web.contains(2) && !web.contains(3));
    let host_a = postings.postings_for_label_value("host", "a");
    assert!(host_a.contains(1) && host_a.contains(3));
    assert_eq!(postings.count(), 3);
    assert!(postings.all_postings.contains(2));
}

#[test]
fn test_bulk_index_revokes_stale_marks() {
    let mut postings = Postings::default();
    let series = make_series(7, &[("job", "web")]);
    postings.index_timeseries(&series, b"key7");
    postings.mark_id_as_stale(7);
    assert!(postings.has_stale_ids());

    // Re-loading the id asserts it is alive again (same semantics as index_timeseries).
    postings.bulk_index(vec![make_bulk_entry(7, "key7", &[("job", "web")])]);

    assert!(!postings.stale_ids.contains(7));
    assert!(postings.all_postings.contains(7));
    assert!(postings.postings_for_label_value("job", "web").contains(7));
}

#[test]
fn test_memory_postings_add_and_remove() {
    let mut postings = Postings::default();

    // Add postings
    postings.add_posting_for_label_value(1, "label1", "value1");
    postings.add_posting_for_label_value(1, "label2", "value2");
    postings.add_posting_for_label_value(2, "label1", "value1");

    // Check postings
    assert_eq!(
        postings
            .postings_for_label_value("label1", "value1")
            .cardinality(),
        2
    );
    assert_eq!(
        postings
            .postings_for_label_value("label2", "value2")
            .cardinality(),
        1
    );

    // Remove posting
    postings.remove_posting_for_label_value("label1", "value1", 1);
    assert_eq!(
        postings
            .postings_for_label_value("label1", "value1")
            .cardinality(),
        1
    );

    // Remove non-existent posting (should not panic)
    postings.remove_posting_for_label_value("label3", "value3", 3);
}

#[test]
fn test_memory_postings_remove_timeseries() {
    let mut postings = Postings::default();
    let series = make_series(1, &[("label1", "value1"), ("label2", "value2")]);

    postings.add_posting_for_label_value(1, "label1", "value1");
    postings.add_posting_for_label_value(1, "label2", "value2");

    postings.remove_timeseries(&series);

    assert!(
        postings
            .postings_for_label_value("label1", "value1")
            .is_empty()
    );
    assert!(
        postings
            .postings_for_label_value("label2", "value2")
            .is_empty()
    );
    assert!(postings.all_postings.is_empty());
}

#[test]
fn test_memory_postings_set_timeseries_key() {
    let mut postings = Postings::default();

    postings.set_timeseries_key(1, b"key1");
    postings.set_timeseries_key(2, b"key2");

    assert_eq!(
        postings.get_key_by_id(1),
        Some(&b"key1".to_vec())
    );
    assert_eq!(
        postings.get_key_by_id(2),
        Some(&b"key2".to_vec())
    );
    assert_eq!(postings.get_key_by_id(3), None);
}

#[test]
fn test_not_starts_with_filter_returns_non_matching_label_values() {
    let mut postings = Postings::default();
    postings.add_posting_for_label_value(1, "instance", "server-1");
    postings.add_posting_for_label_value(2, "instance", "client-1");
    postings.add_posting_for_label_value(3, "instance", "server-2");
    postings.add_posting_for_label_value(4, "other", "value");

    let filter = LabelFilter {
        label: "instance".to_string(),
        matcher: PredicateMatch::NotStartsWith(PredicateValue::String("server".to_string())),
    };

    let result = postings.postings_for_filter(&filter).unwrap();
    // Prometheus-compatible negative matchers include series that do not have the label.
    assert_eq!(result.cardinality(), 2);
    assert!(result.contains(2));
    assert!(result.contains(4));
    assert!(!result.contains(1));
    assert!(!result.contains(3));
}

#[test]
fn test_not_starts_with_empty_prefix_returns_only_series_without_label() {
    let mut postings = Postings::default();
    postings.add_posting_for_label_value(1, "instance", "server-1");
    postings.add_posting_for_label_value(2, "instance", "client-1");
    postings.all_postings.add(4);

    let err = LabelFilter::create(MatchOp::NotStartsWith, "instance", "")
        .expect_err("empty prefixes should be rejected");
    assert!(
        err.to_text()
            .contains("starts with matcher does not allow empty values")
    );
}

#[test]
fn test_starts_with_filter_with_value_list_uses_any_match_semantics() {
    let mut postings = Postings::default();
    postings.add_posting_for_label_value(1, "instance", "server-1");
    postings.add_posting_for_label_value(2, "instance", "client-1");
    postings.add_posting_for_label_value(3, "instance", "proxy-1");

    let filter = LabelFilter {
        label: "instance".to_string(),
        matcher: PredicateMatch::StartsWith(PredicateValue::List(vec![
            "server".to_string(),
            "client".to_string(),
        ])),
    };

    let result = postings.postings_for_filter(&filter).unwrap();
    assert_eq!(result.cardinality(), 2);
    assert!(result.contains(1));
    assert!(result.contains(2));
    assert!(!result.contains(3));
}

#[test]
fn test_contains_filter_returns_matching_label_values() {
    let mut postings = Postings::default();
    postings.add_posting_for_label_value(1, "instance", "server-1");
    postings.add_posting_for_label_value(2, "instance", "client-1");
    postings.add_posting_for_label_value(3, "instance", "web-server-2");
    postings.add_posting_for_label_value(4, "other", "value");

    let filter = LabelFilter {
        label: "instance".to_string(),
        matcher: PredicateMatch::Contains(PredicateValue::String("server".to_string())),
    };

    let result = postings.postings_for_filter(&filter).unwrap();

    assert_eq!(result.cardinality(), 2);
    assert!(result.contains(1));
    assert!(result.contains(3));
    assert!(!result.contains(2));
    assert!(!result.contains(4));
}

#[test]
fn test_contains_filter_with_value_list_uses_any_match_semantics() {
    let mut postings = Postings::default();
    postings.add_posting_for_label_value(1, "instance", "server-1");
    postings.add_posting_for_label_value(2, "instance", "client-1");
    postings.add_posting_for_label_value(3, "instance", "proxy-1");

    let filter = LabelFilter {
        label: "instance".to_string(),
        matcher: PredicateMatch::Contains(PredicateValue::List(vec![
            "server".to_string(),
            "client".to_string(),
        ])),
    };

    let result = postings.postings_for_filter(&filter).unwrap();
    assert_eq!(result.cardinality(), 2);
    assert!(result.contains(1));
    assert!(result.contains(2));
    assert!(!result.contains(3));
}

#[test]
fn test_decompose_vs_fullmatch_server_wildcard() {
    // Test to verify that decomposed regex matching for "server.*" works correctly
    // Pattern: "server.*" decomposes to prefix "server" + remainder ".*" (compiled as ^.*$)
    let re_decomposed = Regex::new("^.*$").unwrap();

    // Full pattern: "server.*" (for reference)
    let re_full = Regex::new("^server.*$").unwrap();

    let test_values = vec!["server1", "server", "serverx", "serverabc"];

    for val in test_values {
        // Check full regex
        let full_match = re_full.is_match(val);

        // Check decomposed: if starts with "server", check if remainder matches ^.*$
        let decomposed_match = if let Some(remainder) = val.strip_prefix("server") {
            re_decomposed.is_match(remainder)
        } else {
            false
        };

        assert_eq!(
            full_match, decomposed_match,
            "Mismatch for value '{}': full={}, decomposed={}",
            val, full_match, decomposed_match
        );
    }
}

#[test]
fn test_equal_list_includes_empty_alternative() {
    // Ensure that an equality list containing an explicit empty alternative
    // includes series that do not have the label (postings_without_label).
    let mut postings = Postings::default();

    // Series 1 has label "i" with value "x"
    postings.add_posting_for_label_value(1, "i", "x");

    // Series 2 exists in all_postings but does not have label "i"
    postings.all_postings.add(2);

    // Create a LabelFilter for i in ("x", "")
    let lf = LabelFilter {
        label: "i".to_string(),
        matcher: PredicateMatch::Equal(PredicateValue::List(vec![
            "x".to_string(),
            "".to_string(),
        ])),
    };

    let res = postings.postings_for_label_filters(&vec![lf]).unwrap();
    let res = res.into_owned();

    // Both series 1 (has value x) and 2 (no label) should be present.
    assert!(res.contains(1));
    assert!(res.contains(2));
}

#[test]
fn test_postings_equal_list_matcher() {
    // Test case for decomposed regex node[12] -> Equal(List(["node1", "node2"]))
    let mut postings = Postings::default();

    // Add test series with various node labels
    postings.add_posting_for_label_value(1, "node", "node1");
    postings.add_posting_for_label_value(2, "node", "node2");
    postings.add_posting_for_label_value(3, "node", "node3");
    postings.add_posting_for_label_value(4, "node", "node1");

    // Create a label filter for node = ("node1", "node2")
    // This is what parse_regex_matcher("node[12]", true) should now produce
    let lf = LabelFilter {
        label: "node".to_string(),
        matcher: PredicateMatch::Equal(PredicateValue::List(vec![
            "node1".to_string(),
            "node2".to_string(),
        ])),
    };

    // Query using this filter
    let result = postings.postings_for_label_filters(&vec![lf]).unwrap();
    let result = result.into_owned();

    // Should match series 1, 2, and 4 (all with node1 or node2)
    assert_eq!(result.cardinality(), 3);
    assert!(result.contains(1));
    assert!(result.contains(2));
    assert!(result.contains(4));
    assert!(!result.contains(3)); // node3 should not be matched
}

#[test]
fn test_match_none_filter_returns_empty_postings() {
    let mut postings = Postings::default();
    postings.add_posting_for_label_value(1, "instance", "server-1");
    postings.add_posting_for_label_value(2, "instance", "client-1");

    let filter = LabelFilter {
        label: "instance".to_string(),
        matcher: PredicateMatch::MatchNone,
    };

    let result = postings
        .postings_for_label_filters(&vec![filter])
        .unwrap();
    assert!(result.is_empty());
}

#[test]
fn test_not_starts_with_filter_with_value_list_requires_all_absent() {
    let mut postings = Postings::default();
    postings.add_posting_for_label_value(1, "instance", "server-1");
    postings.add_posting_for_label_value(2, "instance", "client-1");
    postings.add_posting_for_label_value(3, "instance", "proxy-1");
    postings.all_postings.add(4);

    let filter = LabelFilter {
        label: "instance".to_string(),
        matcher: PredicateMatch::NotStartsWith(PredicateValue::List(vec![
            "server".to_string(),
            "client".to_string(),
        ])),
    };

    let result = postings
        .postings_for_label_filters(&vec![filter])
        .unwrap();
    let result = result.into_owned();
    assert_eq!(result.cardinality(), 2);
    assert!(result.contains(3));
    assert!(result.contains(4));
    assert!(!result.contains(1));
    assert!(!result.contains(2));
}

#[test]
fn test_not_contains_filter_returns_non_matching_and_missing_labels() {
    let mut postings = Postings::default();
    postings.add_posting_for_label_value(1, "instance", "server-1");
    postings.add_posting_for_label_value(2, "instance", "client-1");
    postings.add_posting_for_label_value(3, "instance", "web-server-2");
    postings.add_posting_for_label_value(4, "other", "value");
    postings.all_postings.add(4);

    let filter = LabelFilter {
        label: "instance".to_string(),
        matcher: PredicateMatch::NotContains(PredicateValue::String("server".to_string())),
    };

    let result = postings
        .postings_for_label_filters(&vec![filter])
        .unwrap();
    let result = result.into_owned();

    assert_eq!(result.cardinality(), 2);
    assert!(result.contains(2));
    assert!(result.contains(4));
    assert!(!result.contains(1));
    assert!(!result.contains(3));
}

#[test]
fn test_not_contains_filter_with_value_list_requires_all_absent() {
    let mut postings = Postings::default();
    postings.add_posting_for_label_value(1, "instance", "server-1");
    postings.add_posting_for_label_value(2, "instance", "client-1");
    postings.add_posting_for_label_value(3, "instance", "proxy-1");
    postings.all_postings.add(4);

    let filter = LabelFilter {
        label: "instance".to_string(),
        matcher: PredicateMatch::NotContains(PredicateValue::List(vec![
            "server".to_string(),
            "client".to_string(),
        ])),
    };

    let result = postings
        .postings_for_label_filters(&vec![filter])
        .unwrap();
    let result = result.into_owned();
    assert_eq!(result.cardinality(), 2);
    assert!(result.contains(3));
    assert!(result.contains(4));
    assert!(!result.contains(1));
    assert!(!result.contains(2));
}

#[test]
fn test_postings_multiple_values_same_label() {
    let mut postings = Postings::default();

    // Add postings for multiple values of the same label
    postings.add_posting_for_label_value(1, "label1", "value1");
    postings.add_posting_for_label_value(2, "label1", "value2");
    postings.add_posting_for_label_value(3, "label1", "value3");
    postings.add_posting_for_label_value(4, "label1", "value1");

    // Query for multiple values of the same label
    let values = vec!["value1".to_string(), "value3".to_string()];
    let result = postings.postings_for_label_values("label1", &values);

    // Check that the result contains the correct series IDs
    assert_eq!(result.cardinality(), 3);
    assert!(result.contains(1));
    assert!(result.contains(3));
    assert!(result.contains(4));
    assert!(!result.contains(2));
}

#[test]
fn test_postings_with_duplicate_values() {
    let mut postings = Postings::default();

    // Add some postings
    postings.add_posting_for_label_value(1, "label", "value1");
    postings.add_posting_for_label_value(2, "label", "value2");
    postings.add_posting_for_label_value(3, "label", "value1");

    // Create an array with duplicate values
    let values = vec![
        "value1".to_string(),
        "value2".to_string(),
        "value1".to_string(),
    ];

    // Call the postings method
    let result = postings.postings_for_label_values("label", &values);

    // Check the result
    assert_eq!(result.cardinality(), 3);
    assert!(result.contains(1));
    assert!(result.contains(2));
    assert!(result.contains(3));
}

#[test]
fn test_postings_all_values_match() {
    let mut postings = Postings::default();

    // Add some postings
    postings.add_posting_for_label_value(1, "label", "value1");
    postings.add_posting_for_label_value(2, "label", "value2");
    postings.add_posting_for_label_value(3, "label", "value3");
    postings.add_posting_for_label_value(4, "label", "value1");

    // Create values to search for
    let values = vec![
        "value1".to_string(),
        "value2".to_string(),
        "value3".to_string(),
    ];

    // Get the postings
    let result = postings.postings_for_label_values("label", &values);

    // Check if the result contains all the expected series IDs
    assert_eq!(result.cardinality(), 4);
    assert!(result.contains(1));
    assert!(result.contains(2));
    assert!(result.contains(3));
    assert!(result.contains(4));
}

#[test]
fn test_postings_with_large_number_of_values() {
    let mut postings = Postings::default();
    let label_name = "large_label";
    let num_values = 10_000;

    // Add postings for a large number of values
    for i in 0..num_values {
        postings.add_posting_for_label_value(i as u64, label_name, &format!("value_{i}"));
    }

    // Create a large array of values to search for
    let values: Vec<String> = (0..num_values).map(|i| format!("value_{i}")).collect();

    // Measure the time taken to execute the postings function
    let start_time = std::time::Instant::now();
    let result = postings.postings_for_label_values(label_name, &values);
    let duration = start_time.elapsed();

    // Assert that all series IDs are present in the result
    assert_eq!(result.cardinality() as usize, num_values);
    for i in 0..num_values {
        assert!(result.contains(i as u64));
    }

    // Check that the execution time is reasonable (adjust the threshold as needed)
    assert!(
        duration < std::time::Duration::from_secs(1),
        "Postings retrieval took too long: {duration:?}"
    );
}

#[test]
fn test_postings_with_unicode_characters() {
    let mut postings = Postings::default();

    // Add postings with Unicode characters
    postings.add_posting_for_label_value(1, "标签", "值1");
    postings.add_posting_for_label_value(2, "标签", "値2");
    postings.add_posting_for_label_value(3, "标签", "🌟");

    // Test postings method with Unicode characters
    let values = vec!["值1".to_string(), "値2".to_string(), "🌟".to_string()];
    let result = postings.postings_for_label_values("标签", &values);

    assert_eq!(result.cardinality(), 3);
    assert!(result.contains(1));
    assert!(result.contains(2));
    assert!(result.contains(3));
}

#[test]
fn test_postings_for_label_value_exceeds_stack_size() {
    let mut postings = Postings::default();

    // The STACK_SIZE in KeyBuffer is 64 bytes
    // We need label_name + "=" + value + "\0" to exceed 64 bytes
    // Let's create a label name and value that together exceed this

    // Create a label name of 30 characters
    let label_name = "very_long_label_name_here_1234";

    // Create a value of 40 characters, so the total length is:
    // 30 (label) + 1 (=) + 40 (value) + 1 (\0) = 72 bytes > 64
    let value = "this_is_a_very_long_value_string_12345";

    // Verify our assumption about the length
    let total_len = label_name.len() + 1 + value.len() + 1; // +1 for '=', +1 for '\0'
    assert!(
        total_len > 64,
        "Test setup error: combined length should exceed STACK_SIZE"
    );

    // Add a posting with this long label-value pair
    postings.add_posting_for_label_value(1, label_name, value);
    postings.add_posting_for_label_value(2, label_name, value);
    postings.add_posting_for_label_value(3, label_name, "short");

    // Test that we can retrieve postings for the long label-value pair
    let result = postings.postings_for_label_value(label_name, value);

    // Verify the result contains the correct series IDs
    assert_eq!(result.cardinality(), 2);
    assert!(result.contains(1));
    assert!(result.contains(2));
    assert!(!result.contains(3));

    // Test that we can also retrieve the short value
    let result_short = postings.postings_for_label_value(label_name, "short");
    assert_eq!(result_short.cardinality(), 1);
    assert!(result_short.contains(3));
}

#[test]
fn test_postings_for_all_label_values_exceeds_stack_size() {
    let mut postings = Postings::default();

    // The STACK_SIZE in KeyBuffer is 64 bytes
    // KeyBuffer::for_prefix creates: label_name + "="
    // We need label_name + "=" to exceed 64 bytes

    // Create a label name of 70 characters to exceed the stack size
    let label_name = "very_long_label_name_here_that_definitely_exceeds_the_stack_buffer_size";

    // Verify our assumption about the length
    let prefix_len = label_name.len() + 1; // +1 for '='
    assert!(
        prefix_len > 64,
        "Test setup error: prefix length should exceed STACK_SIZE"
    );

    // Add multiple postings with different values for the same long label name
    postings.add_posting_for_label_value(1, label_name, "value1");
    postings.add_posting_for_label_value(2, label_name, "value2");
    postings.add_posting_for_label_value(3, label_name, "value3");
    postings.add_posting_for_label_value(4, "short_label", "value1");

    // Test that we can retrieve all postings for the long label name
    let result = postings.postings_for_all_label_values(label_name);

    // Verify the result contains all series IDs with the long label name
    assert_eq!(result.cardinality(), 3);
    assert!(result.contains(1));
    assert!(result.contains(2));
    assert!(result.contains(3));
    assert!(!result.contains(4)); // This has a different label

    // Also test that we can retrieve postings for the short label
    let result_short = postings.postings_for_all_label_values("short_label");
    assert_eq!(result_short.cardinality(), 1);
    assert!(result_short.contains(4));
}

#[test]
fn test_memory_postings_postings_by_labels() {
    let mut postings = Postings::default();

    postings.add_posting_for_label_value(1, "label1", "value1");
    postings.add_posting_for_label_value(1, "label2", "value2");
    postings.add_posting_for_label_value(2, "label1", "value1");
    postings.add_posting_for_label_value(2, "label2", "value3");

    let labels = vec![
        Label::new("label1", "value1"),
        Label::new("label2", "value2"),
    ];
    let result = postings.postings_by_labels(&labels);

    assert_eq!(result.cardinality(), 1);
    assert!(result.contains(1));
}

#[test]
fn test_remove_stale_ids_across_multiple_batches() {
    // Regression test: draining stale ids must visit *every* label key, not just those sharing
    // a prefix with the resume cursor.
    let mut postings = Postings::default();
    let n: u64 = 250;
    for i in 0..n {
        postings.add_posting_for_label_value(i as u64, "host", &format!("h{i:04}"));
        postings.add_posting_for_label_value(i as u64, "job", "web");
    }

    // Mark the even ids stale.
    let stale: Vec<u64> = (0..n).step_by(2).map(|i| i as u64).collect();
    postings.mark_ids_as_stale(&stale);
    assert!(postings.has_stale_ids());

    // Drain in small batches, like the background maintenance task.
    let mut cursor = None;
    while let Some(next) = postings.remove_stale_ids(cursor.take(), 16) {
        cursor = Some(next);
    }

    assert!(
        !postings.has_stale_ids(),
        "stale ids should be fully drained"
    );

    // The shared `job=web` bitmap sorts after all the `host=*` keys. Inspect the raw bitmap
    // directly: queries mask stale ids anyway.
    let key = IndexKey::for_label_value("job", "web");
    let bmp = postings
        .raw_postings(&key)
        .expect("job=web posting list should exist");
    for id in &stale {
        assert!(
            !bmp.contains(*id),
            "stale id {id} should have been removed from the bitmap"
        );
    }
    // Odd (non-stale) ids remain.
    assert!(bmp.contains(1));
    assert!(bmp.contains(3));
}

#[test]
fn mask_cow_leaves_borrowed_untouched_when_nothing_is_marked() {
    let mut postings = Postings::default();
    postings.add_posting_for_label_value(1, "job", "web");
    postings.add_posting_for_label_value(2, "job", "web");

    let raw = postings
        .raw_postings(&IndexKey::for_label_value("job", "web"))
        .expect("posting list should exist");

    let out = postings.stale_ids.mask_cow(Cow::Borrowed(raw));
    assert!(matches!(out, Cow::Borrowed(_)), "no marks: stays borrowed");

    postings.mark_id_as_stale(1);
    let raw = postings
        .raw_postings(&IndexKey::for_label_value("job", "web"))
        .expect("posting list should exist");
    let out = postings.stale_ids.mask_cow(Cow::Borrowed(raw));
    assert!(matches!(out, Cow::Owned(_)), "marks present: must copy");
    assert!(!out.contains(1));
    assert!(out.contains(2));
}

#[test]
fn test_ids_marked_mid_pass_survive_the_pass() {
    // An id marked while a pass is between batches was masked only in the keys still to
    // come; clearing every stale id at the end unmasked it in the keys already visited.
    let mut postings = Postings::default();
    for i in 0..40u64 {
        postings.add_posting_for_label_value(i as u64, "host", &format!("h{i:04}"));
        postings.add_posting_for_label_value(i as u64, "job", "web");
    }
    postings.mark_ids_as_stale(&[0]);

    // First batch covers the early `host=*` keys only.
    let cursor = postings
        .remove_stale_ids(None, 4)
        .expect("more keys to visit");
    // Id 1 goes stale now: its `host=h0001` key has already been visited.
    postings.mark_ids_as_stale(&[1]);

    let mut cursor = Some(cursor);
    while let Some(next) = postings.remove_stale_ids(cursor.take(), 4) {
        cursor = Some(next);
    }

    assert!(
        !postings.stale_ids.contains(0),
        "id 0 was drained everywhere"
    );
    assert!(
        postings.stale_ids.contains(1),
        "id 1 must stay marked until a pass has visited every key after its marking"
    );

    // The next full pass retires it.
    let mut cursor = None;
    while let Some(next) = postings.remove_stale_ids(cursor.take(), 4) {
        cursor = Some(next);
    }
    assert!(!postings.has_stale_ids());
    let host1 = IndexKey::for_label_value("host", "h0001");
    assert!(postings.raw_postings(&host1).is_none());
}

#[test]
fn test_id_remarked_mid_pass_survives_the_pass() {
    let mut postings = Postings::default();
    for i in 0..40u64 {
        postings.add_posting_for_label_value(i as u64, "host", &format!("h{i:04}"));
    }
    postings.mark_ids_as_stale(&[2]);
    let cursor = postings
        .remove_stale_ids(None, 4)
        .expect("more keys to visit");
    // Re-indexed, then stale again, all within the pass.
    postings.stale_ids.revoke(2);
    postings.mark_ids_as_stale(&[2]);
    let mut cursor = Some(cursor);
    while let Some(next) = postings.remove_stale_ids(cursor.take(), 4) {
        cursor = Some(next);
    }
    assert!(postings.stale_ids.contains(2));
}

#[test]
fn serialization_rejects_corrupt_bitmap_blob() {
    // A blob whose declared length is intact but whose contents are not a valid portable
    // bitmap: the leading u64 bucket count is absurd relative to the remaining bytes.
    // (Bit flips that still decode as *some* valid bitmap are the RDB CRC's job to catch.)
    let mut buf = Vec::new();
    write_byte_slice(&mut buf, &[0xFF; 9]);
    let mut slice = buf.as_slice();
    assert!(read_bitmap(&mut slice).is_err());
}

#[test]
fn body_roundtrips_without_db_framing() {
    let mut postings = Postings::default();
    postings.add_posting_for_label_value(1, "job", "web");
    postings.add_posting_for_label_value(2, "job", "web");
    postings.add_posting_for_label_value(3, "job", "batch");
    postings.add_posting_for_label_value(1, "host", "a");
    postings.set_timeseries_key(1, b"ts:1");
    postings.set_timeseries_key(2, b"ts:2");
    postings.set_timeseries_key(3, b"ts:3");

    let mut buf = Vec::new();
    serialize(&mut buf, &postings);
    let mut slice = buf.as_slice();
    let loaded = deserialize(&mut slice).expect("body should round-trip");

    assert!(slice.is_empty(), "decoder must consume exactly the body");
    assert_postings_eq(&loaded, &postings);
}

#[test]
fn stale_ids_are_subtracted_and_not_persisted() {
    let mut postings = Postings::default();
    postings.add_posting_for_label_value(1, "job", "web");
    postings.add_posting_for_label_value(2, "job", "web");
    postings.set_timeseries_key(1, b"ts:1");
    postings.set_timeseries_key(2, b"ts:2");
    postings.mark_id_as_stale(2);

    let mut buf = Vec::new();
    serialize(&mut buf, &postings);
    let mut slice = buf.as_slice();
    let loaded = deserialize(&mut slice).expect("body should round-trip");

    assert!(loaded.stale_ids.is_empty(), "stale set is not persisted");
    assert!(!loaded.all_postings.contains(2));
    for (_key, bitmap) in loaded.posting_lists() {
        assert!(!bitmap.contains(2), "stale id survived serialization");
    }
    assert!(loaded.all_postings.contains(1));
}

/// A label that no series carries leaves no series; neither do no labels at all.
#[test]
fn all_labels_have_to_be_carried() {
    let mut postings = Postings::default();
    postings.add_posting_for_label_value(1, "label1", "value1");
    postings.add_posting_for_label_value(2, "label1", "value1");
    let both = vec![Label::new("label1", "value1"), Label::new("label2", "absent")];
    assert!(postings.postings_by_labels(&both).is_empty());
    assert_eq!(postings.posting_id_by_labels(&both), None);
    assert!(postings.postings_by_labels(&Vec::new()).is_empty());
    let one = vec![Label::new("label1", "value1")];
    assert_eq!(postings.postings_by_labels(&one).cardinality(), 2);
}

/// Ids that are marked for removal do not show in the names and values of labels.
#[test]
fn marked_ids_hide_their_labels() {
    let mut postings = Postings::default();
    postings.add_posting_for_label_value(1, "host", "a");
    postings.add_posting_for_label_value(2, "host", "b");
    postings.add_posting_for_label_value(2, "rack", "r1");
    postings.mark_id_as_stale(2);
    assert_eq!(postings.get_label_names(), vec!["host"]);
    assert_eq!(postings.get_label_values("host"), vec!["a"]);
    assert!(postings.get_label_values("rack").is_empty());
}

fn selected(postings: &Postings, filters: &[LabelFilter]) -> Vec<u64> {
    let found = postings.postings_for_label_filters(&filters.to_vec()).unwrap();
    found.iter().collect()
}

/// Filters select the series whose values they hold of, in any order of the filters. A series
/// without the label has an empty value.
#[test]
fn filters_select_what_they_hold_of() {
    let series = [
        (1, vec![("host", "web-1"), ("env", "prod")]),
        (2, vec![("host", "web-2")]),
        (3, vec![("env", "prod")]),
        (4, vec![("host", "db-1"), ("env", "dev")]),
    ];
    let mut postings = Postings::default();
    for (id, labels) in &series {
        let labels = labels.iter().map(|(name, value)| Label::new(name, value)).collect();
        postings.index_labels(*id, &labels, format!("ts:{id}").as_bytes());
    }
    let ops = [
        (MatchOp::Equal, "web-1"),
        (MatchOp::NotEqual, "web-1"),
        (MatchOp::Equal, ""),
        (MatchOp::NotEqual, ""),
        (MatchOp::RegexEqual, "^web-.$"),
        (MatchOp::RegexNotEqual, "^web-.$"),
        (MatchOp::RegexEqual, "^(|db-1)$"),
        (MatchOp::RegexEqual, ".+"),
        (MatchOp::RegexEqual, ".*"),
        (MatchOp::StartsWith, "web"),
        (MatchOp::NotStartsWith, "web"),
        (MatchOp::Contains, "-1"),
        (MatchOp::NotContains, "-1"),
    ];
    let value = |labels: &Vec<(&str, &str)>, name: &str| -> Vec<u8> {
        let found = labels.iter().find(|(n, _)| *n == name);
        found.map(|(_, v)| v.as_bytes().to_vec()).unwrap_or_default()
    };
    for (op, text) in ops {
        let one = LabelFilter::create(op, "host", text).unwrap();
        for (other_op, other_text) in [(MatchOp::Equal, "prod"), (MatchOp::NotEqual, "dev")] {
            let two = LabelFilter::create(other_op, "env", other_text).unwrap();
            let expected = |filters: &[LabelFilter]| -> Vec<u64> {
                series
                    .iter()
                    .filter(|(_, labels)| {
                        filters.iter().all(|f| f.matcher.matches(&value(labels, &f.label)))
                    })
                    .map(|(id, _)| *id)
                    .collect()
            };
            let alone = [one.clone()];
            assert_eq!(selected(&postings, &alone), expected(&alone), "{text}");
            let both = [one.clone(), two.clone()];
            assert_eq!(selected(&postings, &both), expected(&both), "{text} {other_text}");
            assert_eq!(selected(&postings, &[two, one.clone()]), expected(&both));
        }
    }
    assert_eq!(selected(&postings, &[]), vec![1, 2, 3, 4]);
}

/// A pattern on its own is matched; among others some patterns are known by their form.
#[test]
fn patterns_known_by_their_form() {
    let mut postings = Postings::default();
    for (id, value) in [(1, "a"), (2, "\n")] {
        let labels = vec![Label::new("host", value), Label::new("env", "prod")];
        postings.index_labels(id, &labels, b"ts");
    }
    postings.index_labels(3, &vec![Label::new("env", "prod")], b"ts:3");
    let env = LabelFilter::equals("env".to_string(), "prod");
    let some = LabelFilter::create(MatchOp::RegexEqual, "host", ".+").unwrap();
    assert_eq!(selected(&postings, &[some.clone()]), vec![1]);
    assert_eq!(selected(&postings, &[some, env.clone()]), vec![1, 2]);
    let empty = LabelFilter::create(MatchOp::RegexEqual, "host", "").unwrap();
    assert_eq!(selected(&postings, &[empty, env]), vec![3]);
}

/// A prefix is searched for in the value closed by a NUL.
#[test]
fn prefixes_reach_the_end_of_a_value() {
    let mut postings = Postings::default();
    for (id, value) in [(1, "ab"), (2, "abc")] {
        postings.index_labels(id, &vec![Label::new("host", value)], b"ts");
    }
    let closed = LabelFilter::create(MatchOp::StartsWith, "host", "ab\0").unwrap();
    assert_eq!(selected(&postings, &[closed]), vec![1]);
    let plain = LabelFilter::create(MatchOp::StartsWith, "host", "ab").unwrap();
    assert_eq!(selected(&postings, &[plain]), vec![1, 2]);
}

/// A series that carries a label with an empty value is not one without the label.
#[test]
fn carried_empty_values() {
    let mut postings = Postings::default();
    postings.index_labels(1, &vec![Label::new("host", ""), Label::new("env", "prod")], b"ts:1");
    postings.index_labels(2, &vec![Label::new("env", "prod")], b"ts:2");
    let env = LabelFilter::equals("env".to_string(), "prod");
    let empty = LabelFilter::equals("host".to_string(), "");
    assert_eq!(selected(&postings, &[empty, env.clone()]), vec![2]);
    let other = LabelFilter::not_equals("host".to_string(), "web");
    assert_eq!(selected(&postings, &[other, env.clone()]), vec![1, 2]);
    let web = LabelFilter::equals("host".to_string(), "web");
    assert!(selected(&postings, &[web, env]).is_empty());
}
