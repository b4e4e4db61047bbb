use std::collections::HashMap;
use valkey_timeseries::series::policy::{
    parse_compaction_policy, parse_duration, AggregationType, CompactionPolicy, PolicyError,
};
use valkey_timeseries::series::policy_config::{
    parse_compaction_policies, parse_compaction_policy_with_filter, PolicyConfig,
};
use valkey_timeseries::series::rule::CompactionRule;

fn chars(s: &str) -> Vec<char> {
    s.chars().collect()
}

fn duration(s: &str) -> Option<u64> {
    parse_duration(&chars(s))
}

fn parse_with_filter(s: &str) -> Result<(CompactionPolicy, Option<String>), PolicyError> {
    parse_compaction_policy_with_filter(&chars(s))
        .map(|e| (e.policy, e.filter))
}

fn rules_for(
    config: &PolicyConfig,
    key: &str,
) -> Option<HashMap<String, (CompactionRule<AggregationType>, u64)>> {
    config.create_compaction_rules(key).map(|rules| {
        rules
            .into_iter()
            .map(|r| (r.key, (r.rule, r.retention_ms)))
            .collect()
    })
}

fn create_policy(
    aggregator: AggregationType,
    bucket_duration_ms: u64,
    align_timestamp: i64,
) -> CompactionPolicy {
    CompactionPolicy {
        aggregator,
        bucket_duration_ms,
        retention_ms: 0, // Not used in format_key
        bucket_alignment: align_timestamp,
    }
}

#[test]
/// Make sure we can parse durations correctly.
fn test_parse_duration_milliseconds() {
    // Test lowercase 'm' for milliseconds
    assert_eq!(duration("100m").unwrap(), 100);
    assert_eq!(duration("1m").unwrap(), 1);
    assert_eq!(duration("1000m").unwrap(), 1000);
    assert_eq!(duration("0m").unwrap(), 0);
}

#[test]
/// Make sure we can parse durations correctly.
fn test_parse_duration_minutes() {
    // Test uppercase 'M' for minutes
    assert_eq!(duration("1M").unwrap(), 60_000);
    assert_eq!(duration("5M").unwrap(), 300_000);
    assert_eq!(duration("60M").unwrap(), 3_600_000);
    assert_eq!(duration("0M").unwrap(), 0);
}

#[test]
fn test_parse_policy_without_filter() {
    let (policy, filter) = parse_with_filter("avg:5M:2h:10s").unwrap();
    assert_eq!(policy.aggregator, AggregationType::Avg);
    assert_eq!(policy.bucket_duration_ms, 300000);
    assert!(filter.is_none());
}

#[test]
fn test_parse_policy_with_filter() {
    let (policy, filter) =
        parse_with_filter("sum:30s:1h|^metrics\\..*").unwrap();
    assert_eq!(policy.aggregator, AggregationType::Sum);
    assert_eq!(policy.bucket_duration_ms, 30000);
    assert_eq!(filter.unwrap(), "^metrics\\..*");
}

#[test]
fn test_parse_multiple_policies_mixed() {
    let policies =
        parse_compaction_policies("avg:1M:2h:10s;sum:5M:1h|cpu_.*;max:15s:30m|memory_.*")
            .unwrap();

    assert_eq!(policies.len(), 3);
    assert!(policies[0].filter_text().is_none()); // No filter
    assert_eq!(policies[1].filter_text().unwrap(), "cpu_.*");
    assert_eq!(policies[2].filter_text().unwrap(), "memory_.*");
}

#[test]
fn test_invalid_regex_filter() {
    let result = parse_with_filter("avg:60:2h:0|[invalid");
    assert!(result.is_err());
    assert!(
        result.unwrap_err().to_text().contains("invalid regex filter")
    );
}

#[test]
fn test_empty_filter() {
    let result = parse_with_filter("avg:60:2h:0|");
    assert!(result.is_err());
    assert!(
        result.unwrap_err().to_text().contains("empty regex filter")
    );
}

#[test]
fn test_format_key_basic() {
    let policy = create_policy(AggregationType::Avg, 60000, 0);
    assert_eq!(policy.format_key("temperature"), "temperature_AVG_60000");
}

#[test]
fn test_format_key_with_bucket_duration() {
    let policy = create_policy(AggregationType::Sum, 30000, 0);
    assert_eq!(policy.format_key("cpu_usage"), "cpu_usage_SUM_30000");
}

#[test]
fn test_format_key_with_both_duration_and_alignment() {
    let policy = create_policy(AggregationType::Min, 60000, 5000);
    assert_eq!(policy.format_key("disk_io"), "disk_io_MIN_60000_5000");
}

#[test]
fn test_format_key_all_aggregation_types() {
    let test_cases = vec![
        (AggregationType::Avg, "AVG"),
        (AggregationType::Sum, "SUM"),
        (AggregationType::Min, "MIN"),
        (AggregationType::Max, "MAX"),
        (AggregationType::Range, "RANGE"),
        (AggregationType::Count, "COUNT"),
        (AggregationType::StdP, "STD.P"),
        (AggregationType::VarP, "VAR.P"),
        (AggregationType::First, "FIRST"),
        (AggregationType::Last, "LAST"),
    ];

    for (aggregator, expected_name) in test_cases {
        let policy = create_policy(aggregator, 2000, 0);
        let result = policy.format_key("test");
        assert_eq!(result, format!("test_{expected_name}_2000"));
    }
}

#[test]
fn test_format_key_zero_alignment() {
    // Only align_timestamp is zero
    let policy = create_policy(AggregationType::Sum, 45000, 0);
    assert_eq!(policy.format_key("requests"), "requests_SUM_45000");
}

#[test]
fn test_format_key_unicode_characters() {
    let policy = create_policy(AggregationType::Sum, 30000, 1000);
    assert_eq!(policy.format_key("温度传感器"), "温度传感器_SUM_30000_1000");
    assert_eq!(
        policy.format_key("señor_métrica"),
        "señor_métrica_SUM_30000_1000"
    );
}

#[test]
fn test_format_key_case_insensitive_aggregator() {
    // Verify that aggregator names are always uppercase regardless of internal representation
    let policy = create_policy(AggregationType::Sum, 60000, 0);
    let result = policy.format_key("test");
    assert!(result.contains("SUM"));
    assert!(!result.contains("sum"));
    assert!(!result.contains("Sum"));
}

#[test]
fn test_no_policies_configured() {
    let config = PolicyConfig::new();
    let result = rules_for(&config, "any_key");
    assert!(result.is_none());
}

#[test]
fn test_global_policies_without_filters() {
    let mut config = PolicyConfig::new();

    // Add global policies (no filters)
    let config_str = "avg:60s:2h;sum:30s:1h";
    config.add_policies_from_config(config_str, false).unwrap();

    let rules = rules_for(&config, "temperature").unwrap();

    // Should have 2 rules
    assert_eq!(rules.len(), 2);

    // Check AVG rule
    assert!(rules.contains_key("temperature_AVG_60000"));
    let (avg_rule, avg_retention) = &rules["temperature_AVG_60000"];
    assert_eq!(avg_rule.aggregator, AggregationType::Avg);
    assert_eq!(avg_rule.bucket_duration, 60000);
    assert_eq!(avg_rule.align_timestamp, 0);
    assert_eq!(*avg_retention, 7200000); // 2h in ms

    // Check SUM rule
    assert!(rules.contains_key("temperature_SUM_30000"));
    let (sum_rule, sum_retention) = &rules["temperature_SUM_30000"];
    assert_eq!(sum_rule.aggregator, AggregationType::Sum);
    assert_eq!(sum_rule.bucket_duration, 30000);
    assert_eq!(sum_rule.align_timestamp, 0);
    assert_eq!(*sum_retention, 3600000); // 1h in ms
}

#[test]
fn test_filtered_policies_matching_key() {
    let mut config = PolicyConfig::new();

    // Add policies with regex filters
    let config_str = "max:60s:1h:2s|^temp.*";
    config.add_policies_from_config(config_str, false).unwrap();

    // Key matches filter
    let rules = rules_for(&config, "temperature_sensor")
        .unwrap();
    assert_eq!(rules.len(), 1);

    let rule_key = "temperature_sensor_MAX_60000_2000";
    assert!(rules.contains_key(rule_key));
    let (rule, retention) = &rules[rule_key];
    assert_eq!(rule.aggregator, AggregationType::Max);
    assert_eq!(*retention, 3600000);
}

#[test]
fn test_filtered_policies_non_matching_key() {
    let mut config = PolicyConfig::new();

    // Add policies with regex filters
    let config_str = "max:60s:1h:5s|^temp.*";
    config.add_policies_from_config(config_str, false).unwrap();

    // Key doesn't match filter
    let rules = rules_for(&config, "pressure_sensor");
    assert!(rules.is_none());
}

#[test]
fn test_mixed_global_and_filtered_policies() {
    let mut config = PolicyConfig::new();

    // Add both global and filtered policies
    let config_str = "avg:60s:2h;sum:30s:1h:5s|^cpu.*";
    config.add_policies_from_config(config_str, false).unwrap();

    // Test key that matches filter - should get both global and filtered
    let rules = rules_for(&config, "cpu_usage").unwrap();
    assert_eq!(rules.len(), 2);

    // Should have global AVG rule
    assert!(rules.contains_key("cpu_usage_AVG_60000"));

    // Should have filtered SUM rule
    assert!(rules.contains_key("cpu_usage_SUM_30000_5000"));
}

#[test]
fn test_mixed_policies_non_matching_key() {
    let mut config = PolicyConfig::new();

    // Add both global and filtered policies
    let config_str = "avg:60s:2h;sum:30s:1h|^cpu.*";
    config.add_policies_from_config(config_str, false).unwrap();

    // Test key that doesn't match filter - should only get global
    let rules = rules_for(&config, "memory_usage").unwrap();
    assert_eq!(rules.len(), 1);

    // Should only have global AVG rule
    assert!(rules.contains_key("memory_usage_AVG_60000"));
    assert!(!rules.contains_key("memory_usage_SUM_30000"));
}

#[test]
fn test_multiple_filters_different_patterns() {
    let mut config = PolicyConfig::new();

    // Add policies with different filter patterns
    let config_str = "max:60s:1h|^temp.*;min:30s:30m|^pressure.*";
    config.add_policies_from_config(config_str, false).unwrap();

    // Test key matching first filter
    let temp_rules = rules_for(&config, "temperature").unwrap();
    assert_eq!(temp_rules.len(), 1);
    assert!(temp_rules.contains_key("temperature_MAX_60000"));

    // Test key matching the second filter
    let pressure_rules = rules_for(&config, "pressure_gauge").unwrap();
    assert_eq!(pressure_rules.len(), 1);
    assert!(pressure_rules.contains_key("pressure_gauge_MIN_30000"));

    // Test key matching neither filter
    let cpu_rules = rules_for(&config, "cpu_usage");
    assert!(cpu_rules.is_none());
}

#[test]
fn test_multiple_policies_same_filter() {
    let mut config = PolicyConfig::new();

    // Add multiple policies with the same filter
    let config_str = "avg:60s:2h|^metrics.*;sum:30s:1h|^metrics.*";
    config.add_policies_from_config(config_str, false).unwrap();

    let rules = rules_for(&config, "metrics_cpu").unwrap();
    assert_eq!(rules.len(), 2);

    assert!(rules.contains_key("metrics_cpu_AVG_60000"));
    assert!(rules.contains_key("metrics_cpu_SUM_30000"));
}

#[test]
fn test_complex_regex_patterns() {
    let mut config = PolicyConfig::new();

    // Add policies with complex regex patterns
    let config_str = r#"avg:60s:1h|^(temp|cpu)_.*$;max:30s:30m|.*_sensor$"#;
    config.add_policies_from_config(config_str, false).unwrap();

    // Test keys matching the first pattern
    let temp_rules = rules_for(&config, "temp_indoor").unwrap();
    assert_eq!(temp_rules.len(), 1);
    assert!(temp_rules.contains_key("temp_indoor_AVG_60000"));

    let cpu_rules = rules_for(&config, "cpu_load").unwrap();
    assert_eq!(cpu_rules.len(), 1);
    assert!(cpu_rules.contains_key("cpu_load_AVG_60000"));

    // Test key matching the second pattern
    let sensor_rules = rules_for(&config, "humidity_sensor").unwrap();
    assert_eq!(sensor_rules.len(), 1);
    assert!(sensor_rules.contains_key("humidity_sensor_MAX_30000"));

    // Test key matching both patterns
    let both_rules = rules_for(&config, "temp_sensor").unwrap();
    assert_eq!(both_rules.len(), 2);
    assert!(both_rules.contains_key("temp_sensor_AVG_60000"));
    assert!(both_rules.contains_key("temp_sensor_MAX_30000"));
}

#[test]
fn test_rule_properties_are_correct() {
    let mut config = PolicyConfig::new();

    let config_str = "std.p:45s:90M:5000|^test.*";
    config.add_policies_from_config(config_str, false).unwrap();

    let rules = rules_for(&config, "test_key").unwrap();
    assert_eq!(rules.len(), 1);

    let rule_key = "test_key_STD.P_45000_5000";
    let (rule, retention) = &rules[rule_key];

    // Check all rule properties
    assert_eq!(rule.dest_id, 0); // Should be 0 initially
    assert_eq!(rule.aggregator, AggregationType::StdP);
    assert_eq!(rule.bucket_duration, 45000); // 45s in ms
    assert_eq!(rule.align_timestamp, 5000);
    assert!(rule.bucket_start.is_none()); // Should be None initially
    assert_eq!(*retention, 5400000); // 90m in ms
}

#[test]
fn test_duplicate_policies_same_config() {
    let mut config = PolicyConfig::new();

    // This should work fine - same policy applied to different keys
    let config_str = "avg:60s:1h|^temp.*;avg:60s:1h|^cpu.*";
    config.add_policies_from_config(config_str, false).unwrap();

    let temp_rules = rules_for(&config, "temp_1").unwrap();
    let cpu_rules = rules_for(&config, "cpu_1").unwrap();

    assert_eq!(temp_rules.len(), 1);
    assert_eq!(cpu_rules.len(), 1);
}

#[test]
fn test_special_characters_in_key() {
    let mut config = PolicyConfig::new();

    let config_str = "sum:30s:1h|.*sensor.*";
    config.add_policies_from_config(config_str, false).unwrap();

    let test_keys = vec![
        "temp-sensor",
        "pressure.sensor",
        "humidity_sensor",
        "sensor:outdoor",
        "sensor with spaces",
    ];

    for key in test_keys {
        let rules = rules_for(&config, key);
        assert!(rules.is_some(), "Rules should exist for key: {key}");
        let rules = rules.unwrap();
        assert_eq!(rules.len(), 1);

        let expected_key = format!("{key}_SUM_30000");
        assert!(rules.contains_key(&expected_key));
    }
}

#[test]
fn test_special_regex_characters_in_keys() {
    let mut config = PolicyConfig::new();
    let policy_str = r"avg:10s:1h|^app\.prod\..*"; // Escaped dots to match literal dots

    config.add_policies_from_config(policy_str, false).unwrap();

    let test_cases = vec![
        ("app.prod.latency", true),   // Should match (literal dots)
        ("app.prod.cpu.usage", true), // Should match
        ("appXprodXlatency", false),  // Should not match (X instead of .)
        ("app-prod-latency", false),  // Should not match (- instead of .)
        ("app.dev.latency", false),   // Should not match (dev instead of prod)
    ];

    for (key, should_match) in test_cases {
        let rules = rules_for(&config, key);
        if should_match {
            assert!(rules.is_some(), "Expected match for key: {key}");
        } else {
            assert!(rules.is_none(), "Expected no match for key: {key}");
        }
    }
}

#[test]
fn test_case_sensitive_regex_matching() {
    let mut config = PolicyConfig::new();

    let config_str = "avg:60s:1h|^TEMP.*";
    config.add_policies_from_config(config_str, false).unwrap();

    // Should match
    let upper_rules = rules_for(&config, "TEMPERATURE");
    assert!(upper_rules.is_some());

    // Should not match (case-sensitive)
    let lower_rules = rules_for(&config, "temperature");
    assert!(lower_rules.is_none());
}

#[test]
fn test_replace_vs_append_policies() {
    let mut config = PolicyConfig::new();

    // Add initial policy
    let config_str1 = "avg:60s:1h";
    config.add_policies_from_config(config_str1, false).unwrap();

    let rules1 = rules_for(&config, "test").unwrap();
    assert_eq!(rules1.len(), 1);

    // Append another policy
    let config_str2 = "sum:30s:30m";
    config.add_policies_from_config(config_str2, false).unwrap();

    let rules2 = rules_for(&config, "test").unwrap();
    assert_eq!(rules2.len(), 2); // Should have both

    // Replace with the new policy
    let config_str3 = "max:45s:45m:0";
    config.add_policies_from_config(config_str3, true).unwrap();

    let rules3 = rules_for(&config, "test").unwrap();
    assert_eq!(rules3.len(), 1); // Should only have the new one
    assert!(rules3.contains_key("test_MAX_45000"));
}

#[test]
fn accepts_rts_grammar() {
    for s in [
        "max:1M:1h",
        "avg:2h:10d",
        "avg:2h:10d:2d", // alignment larger than the bucket (modular)
        "std.p:1m:1h",
        "avg:1h:0",      // zero retention
        "max:1M:1h;min:10s:5d",
        "max:1M:1h;min:10s:5d:5m",
    ] {
        assert!(
            parse_compaction_policies(s).is_ok(),
            "{s:?} was rejected"
        );
    }
}

#[test]
fn rejects_invalid_grammar() {
    for s in ["max:1M", "max", "bogus:x:y"] {
        assert!(
            parse_compaction_policies(s).is_err(),
            "{s:?} was accepted"
        );
    }
}

/// A policy is read back as it is written.
#[test]
fn policies_read_back() {
    for aggregator in [AggregationType::Avg, AggregationType::StdS, AggregationType::VarP] {
        for (bucket_duration_ms, retention_ms, bucket_alignment) in
            [(1, 0, 0), (60000, 86400000, 0), (5, 7, 3), (1000, 0, 250)]
        {
            let policy =
                CompactionPolicy { aggregator, bucket_duration_ms, retention_ms, bucket_alignment };
            assert_eq!(parse_compaction_policy(&chars(&policy.to_text())), Ok(policy));
        }
    }
}
