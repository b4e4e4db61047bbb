//! Queries over many series.
use valkey_timeseries::aggregation::Aggregation;
use valkey_timeseries::chunks::utils::ValueFilter;
use valkey_timeseries::labels::{Label, LabelFilter, SeriesSelector};
use valkey_timeseries::range::groups::MRangeSeriesMeta;
use valkey_timeseries::range::mrange::{
    apply_limit, handle_grouping, handle_non_grouped, process_mrange_group_partials,
    process_mrange_query, sort_mrange_results, MRangeError, MRangeOptions, MRangeSeriesResult,
    RangeGroupingOptions, SampleLimit, SeriesResultData,
};
use valkey_timeseries::range::nrange::{process_nrange, NRangeOptions, NRangeSeriesMeta};
use valkey_timeseries::range::rows::{AggregationOptions, MultiSample, RangeOptions};
use valkey_timeseries::sample::Sample;
use valkey_timeseries::series::store::{TimeSeries, ValueOps};

#[derive(Debug, Clone, Copy, PartialEq)]
enum AggregationType {
    Avg,
    Sum,
    Min,
    Max,
    Range,
    CountAbove(f64),
}

/// An aggregator over values that are kept as the bits of floating-point numbers.
#[derive(Debug, Clone, Copy, PartialEq)]
struct FloatAggregator {
    kind: AggregationType,
    count: u64,
    hits: u64,
    sum: f64,
    min: f64,
    max: f64,
}

impl FloatAggregator {
    fn new(kind: AggregationType) -> Self {
        FloatAggregator {
            kind,
            count: 0,
            hits: 0,
            sum: 0.0,
            min: f64::INFINITY,
            max: f64::NEG_INFINITY,
        }
    }
}

impl Aggregation for FloatAggregator {
    fn cleared(mut self) -> Self {
        self.reset();
        self
    }

    fn after(mut self, s: Sample) -> Self {
        self.update(s);
        self
    }

    fn takes(self, _s: Sample) -> bool {
        true
    }

    fn result(self) -> u64 {
        self.finalize()
    }

    fn windowed(self, _ms: u64) -> Self {
        self
    }

    fn reset(&mut self) {
        *self = FloatAggregator::new(self.kind);
    }

    fn update(&mut self, s: Sample) -> bool {
        let v = f64::from_bits(s.value);
        self.count += 1;
        self.sum += v;
        self.min = self.min.min(v);
        self.max = self.max.max(v);
        if let AggregationType::CountAbove(bound) = self.kind {
            if v > bound {
                self.hits += 1;
            }
        }
        true
    }

    fn finalize(&self) -> u64 {
        let value = if self.count == 0 {
            f64::NAN
        } else {
            match self.kind {
                AggregationType::Avg => self.sum / self.count as f64,
                AggregationType::Sum => self.sum,
                AggregationType::Min => self.min,
                AggregationType::Max => self.max,
                AggregationType::Range => self.max - self.min,
                AggregationType::CountAbove(_) => self.hits as f64,
            }
        };
        value.to_bits()
    }

    fn set_window_ms(&mut self, _ms: u64) {}

    fn copy(&self) -> Self {
        *self
    }
}

type Series = TimeSeries<FloatAggregator>;

fn make_series(samples: &[(i64, f64)]) -> Series {
    let ops = ValueOps {
        sum: |a: u64, b: u64| (f64::from_bits(a) + f64::from_bits(b)).to_bits(),
        round: |_how, v: u64| v,
        close: |a: u64, b: u64, d: u64| {
            (f64::from_bits(a) - f64::from_bits(b)).abs() <= f64::from_bits(d)
        },
    };
    let mut series = Series::new(1, 4096);
    for &(ts, value) in samples {
        let _ = series.add(ts, value.to_bits(), None, &ops);
    }
    series
}

fn numbers(values: &[u64]) -> Vec<f64> {
    values.iter().map(|v| f64::from_bits(*v)).collect()
}

fn meta<'a>(series: &'a Series, key: &str, group: Option<&str>) -> MRangeSeriesMeta<'a, FloatAggregator> {
    MRangeSeriesMeta {
        series,
        source_key: key.into(),
        latest: None,
        group_label_value: group.map(String::from),
    }
}

fn multi_options(bucket_duration: u64) -> MRangeOptions<FloatAggregator> {
    MRangeOptions {
        range: RangeOptions::with_range(0, 1000),
        aggregation: Some(AggregationOptions {
            aggregators: vec![
                FloatAggregator::new(AggregationType::Avg),
                FloatAggregator::new(AggregationType::Max),
            ],
            bucket_duration,
            alignment: 0,
        }),
        filters: vec![],
        grouping: None,
        with_labels: false,
        selected_labels: vec![],
        is_reverse: false,
    }
}

fn rows_in(result: &MRangeSeriesResult) -> &[MultiSample] {
    match &result.data {
        SeriesResultData::Rows(rows) => rows,
        SeriesResultData::Samples(_) => panic!("expected rows"),
    }
}

fn sum_by_region() -> RangeGroupingOptions<FloatAggregator> {
    RangeGroupingOptions {
        aggregation: FloatAggregator::new(AggregationType::Sum),
        reducer_name: "sum".to_string(),
        decomposable: true,
        group_label: "region".to_string(),
    }
}

/// Non-grouped local query with a multi-aggregation clause stores rows.
#[test]
fn test_local_non_grouped_multi() {
    let s1 = make_series(&[(0, 1.0), (10, 3.0), (110, 5.0)]);
    let s2 = make_series(&[(0, 8.0), (20, 12.0)]);

    let options = multi_options(100);
    let metas = vec![meta(&s1, "a", None), meta(&s2, "b", None)];

    let results = handle_non_grouped(metas, &options, None);
    let results = sort_mrange_results(results, false);

    assert_eq!(results.len(), 2);
    assert_eq!(results[0].key, "a");
    let rows = rows_in(&results[0]);
    assert_eq!(rows.len(), 2);
    assert_eq!(rows[0].timestamp, 0);
    assert_eq!(numbers(&rows[0].values), vec![2.0, 3.0]); // avg, max of {1, 3}
    assert_eq!(numbers(&rows[1].values), vec![5.0, 5.0]);

    let rows = rows_in(&results[1]);
    assert_eq!(rows.len(), 1);
    assert_eq!(numbers(&rows[0].values), vec![10.0, 12.0]);
}

/// Grouped local query: column-wise reduce across the group's series,
/// with reverse ordering and count applied to the reduced rows.
#[test]
fn test_local_grouped_multi_column_reduce() {
    let s1 = make_series(&[(0, 1.0), (10, 3.0), (110, 5.0)]);
    let s2 = make_series(&[(0, 8.0), (20, 12.0), (250, 7.0)]);

    let mut options = multi_options(100);
    let grouping = sum_by_region();

    let metas = vec![meta(&s1, "a", Some("us")), meta(&s2, "b", Some("us"))];
    let results = handle_grouping(metas, &options, &grouping);

    assert_eq!(results.len(), 1);
    assert_eq!(results[0].key, "region=us");
    let rows = rows_in(&results[0]);
    // ts 0: avg 2+10=12, max 3+12=15; ts 100: a only; ts 200: b only
    assert_eq!(rows.len(), 3);
    assert_eq!(numbers(&rows[0].values), vec![12.0, 15.0]);
    assert_eq!(numbers(&rows[1].values), vec![5.0, 5.0]);
    assert_eq!(numbers(&rows[2].values), vec![7.0, 7.0]);

    // reverse + count operate on reduced rows (latest buckets first)
    options.is_reverse = true;
    options.range.count = Some(2);
    let metas = vec![meta(&s1, "a", Some("us")), meta(&s2, "b", Some("us"))];
    let results = handle_grouping(metas, &options, &grouping);
    let rows = rows_in(&results[0]);
    assert_eq!(rows.len(), 2);
    assert_eq!(rows[0].timestamp, 200);
    assert_eq!(rows[1].timestamp, 100);
}

fn key(series: &Series) -> NRangeSeriesMeta<'_, FloatAggregator> {
    NRangeSeriesMeta {
        series,
        latest: None,
    }
}

fn options(start: i64, end: i64) -> NRangeOptions<FloatAggregator> {
    NRangeOptions {
        range: RangeOptions::with_range(start, end),
        aggregations: vec![],
        is_reverse: false,
    }
}

/// How the samples of one key are put together, in buckets of `bucket_duration` ms.
fn aggregation(
    bucket_duration: u64,
    kinds: &[AggregationType],
) -> AggregationOptions<FloatAggregator> {
    AggregationOptions {
        aggregators: kinds.iter().map(|k| FloatAggregator::new(*k)).collect(),
        bucket_duration,
        alignment: 0,
    }
}

/// `[(timestamp, values)]` with NaN rendered as `None`, so rows compare by value.
fn rows_of(rows: &[MultiSample]) -> Vec<(i64, Vec<Option<f64>>)> {
    rows.iter()
        .map(|r| {
            (
                r.timestamp,
                numbers(&r.values)
                    .into_iter()
                    .map(|v| if v.is_nan() { None } else { Some(v) })
                    .collect(),
            )
        })
        .collect()
}

/// Raw mode: one row per distinct timestamp, one column per key in key order, NaN where a
/// key has no sample.
#[test]
fn test_raw_pivot_by_timestamp() {
    let s1 = make_series(&[(1000, 10.0), (2000, 12.0)]);
    let s2 = make_series(&[(1000, 20.0), (3000, 25.0)]);

    let rows = process_nrange(&vec![key(&s1), key(&s2)], &options(0, 5000));

    assert_eq!(
        rows_of(&rows),
        vec![
            (1000, vec![Some(10.0), Some(20.0)]),
            (2000, vec![Some(12.0), None]),
            (3000, vec![None, Some(25.0)]),
        ]
    );
}

/// Downward: same rows, highest timestamp first, and a count keeps the
/// highest timestamps rather than the oldest ones reversed.
#[test]
fn test_reverse_and_count_apply_to_joined_rows() {
    let s1 = make_series(&[(1000, 10.0), (2000, 12.0)]);
    let s2 = make_series(&[(1000, 20.0), (3000, 25.0)]);

    let mut opts = options(0, 5000);
    opts.is_reverse = true;
    let rows = process_nrange(&vec![key(&s1), key(&s2)], &opts);
    assert_eq!(
        rows.iter().map(|r| r.timestamp).collect::<Vec<_>>(),
        vec![3000, 2000, 1000]
    );

    opts.range.count = Some(2);
    let rows = process_nrange(&vec![key(&s1), key(&s2)], &opts);
    assert_eq!(
        rows.iter().map(|r| r.timestamp).collect::<Vec<_>>(),
        vec![3000, 2000]
    );

    // Forward, the same count keeps the lowest timestamps.
    opts.is_reverse = false;
    let rows = process_nrange(&vec![key(&s1), key(&s2)], &opts);
    assert_eq!(
        rows.iter().map(|r| r.timestamp).collect::<Vec<_>>(),
        vec![1000, 2000]
    );
}

/// Aggregation mode with a different aggregator per key, both over the same bucket
/// duration.
#[test]
fn test_per_key_aggregators() {
    let s3 = make_series(&[(1000, 10.0), (1100, 20.0), (2000, 30.0)]);
    let s4 = make_series(&[(1000, 5.0), (1100, 15.0), (2000, 25.0)]);

    let mut opts = options(0, 5000);
    opts.aggregations = vec![
        aggregation(1000, &[AggregationType::Avg]),
        aggregation(1000, &[AggregationType::Sum]),
    ];

    let rows = process_nrange(&vec![key(&s3), key(&s4)], &opts);

    assert_eq!(
        rows_of(&rows),
        vec![
            (1000, vec![Some(15.0), Some(20.0)]),
            (2000, vec![Some(30.0), Some(25.0)]),
        ]
    );
}

/// A key given a comma-separated list contributes one column per aggregator, and its
/// columns stay together and in order (`avg,max` then `sum`).
#[test]
fn test_multiple_aggregators_for_one_key() {
    let s3 = make_series(&[(1000, 10.0), (1100, 20.0), (2000, 30.0)]);
    let s4 = make_series(&[(1000, 5.0), (1100, 15.0), (2000, 25.0)]);

    let mut opts = options(0, 5000);
    opts.aggregations = vec![
        aggregation(1000, &[AggregationType::Avg, AggregationType::Max]),
        aggregation(1000, &[AggregationType::Sum]),
    ];

    let rows = process_nrange(&vec![key(&s3), key(&s4)], &opts);

    assert_eq!(
        rows_of(&rows),
        vec![
            (1000, vec![Some(15.0), Some(20.0), Some(20.0)]),
            (2000, vec![Some(30.0), Some(30.0), Some(25.0)]),
        ]
    );
}

/// A key with no samples in a bucket reports NaN for every column it owns, even when
/// another key produced the bucket.
#[test]
fn test_missing_buckets_blank_the_whole_key_block() {
    let dense = make_series(&[(1000, 1.0), (2000, 2.0), (3000, 3.0)]);
    let sparse = make_series(&[(2000, 9.0)]);

    let mut opts = options(0, 5000);
    opts.aggregations = vec![
        aggregation(1000, &[AggregationType::Min, AggregationType::Max]),
        aggregation(1000, &[AggregationType::Sum]),
    ];

    let rows = process_nrange(&vec![key(&dense), key(&sparse)], &opts);

    assert_eq!(
        rows_of(&rows),
        vec![
            (1000, vec![Some(1.0), Some(1.0), None]),
            (2000, vec![Some(2.0), Some(2.0), Some(9.0)]),
            (3000, vec![Some(3.0), Some(3.0), None]),
        ]
    );
}

/// The extended aggregators are available per key, inline condition included.
#[test]
fn test_extended_aggregators() {
    let s1 = make_series(&[(1000, 1.0), (1100, 7.0), (2000, 9.0)]);
    let s2 = make_series(&[(1000, 4.0), (1100, 6.0), (2000, 2.0)]);

    let mut opts = options(0, 5000);
    opts.aggregations = vec![
        aggregation(1000, &[AggregationType::CountAbove(5.0)]),
        aggregation(1000, &[AggregationType::Range]),
    ];

    let rows = process_nrange(&vec![key(&s1), key(&s2)], &opts);

    assert_eq!(
        rows_of(&rows),
        vec![
            // bucket 1000: s1 has one value > 5, s2 spans 4..6
            (1000, vec![Some(1.0), Some(2.0)]),
            (2000, vec![Some(1.0), Some(0.0)]),
        ]
    );
}

/// The same key listed twice is two independent columns, and a key whose samples all fall
/// outside the range contributes only NaN.
#[test]
fn test_repeated_and_out_of_range_keys() {
    let s1 = make_series(&[(1000, 10.0)]);
    let out_of_range = make_series(&[(9_000, 1.0)]);

    let rows = process_nrange(&vec![key(&s1), key(&s1), key(&out_of_range)], &options(0, 5000));

    assert_eq!(
        rows_of(&rows),
        vec![(1000, vec![Some(10.0), Some(10.0), None])]
    );
}

/// Value and timestamp filters run per key, before the join, so a filtered-out sample
/// leaves a NaN rather than removing the timestamp another key still reports.
#[test]
fn test_filters_apply_before_the_join() {
    let s1 = make_series(&[(1000, 10.0), (2000, 500.0)]);
    let s2 = make_series(&[(1000, 20.0), (2000, 30.0)]);

    let mut opts = options(0, 5000);
    opts.range.value_filter = Some(ValueFilter {
        min: (0.0f64).to_bits(),
        max: (100.0f64).to_bits(),
    });
    let rows = process_nrange(&vec![key(&s1), key(&s2)], &opts);
    assert_eq!(
        rows_of(&rows),
        vec![
            (1000, vec![Some(10.0), Some(20.0)]),
            (2000, vec![None, Some(30.0)]),
        ]
    );

    let mut opts = options(0, 5000);
    opts.range.timestamp_filter = Some(vec![2000]);
    let rows = process_nrange(&vec![key(&s1), key(&s2)], &opts);
    assert_eq!(rows_of(&rows), vec![(2000, vec![Some(500.0), Some(30.0)])]);
}

/// Nothing to report is an empty reply, not a row of NaN.
#[test]
fn test_no_samples_in_range() {
    let s1 = make_series(&[(9_000, 1.0)]);
    let s2 = make_series(&[(9_100, 2.0)]);

    let rows = process_nrange(&vec![key(&s1), key(&s2)], &options(0, 5000));
    assert!(rows.is_empty());
}

/// Another node hands out as many rows as are asked for, and the answer is the same.
#[test]
fn limits_bound_what_is_handed_out() {
    assert_eq!(apply_limit(vec![1, 2, 3], None), vec![1, 2, 3]);
    assert_eq!(apply_limit(vec![1, 2, 3], Some(SampleLimit::Head(2))), vec![1, 2]);
    assert_eq!(apply_limit(vec![1, 2, 3], Some(SampleLimit::Tail(2))), vec![2, 3]);
    assert_eq!(apply_limit(vec![1], Some(SampleLimit::Tail(2))), vec![1]);
}

/// A query without a filter is refused.
#[test]
fn a_query_needs_a_filter() {
    let series = make_series(&[(0, 1.0)]);
    let options = multi_options(100);
    let r = process_mrange_query(vec![meta(&series, "a", None)], &options, false, None);
    assert_eq!(r.err(), Some(MRangeError::MissingFilter));
}

fn filtered_options() -> MRangeOptions<FloatAggregator> {
    let mut options = multi_options(100);
    options.filters = vec![SeriesSelector::And(vec![LabelFilter::equals(
        "region".to_string(),
        "us",
    )])];
    options
}

/// Groups are named by the label and its value, and tell their reducer and their sources.
#[test]
fn groups_tell_their_labels() {
    let mut s1 = make_series(&[(0, 1.0)]);
    s1.labels = vec![Label::new("region", "us")];
    let mut s2 = make_series(&[(0, 2.0)]);
    s2.labels = vec![Label::new("region", "us")];
    let mut options = filtered_options();
    options.grouping = Some(sum_by_region());
    options.with_labels = true;
    let metas = vec![meta(&s2, "b", None), meta(&s1, "a", None)];
    let results = process_mrange_query(metas, &options, false, None).ok().unwrap();
    assert_eq!(results.len(), 1);
    assert_eq!(results[0].key, "region=us");
    assert_eq!(results[0].sources, vec!["a".to_string(), "b".to_string()]);
    assert_eq!(
        results[0].labels,
        vec![
            Label::new("region", "us"),
            Label::new("__reducer__", "sum"),
            Label::new("__source__", "a,b"),
        ]
    );
    assert_eq!(numbers(&rows_in(&results[0])[0].values), vec![3.0, 3.0]);
}

/// What a part of a group is refused for.
#[test]
fn parts_of_groups_that_are_refused() {
    let series = make_series(&[(0, 1.0)]);
    let ask = |permitted: bool, options: &MRangeOptions<FloatAggregator>| {
        process_mrange_group_partials(permitted, vec![meta(&series, "a", None)], options, None)
            .err()
    };
    let mut options = filtered_options();
    assert_eq!(ask(false, &options), Some(MRangeError::Permissions));
    assert_eq!(ask(true, &multi_options(100)), Some(MRangeError::MissingFilter));
    assert_eq!(ask(true, &options), Some(MRangeError::MissingGrouping));
    let mut grouping = sum_by_region();
    grouping.decomposable = false;
    options.grouping = Some(grouping);
    assert_eq!(ask(true, &options), Some(MRangeError::NotDecomposable));
}

/// The states of a part of a group stand row by row.
#[test]
fn a_part_of_a_group() {
    let mut s1 = make_series(&[(0, 1.0), (10, 3.0), (110, 5.0)]);
    s1.labels = vec![Label::new("region", "us")];
    let mut options = filtered_options();
    options.grouping = Some(sum_by_region());
    let metas = vec![meta(&s1, "a", None)];
    let parts = process_mrange_group_partials(true, metas, &options, None).ok().unwrap();
    assert_eq!(parts.len(), 1);
    assert_eq!(parts[0].group_label_value, "us");
    assert_eq!(parts[0].timestamps, vec![0, 100]);
    assert_eq!(parts[0].column_count, 2);
    let sums: Vec<f64> = parts[0].states.iter().map(|s| f64::from_bits(s.finalize())).collect();
    assert_eq!(sums, vec![2.0, 3.0, 5.0, 5.0]);
}
