//! Series that are compactions of others.
use valkey_timeseries::aggregation::Aggregation;
use valkey_timeseries::error::TsdbError;
use valkey_timeseries::sample::{DuplicatePolicy, Sample, SampleAddResult};
use valkey_timeseries::series::cascade::{apply_rule, dedupe_written_samples, Cascade, RuleOutcome};
use valkey_timeseries::series::compaction::CompactionOp;
use valkey_timeseries::series::graph::{
    check_circular_dependencies, check_new_rule_circular_dependency, LinkWalk,
};
use valkey_timeseries::series::ingest::normalize_batch;
use valkey_timeseries::series::rule::CompactionRule;
use valkey_timeseries::series::rules::get_latest_compaction_sample;
use valkey_timeseries::series::store::{RoundingStrategy, TimeSeries, ValueOps};

/// Adds values that are kept as the bits of floating-point numbers.
#[derive(Debug, Clone, Copy, PartialEq)]
struct SumAggregator {
    count: u64,
    sum: f64,
}

impl Aggregation for SumAggregator {
    fn cleared(mut self) -> Self {
        self.reset();
        self
    }

    fn after(mut self, s: Sample) -> Self {
        self.update(s);
        self
    }

    fn takes(self, _s: Sample) -> bool {
        true
    }

    fn result(self) -> u64 {
        self.finalize()
    }

    fn windowed(self, _ms: u64) -> Self {
        self
    }

    fn reset(&mut self) {
        self.count = 0;
        self.sum = 0.0;
    }

    fn update(&mut self, s: Sample) -> bool {
        self.count += 1;
        self.sum += f64::from_bits(s.value);
        true
    }

    fn finalize(&self) -> u64 {
        self.sum.to_bits()
    }

    fn set_window_ms(&mut self, _ms: u64) {}

    fn copy(&self) -> Self {
        *self
    }
}

type Series = TimeSeries<SumAggregator>;

fn sum_bits(a: u64, b: u64) -> u64 {
    (f64::from_bits(a) + f64::from_bits(b)).to_bits()
}

fn keep(_how: RoundingStrategy, v: u64) -> u64 {
    v
}

fn close(a: u64, b: u64, d: u64) -> bool {
    (f64::from_bits(a) - f64::from_bits(b)).abs() <= f64::from_bits(d)
}

type Ops = ValueOps<fn(u64, u64) -> u64, fn(RoundingStrategy, u64) -> u64, fn(u64, u64, u64) -> bool>;

fn ops() -> Ops {
    ValueOps { sum: sum_bits, round: keep, close }
}

fn rule(dest_id: u64, bucket_duration: u64) -> CompactionRule<SumAggregator> {
    CompactionRule {
        dest_id,
        aggregator: SumAggregator { count: 0, sum: 0.0 },
        bucket_duration,
        align_timestamp: 0,
        bucket_start: None,
        has_samples: false,
    }
}

fn sample(ts: i64, value: f64) -> Sample {
    Sample::new(ts, value.to_bits())
}

fn contents(series: &Series) -> Vec<(i64, f64)> {
    series
        .range_iter(i64::MIN, i64::MAX)
        .iter()
        .map(|s| (s.timestamp, f64::from_bits(s.value)))
        .collect()
}

/// Adds a sample to a series and brings its compaction up to date.
fn add(
    source: &mut Series,
    dest: &mut Series,
    rule: &mut CompactionRule<SumAggregator>,
    ts: i64,
    value: f64,
) {
    let last = source.last_sample.map(|s| s.timestamp);
    let r = source.add(ts, value.to_bits(), Some(DuplicatePolicy::KeepLast), &ops());
    assert!(r.is_ok());
    let op = if last.map_or(true, |l| ts > l) {
        CompactionOp::AddNew(sample(ts, value))
    } else {
        CompactionOp::Upsert(sample(ts, value))
    };
    apply_rule(source, dest, rule, op, &ops()).unwrap();
}

/// A bucket is stored once a later one opens.
#[test]
fn closed_buckets_are_stored() {
    let mut source = Series::new(1, 4096);
    let mut dest = Series::new(2, 4096);
    let mut r = rule(2, 100);
    add(&mut source, &mut dest, &mut r, 10, 1.0);
    add(&mut source, &mut dest, &mut r, 20, 2.0);
    assert!(contents(&dest).is_empty());
    assert_eq!(r.bucket_start, Some(0));
    add(&mut source, &mut dest, &mut r, 150, 4.0);
    assert_eq!(contents(&dest), vec![(0, 3.0)]);
    assert_eq!(r.bucket_start, Some(100));
    add(&mut source, &mut dest, &mut r, 320, 8.0);
    assert_eq!(contents(&dest), vec![(0, 3.0), (100, 4.0)]);
}

/// A late sample changes the bucket that it falls in.
#[test]
fn late_samples_change_their_buckets() {
    let mut source = Series::new(1, 4096);
    let mut dest = Series::new(2, 4096);
    let mut r = rule(2, 100);
    for (ts, v) in [(10, 1.0), (110, 2.0), (210, 4.0)] {
        add(&mut source, &mut dest, &mut r, ts, v);
    }
    assert_eq!(contents(&dest), vec![(0, 1.0), (100, 2.0)]);
    add(&mut source, &mut dest, &mut r, 15, 10.0);
    assert_eq!(contents(&dest), vec![(0, 11.0), (100, 2.0)]);
    // One that takes the place of another counts once.
    add(&mut source, &mut dest, &mut r, 110, 5.0);
    assert_eq!(contents(&dest), vec![(0, 11.0), (100, 5.0)]);
    // One in the open bucket is there when it closes.
    add(&mut source, &mut dest, &mut r, 205, 1.0);
    add(&mut source, &mut dest, &mut r, 300, 0.0);
    assert_eq!(contents(&dest), vec![(0, 11.0), (100, 5.0), (200, 5.0)]);
}

/// Buckets lose what is removed, and go where nothing is left.
#[test]
fn removed_samples_leave_their_buckets() {
    let mut source = Series::new(1, 4096);
    let mut dest = Series::new(2, 4096);
    let mut r = rule(2, 100);
    for (ts, v) in [(10, 1.0), (50, 2.0), (110, 4.0), (210, 8.0), (310, 16.0)] {
        add(&mut source, &mut dest, &mut r, ts, v);
    }
    assert_eq!(contents(&dest), vec![(0, 3.0), (100, 4.0), (200, 8.0)]);
    assert_eq!(source.remove_range(50, 150).unwrap(), 2);
    let op = CompactionOp::RemoveRange { start: 50, end: 150 };
    apply_rule(&source, &mut dest, &mut r, op, &ops()).unwrap();
    assert_eq!(contents(&dest), vec![(0, 1.0), (200, 8.0)]);
}

/// A batch leaves the same buckets as its samples one by one.
#[test]
fn batches_and_single_samples_agree() {
    let samples = [(10, 1.0), (60, 2.0), (130, 4.0), (250, 8.0), (260, 16.0), (410, 32.0)];
    let mut source = Series::new(1, 4096);
    let mut dest = Series::new(2, 4096);
    let mut r = rule(2, 100);
    for (ts, v) in samples {
        add(&mut source, &mut dest, &mut r, ts, v);
    }

    let mut other = Series::new(3, 4096);
    let mut other_dest = Series::new(4, 4096);
    let mut other_rule = rule(4, 100);
    let batch: Vec<Sample> = samples.iter().map(|(ts, v)| sample(*ts, *v)).collect();
    for s in &batch {
        assert!(other.add(s.timestamp, s.value, None, &ops()).is_ok());
    }
    let order: Vec<i64> = batch.iter().map(|s| s.timestamp).collect();
    let op = CompactionOp::AddBatch { samples: &batch, prev_last: None, input_order: &order };
    apply_rule(&other, &mut other_dest, &mut other_rule, op, &ops()).unwrap();
    assert_eq!(contents(&other_dest), contents(&dest));
    assert_eq!(contents(&other_dest), vec![(0, 3.0), (100, 4.0), (200, 24.0)]);
    assert_eq!(other_rule.bucket_start, r.bucket_start);
}

/// The value of the open bucket can be read before it is stored.
#[test]
fn the_open_bucket_can_be_read() {
    let mut source = Series::new(1, 4096);
    let mut dest = Series::new(2, 4096);
    let mut r = rule(2, 100);
    add(&mut source, &mut dest, &mut r, 110, 1.0);
    add(&mut source, &mut dest, &mut r, 120, 2.0);
    source.add_compaction_rule(r);
    assert_eq!(get_latest_compaction_sample(&source, 2), Some(sample(100, 3.0)));
    assert_eq!(get_latest_compaction_sample(&source, 9), None);
}

/// What a compaction stored goes on to its own compactions.
#[test]
fn changes_run_through_chains() {
    let mut cascade = Cascade::new(1, CompactionOp::AddNew(sample(1, 1.0)));
    assert!(cascade.next().is_none());
    cascade.absorb(vec![RuleOutcome {
        dest_id: 2,
        dest_prev_last: Some(0),
        written: vec![sample(5, 1.0)],
    }]);
    let second = cascade.next().unwrap();
    assert_eq!((second.id, second.prev_last), (2, Some(0)));
    assert_eq!(second.samples, vec![sample(5, 1.0)]);
    // What leads back to a series that had its turn goes no further.
    cascade.absorb(vec![
        RuleOutcome { dest_id: 1, dest_prev_last: None, written: vec![sample(5, 2.0)] },
        RuleOutcome { dest_id: 3, dest_prev_last: None, written: vec![] },
    ]);
    assert!(cascade.next().is_none());
    assert_eq!(cascade.finish(), vec![2, 1]);
}

/// Of what was stored at a timestamp the last counts.
#[test]
fn the_last_of_what_was_stored_counts() {
    let written = vec![sample(5, 1.0), sample(3, 2.0), sample(5, 4.0)];
    assert_eq!(dedupe_written_samples(written), vec![sample(3, 2.0), sample(5, 4.0)]);
}

/// A chain of compactions must not lead back.
#[test]
fn circles_are_found() {
    assert!(check_circular_dependencies(&vec![(1, vec![2, 3]), (2, vec![3])]).is_ok());
    assert_eq!(
        check_circular_dependencies(&vec![(1, vec![2]), (2, vec![3]), (3, vec![1])]),
        Err(TsdbError::CircularDependency)
    );
    let links = vec![(1, vec![2]), (2, vec![3])];
    assert!(check_new_rule_circular_dependency(&links, 1, 4).is_ok());
    assert_eq!(
        check_new_rule_circular_dependency(&links, 3, 1),
        Err(TsdbError::CircularDependency)
    );
    assert_eq!(
        check_new_rule_circular_dependency(&links, 5, 5),
        Err(TsdbError::CircularDependency)
    );
}

/// What a series takes of a batch: what is not too old, in order.
#[test]
fn batches_are_normalized() {
    let mut series = Series::new(1, 4096);
    series.retention = 100;
    assert!(series.add(1000, 0, None, &ops()).is_ok());
    let batch = [sample(1200, 1.0), sample(800, 2.0), sample(1150, 3.0)];
    let normal = normalize_batch(&series, &batch, None, &ops());
    assert_eq!(normal.to_insert, vec![sample(1150, 3.0), sample(1200, 1.0)]);
    assert_eq!(normal.insert_index, vec![2, 0]);
    assert_eq!(normal.results[1], SampleAddResult::TooOld);
}

/// What becomes of a sample at a timestamp that is taken.
#[test]
fn policies_on_taken_timestamps() {
    for (policy, expected) in [
        (DuplicatePolicy::KeepFirst, 2.0),
        (DuplicatePolicy::KeepLast, 5.0),
        (DuplicatePolicy::Min, 2.0),
        (DuplicatePolicy::Max, 5.0),
        (DuplicatePolicy::Sum, 7.0),
    ] {
        let mut series = Series::new(1, 4096);
        assert!(series.add(10, (2.0f64).to_bits(), None, &ops()).is_ok());
        let _ = series.add(10, (5.0f64).to_bits(), Some(policy), &ops());
        assert_eq!(contents(&series), vec![(10, expected)], "{policy:?}");
    }
    let mut series = Series::new(1, 4096);
    assert!(series.add(10, 1, None, &ops()).is_ok());
    assert_eq!(
        series.add(10, 2, Some(DuplicatePolicy::Block), &ops()),
        SampleAddResult::Duplicate
    );
}

/// What the destination of a rule with whole buckets has to hold.
fn aggregates(source: &Series, duration: i64) -> Vec<(i64, f64)> {
    let all = contents(source);
    let open = match all.last() {
        Some((ts, _)) => ts - ts % duration,
        None => return Vec::new(),
    };
    let mut out: Vec<(i64, f64)> = Vec::new();
    for (ts, v) in all {
        let start = ts - ts % duration;
        if start >= open {
            break;
        }
        match out.last_mut() {
            Some(last) if last.0 == start => last.1 += v,
            _ => out.push((start, v)),
        }
    }
    out
}

/// Whatever is done to a source, the destination holds the aggregates of its closed buckets.
#[test]
fn destinations_hold_the_aggregates() {
    let mut source = Series::new(1, 4096);
    let mut dest = Series::new(2, 4096);
    let mut r = rule(2, 100);
    for (ts, v) in [(10, 1.0), (50, 2.0), (110, 4.0), (40, 8.0), (330, 16.0), (110, 32.0)] {
        add(&mut source, &mut dest, &mut r, ts, v);
        assert_eq!(contents(&dest), aggregates(&source, 100));
    }

    let prev_last = source.last_sample.map(|s| s.timestamp);
    let order: Vec<i64> = vec![520, 20, 410, 340, 650, 110];
    let mut batch: Vec<Sample> = order.iter().map(|ts| sample(*ts, 0.5)).collect();
    for s in &batch {
        assert!(source.add(s.timestamp, s.value, Some(DuplicatePolicy::KeepLast), &ops()).is_ok());
    }
    batch.sort_by_key(|s| s.timestamp);
    let op = CompactionOp::AddBatch { samples: &batch, prev_last, input_order: &order };
    apply_rule(&source, &mut dest, &mut r, op, &ops()).unwrap();
    assert_eq!(
        contents(&dest),
        vec![(0, 11.5), (100, 0.5), (300, 16.5), (400, 0.5), (500, 0.5)]
    );
    assert_eq!(contents(&dest), aggregates(&source, 100));

    for (start, end) in [(50, 120), (600, 700), (-5, 15), (0, i64::MAX)] {
        source.remove_range(start, end).unwrap();
        let op = CompactionOp::RemoveRange { start, end };
        apply_rule(&source, &mut dest, &mut r, op, &ops()).unwrap();
        assert_eq!(contents(&dest), aggregates(&source, 100));
    }
    assert!(contents(&dest).is_empty());
    assert_eq!(r.bucket_start, None);
}

/// The series that compactions lead to are asked once each.
#[test]
fn walks_ask_every_series_once() {
    let fed = |id: u64| match id {
        1 => vec![2, 3],
        2 => vec![4],
        3 => vec![4],
        4 => vec![2],
        _ => vec![],
    };
    let mut walk = LinkWalk::new();
    walk.visit(1);
    walk.visit(1);
    let mut asked = Vec::new();
    while let Some(id) = walk.next() {
        asked.push(id);
        walk.answer(fed(id));
    }
    asked.sort();
    assert_eq!(asked, vec![1, 2, 3, 4]);
    assert_eq!(walk.gathered().len(), 4);
    assert_eq!(check_circular_dependencies(walk.gathered()), Err(TsdbError::CircularDependency));
}
