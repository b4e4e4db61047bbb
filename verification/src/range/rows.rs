//! What one series contributes to a query: its samples in the range, or a row for each bucket.
use crate::aggregation::{fed, Aggregation};
use crate::chunks::search::within;
use crate::chunks::utils::{value_passes, ValueFilter};
use crate::sample::{is_strictly_sorted, order_value, value_is_nan, Sample, Timestamp};
use crate::series::laws::{lemma_bucket, lemma_bucket_monotone};
use crate::series::store::TimeSeries;
use crate::series::update::lemma_filter_strict;
use crate::time::{bucket_start_of, calc_bucket_start};
use vstd::prelude::*;

verus! {

/// A timestamp with a value for each column.
#[derive(Debug, Clone, PartialEq, Eq)]
pub struct MultiSample {
    pub timestamp: Timestamp,
    pub values: Vec<u64>,
}

/// A timestamp with a value for each column.
pub type Row = (Timestamp, Seq<u64>);

/// A row, with its values as a sequence.
pub open spec fn row_of(r: MultiSample) -> Row {
    (r.timestamp, r.values@)
}

/// Rows, with their values as sequences.
pub open spec fn rows_of(rows: Seq<MultiSample>) -> Seq<Row> {
    rows.map_values(|r: MultiSample| row_of(r))
}

/// The timestamps of rows grow.
pub open spec fn rows_increase(rows: Seq<Row>) -> bool {
    forall|i: int, j: int| 0 <= i < j < rows.len() ==> (#[trigger] rows[i]).0 < (#[trigger] rows[j]).0
}

/// All rows have as many values.
pub open spec fn rows_wide(rows: Seq<Row>, width: nat) -> bool {
    forall|i: int| 0 <= i < rows.len() ==> (#[trigger] rows[i]).1.len() == width
}

/// Which samples of a series a query is about.
#[derive(Debug, Clone, PartialEq, Eq)]
pub struct RangeOptions {
    pub start: Timestamp,
    pub end: Timestamp,
    /// How many samples, or rows, are asked for.
    pub count: Option<usize>,
    /// Whether the value of a bucket that is still open is asked for.
    pub latest: bool,
    /// The timestamps that are asked for.
    pub timestamp_filter: Option<Vec<Timestamp>>,
    /// The values that are asked for.
    pub value_filter: Option<ValueFilter>,
}

/// How samples are put together.
pub struct AggregationOptions<B> {
    /// An aggregator for each column.
    pub aggregators: Vec<B>,
    /// How long a bucket is.
    pub bucket_duration: u64,
    /// A timestamp at which a bucket starts.
    pub alignment: Timestamp,
}

impl<B> AggregationOptions<B> {
    /// Buckets take time.
    pub open spec fn wf(&self) -> bool {
        self.bucket_duration > 0
    }

    /// Whether there is more than one column.
    pub fn is_multi(&self) -> (r: bool)
        ensures
            r == (self.aggregators@.len() > 1),
    {
        self.aggregators.len() > 1
    }
}

impl RangeOptions {
    /// The samples from one timestamp to another.
    pub fn with_range(start: Timestamp, end: Timestamp) -> (r: Self)
        ensures
            r.start == start,
            r.end == end,
            r.count is None,
            !r.latest,
            r.timestamp_filter is None,
            r.value_filter is None,
    {
        RangeOptions {
            start,
            end,
            count: None,
            latest: false,
            timestamp_filter: None,
            value_filter: None,
        }
    }

    /// The query is about a timestamp, as far as the list of timestamps goes.
    pub open spec fn asks_for(&self, ts: Timestamp) -> bool {
        match self.timestamp_filter {
            Some(list) => list@.contains(ts),
            None => true,
        }
    }

    /// A sample passes the filters.
    pub open spec fn lets_through(&self, s: Sample) -> bool {
        self.asks_for(s.timestamp) && match self.value_filter {
            Some(f) => value_passes(s, f),
            None => true,
        }
    }

    /// Whether a sample passes the filters.
    pub fn passes(&self, s: Sample) -> (r: bool)
        ensures
            r == self.lets_through(s),
    {
        if let Some(list) = &self.timestamp_filter {
            let mut found: bool = false;
            let mut i: usize = 0;
            while i < list.len() && !found
                invariant
                    i <= list@.len(),
                    found ==> list@.contains(s.timestamp),
                    !found ==> forall|k: int| 0 <= k < i ==> list@[k] != s.timestamp,
                decreases list.len() - i,
            {
                if list[i] == s.timestamp {
                    assert(list@[i as int] == s.timestamp);
                    found = true;
                }
                i += 1;
            }
            if !found {
                return false;
            }
        }
        match self.value_filter {
            Some(f) => !value_is_nan(f.min) && !value_is_nan(f.max) && !value_is_nan(s.value)
                && order_value(f.min) <= order_value(s.value) && order_value(s.value)
                <= order_value(f.max),
            None => true,
        }
    }

    /// Whether the value of an open bucket is part of the answer.
    pub fn takes_latest(&self, s: Sample) -> (r: bool)
        ensures
            r == (self.start <= s.timestamp <= self.end && self.lets_through(s)),
    {
        s.timestamp >= self.start && s.timestamp <= self.end && self.passes(s)
    }
}

/// The value of the open bucket that belongs to the answer of a query.
pub open spec fn latest_of(options: RangeOptions, is_compaction: bool, open: Option<Sample>) -> Option<
    Sample,
> {
    match open {
        Some(s) => if options.latest && is_compaction && options.start <= s.timestamp
            <= options.end && options.lets_through(s) {
            Some(s)
        } else {
            None
        },
        None => None,
    }
}

/// The value of the open bucket that belongs to the answer of a query. Only the destination of a
/// compaction has an open bucket.
pub fn get_latest<A: Aggregation>(
    options: &RangeOptions,
    series: &TimeSeries<A>,
    open_bucket: Option<Sample>,
) -> (r: Option<Sample>)
    ensures
        r == latest_of(*options, series.src_series is Some, open_bucket),
{
    if !options.latest || !series.is_compaction() {
        return None;
    }
    match open_bucket {
        Some(s) => if options.takes_latest(s) {
            Some(s)
        } else {
            None
        },
        None => None,
    }
}

/// The samples of a series that the retention leaves, from one timestamp to another.
pub open spec fn in_range<A: Aggregation>(series: &TimeSeries<A>, start: Timestamp, end: Timestamp) -> Seq<
    Sample,
> {
    within(
        series.samples(),
        if start < series.min_timestamp() {
            series.min_timestamp()
        } else {
            start
        },
        end,
    )
}

/// Samples with the value of an open bucket, which comes after them.
pub open spec fn with_latest(samples: Seq<Sample>, latest: Option<Sample>) -> Seq<Sample> {
    match latest {
        Some(s) => if samples.len() == 0 || samples.last().timestamp < s.timestamp {
            samples.push(s)
        } else {
            samples
        },
        None => samples,
    }
}

/// The samples that a series contributes.
pub open spec fn selected<A: Aggregation>(
    series: &TimeSeries<A>,
    options: RangeOptions,
    latest: Option<Sample>,
) -> Seq<Sample> {
    with_latest(
        in_range(series, options.start, options.end).filter(|s: Sample| options.lets_through(s)),
        latest,
    )
}

/// The samples that a series contributes.
pub fn select_samples<A: Aggregation>(
    series: &TimeSeries<A>,
    options: &RangeOptions,
    latest: Option<Sample>,
) -> (r: Vec<Sample>)
    requires
        series.wf(),
    ensures
        r@ == selected(series, *options, latest),
        is_strictly_sorted(r@),
{
    let all = series.range_iter(options.start, options.end);
    let ghost keep = |s: Sample| options.lets_through(s);
    let mut out: Vec<Sample> = Vec::new();
    let mut i: usize = 0;
    proof {
        reveal(Seq::filter);
        assert(all@.take(0) =~= Seq::<Sample>::empty());
        assert(out@ =~= all@.take(0).filter(keep));
    }
    while i < all.len()
        invariant
            i <= all@.len(),
            keep == (|s: Sample| options.lets_through(s)),
            out@ == all@.take(i as int).filter(keep),
        decreases all.len() - i,
    {
        proof {
            reveal(Seq::filter);
            assert(all@.take(i + 1).drop_last() =~= all@.take(i as int));
        }
        if options.passes(all[i]) {
            out.push(all[i]);
        }
        i += 1;
    }
    proof {
        assert(all@.take(i as int) =~= all@);
        let from = if options.start < series.min_timestamp() {
            series.min_timestamp()
        } else {
            options.start
        };
        lemma_filter_strict(series.samples(), |x: Sample| from <= x.timestamp <= options.end);
        lemma_filter_strict(all@, keep);
    }
    if let Some(s) = latest {
        if out.len() == 0 || out[out.len() - 1].timestamp < s.timestamp {
            let ghost before = out@;
            out.push(s);
            assert(is_strictly_sorted(out@)) by {
                assert forall|i: int, j: int| 0 <= i < j < out@.len() implies out@[i].timestamp
                    < out@[j].timestamp by {
                    if j == before.len() && i < before.len() - 1 {
                        assert(before[i].timestamp < before[before.len() - 1].timestamp);
                    }
                }
            }
        }
    }
    out
}

/// A row for each sample.
pub open spec fn sample_rows(samples: Seq<Sample>) -> Seq<Row> {
    samples.map_values(|s: Sample| (s.timestamp, seq![s.value]))
}

/// Samples by the buckets that they fall in.
pub open spec fn bucketed(samples: Seq<Sample>, align: int, duration: int) -> Seq<(int, Seq<Sample>)>
    decreases samples.len(),
{
    if samples.len() == 0 {
        Seq::empty()
    } else {
        let done = bucketed(samples.drop_last(), align, duration);
        let s = samples.last();
        let start = bucket_start_of(s.timestamp as int, align, duration);
        if done.len() > 0 && done.last().0 == start {
            done.update(done.len() - 1, (start, done.last().1.push(s)))
        } else {
            done.push((start, seq![s]))
        }
    }
}

/// What aggregators make of samples.
pub open spec fn aggregated<B: Aggregation>(aggregators: Seq<B>, samples: Seq<Sample>) -> Seq<u64> {
    Seq::new(aggregators.len(), |i: int| fed(aggregators[i].cleared(), samples).result())
}

/// A row for each bucket that has samples.
pub open spec fn bucket_rows<B: Aggregation>(samples: Seq<Sample>, o: AggregationOptions<B>) -> Seq<
    Row,
> {
    bucketed(samples, o.alignment as int, o.bucket_duration as int).map_values(
        |b: (int, Seq<Sample>)| (b.0 as Timestamp, aggregated(o.aggregators@, b.1)),
    )
}

/// The rows that a series contributes.
pub open spec fn series_rows<A: Aggregation, B: Aggregation>(
    series: &TimeSeries<A>,
    options: RangeOptions,
    aggregation: Option<AggregationOptions<B>>,
    latest: Option<Sample>,
) -> Seq<Row> {
    match aggregation {
        Some(o) => bucket_rows(selected(series, options, latest), o),
        None => sample_rows(selected(series, options, latest)),
    }
}

/// The buckets of samples that are in order are in order.
pub proof fn lemma_buckets_increase(samples: Seq<Sample>, align: int, duration: int)
    requires
        is_strictly_sorted(samples),
        duration > 0,
    ensures
        forall|i: int, j: int|
            0 <= i < j < bucketed(samples, align, duration).len() ==> (#[trigger] bucketed(
                samples,
                align,
                duration,
            )[i]).0 < (#[trigger] bucketed(samples, align, duration)[j]).0,
        forall|i: int|
            0 <= i < bucketed(samples, align, duration).len() ==> i64::MIN <= (#[trigger] bucketed(
                samples,
                align,
                duration,
            )[i]).0 <= i64::MAX,
        samples.len() > 0 ==> bucketed(samples, align, duration).len() > 0 && bucketed(
            samples,
            align,
            duration,
        ).last().0 == bucket_start_of(samples.last().timestamp as int, align, duration),
    decreases samples.len(),
{
    if samples.len() > 0 {
        let less = samples.drop_last();
        assert(is_strictly_sorted(less)) by {
            assert forall|i: int, j: int| 0 <= i < j < less.len() implies less[i].timestamp
                < less[j].timestamp by {
                assert(less[i] == samples[i] && less[j] == samples[j]);
            }
        }
        lemma_buckets_increase(less, align, duration);
        let ts = samples.last().timestamp as int;
        lemma_bucket(ts, align, duration);
        if less.len() > 0 {
            assert(samples[less.len() - 1].timestamp < samples[samples.len() - 1].timestamp);
            lemma_bucket_monotone(less.last().timestamp as int, ts, align, duration);
        }
        let done = bucketed(less, align, duration);
        let out = bucketed(samples, align, duration);
        assert forall|i: int, j: int| 0 <= i < j < out.len() implies (#[trigger] out[i]).0 < (
        #[trigger] out[j]).0 by {
            if j < done.len() {
                assert(out[i].0 == done[i].0 && out[j].0 == done[j].0);
            } else if i < done.len() - 1 {
                assert(done[i].0 < done[done.len() - 1].0);
            }
        }
        assert forall|i: int| 0 <= i < out.len() implies i64::MIN <= (#[trigger] out[i]).0
            <= i64::MAX by {
            if i < done.len() {
                assert(out[i].0 == done[i].0);
            }
        }
    }
}

/// The rows of a series are in order, and have a value for each column.
proof fn lemma_bucket_rows<B: Aggregation>(samples: Seq<Sample>, o: AggregationOptions<B>)
    requires
        is_strictly_sorted(samples),
        o.wf(),
    ensures
        rows_increase(bucket_rows(samples, o)),
        rows_wide(bucket_rows(samples, o), o.aggregators@.len()),
{
    lemma_buckets_increase(samples, o.alignment as int, o.bucket_duration as int);
    let b = bucketed(samples, o.alignment as int, o.bucket_duration as int);
    let rows = bucket_rows(samples, o);
    assert forall|i: int, j: int| 0 <= i < j < rows.len() implies (#[trigger] rows[i]).0 < (
    #[trigger] rows[j]).0 by {
        assert(b[i].0 < b[j].0);
    }
}

/// Copies aggregators that have seen nothing.
fn fresh<B: Aggregation>(aggregators: &Vec<B>) -> (r: Vec<B>)
    ensures
        r@.len() == aggregators@.len(),
        forall|i: int| 0 <= i < r@.len() ==> #[trigger] r@[i] == aggregators@[i].cleared(),
{
    let mut out: Vec<B> = Vec::new();
    let mut i: usize = 0;
    while i < aggregators.len()
        invariant
            i <= aggregators@.len(),
            out@.len() == i,
            forall|k: int| 0 <= k < i ==> #[trigger] out@[k] == aggregators@[k].cleared(),
        decreases aggregators.len() - i,
    {
        let mut a = aggregators[i].copy();
        a.reset();
        out.push(a);
        i += 1;
    }
    out
}

/// Feeds a sample to each aggregator.
fn feed_each<B: Aggregation>(states: Vec<B>, s: Sample) -> (r: Vec<B>)
    ensures
        r@.len() == states@.len(),
        forall|i: int| 0 <= i < r@.len() ==> #[trigger] r@[i] == states@[i].after(s),
{
    let ghost all = states@;
    let mut rest: Vec<B> = states;
    let mut out: Vec<B> = Vec::new();
    let ghost mut n: int = 0;
    assert(all.skip(0) =~= all);
    while rest.len() > 0
        invariant
            0 <= n <= all.len(),
            rest@ == all.skip(n),
            out@.len() == n,
            forall|k: int| 0 <= k < n ==> #[trigger] out@[k] == all[k].after(s),
        decreases rest.len(),
    {
        let mut a = rest.remove(0);
        proof {
            assert(a == all[n]);
            assert(rest@ =~= all.skip(n + 1));
        }
        let _ = a.update(s);
        out.push(a);
        proof {
            n = n + 1;
        }
    }
    out
}

/// The values of aggregators.
fn finalize_each<B: Aggregation>(states: &Vec<B>) -> (r: Vec<u64>)
    ensures
        r@.len() == states@.len(),
        forall|i: int| 0 <= i < r@.len() ==> #[trigger] r@[i] == states@[i].result(),
{
    let mut out: Vec<u64> = Vec::new();
    let mut i: usize = 0;
    while i < states.len()
        invariant
            i <= states@.len(),
            out@.len() == i,
            forall|k: int| 0 <= k < i ==> #[trigger] out@[k] == states@[k].result(),
        decreases states.len() - i,
    {
        out.push(states[i].finalize());
        i += 1;
    }
    out
}

/// Buckets but for the last, and what the last one has seen.
spec fn is_open_bucket<B: Aggregation>(
    buckets: Seq<(int, Seq<Sample>)>,
    o: AggregationOptions<B>,
    start: Option<Timestamp>,
    states: Seq<B>,
) -> bool {
    &&& start is Some == (buckets.len() > 0)
    &&& buckets.len() > 0 ==> {
        &&& start->0 == buckets.last().0
        &&& states.len() == o.aggregators@.len()
        &&& forall|i: int|
            0 <= i < states.len() ==> #[trigger] states[i] == fed(
                o.aggregators@[i].cleared(),
                buckets.last().1,
            )
    }
}

/// The rows of all buckets but the last.
spec fn closed_rows<B: Aggregation>(buckets: Seq<(int, Seq<Sample>)>, o: AggregationOptions<B>) -> Seq<
    Row,
> {
    let closed = if buckets.len() > 0 {
        buckets.drop_last()
    } else {
        buckets
    };
    closed.map_values(
        |b: (int, Seq<Sample>)| (b.0 as Timestamp, aggregated(o.aggregators@, b.1)),
    )
}

/// Puts the samples of each bucket together.
pub fn aggregate_rows<B: Aggregation>(samples: &Vec<Sample>, o: &AggregationOptions<B>) -> (r: Vec<
    MultiSample,
>)
    requires
        o.wf(),
    ensures
        rows_of(r@) == bucket_rows(samples@, *o),
        rows_wide(rows_of(r@), o.aggregators@.len()),
{
    let ghost align = o.alignment as int;
    let ghost duration = o.bucket_duration as int;
    let mut out: Vec<MultiSample> = Vec::new();
    let mut start: Option<Timestamp> = None;
    let mut states: Vec<B> = Vec::new();
    let mut i: usize = 0;
    proof {
        assert(samples@.take(0) =~= Seq::<Sample>::empty());
        assert(rows_of(out@) =~= closed_rows(bucketed(samples@.take(0), align, duration), *o));
    }
    while i < samples.len()
        invariant
            i <= samples@.len(),
            o.wf(),
            align == o.alignment,
            duration == o.bucket_duration,
            rows_of(out@) == closed_rows(bucketed(samples@.take(i as int), align, duration), *o),
            is_open_bucket(bucketed(samples@.take(i as int), align, duration), *o, start, states@),
        decreases samples.len() - i,
    {
        let s: Sample = samples[i];
        let ghost before = bucketed(samples@.take(i as int), align, duration);
        let ghost after = bucketed(samples@.take(i + 1), align, duration);
        assert(samples@.take(i + 1).drop_last() =~= samples@.take(i as int));
        let b: Timestamp = calc_bucket_start(s.timestamp, o.alignment, o.bucket_duration);
        let same: bool = match start {
            Some(t) => t == b,
            None => false,
        };
        if same {
            let ghost was = states@;
            states = feed_each(states, s);
            proof {
                let seen = before.last().1;
                assert(seen.push(s).drop_last() =~= seen);
                assert(closed_rows(after, *o) =~= closed_rows(before, *o));
                assert forall|k: int| 0 <= k < states@.len() implies #[trigger] states@[k] == fed(
                    o.aggregators@[k].cleared(),
                    after.last().1,
                ) by {
                    assert(was[k] == fed(o.aggregators@[k].cleared(), seen));
                }
            }
        } else {
            let ghost out0 = out@;
            if let Some(t) = start {
                let values = finalize_each(&states);
                proof {
                    assert(values@ =~= aggregated(o.aggregators@, before.last().1));
                    assert(t == before.last().0);
                    assert((t as int) as Timestamp == t);
                }
                let row = MultiSample { timestamp: t, values };
                let ghost v = row_of(row);
                out.push(row);
                proof {
                    assert(rows_of(out@) =~= rows_of(out0).push(v));
                    assert(after.drop_last() =~= before);
                    assert(before =~= before.drop_last().push(before.last()));
                    assert(closed_rows(after, *o) =~= closed_rows(before, *o).push(v));
                }
            } else {
                assert(after.drop_last() =~= before);
                assert(closed_rows(after, *o) =~= closed_rows(before, *o));
            }
            start = Some(b);
            states = fresh(&o.aggregators);
            let ghost was = states@;
            states = feed_each(states, s);
            proof {
                assert forall|k: int| 0 <= k < states@.len() implies #[trigger] states@[k] == fed(
                    o.aggregators@[k].cleared(),
                    after.last().1,
                ) by {
                    assert(was[k] == o.aggregators@[k].cleared());
                    let one = seq![s];
                    assert(one.drop_last() =~= Seq::<Sample>::empty());
                    assert(fed(o.aggregators@[k].cleared(), one.drop_last())
                        == o.aggregators@[k].cleared());
                    assert(fed(o.aggregators@[k].cleared(), one)
                        == o.aggregators@[k].cleared().after(s));
                }
            }
        }
        i += 1;
    }
    assert(samples@.take(i as int) =~= samples@);
    let ghost buckets = bucketed(samples@, align, duration);
    let ghost out0 = out@;
    if let Some(t) = start {
        let values = finalize_each(&states);
        proof {
            assert(values@ =~= aggregated(o.aggregators@, buckets.last().1));
            assert(t == buckets.last().0);
        }
        let row = MultiSample { timestamp: t, values };
        let ghost v = row_of(row);
        out.push(row);
        proof {
            assert(rows_of(out@) =~= rows_of(out0).push(v));
            assert(buckets =~= buckets.drop_last().push(buckets.last()));
        }
    }
    assert(rows_of(out@) =~= bucket_rows(samples@, *o));
    out
}

/// The rows that a series contributes.
pub fn create_row_iterator<A: Aggregation, B: Aggregation>(
    series: &TimeSeries<A>,
    options: &RangeOptions,
    aggregation: Option<&AggregationOptions<B>>,
    latest: Option<Sample>,
) -> (r: Vec<MultiSample>)
    requires
        series.wf(),
        aggregation is Some ==> aggregation->0.wf(),
    ensures
        rows_of(r@) == series_rows(
            series,
            *options,
            match aggregation {
                Some(o) => Some(*o),
                None => None,
            },
            latest,
        ),
        rows_increase(rows_of(r@)),
        rows_wide(
            rows_of(r@),
            match aggregation {
                Some(o) => o.aggregators@.len(),
                None => 1,
            },
        ),
{
    let samples = select_samples(series, options, latest);
    match aggregation {
        Some(o) => {
            proof {
                lemma_bucket_rows(samples@, *o);
            }
            aggregate_rows(&samples, o)
        },
        None => {
            let mut out: Vec<MultiSample> = Vec::new();
            let mut i: usize = 0;
            while i < samples.len()
                invariant
                    i <= samples@.len(),
                    out@.len() == i,
                    forall|k: int|
                        0 <= k < i ==> row_of(#[trigger] out@[k]) == (
                            samples@[k].timestamp,
                            seq![samples@[k].value],
                        ),
                decreases samples.len() - i,
            {
                let values: Vec<u64> = vec![samples[i].value];
                assert(values@ =~= seq![samples@[i as int].value]);
                out.push(MultiSample { timestamp: samples[i].timestamp, values });
                i += 1;
            }
            proof {
                let rows = rows_of(out@);
                assert(rows =~= sample_rows(samples@));
                assert forall|i: int, j: int| 0 <= i < j < rows.len() implies (
                #[trigger] rows[i]).0 < (#[trigger] rows[j]).0 by {
                    assert(samples@[i].timestamp < samples@[j].timestamp);
                }
            }
            out
        },
    }
}

} // verus!
