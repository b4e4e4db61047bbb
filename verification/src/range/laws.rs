//! What the answers to range queries are, said of the samples of the series.
use crate::aggregation::{fed, Aggregation, NAN_BITS};
use crate::index::label_querier::label_value;
use crate::range::groups::{
    group_values, grouped, law_groups, lemma_group_place, same_but_group, Group, MRangeSeriesMeta,
};
use crate::range::merge::{
    column_at, finished, has_row, joint_timestamps, law_rows_joined, pivoted, reduced, row_at,
    values_at,
};
use crate::range::mrange::{
    answers_sorted, group_answer, group_answers, group_sources, group_states, is_answer,
    label_values, law_answers_sorted, limited, meta_rows, metas_wf, series_answer, series_answers,
    tagged, Answer, MRangeOptions, RangeGroupingOptions, SampleLimit,
};
use crate::range::nrange::requested;
use crate::range::rows::{
    aggregated, bucket_rows, bucketed, in_range, latest_of, lemma_buckets_increase, rows_increase,
    rows_wide, sample_rows, selected, series_rows, with_latest, AggregationOptions, RangeOptions, Row,
};
use crate::sample::{is_nan, is_strictly_sorted, value_order, Sample, Timestamp};
use crate::series::laws::lemma_bucket_monotone;
use crate::series::store::{lemma_filter_from, TimeSeries};
use crate::series::update::lemma_filter_strict;
use crate::time::bucket_start_of;
use vstd::prelude::*;

verus! {

/// A sample lies in the range of a query, is one of the timestamps that it lists, and has a value
/// between those that it names.
pub open spec fn is_asked(options: RangeOptions, s: Sample) -> bool {
    &&& options.start <= s.timestamp
    &&& s.timestamp <= options.end
    &&& options.timestamp_filter matches Some(list) ==> exists|i: int|
        0 <= i < list@.len() && #[trigger] list@[i] == s.timestamp
    &&& options.value_filter matches Some(f) ==> {
        &&& !is_nan(f.min) && !is_nan(s.value) && !is_nan(f.max)
        &&& value_order(f.min) <= value_order(s.value) <= value_order(f.max)
    }
}

proof fn lemma_asked(options: RangeOptions, s: Sample)
    ensures
        is_asked(options, s) == (options.start <= s.timestamp <= options.end
            && options.lets_through(s)),
{
    if let Some(list) = options.timestamp_filter {
        if list@.contains(s.timestamp) {
            let i = choose|i: int| 0 <= i < list@.len() && list@[i] == s.timestamp;
            assert(list@[i] == s.timestamp);
        }
    }
}

/// The value of an open bucket is told as it is where it is asked for, the series is the
/// destination of a compaction, and the query is about it; nothing is told otherwise.
pub proof fn law_latest(options: RangeOptions, is_compaction: bool, open: Option<Sample>)
    ensures
        match latest_of(options, is_compaction, open) {
            Some(s) => open == Some(s) && options.latest && is_compaction && is_asked(options, s),
            None => open is None || !options.latest || !is_compaction || !is_asked(
                options,
                open->0,
            ),
        },
        !is_compaction ==> latest_of(options, is_compaction, open) is None,
        is_compaction && options.latest && options.timestamp_filter is None
            && options.value_filter is None && open is Some && options.start
            <= open->0.timestamp <= options.end ==> latest_of(options, is_compaction, open) == open,
{
    if let Some(s) = open {
        lemma_asked(options, s);
    }
}

/// The retention of a series leaves a timestamp: it is no further back from the last sample.
pub open spec fn is_kept<A: Aggregation>(series: &TimeSeries<A>, ts: Timestamp) -> bool {
    series.retention == 0 || (0 <= ts && series.samples().last().timestamp - series.retention <= ts)
}

/// A sample is one of a series that a query is about.
pub open spec fn is_hit<A: Aggregation>(
    series: &TimeSeries<A>,
    options: RangeOptions,
    s: Sample,
) -> bool {
    series.samples().contains(s) && is_kept(series, s.timestamp) && is_asked(options, s)
}

/// A sample belongs to what a series contributes to a query: it is one of its samples that the
/// query is about, or the value of its open bucket, which comes after all of these.
pub open spec fn belongs<A: Aggregation>(
    series: &TimeSeries<A>,
    options: RangeOptions,
    latest: Option<Sample>,
    s: Sample,
) -> bool {
    is_hit(series, options, s) || (latest == Some(s) && forall|x: Sample| #[trigger]
        is_hit(series, options, x) ==> x.timestamp < s.timestamp)
}

/// A series contributes what belongs to the answer and nothing else, in the order of the
/// timestamps.
pub proof fn law_selected<A: Aggregation>(
    series: &TimeSeries<A>,
    options: RangeOptions,
    latest: Option<Sample>,
)
    requires
        series.wf(),
    ensures
        is_strictly_sorted(selected(series, options, latest)),
        forall|s: Sample| #[trigger]
            selected(series, options, latest).contains(s) <==> belongs(series, options, latest, s),
{
    broadcast use vstd::seq_lib::group_filter_ensures;

    let all = series.samples();
    let floor = series.min_timestamp();
    let from = if options.start < floor {
        floor
    } else {
        options.start
    };
    let inside = |x: Sample| from <= x.timestamp <= options.end;
    let keep = |s: Sample| options.lets_through(s);
    let ranged = in_range(series, options.start, options.end);
    let kept = ranged.filter(keep);
    assert(ranged == all.filter(inside));
    lemma_filter_strict(all, inside);
    lemma_filter_strict(ranged, keep);
    lemma_filter_from(all, inside);
    lemma_filter_from(ranged, keep);
    assert forall|s: Sample| #[trigger] kept.contains(s) <==> is_hit(series, options, s) by {
        lemma_asked(options, s);
        if kept.contains(s) {
            let i = choose|i: int| 0 <= i < kept.len() && kept[i] == s;
            assert(ranged.contains(ranged.filter(keep)[i]));
            assert(keep(kept[i]));
            let j = choose|j: int| 0 <= j < ranged.len() && ranged[j] == s;
            assert(all.contains(all.filter(inside)[j]));
            assert(inside(ranged[j]));
        }
        if is_hit(series, options, s) {
            assert(all.contains(s));
            assert(all.len() > 0);
            assert(inside(s));
            assert(ranged.contains(s));
            assert(keep(s));
            assert(kept.contains(s));
        }
    }
    let out = selected(series, options, latest);
    assert(out == with_latest(kept, latest));
    if let Some(l) = latest {
        if kept.len() == 0 || kept.last().timestamp < l.timestamp {
            assert forall|x: Sample| #[trigger] is_hit(series, options, x) implies x.timestamp
                < l.timestamp by {
                assert(kept.contains(x));
                let i = choose|i: int| 0 <= i < kept.len() && kept[i] == x;
                if i < kept.len() - 1 {
                    assert(kept[i].timestamp < kept[kept.len() - 1].timestamp);
                }
            }
            assert forall|i: int, j: int| 0 <= i < j < out.len() implies out[i].timestamp
                < out[j].timestamp by {
                assert(kept.contains(kept[i]));
                assert(is_hit(series, options, kept[i]));
            }
            assert forall|s: Sample| #[trigger] out.contains(s) <==> belongs(
                series,
                options,
                latest,
                s,
            ) by {
                assert(kept.contains(s) <==> is_hit(series, options, s));
                if kept.contains(s) {
                    let i = choose|i: int| 0 <= i < kept.len() && kept[i] == s;
                    assert(out[i] == s);
                }
                assert(out[kept.len() as int] == l);
                if out.contains(s) {
                    let i = choose|i: int| 0 <= i < out.len() && out[i] == s;
                    if i < kept.len() {
                        assert(kept[i] == s);
                    }
                }
            }
        } else {
            let x = kept.last();
            assert(kept.contains(x));
            assert(is_hit(series, options, x));
            assert forall|s: Sample| #[trigger] out.contains(s) <==> belongs(
                series,
                options,
                latest,
                s,
            ) by {
                assert(kept.contains(s) <==> is_hit(series, options, s));
            }
        }
    } else {
        assert forall|s: Sample| #[trigger] out.contains(s) <==> belongs(
            series,
            options,
            latest,
            s,
        ) by {
            assert(kept.contains(s) <==> is_hit(series, options, s));
        }
    }
}

/// The timestamps of rows fall.
pub open spec fn rows_decrease(rows: Seq<Row>) -> bool {
    forall|i: int, j: int| 0 <= i < j < rows.len() ==> (#[trigger] rows[i]).0 > (#[trigger] rows[j]).0
}

/// A timestamp is beyond rows: as many are given as are asked for, and it comes after them all,
/// upwards or downwards.
pub open spec fn is_beyond(
    rows: Seq<Row>,
    is_reverse: bool,
    count: Option<usize>,
    ts: Timestamp,
) -> bool {
    &&& count is Some
    &&& rows.len() == count->0
    &&& forall|i: int|
        0 <= i < rows.len() ==> if is_reverse {
            ts < (#[trigger] rows[i]).0
        } else {
            ts > rows[i].0
        }
}

/// The part of rows that an answer gives: upwards or downwards, no more than are asked for and no
/// fewer where there are as many. Upwards what is left out is newer than what is given, downwards
/// it is older.
pub open spec fn is_page(
    all: Seq<Row>,
    rows: Seq<Row>,
    is_reverse: bool,
    count: Option<usize>,
) -> bool {
    &&& is_reverse ==> rows_decrease(rows)
    &&& !is_reverse ==> rows_increase(rows)
    &&& forall|i: int| 0 <= i < rows.len() ==> all.contains(#[trigger] rows[i])
    &&& count matches Some(n) ==> rows.len() <= n
    &&& forall|x: Row| #[trigger]
        all.contains(x) && !rows.contains(x) ==> is_beyond(rows, is_reverse, count, x.0)
}

/// What is given of rows goes upwards from the oldest, or downwards from the newest.
pub proof fn law_requested(all: Seq<Row>, is_reverse: bool, count: Option<usize>)
    requires
        rows_increase(all),
    ensures
        is_page(all, requested(all, is_reverse, count), is_reverse, count),
{
    let rows = requested(all, is_reverse, count);
    let n = all.len();
    assert forall|i: int| 0 <= i < rows.len() implies #[trigger] rows[i] == if is_reverse {
        all[n - 1 - i]
    } else {
        all[i]
    } by {}
    assert forall|i: int| 0 <= i < rows.len() implies all.contains(#[trigger] rows[i]) by {
        if is_reverse {
            assert(all[n - 1 - i] == rows[i]);
        } else {
            assert(all[i] == rows[i]);
        }
    }
    assert forall|i: int, j: int| 0 <= i < j < rows.len() implies if is_reverse {
        (#[trigger] rows[i]).0 > (#[trigger] rows[j]).0
    } else {
        rows[i].0 < rows[j].0
    } by {
        if is_reverse {
            assert(all[n - 1 - j].0 < all[n - 1 - i].0);
        } else {
            assert(all[i].0 < all[j].0);
        }
    }
    assert forall|x: Row| #[trigger] all.contains(x) && !rows.contains(x) implies is_beyond(
        rows,
        is_reverse,
        count,
        x.0,
    ) by {
        let k = choose|k: int| 0 <= k < all.len() && all[k] == x;
        let at = if is_reverse {
            n - 1 - k
        } else {
            k
        };
        if at < rows.len() {
            assert(rows[at] == x);
            assert(rows.contains(x));
        }
        assert forall|i: int| 0 <= i < rows.len() implies if is_reverse {
            x.0 < (#[trigger] rows[i]).0
        } else {
            x.0 > rows[i].0
        } by {
            if is_reverse {
                assert(all[k].0 < all[n - 1 - i].0);
            } else {
                assert(all[i].0 < all[k].0);
            }
        }
    }
}

/// A sample stands in an answer.
pub open spec fn is_given(a: Answer, s: Sample) -> bool {
    a.rows.contains((s.timestamp, seq![s.value]))
}

/// The answer for a series: its samples that belong to it, upwards or downwards, as many as are asked
/// for. Upwards the oldest are given, downwards the newest.
pub open spec fn is_range_of<'a, A: Aggregation, B: Aggregation>(
    meta: MRangeSeriesMeta<'a, A>,
    options: MRangeOptions<B>,
    a: Answer,
) -> bool {
    &&& a.key == meta.source_key@
    &&& !a.multi
    &&& options.is_reverse ==> rows_decrease(a.rows)
    &&& !options.is_reverse ==> rows_increase(a.rows)
    &&& options.range.count matches Some(n) ==> a.rows.len() <= n
    &&& forall|i: int|
        0 <= i < a.rows.len() ==> (#[trigger] a.rows[i]).1.len() == 1 && belongs(
            meta.series,
            options.range,
            meta.latest,
            Sample { timestamp: a.rows[i].0, value: a.rows[i].1[0] },
        )
    &&& forall|s: Sample| #[trigger]
        belongs(meta.series, options.range, meta.latest, s) && !is_given(a, s) ==> is_beyond(
            a.rows,
            options.is_reverse,
            options.range.count,
            s.timestamp,
        )
}

proof fn lemma_range_of<'a, A: Aggregation, B: Aggregation>(
    meta: MRangeSeriesMeta<'a, A>,
    options: MRangeOptions<B>,
)
    requires
        meta.series.wf(),
        options.aggregation is None,
    ensures
        is_range_of(meta, options, series_answer(meta, options, None)),
{
    let samples = selected(meta.series, options.range, meta.latest);
    let all = sample_rows(samples);
    let a = series_answer(meta, options, None);
    let count = options.range.count;
    law_selected(meta.series, options.range, meta.latest);
    assert forall|i: int, j: int| 0 <= i < j < all.len() implies (#[trigger] all[i]).0 < (
    #[trigger] all[j]).0 by {
        assert(samples[i].timestamp < samples[j].timestamp);
    }
    law_requested(all, options.is_reverse, count);
    assert(a.rows == requested(all, options.is_reverse, count));
    assert forall|i: int| 0 <= i < a.rows.len() implies (#[trigger] a.rows[i]).1.len() == 1
        && belongs(
        meta.series,
        options.range,
        meta.latest,
        Sample { timestamp: a.rows[i].0, value: a.rows[i].1[0] },
    ) by {
        assert(all.contains(a.rows[i]));
        let k = choose|k: int| 0 <= k < all.len() && all[k] == a.rows[i];
        let s = samples[k];
        assert(a.rows[i].1 == seq![s.value]);
        assert(samples.contains(s));
        assert(s == Sample { timestamp: a.rows[i].0, value: a.rows[i].1[0] });
    }
    assert forall|s: Sample| #[trigger]
        belongs(meta.series, options.range, meta.latest, s) && !is_given(a, s) implies is_beyond(
        a.rows,
        options.is_reverse,
        count,
        s.timestamp,
    ) by {
        assert(samples.contains(s));
        let k = choose|k: int| 0 <= k < samples.len() && samples[k] == s;
        assert(all[k] == (s.timestamp, seq![s.value]));
        assert(all.contains(all[k]) && !a.rows.contains(all[k]));
    }
}

/// One of the answers is that for a series.
pub open spec fn has_range<'a, A: Aggregation, B: Aggregation>(
    r: Seq<Answer>,
    meta: MRangeSeriesMeta<'a, A>,
    options: MRangeOptions<B>,
) -> bool {
    exists|i: int| 0 <= i < r.len() && is_range_of(meta, options, #[trigger] r[i])
}

/// An answer is that for one of the series.
pub open spec fn is_some_range<'a, A: Aggregation, B: Aggregation>(
    metas: Seq<MRangeSeriesMeta<'a, A>>,
    options: MRangeOptions<B>,
    a: Answer,
) -> bool {
    exists|k: int| 0 <= k < metas.len() && is_range_of(#[trigger] metas[k], options, a)
}

/// Without grouping and aggregation there is one answer for each series, with its samples that
/// belong to it.
pub proof fn law_range_answers<'a, A: Aggregation, B: Aggregation>(
    metas: Seq<MRangeSeriesMeta<'a, A>>,
    options: MRangeOptions<B>,
    limit: Option<SampleLimit>,
    r: Seq<Answer>,
)
    requires
        metas_wf(metas),
        options.grouping is None,
        options.aggregation is None,
        is_answer(metas, options, false, limit, r),
    ensures
        r.len() == metas.len(),
        forall|k: int| 0 <= k < metas.len() ==> has_range(r, #[trigger] metas[k], options),
        forall|i: int| 0 <= i < r.len() ==> is_some_range(metas, options, #[trigger] r[i]),
{
    let made = series_answers(metas, options, None);
    law_answers_sorted(made, false);
    assert(r == answers_sorted(made, false));
    r.to_multiset_ensures();
    made.to_multiset_ensures();
    assert forall|k: int| 0 <= k < metas.len() implies has_range(r, #[trigger] metas[k], options) by {
        lemma_range_of(metas[k], options);
        assert(made.contains(made[k]));
        assert(r.to_multiset().count(made[k]) > 0);
        assert(r.contains(made[k]));
        let i = choose|i: int| 0 <= i < r.len() && r[i] == made[k];
        assert(is_range_of(metas[k], options, r[i]));
    }
    assert forall|i: int| 0 <= i < r.len() implies is_some_range(metas, options, #[trigger] r[i]) by {
        assert(r.contains(r[i]));
        assert(made.to_multiset().count(r[i]) > 0);
        assert(made.contains(r[i]));
        let k = choose|k: int| 0 <= k < made.len() && made[k] == r[i];
        lemma_range_of(metas[k], options);
        assert(is_range_of(metas[k], options, r[i]));
    }
}

/// A limit leaves as many as it says: the first ones, or the last ones.
pub proof fn law_limited<T>(items: Seq<T>, n: usize)
    ensures
        limited(items, None) == items,
        ({
            let head = limited(items, Some(SampleLimit::Head(n)));
            let tail = limited(items, Some(SampleLimit::Tail(n)));
            let m = if items.len() < n {
                items.len() as int
            } else {
                n as int
            };
            &&& head.len() == m
            &&& tail.len() == m
            &&& forall|i: int| 0 <= i < m ==> #[trigger] head[i] == items[i]
            &&& forall|i: int| 0 <= i < m ==> #[trigger] tail[i] == items[items.len() - m + i]
        }),
{
}

/// Whether a sample falls in the bucket that starts at a timestamp.
pub open spec fn starts_at(align: int, duration: int, start: int) -> spec_fn(Sample) -> bool {
    |s: Sample| bucket_start_of(s.timestamp as int, align, duration) == start
}

/// There is a bucket for each sample, and it holds the samples that fall in it, in order.
pub proof fn law_buckets_partition(samples: Seq<Sample>, align: int, duration: int)
    requires
        is_strictly_sorted(samples),
        duration > 0,
    ensures
        ({
            let buckets = bucketed(samples, align, duration);
            &&& forall|i: int, j: int|
                0 <= i < j < buckets.len() ==> (#[trigger] buckets[i]).0 < (#[trigger] buckets[j]).0
            &&& forall|i: int|
                0 <= i < buckets.len() ==> {
                    &&& (#[trigger] buckets[i]).1.len() > 0
                    &&& buckets[i].1 == samples.filter(starts_at(align, duration, buckets[i].0))
                }
            &&& forall|k: int|
                0 <= k < samples.len() ==> exists|i: int|
                    0 <= i < buckets.len() && (#[trigger] buckets[i]).0 == bucket_start_of(
                        (#[trigger] samples[k]).timestamp as int,
                        align,
                        duration,
                    )
        }),
    decreases samples.len(),
{
    reveal(Seq::filter);
    lemma_buckets_increase(samples, align, duration);
    if samples.len() > 0 {
        let less = samples.drop_last();
        assert(is_strictly_sorted(less)) by {
            assert forall|i: int, j: int| 0 <= i < j < less.len() implies less[i].timestamp
                < less[j].timestamp by {
                assert(less[i] == samples[i] && less[j] == samples[j]);
            }
        }
        law_buckets_partition(less, align, duration);
        lemma_buckets_increase(less, align, duration);
        let done = bucketed(less, align, duration);
        let out = bucketed(samples, align, duration);
        let s = samples.last();
        let start = bucket_start_of(s.timestamp as int, align, duration);
        if less.len() > 0 {
            assert(samples[less.len() - 1].timestamp < samples[samples.len() - 1].timestamp);
            lemma_bucket_monotone(
                less.last().timestamp as int,
                s.timestamp as int,
                align,
                duration,
            );
        }
        let joins = done.len() > 0 && done.last().0 == start;
        assert forall|i: int| 0 <= i < out.len() implies {
            &&& (#[trigger] out[i]).1.len() > 0
            &&& out[i].1 == samples.filter(starts_at(align, duration, out[i].0))
        } by {
            let p = starts_at(align, duration, out[i].0);
            if i < out.len() - 1 {
                assert(out[i] == done[i]);
                assert(done[i].0 < start) by {
                    if i < done.len() - 1 {
                        assert(done[i].0 < done[done.len() - 1].0);
                    }
                }
                assert(!p(s));
            } else if joins {
                assert(p(s));
                assert(done[i].1 == less.filter(p));
            } else {
                assert(p(s));
                assert(less.filter(p) =~= Seq::<Sample>::empty()) by {
                    if less.filter(p).len() > 0 {
                        lemma_filter_from(less, p);
                        let x = less.filter(p)[0];
                        broadcast use vstd::seq_lib::group_filter_ensures;

                        assert(p(x));
                        assert(less.contains(x));
                        let k = choose|k: int| 0 <= k < less.len() && less[k] == x;
                        let b = choose|b: int|
                            0 <= b < done.len() && (#[trigger] done[b]).0 == bucket_start_of(
                                less[k].timestamp as int,
                                align,
                                duration,
                            );
                        if b < done.len() - 1 {
                            assert(done[b].0 < done[done.len() - 1].0);
                        }
                    }
                }
                assert(out[i].1 =~= samples.filter(p));
            }
        }
        assert forall|k: int| 0 <= k < samples.len() implies exists|i: int|
            0 <= i < out.len() && (#[trigger] out[i]).0 == bucket_start_of(
                (#[trigger] samples[k]).timestamp as int,
                align,
                duration,
            ) by {
            if k < less.len() {
                assert(less[k] == samples[k]);
                let b = choose|b: int|
                    0 <= b < done.len() && (#[trigger] done[b]).0 == bucket_start_of(
                        less[k].timestamp as int,
                        align,
                        duration,
                    );
                assert(out[b].0 == done[b].0);
            } else {
                assert(out[out.len() - 1].0 == start);
            }
        }
    }
}

/// The answer for a series whose samples are put together by buckets: a row for each bucket that one
/// of its samples falls in, with what each aggregator makes of the samples of the bucket.
pub open spec fn is_buckets_of<'a, A: Aggregation, B: Aggregation>(
    meta: MRangeSeriesMeta<'a, A>,
    options: MRangeOptions<B>,
    a: Answer,
) -> bool {
    let o = options.aggregation->0;
    let samples = selected(meta.series, options.range, meta.latest);
    &&& a.key == meta.source_key@
    &&& a.multi == (o.aggregators@.len() > 1)
    &&& options.is_reverse ==> rows_decrease(a.rows)
    &&& !options.is_reverse ==> rows_increase(a.rows)
    &&& options.range.count matches Some(n) ==> a.rows.len() <= n
    &&& forall|i: int|
        0 <= i < a.rows.len() ==> is_bucket_row(samples, o, #[trigger] a.rows[i])
    &&& forall|k: int|
        0 <= k < samples.len() ==> has_bucket(
            a.rows,
            options.is_reverse,
            options.range.count,
            bucket_start_of(
                (#[trigger] samples[k]).timestamp as int,
                o.alignment as int,
                o.bucket_duration as int,
            ),
        )
}

/// A row is that of a bucket: it tells where the bucket starts, and what each aggregator makes of the
/// samples that fall in it.
pub open spec fn is_bucket_row<B: Aggregation>(
    samples: Seq<Sample>,
    o: AggregationOptions<B>,
    row: Row,
) -> bool {
    let inside = samples.filter(
        starts_at(o.alignment as int, o.bucket_duration as int, row.0 as int),
    );
    &&& inside.len() > 0
    &&& row.1.len() == o.aggregators@.len()
    &&& forall|c: int|
        0 <= c < row.1.len() ==> #[trigger] row.1[c] == fed(
            o.aggregators@[c].cleared(),
            inside,
        ).result()
}

/// The row of a bucket is given, or beyond those that are.
pub open spec fn has_bucket(
    rows: Seq<Row>,
    is_reverse: bool,
    count: Option<usize>,
    start: int,
) -> bool {
    (exists|i: int| 0 <= i < rows.len() && (#[trigger] rows[i]).0 == start) || is_beyond(
        rows,
        is_reverse,
        count,
        start as Timestamp,
    )
}

/// The answer for a series, with an aggregation.
pub proof fn law_bucket_answer<'a, A: Aggregation, B: Aggregation>(
    meta: MRangeSeriesMeta<'a, A>,
    options: MRangeOptions<B>,
)
    requires
        meta.series.wf(),
        options.wf(),
        options.aggregation is Some,
    ensures
        is_buckets_of(meta, options, series_answer(meta, options, None)),
{
    let o = options.aggregation->0;
    let align = o.alignment as int;
    let duration = o.bucket_duration as int;
    let samples = selected(meta.series, options.range, meta.latest);
    let count = options.range.count;
    law_selected(meta.series, options.range, meta.latest);
    law_buckets_partition(samples, align, duration);
    lemma_buckets_increase(samples, align, duration);
    let buckets = bucketed(samples, align, duration);
    let all = bucket_rows(samples, o);
    assert forall|i: int| 0 <= i < all.len() implies (#[trigger] all[i]).0 == buckets[i].0 by {}
    assert forall|i: int, j: int| 0 <= i < j < all.len() implies (#[trigger] all[i]).0 < (
    #[trigger] all[j]).0 by {
        assert(buckets[i].0 < buckets[j].0);
    }
    law_requested(all, options.is_reverse, count);
    let a = series_answer(meta, options, None);
    assert(a.rows == requested(all, options.is_reverse, count));
    assert forall|i: int| 0 <= i < a.rows.len() implies is_bucket_row(
        samples,
        o,
        #[trigger] a.rows[i],
    ) by {
        assert(all.contains(a.rows[i]));
        let k = choose|k: int| 0 <= k < all.len() && all[k] == a.rows[i];
        assert(buckets[k].1.len() > 0);
        assert(a.rows[i].1 == aggregated(o.aggregators@, buckets[k].1));
    }
    assert forall|k: int| 0 <= k < samples.len() implies has_bucket(
        a.rows,
        options.is_reverse,
        count,
        bucket_start_of((#[trigger] samples[k]).timestamp as int, align, duration),
    ) by {
        let start = bucket_start_of(samples[k].timestamp as int, align, duration);
        let b = choose|b: int| 0 <= b < buckets.len() && (#[trigger] buckets[b]).0 == start;
        assert(all[b].0 == start);
        assert(all.contains(all[b]));
        if a.rows.contains(all[b]) {
            let i = choose|i: int| 0 <= i < a.rows.len() && a.rows[i] == all[b];
            assert(a.rows[i].0 == start);
        }
    }
}

/// The row at a timestamp is the one that is there.
pub proof fn law_row_at(rows: Seq<Row>, ts: Timestamp)
    requires
        rows_increase(rows),
    ensures
        forall|values: Seq<u64>|
            row_at(rows, ts) == Some(values) <==> #[trigger] rows.contains((ts, values)),
        row_at(rows, ts) is Some <==> exists|i: int|
            0 <= i < rows.len() && (#[trigger] rows[i]).0 == ts,
    decreases rows.len(),
{
    if rows.len() > 0 {
        let less = rows.drop_last();
        assert(rows_increase(less)) by {
            assert forall|i: int, j: int| 0 <= i < j < less.len() implies (#[trigger] less[i]).0 < (
            #[trigger] less[j]).0 by {
                assert(rows[i].0 < rows[j].0);
            }
        }
        law_row_at(less, ts);
        let last = rows.last();
        assert forall|values: Seq<u64>|
            row_at(rows, ts) == Some(values) <==> #[trigger] rows.contains((ts, values)) by {
            assert(row_at(less, ts) == Some(values) <==> less.contains((ts, values)));
            if rows.contains((ts, values)) {
                let i = choose|i: int| 0 <= i < rows.len() && rows[i] == (ts, values);
                if i < less.len() {
                    assert(less[i] == (ts, values));
                    assert(rows[i].0 < rows[rows.len() - 1].0);
                }
            }
            if less.contains((ts, values)) {
                let i = choose|i: int| 0 <= i < less.len() && less[i] == (ts, values);
                assert(rows[i] == (ts, values));
            }
            assert(rows[rows.len() - 1] == last);
        }
        if row_at(rows, ts) is Some {
            let values = row_at(rows, ts)->0;
            assert(rows.contains((ts, values)));
            let i = choose|i: int| 0 <= i < rows.len() && rows[i] == (ts, values);
            assert(rows[i].0 == ts);
        }
        if exists|i: int| 0 <= i < rows.len() && (#[trigger] rows[i]).0 == ts {
            let i = choose|i: int| 0 <= i < rows.len() && (#[trigger] rows[i]).0 == ts;
            assert(rows.contains((ts, rows[i].1)));
        }
    }
}

/// A series has a row at a timestamp.
pub open spec fn is_at(ts: Timestamp) -> spec_fn(Seq<Row>) -> bool {
    |rows: Seq<Row>| row_at(rows, ts) is Some
}

/// The values of a column at a timestamp are those of the series that have a row there, one after the
/// other.
pub proof fn law_column(sources: Seq<Seq<Row>>, ts: Timestamp, column: int)
    ensures
        column_at(sources, ts, column) == sources.filter(is_at(ts)).map_values(
            |rows: Seq<Row>| Sample { timestamp: ts, value: row_at(rows, ts)->0[column] },
        ),
    decreases sources.len(),
{
    reveal(Seq::filter);
    let pick = |rows: Seq<Row>| Sample { timestamp: ts, value: row_at(rows, ts)->0[column] };
    if sources.len() > 0 {
        let less = sources.drop_last();
        law_column(less, ts, column);
        let some = less.filter(is_at(ts));
        if is_at(ts)(sources.last()) {
            assert(some.push(sources.last()).map_values(pick) =~= some.map_values(pick).push(
                pick(sources.last()),
            ));
        }
    }
    assert(column_at(sources, ts, column) =~= sources.filter(is_at(ts)).map_values(pick));
}

/// The rows of a group: one for each timestamp at which one of its series has one, with what the
/// reducer makes, in each column, of the values that the series have there.
pub proof fn law_group_rows<B: Aggregation>(sources: Seq<Seq<Row>>, columns: nat, reducer: B)
    ensures
        ({
            let rows = finished(reduced(sources, columns, reducer));
            &&& rows_increase(rows)
            &&& forall|ts: Timestamp| #[trigger]
                has_row(sources, ts) <==> exists|k: int|
                    0 <= k < rows.len() && (#[trigger] rows[k]).0 == ts
            &&& forall|k: int, c: int|
                0 <= k < rows.len() && 0 <= c < columns ==> #[trigger] rows[k].1[c] == fed(
                    reducer.cleared(),
                    sources.filter(is_at(rows[k].0)).map_values(
                        |r: Seq<Row>|
                            Sample { timestamp: rows[k].0, value: row_at(r, rows[k].0)->0[c] },
                    ),
                ).result()
            &&& forall|k: int| 0 <= k < rows.len() ==> (#[trigger] rows[k]).1.len() == columns
        }),
{
    let widths = Seq::<usize>::empty();
    law_rows_joined(sources, widths);
    let list = joint_timestamps(sources);
    let pivot = pivoted(sources, widths);
    let rows = finished(reduced(sources, columns, reducer));
    assert(rows.len() == list.len() && pivot.len() == list.len());
    assert forall|k: int| 0 <= k < rows.len() implies (#[trigger] rows[k]).0 == list[k]
        && pivot[k].0 == list[k] by {}
    assert forall|i: int, j: int| 0 <= i < j < rows.len() implies (#[trigger] rows[i]).0 < (
    #[trigger] rows[j]).0 by {
        assert(pivot[i].0 < pivot[j].0);
    }
    assert forall|ts: Timestamp| #[trigger]
        has_row(sources, ts) <==> exists|k: int|
            0 <= k < rows.len() && (#[trigger] rows[k]).0 == ts by {
        if has_row(sources, ts) {
            let k = choose|k: int| 0 <= k < pivot.len() && (#[trigger] pivot[k]).0 == ts;
            assert(rows[k].0 == ts);
        }
        if exists|k: int| 0 <= k < rows.len() && (#[trigger] rows[k]).0 == ts {
            let k = choose|k: int| 0 <= k < rows.len() && (#[trigger] rows[k]).0 == ts;
            assert(pivot[k].0 == ts);
        }
    }
    assert forall|k: int, c: int| 0 <= k < rows.len() && 0 <= c < columns implies
        #[trigger] rows[k].1[c] == fed(
        reducer.cleared(),
        sources.filter(is_at(rows[k].0)).map_values(
            |r: Seq<Row>| Sample { timestamp: rows[k].0, value: row_at(r, rows[k].0)->0[c] },
        ),
    ).result() by {
        law_column(sources, list[k], c);
    }
}

/// The answer for a group: the rows of the group, upwards or downwards, as many as are asked for. Its
/// key is the label and its value, and its sources are the keys of its series.
pub proof fn law_group_answer<'a, A: Aggregation, B: Aggregation>(
    metas: Seq<MRangeSeriesMeta<'a, A>>,
    group: Group,
    options: MRangeOptions<B>,
    grouping: RangeGroupingOptions<B>,
)
    ensures
        ({
            let a = group_answer(metas, group, options, grouping);
            let sources = group.1.map_values(|n: int| meta_rows(metas[n], options));
            let columns = match options.aggregation {
                Some(o) => o.aggregators@.len(),
                None => 1,
            };
            &&& a.group == Some(group.0)
            &&& is_page(
                finished(reduced(sources, columns, grouping.aggregation)),
                a.rows,
                options.is_reverse,
                options.range.count,
            )
            &&& a.key.len() == grouping.group_label@.len() + 1 + group.0.len()
            &&& a.key.take(grouping.group_label@.len() as int) == grouping.group_label@
            &&& a.key[grouping.group_label@.len() as int] == '='
            &&& a.key.skip(grouping.group_label@.len() as int + 1) == group.0
        }),
{
    let a = group_answer(metas, group, options, grouping);
    let sources = group.1.map_values(|n: int| meta_rows(metas[n], options));
    assert(sources =~= group_sources(metas, group.1, options));
    law_group_rows(sources, options.columns(), grouping.aggregation);
    let all = finished(group_states(metas, group.1, options, grouping.aggregation));
    law_requested(all, options.is_reverse, options.range.count);
    let label = grouping.group_label@;
    assert(a.key.take(label.len() as int) =~= label);
    assert(a.key.skip(label.len() as int + 1) =~= group.0);
}

/// The rows that a series contributes: without an aggregation one for each sample that belongs to the
/// answer, and with one the rows of the buckets of these samples.
pub proof fn law_series_rows<A: Aggregation, B: Aggregation>(
    series: &TimeSeries<A>,
    options: RangeOptions,
    aggregation: Option<AggregationOptions<B>>,
    latest: Option<Sample>,
)
    requires
        series.wf(),
        aggregation is Some ==> aggregation->0.wf(),
    ensures
        ({
            let samples = selected(series, options, latest);
            let rows = series_rows(series, options, aggregation, latest);
            &&& rows_increase(rows)
            &&& match aggregation {
                None => {
                    &&& forall|i: int| 0 <= i < rows.len() ==> (#[trigger] rows[i]).1.len() == 1
                    &&& forall|s: Sample| #[trigger]
                        belongs(series, options, latest, s) <==> rows.contains(
                            (s.timestamp, seq![s.value]),
                        )
                },
                Some(o) => {
                    &&& forall|i: int|
                        0 <= i < rows.len() ==> is_bucket_row(samples, o, #[trigger] rows[i])
                    &&& forall|k: int|
                        0 <= k < samples.len() ==> has_bucket(
                            rows,
                            false,
                            None,
                            bucket_start_of(
                                (#[trigger] samples[k]).timestamp as int,
                                o.alignment as int,
                                o.bucket_duration as int,
                            ),
                        )
                },
            }
        }),
{
    let samples = selected(series, options, latest);
    let rows = series_rows(series, options, aggregation, latest);
    law_selected(series, options, latest);
    match aggregation {
        None => {
            assert forall|i: int, j: int| 0 <= i < j < rows.len() implies (#[trigger] rows[i]).0 < (
            #[trigger] rows[j]).0 by {
                assert(samples[i].timestamp < samples[j].timestamp);
            }
            assert forall|s: Sample| #[trigger]
                belongs(series, options, latest, s) <==> rows.contains(
                    (s.timestamp, seq![s.value]),
                ) by {
                assert(samples.contains(s) <==> belongs(series, options, latest, s));
                if samples.contains(s) {
                    let k = choose|k: int| 0 <= k < samples.len() && samples[k] == s;
                    assert(rows[k] == (s.timestamp, seq![s.value]));
                }
                if rows.contains((s.timestamp, seq![s.value])) {
                    let k = choose|k: int|
                        0 <= k < rows.len() && rows[k] == (s.timestamp, seq![s.value]);
                    assert(seq![samples[k].value][0] == seq![s.value][0]);
                    assert(samples[k] == s);
                }
            }
        },
        Some(o) => {
            let align = o.alignment as int;
            let duration = o.bucket_duration as int;
            law_buckets_partition(samples, align, duration);
            lemma_buckets_increase(samples, align, duration);
            let buckets = bucketed(samples, align, duration);
            assert forall|i: int| 0 <= i < rows.len() implies (#[trigger] rows[i]).0
                == buckets[i].0 by {}
            assert forall|i: int, j: int| 0 <= i < j < rows.len() implies (#[trigger] rows[i]).0 < (
            #[trigger] rows[j]).0 by {
                assert(buckets[i].0 < buckets[j].0);
            }
            assert forall|i: int| 0 <= i < rows.len() implies is_bucket_row(
                samples,
                o,
                #[trigger] rows[i],
            ) by {
                assert(buckets[i].1.len() > 0);
                assert(rows[i].1 == aggregated(o.aggregators@, buckets[i].1));
            }
            assert forall|k: int| 0 <= k < samples.len() implies has_bucket(
                rows,
                false,
                None,
                bucket_start_of((#[trigger] samples[k]).timestamp as int, align, duration),
            ) by {
                let start = bucket_start_of(samples[k].timestamp as int, align, duration);
                let b = choose|b: int| 0 <= b < buckets.len() && (#[trigger] buckets[b]).0 == start;
                assert(rows[b].0 == start);
            }
        },
    }
}

/// Where the columns of a key start: behind those of the keys before it.
pub open spec fn column_start(widths: Seq<usize>, key: int) -> int
    decreases key,
{
    if key <= 0 {
        0
    } else {
        column_start(widths, key - 1) + widths[key - 1]
    }
}

/// Side by side, each key has its values in its own columns, and blanks where it has no row.
pub proof fn law_columns(sources: Seq<Seq<Row>>, widths: Seq<usize>, ts: Timestamp)
    requires
        widths.len() >= sources.len(),
        forall|k: int|
            0 <= k < sources.len() ==> rows_wide(#[trigger] sources[k], widths[k] as nat),
    ensures
        values_at(sources, widths, ts).len() == column_start(widths, sources.len() as int),
        forall|k: int, c: int|
            0 <= k < sources.len() && 0 <= c < widths[k] ==> #[trigger] values_at(
                sources,
                widths,
                ts,
            )[column_start(widths, k) + c] == match row_at(sources[k], ts) {
                Some(values) => values[c],
                None => NAN_BITS,
            },
    decreases sources.len(),
{
    if sources.len() > 0 {
        let less = sources.drop_last();
        let last = sources.len() - 1;
        assert forall|k: int| 0 <= k < less.len() implies rows_wide(
            #[trigger] less[k],
            widths[k] as nat,
        ) by {
            assert(less[k] == sources[k]);
        }
        law_columns(less, widths, ts);
        lemma_row_wide(sources[last], widths[last] as nat, ts);
        let all = values_at(sources, widths, ts);
        let before = values_at(less, widths, ts);
        assert forall|k: int, c: int| 0 <= k < sources.len() && 0 <= c < widths[k] implies
            #[trigger] all[column_start(widths, k) + c] == match row_at(sources[k], ts) {
            Some(values) => values[c],
            None => NAN_BITS,
        } by {
            if k < last {
                lemma_column_start(widths, k + 1, last);
                lemma_column_start(widths, k, k);
                assert(column_start(widths, k + 1) == column_start(widths, k) + widths[k]);
                assert(less[k] == sources[k]);
                assert(all[column_start(widths, k) + c] == before[column_start(widths, k) + c]);
            } else {
                assert(column_start(widths, k) == before.len());
            }
        }
    }
}

proof fn lemma_row_wide(rows: Seq<Row>, width: nat, ts: Timestamp)
    requires
        rows_wide(rows, width),
    ensures
        row_at(rows, ts) matches Some(values) ==> values.len() == width,
    decreases rows.len(),
{
    if rows.len() > 0 {
        let less = rows.drop_last();
        assert(rows[rows.len() - 1].1.len() == width);
        assert forall|i: int| 0 <= i < less.len() implies (#[trigger] less[i]).1.len() == width by {
            assert(less[i] == rows[i]);
        }
        lemma_row_wide(less, width, ts);
    }
}

proof fn lemma_column_start(widths: Seq<usize>, a: int, b: int)
    requires
        0 <= a <= b,
    ensures
        0 <= column_start(widths, a) <= column_start(widths, b),
    decreases b,
{
    if a < b {
        lemma_column_start(widths, a, b - 1);
    } else if a > 0 {
        lemma_column_start(widths, a - 1, a - 1);
    }
}

/// The numbers of the series of each group are those of its value, upwards.
pub proof fn law_group_members(values: Seq<Option<Seq<char>>>)
    ensures
        forall|g: int|
            0 <= g < grouped(values).len() ==> is_members_of(values, #[trigger] grouped(values)[g]),
    decreases values.len(),
{
    law_groups(values);
    if values.len() > 0 {
        let less = values.drop_last();
        law_group_members(less);
        law_groups(less);
        let done = grouped(less);
        let out = grouped(values);
        let last = values.len() - 1;
        if let Some(v) = values.last() {
            lemma_group_place(done, v);
        }
        assert forall|g: int| 0 <= g < out.len() implies is_members_of(values, #[trigger] out[g]) by {
            let group = out[g];
            assert forall|i: int, j: int| 0 <= i < j < group.1.len() implies group.1[i]
                < group.1[j] by {
                if g < done.len() {
                    assert(is_members_of(less, done[g]));
                    assert(0 <= done[g].1[i] < less.len());
                }
            }
            assert forall|n: int| #[trigger] group.1.contains(n) <==> 0 <= n < values.len()
                && values[n] == Some(group.0) by {
                if group.1.contains(n) {
                    let k = choose|k: int| 0 <= k < group.1.len() && group.1[k] == n;
                    assert(out[g].1[k] == n);
                }
                if 0 <= n < values.len() && values[n] == Some(group.0) {
                    let h = choose|h: int|
                        0 <= h < out.len() && (#[trigger] out[h]).0 == values[n]->0
                            && out[h].1.contains(n);
                    if h < g {
                        assert(out[h].0 != out[g].0);
                    }
                    if g < h {
                        assert(out[g].0 != out[h].0);
                    }
                }
            }
        }
    }
}

/// The members of a group are those with its value, upwards, each once.
pub open spec fn is_members_of(values: Seq<Option<Seq<char>>>, group: Group) -> bool {
    &&& group.1.len() > 0
    &&& forall|i: int, j: int| 0 <= i < j < group.1.len() ==> group.1[i] < group.1[j]
    &&& forall|n: int| #[trigger]
        group.1.contains(n) <==> 0 <= n < values.len() && values[n] == Some(group.0)
}

/// The answer for one of the groups that series make up: the rows of the group of a value, which are
/// those of the series that have it, in the order of the series.
pub open spec fn is_answer_of_group<'a, A: Aggregation, B: Aggregation>(
    metas: Seq<MRangeSeriesMeta<'a, A>>,
    options: MRangeOptions<B>,
    grouping: RangeGroupingOptions<B>,
    value: Seq<char>,
    a: Answer,
) -> bool {
    exists|members: Seq<int>| #[trigger]
        is_members_of(label_values(metas, grouping.group_label@), (value, members)) && {
            &&& a.group == Some(value)
            &&& is_page(
                finished(
                    reduced(
                        members.map_values(|n: int| meta_rows(metas[n], options)),
                        options.columns(),
                        grouping.aggregation,
                    ),
                ),
                a.rows,
                options.is_reverse,
                options.range.count,
            )
        }
}

/// With grouping there is one answer for each value that a series has of the label.
pub proof fn law_grouped_answers<'a, A: Aggregation, B: Aggregation>(
    metas: Seq<MRangeSeriesMeta<'a, A>>,
    options: MRangeOptions<B>,
    limit: Option<SampleLimit>,
    r: Seq<Answer>,
)
    requires
        options.grouping is Some,
        is_answer(metas, options, false, limit, r),
    ensures
        forall|i: int|
            0 <= i < r.len() ==> (#[trigger] r[i]).group is Some && is_answer_of_group(
                metas,
                options,
                options.grouping->0,
                r[i].group->0,
                r[i],
            ),
        forall|n: int|
            0 <= n < metas.len() && label_value(
                (#[trigger] metas[n]).series.labels@,
                options.grouping->0.group_label@,
            ) is Some ==> has_group(
                r,
                label_value(metas[n].series.labels@, options.grouping->0.group_label@)->0,
            ),
{
    let grouping = options.grouping->0;
    let series = choose|series: Seq<MRangeSeriesMeta<'a, A>>|
        {
            &&& #[trigger] tagged(metas, grouping.group_label@, series)
            &&& r == answers_sorted(group_answers(series, options, grouping), true)
        };
    let values = label_values(metas, grouping.group_label@);
    let plan = grouped(values);
    let made = group_answers(series, options, grouping);
    assert(group_values(series) == values);
    law_answers_sorted(made, true);
    law_group_members(values);
    law_groups(values);
    r.to_multiset_ensures();
    made.to_multiset_ensures();
    assert forall|i: int| 0 <= i < r.len() implies (#[trigger] r[i]).group is Some
        && is_answer_of_group(metas, options, grouping, r[i].group->0, r[i]) by {
        assert(r.contains(r[i]));
        assert(made.to_multiset().count(r[i]) > 0);
        assert(made.contains(r[i]));
        let g = choose|g: int| 0 <= g < made.len() && made[g] == r[i];
        law_group_answer(series, plan[g], options, grouping);
        let members = plan[g].1;
        assert(is_members_of(values, plan[g]));
        assert((plan[g].0, members) == plan[g]);
        assert(members.map_values(|n: int| meta_rows(series[n], options)) =~= members.map_values(
            |n: int| meta_rows(metas[n], options),
        )) by {
            assert forall|k: int| 0 <= k < members.len() implies meta_rows(
                series[#[trigger] members[k]],
                options,
            ) == meta_rows(metas[members[k]], options) by {
                assert(members.contains(members[k]));
                assert(same_but_group(series[members[k]], metas[members[k]]));
            }
        }
    }
    assert forall|n: int|
        0 <= n < metas.len() && label_value(
            (#[trigger] metas[n]).series.labels@,
            grouping.group_label@,
        ) is Some implies has_group(
        r,
        label_value(metas[n].series.labels@, grouping.group_label@)->0,
    ) by {
        assert(values[n] == label_value(metas[n].series.labels@, grouping.group_label@));
        let g = choose|g: int|
            0 <= g < plan.len() && (#[trigger] plan[g]).0 == values[n]->0 && plan[g].1.contains(n);
        assert(made.contains(made[g]));
        assert(r.to_multiset().count(made[g]) > 0);
        assert(r.contains(made[g]));
        let i = choose|i: int| 0 <= i < r.len() && r[i] == made[g];
        assert(r[i].group == Some(values[n]->0));
    }
}

/// One of the answers is that for the group of a value.
pub open spec fn has_group(r: Seq<Answer>, value: Seq<char>) -> bool {
    exists|i: int| 0 <= i < r.len() && (#[trigger] r[i]).group == Some(value)
}

} // verus!
