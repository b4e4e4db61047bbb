//! A batch counts as its samples added one by one.
use crate::aggregation::Aggregation;
use crate::chunks::search::place_of;
use crate::sample::{
    is_nan, is_strictly_sorted, value_order, DuplicatePolicy, Sample, SampleAddResult, Timestamp,
};
use crate::series::ingest::{
    comes_first, gated, ingested, is_normalized, is_order, law_one_order, lemma_order_rank, too_old,
    Ingest, NormalizedBatch,
};
use crate::series::store::{
    added, last_of, lemma_sample_at, lemma_upsert_strict, min_of, sample_at, RoundingStrategy,
    SampleDuplicatePolicy, Terms, TimeSeries, ValueOps,
};
use vstd::prelude::*;

verus! {

/// A timestamp is further back from another than a retention reaches.
pub open spec fn is_behind(retention: u64, from: Timestamp, ts: Timestamp) -> bool {
    from - retention > ts
}

/// A sample of a batch is further back than the retention reaches from the last sample of the series,
/// or from a sample that came before it in the batch.
pub open spec fn is_too_old(
    retention: u64,
    last: Option<Sample>,
    samples: Seq<Sample>,
    i: int,
) -> bool {
    retention > 0 && ((last is Some && is_behind(
        retention,
        last->0.timestamp,
        samples[i].timestamp,
    )) || exists|j: int|
        0 <= j < i && is_behind(
            retention,
            (#[trigger] samples[j]).timestamp,
            samples[i].timestamp,
        ))
}

spec fn is_high(last: Option<Timestamp>, samples: Seq<Sample>, high: Option<Timestamp>) -> bool {
    match high {
        None => last is None && samples.len() == 0,
        Some(h) => {
            &&& last is Some ==> last->0 <= h
            &&& forall|j: int| 0 <= j < samples.len() ==> (#[trigger] samples[j]).timestamp <= h
            &&& last == Some(h) || exists|j: int|
                0 <= j < samples.len() && (#[trigger] samples[j]).timestamp == h
        },
    }
}

proof fn lemma_gated(
    retention: u64,
    last: Option<Sample>,
    from: Option<Timestamp>,
    samples: Seq<Sample>,
)
    requires
        0 < retention <= i64::MAX,
        last is Some == from is Some,
        last is Some ==> from->0 == last->0.timestamp,
    ensures
        ({
            let (old, high) = gated(retention, from, samples);
            &&& old.len() == samples.len()
            &&& is_high(from, samples, high)
            &&& forall|i: int|
                0 <= i < samples.len() ==> #[trigger] old[i] == is_too_old(
                    retention,
                    last,
                    samples,
                    i,
                )
        }),
    decreases samples.len(),
{
    if samples.len() > 0 {
        let less = samples.drop_last();
        lemma_gated(retention, last, from, less);
        let n = less.len() as int;
        let (was, top) = gated(retention, from, less);
        let (old, high) = gated(retention, from, samples);
        let ts = samples[n].timestamp;
        assert forall|i: int| 0 <= i < samples.len() implies #[trigger] old[i] == is_too_old(
            retention,
            last,
            samples,
            i,
        ) by {
            if i < n {
                assert(old[i] == was[i]);
                if exists|j: int|
                    0 <= j < i && is_behind(
                        retention,
                        (#[trigger] samples[j]).timestamp,
                        samples[i].timestamp,
                    ) {
                    let j = choose|j: int|
                        0 <= j < i && is_behind(
                            retention,
                            (#[trigger] samples[j]).timestamp,
                            samples[i].timestamp,
                        );
                    assert(less[j] == samples[j]);
                }
                if exists|j: int|
                    0 <= j < i && is_behind(
                        retention,
                        (#[trigger] less[j]).timestamp,
                        less[i].timestamp,
                    ) {
                    let j = choose|j: int|
                        0 <= j < i && is_behind(
                            retention,
                            (#[trigger] less[j]).timestamp,
                            less[i].timestamp,
                        );
                    assert(less[j] == samples[j]);
                }
            } else {
                if let Some(h) = top {
                    assert(old[i] == is_behind(retention, h, ts));
                    if is_behind(retention, h, ts) && last is Some && last->0.timestamp != h {
                        let j = choose|j: int|
                            0 <= j < less.len() && (#[trigger] less[j]).timestamp == h;
                        assert(samples[j].timestamp == h);
                    }
                    if is_behind(retention, h, ts) && last is None {
                        let j = choose|j: int|
                            0 <= j < less.len() && (#[trigger] less[j]).timestamp == h;
                        assert(samples[j].timestamp == h);
                    }
                    if is_too_old(retention, last, samples, i) && !(last is Some && is_behind(
                        retention,
                        last->0.timestamp,
                        ts,
                    )) {
                        let j = choose|j: int|
                            0 <= j < i && is_behind(
                                retention,
                                (#[trigger] samples[j]).timestamp,
                                samples[i].timestamp,
                            );
                        assert(less[j].timestamp <= h);
                    }
                }
            }
        }
        assert(is_high(from, samples, high)) by {
            let h = high->0;
            assert forall|j: int| 0 <= j < samples.len() implies (#[trigger] samples[j]).timestamp
                <= h by {
                if j < n {
                    assert(less[j] == samples[j]);
                }
            }
            if from != Some(h) {
                if top == Some(h) {
                    let j = choose|j: int|
                        0 <= j < less.len() && (#[trigger] less[j]).timestamp == h;
                    assert(samples[j].timestamp == h);
                } else {
                    assert(samples[n].timestamp == h);
                }
            }
        }
    }
}

/// A sample of a batch is too old where it lies further back than the retention reaches, from the
/// last sample or from one that came before it.
pub proof fn law_too_old<A: Aggregation>(series: TimeSeries<A>, samples: Seq<Sample>)
    requires
        series.retention <= i64::MAX,
    ensures
        too_old(series, samples).len() == samples.len(),
        forall|i: int|
            0 <= i < samples.len() ==> #[trigger] too_old(series, samples)[i] == is_too_old(
                series.retention,
                series.last_sample,
                samples,
                i,
            ),
{
    if series.retention > 0 {
        let from = match series.last_sample {
            Some(s) => Some(s.timestamp),
            None => None,
        };
        lemma_gated(series.retention, series.last_sample, from, samples);
        let old = gated(series.retention, from, samples).0;
        assert(too_old(series, samples) == old);
    }
}

/// A sample as a series stores it.
pub open spec fn stored_as<
    S: Fn(u64, u64) -> u64,
    R: Fn(RoundingStrategy, u64) -> u64,
    C: Fn(u64, u64, u64) -> bool,
>(terms: Terms, ops: ValueOps<S, R, C>, s: Sample) -> Sample {
    Sample { timestamp: s.timestamp, value: ops.rounded(terms.rounding, s.value) }
}

/// The last sample of a series once some of a batch were put behind it, or among its samples.
pub open spec fn last_after(last: Option<Sample>, kept: Seq<Sample>) -> Option<Sample> {
    if kept.len() > 0 && (last is None || kept.last().timestamp >= last->0.timestamp) {
        Some(kept.last())
    } else {
        last
    }
}

/// A sample of a batch is passed over: it is too close to the last sample at that moment.
pub open spec fn is_passed_over<
    S: Fn(u64, u64) -> u64,
    R: Fn(RoundingStrategy, u64) -> u64,
    C: Fn(u64, u64, u64) -> bool,
>(
    terms: Terms,
    last: Option<Sample>,
    asked: Option<DuplicatePolicy>,
    ops: ValueOps<S, R, C>,
    kept: Seq<Sample>,
    s: Sample,
    told: SampleAddResult,
) -> bool {
    exists|k: int| #[trigger]
        parts_at(kept, k, s.timestamp) && {
            let x = last_after(last, kept.take(k));
            &&& x is Some
            &&& told == SampleAddResult::Ignored(x->0.timestamp)
            &&& terms.duplicates.ignores(stored_as(terms, ops, s), x->0, asked, ops)
        }
}

/// The samples of a list before a place are older than a timestamp, and the others are newer.
pub open spec fn parts_at(kept: Seq<Sample>, k: int, ts: Timestamp) -> bool {
    &&& 0 <= k <= kept.len()
    &&& forall|q: int| 0 <= q < k ==> (#[trigger] kept[q]).timestamp < ts
    &&& forall|q: int| k <= q < kept.len() ==> (#[trigger] kept[q]).timestamp > ts
}

/// The samples of a batch that are kept are stored as the series stores samples, and none is too
/// close to the last sample at its moment.
pub open spec fn are_kept<
    S: Fn(u64, u64) -> u64,
    R: Fn(RoundingStrategy, u64) -> u64,
    C: Fn(u64, u64, u64) -> bool,
>(
    terms: Terms,
    last: Option<Sample>,
    samples: Seq<Sample>,
    asked: Option<DuplicatePolicy>,
    ops: ValueOps<S, R, C>,
    kept: Seq<Sample>,
    index: Seq<usize>,
) -> bool {
    &&& is_strictly_sorted(kept)
    &&& index.len() == kept.len()
    &&& forall|k: int|
        0 <= k < kept.len() ==> {
            &&& (#[trigger] index[k]) < samples.len()
            &&& kept[k] == stored_as(terms, ops, samples[index[k] as int])
            &&& last_after(last, kept.take(k)) matches Some(x) ==> !terms.duplicates.ignores(
                kept[k],
                x,
                asked,
                ops,
            )
        }
}

/// The sample before one in the order has its timestamp.
spec fn repeats(samples: Seq<Sample>, order: Seq<usize>, p: int) -> bool {
    p > 0 && samples[order[p - 1] as int].timestamp == samples[order[p] as int].timestamp
}

/// What became of a sample that was dealt with.
spec fn is_dealt_with<
    S: Fn(u64, u64) -> u64,
    R: Fn(RoundingStrategy, u64) -> u64,
    C: Fn(u64, u64, u64) -> bool,
>(
    terms: Terms,
    last: Option<Sample>,
    samples: Seq<Sample>,
    old: Seq<bool>,
    asked: Option<DuplicatePolicy>,
    ops: ValueOps<S, R, C>,
    g: Ingest,
    i: usize,
    repeated: bool,
) -> bool {
    let told = g.results[i as int];
    if repeated {
        told == SampleAddResult::Duplicate && !g.insert_index.contains(i)
    } else if old[i as int] {
        told == SampleAddResult::TooOld && !g.insert_index.contains(i)
    } else {
        ||| told == SampleAddResult::Error && g.insert_index.contains(i)
        ||| !g.insert_index.contains(i) && is_passed_over(
            terms,
            last,
            asked,
            ops,
            g.to_insert,
            samples[i as int],
            told,
        )
    }
}

spec fn is_progress<
    S: Fn(u64, u64) -> u64,
    R: Fn(RoundingStrategy, u64) -> u64,
    C: Fn(u64, u64, u64) -> bool,
>(
    terms: Terms,
    last: Option<Sample>,
    samples: Seq<Sample>,
    old: Seq<bool>,
    asked: Option<DuplicatePolicy>,
    ops: ValueOps<S, R, C>,
    order: Seq<usize>,
    m: int,
    g: Ingest,
) -> bool {
    &&& g.results.len() == samples.len()
    &&& g.prev == if m == 0 {
        None
    } else {
        Some(samples[order[m - 1] as int].timestamp)
    }
    &&& g.last == last_after(last, g.to_insert)
    &&& are_kept(terms, last, samples, asked, ops, g.to_insert, g.insert_index)
    &&& forall|k: int|
        0 <= k < g.to_insert.len() ==> g.prev is Some && (#[trigger] g.to_insert[k]).timestamp
            <= g.prev->0
    &&& forall|p: int|
        0 <= p < m ==> is_dealt_with(
            terms,
            last,
            samples,
            old,
            asked,
            ops,
            g,
            #[trigger] order[p],
            repeats(samples, order, p),
        )
    &&& forall|p: int|
        m <= p < order.len() ==> !g.insert_index.contains(#[trigger] order[p])
            && g.results[order[p] as int] == SampleAddResult::Error
}

proof fn lemma_progress<
    S: Fn(u64, u64) -> u64,
    R: Fn(RoundingStrategy, u64) -> u64,
    C: Fn(u64, u64, u64) -> bool,
>(
    terms: Terms,
    last: Option<Sample>,
    samples: Seq<Sample>,
    old: Seq<bool>,
    asked: Option<DuplicatePolicy>,
    ops: ValueOps<S, R, C>,
    order: Seq<usize>,
    m: int,
)
    requires
        is_order(order, samples),
        old.len() == samples.len(),
        0 <= m <= order.len(),
    ensures
        is_progress(
            terms,
            last,
            samples,
            old,
            asked,
            ops,
            order,
            m,
            ingested(terms, last, samples, old, asked, ops, order.take(m)),
        ),
    decreases m,
{
    let g = ingested(terms, last, samples, old, asked, ops, order.take(m));
    if m == 0 {
        assert(order.take(0) =~= Seq::<usize>::empty());
    } else {
        let f = ingested(terms, last, samples, old, asked, ops, order.take(m - 1));
        lemma_progress(terms, last, samples, old, asked, ops, order, m - 1);
        assert(order.take(m).drop_last() =~= order.take(m - 1));
        let at = order[m - 1];
        let s = samples[at as int];
        assert(order.take(m).last() == at);
        assert forall|p: int| 0 <= p < order.len() && p != m - 1 implies #[trigger] order[p]
            != at by {
            if p < m - 1 {
                assert(comes_first(samples, order[p], order[m - 1]));
            } else {
                assert(comes_first(samples, order[m - 1], order[p]));
            }
        }
        if m > 1 {
            assert(comes_first(samples, order[m - 2], order[m - 1]));
        }
        let repeated = repeats(samples, order, m - 1);
        assert(repeated == (f.prev == Some(s.timestamp)));
        let adjusted = stored_as(terms, ops, s);
        let ignored = f.last is Some && adjusted.timestamp >= f.last->0.timestamp
            && terms.duplicates.ignores(adjusted, f.last->0, asked, ops);
        let inserts = !repeated && !old[at as int] && !ignored;
        if inserts {
            let kept = g.to_insert;
            assert(kept == f.to_insert.push(adjusted));
            assert(g.insert_index == f.insert_index.push(at));
            assert(g.insert_index[f.insert_index.len() as int] == at);
            assert forall|i: int, j: int| 0 <= i < j < kept.len() implies kept[i].timestamp
                < kept[j].timestamp by {
                if j == f.to_insert.len() {
                    assert(f.to_insert[i].timestamp <= f.prev->0);
                } else {
                    assert(f.to_insert[i].timestamp < f.to_insert[j].timestamp);
                }
            }
            assert forall|k: int| 0 <= k < kept.len() implies {
                &&& (#[trigger] g.insert_index[k]) < samples.len()
                &&& kept[k] == stored_as(terms, ops, samples[g.insert_index[k] as int])
                &&& last_after(last, kept.take(k)) matches Some(x) ==> !terms.duplicates.ignores(
                    kept[k],
                    x,
                    asked,
                    ops,
                )
            } by {
                if k < f.to_insert.len() {
                    assert(f.insert_index[k] < samples.len());
                    assert(kept.take(k) =~= f.to_insert.take(k));
                } else {
                    assert(kept.take(k) =~= f.to_insert);
                }
            }
        }
        assert forall|k: int| 0 <= k < g.to_insert.len() implies g.prev is Some && (
        #[trigger] g.to_insert[k]).timestamp <= g.prev->0 by {
            if k < f.to_insert.len() {
                assert(g.to_insert[k] == f.to_insert[k]);
                assert(f.to_insert[k].timestamp <= f.prev->0);
            }
        }
        assert forall|p: int| 0 <= p < order.len() && p != m - 1 implies g.insert_index.contains(
            #[trigger] order[p],
        ) == f.insert_index.contains(order[p]) && g.results[order[p] as int]
            == f.results[order[p] as int] by {
            if f.insert_index.contains(order[p]) {
                let k = choose|k: int| 0 <= k < f.insert_index.len() && f.insert_index[k] == order[p];
                assert(g.insert_index[k] == order[p]);
            }
            if g.insert_index.contains(order[p]) {
                let k = choose|k: int| 0 <= k < g.insert_index.len() && g.insert_index[k] == order[p];
                if k < f.insert_index.len() {
                    assert(f.insert_index[k] == order[p]);
                }
            }
        }
        assert forall|p: int| 0 <= p < m implies is_dealt_with(
            terms,
            last,
            samples,
            old,
            asked,
            ops,
            g,
            #[trigger] order[p],
            repeats(samples, order, p),
        ) by {
            if p < m - 1 {
                let i = order[p];
                let x = samples[i as int];
                assert(is_dealt_with(
                    terms,
                    last,
                    samples,
                    old,
                    asked,
                    ops,
                    f,
                    i,
                    repeats(samples, order, p),
                ));
                if !repeats(samples, order, p) && !old[i as int] && !f.insert_index.contains(i) {
                    let k = choose|k: int| #[trigger]
                        parts_at(f.to_insert, k, x.timestamp) && {
                            let y = last_after(last, f.to_insert.take(k));
                            &&& y is Some
                            &&& f.results[i as int] == SampleAddResult::Ignored(y->0.timestamp)
                            &&& terms.duplicates.ignores(
                                stored_as(terms, ops, x),
                                y->0,
                                asked,
                                ops,
                            )
                        };
                    assert(g.to_insert.take(k) =~= f.to_insert.take(k));
                    assert(parts_at(g.to_insert, k, x.timestamp)) by {
                        assert forall|q: int| 0 <= q < k implies (
                        #[trigger] g.to_insert[q]).timestamp < x.timestamp by {
                            assert(g.to_insert[q] == f.to_insert[q]);
                        }
                        assert forall|q: int| k <= q < g.to_insert.len() implies (
                        #[trigger] g.to_insert[q]).timestamp > x.timestamp by {
                            if q < f.to_insert.len() {
                                assert(g.to_insert[q] == f.to_insert[q]);
                            } else {
                                assert(comes_first(samples, order[p], order[m - 1]));
                                if p < m - 2 {
                                    assert(comes_first(samples, order[p], order[m - 2]));
                                }
                            }
                        }
                    }
                }
            } else if !repeated && !old[at as int] && ignored {
                let k = f.to_insert.len() as int;
                assert(f.to_insert.take(k) =~= f.to_insert);
                assert(parts_at(g.to_insert, k, s.timestamp)) by {
                    assert forall|q: int| 0 <= q < k implies (#[trigger] g.to_insert[q]).timestamp
                        < s.timestamp by {
                        assert(f.to_insert[q].timestamp <= f.prev->0);
                    }
                }
            }
        }
    }
}

/// A sample with the same timestamp came before one in the batch.
pub open spec fn is_repeated(samples: Seq<Sample>, i: int) -> bool {
    exists|j: int| 0 <= j < i && (#[trigger] samples[j]).timestamp == samples[i].timestamp
}

proof fn lemma_repeats(samples: Seq<Sample>, order: Seq<usize>, p: int)
    requires
        is_order(order, samples),
        samples.len() <= usize::MAX,
        0 <= p < order.len(),
    ensures
        repeats(samples, order, p) == is_repeated(samples, order[p] as int),
{
    let i = order[p];
    if repeats(samples, order, p) {
        assert(comes_first(samples, order[p - 1], order[p]));
        assert(samples[order[p - 1] as int].timestamp == samples[i as int].timestamp);
    }
    if is_repeated(samples, i as int) {
        let j = choose|j: int|
            0 <= j < i && (#[trigger] samples[j]).timestamp == samples[i as int].timestamp;
        lemma_order_rank(order, samples);
        assert(order.contains(j as usize));
        let q = choose|q: int| 0 <= q < order.len() && order[q] == j as usize;
        if q > p {
            assert(comes_first(samples, order[p], order[q]));
        }
        assert(q < p);
        assert(comes_first(samples, order[p - 1], order[p]));
        if q < p - 1 {
            assert(comes_first(samples, order[q], order[p - 1]));
        }
    }
}

/// What becomes of one sample of a batch.
pub open spec fn is_outcome<
    A: Aggregation,
    S: Fn(u64, u64) -> u64,
    R: Fn(RoundingStrategy, u64) -> u64,
    C: Fn(u64, u64, u64) -> bool,
>(
    b: NormalizedBatch,
    series: TimeSeries<A>,
    samples: Seq<Sample>,
    asked: Option<DuplicatePolicy>,
    ops: ValueOps<S, R, C>,
    i: int,
) -> bool {
    let told = b.results@[i];
    let to_merge = b.insert_index@.contains(i as usize);
    if is_repeated(samples, i) {
        told == SampleAddResult::Duplicate && !to_merge
    } else if is_too_old(series.retention, series.last_sample, samples, i) {
        told == SampleAddResult::TooOld && !to_merge
    } else {
        ||| told == SampleAddResult::Error && to_merge
        ||| !to_merge && is_passed_over(
            series.terms(),
            series.last_sample,
            asked,
            ops,
            b.to_insert@,
            samples[i],
            told,
        )
    }
}

/// What becomes of the samples of a batch. One whose timestamp came before in the batch is a
/// duplicate. Of the others, those that lie further back than the retention reaches are too old, those
/// that are too close to the last sample of their moment are ignored, and the rest is to be merged,
/// none of it too close to the last sample of its moment.
pub proof fn law_batch_outcomes<
    A: Aggregation,
    S: Fn(u64, u64) -> u64,
    R: Fn(RoundingStrategy, u64) -> u64,
    C: Fn(u64, u64, u64) -> bool,
>(
    b: NormalizedBatch,
    series: TimeSeries<A>,
    samples: Seq<Sample>,
    asked: Option<DuplicatePolicy>,
    ops: ValueOps<S, R, C>,
    order: Seq<usize>,
)
    requires
        is_normalized(b, series, samples, asked, ops, order),
        series.retention <= i64::MAX,
        samples.len() <= usize::MAX,
    ensures
        b.results@.len() == samples.len(),
        are_kept(
            series.terms(),
            series.last_sample,
            samples,
            asked,
            ops,
            b.to_insert@,
            b.insert_index@,
        ),
        forall|i: int|
            0 <= i < samples.len() ==> #[trigger] is_outcome(b, series, samples, asked, ops, i),
{
    let terms = series.terms();
    let last = series.last_sample;
    let old = too_old(series, samples);
    law_too_old(series, samples);
    lemma_order_rank(order, samples);
    let n = order.len() as int;
    lemma_progress(terms, last, samples, old, asked, ops, order, n);
    assert(order.take(n) =~= order);
    let g = ingested(terms, last, samples, old, asked, ops, order);
    assert forall|i: int| 0 <= i < samples.len() implies #[trigger] is_outcome(
        b,
        series,
        samples,
        asked,
        ops,
        i,
    ) by {
        assert(order.contains(i as usize));
        let p = choose|p: int| 0 <= p < order.len() && order[p] == i as usize;
        lemma_repeats(samples, order, p);
        assert(old[i] == is_too_old(series.retention, last, samples, i));
        assert(is_dealt_with(
            terms,
            last,
            samples,
            old,
            asked,
            ops,
            g,
            order[p],
            repeats(samples, order, p),
        ));
    }
}

/// A sample is ignored where the policy in force, which is the one asked for or else that of the
/// series, lets the last value win, and neither its time nor its value moved by more than the series
/// cares for.
pub proof fn law_ignored<
    S: Fn(u64, u64) -> u64,
    R: Fn(RoundingStrategy, u64) -> u64,
    C: Fn(u64, u64, u64) -> bool,
>(
    d: SampleDuplicatePolicy,
    s: Sample,
    last: Sample,
    asked: Option<DuplicatePolicy>,
    ops: ValueOps<S, R, C>,
)
    ensures
        d.ignores(s, last, asked, ops) <==> {
            &&& asked == Some(DuplicatePolicy::KeepLast) || (asked is None && d.policy == Some(
                DuplicatePolicy::KeepLast,
            ))
            &&& 0 <= s.timestamp - last.timestamp <= d.max_time_delta
            &&& ops.are_close(s.value, last.value, d.max_value_delta)
        },
{
}

/// The value that two of one timestamp leave. What is no number gives way to one that is. Otherwise the
/// first, the last, the smaller or the larger one stays, as the policy says.
pub open spec fn is_settled_value(policy: DuplicatePolicy, old: u64, new: u64, value: u64) -> bool {
    &&& is_nan(new) ==> value == old
    &&& is_nan(old) && !is_nan(new) ==> value == new
    &&& !is_nan(old) && !is_nan(new) ==> {
        &&& policy == DuplicatePolicy::KeepFirst ==> value == old
        &&& policy == DuplicatePolicy::KeepLast ==> value == new
        &&& policy == DuplicatePolicy::Min || policy == DuplicatePolicy::Max ==> value == old
            || value == new
        &&& policy == DuplicatePolicy::Min ==> value_order(value) <= value_order(old)
            && value_order(value) <= value_order(new)
        &&& policy == DuplicatePolicy::Max ==> value_order(value) >= value_order(old)
            && value_order(value) >= value_order(new)
    }
}

/// What adding a sample gives. One that lies before the epoch, or further back than the retention
/// reaches, is too old; one that is too close to the last is ignored; one whose timestamp is taken is
/// a duplicate where the policy blocks it. All these leave the samples as they are. Any other is
/// stored: the series then holds what is told at its timestamp, and is otherwise as it was.
pub proof fn law_single_add<
    S: Fn(u64, u64) -> u64,
    R: Fn(RoundingStrategy, u64) -> u64,
    C: Fn(u64, u64, u64) -> bool,
>(
    terms: Terms,
    s: Seq<Sample>,
    ts: Timestamp,
    value: u64,
    asked: Option<DuplicatePolicy>,
    ops: ValueOps<S, R, C>,
)
    requires
        is_strictly_sorted(s),
    ensures
        ({
            let (told, t) = added(terms, s, ts, value, asked, ops);
            let sample = stored_as(terms, ops, Sample { timestamp: ts, value });
            let old = terms.retention > 0 && (ts < 0 || (s.len() > 0 && s.last().timestamp
                - terms.retention > ts));
            let ignored = s.len() > 0 && terms.duplicates.ignores(sample, s.last(), asked, ops);
            &&& told == SampleAddResult::TooOld <==> old
            &&& told is Ignored <==> !old && ignored
            &&& told is Ignored ==> told == SampleAddResult::Ignored(s.last().timestamp)
            &&& told == SampleAddResult::Duplicate <==> !old && !ignored && sample_at(s, ts) is Some
                && terms.duplicates.in_force(asked) == DuplicatePolicy::Block
            &&& told !is Error
            &&& told !is Stored ==> t == s
            &&& told matches SampleAddResult::Stored(x) ==> {
                &&& is_strictly_sorted(t)
                &&& x.timestamp == ts
                &&& sample_at(s, ts) is None ==> x == sample
                &&& sample_at(s, ts) matches Some(y) ==> is_settled_value(
                    terms.duplicates.in_force(asked),
                    y.value,
                    sample.value,
                    x.value,
                )
                &&& forall|at: Timestamp| #[trigger]
                    sample_at(t, at) == if at == ts {
                        Some(x)
                    } else {
                        sample_at(s, at)
                    }
            }
        }),
{
    let (told, t) = added(terms, s, ts, value, asked, ops);
    let sample = stored_as(terms, ops, Sample { timestamp: ts, value });
    let old = ts < min_of(terms.retention, s);
    let ignored = s.len() > 0 && terms.duplicates.ignores(sample, s.last(), asked, ops);
    lemma_sample_at(s, ts);
    if !old && !ignored {
        if s.len() == 0 || ts > s.last().timestamp {
            assert forall|i: int, j: int| 0 <= i < j < t.len() implies t[i].timestamp
                < t[j].timestamp by {
                if j == s.len() {
                    assert(s[i].timestamp <= s[s.len() - 1].timestamp);
                } else {
                    assert(s[i].timestamp < s[j].timestamp);
                }
            }
            assert forall|at: Timestamp| #[trigger] sample_at(t, at) == if at == ts {
                Some(sample)
            } else {
                sample_at(s, at)
            } by {
                assert(t[s.len() as int] == sample);
                lemma_held_at(t, at);
                lemma_held_at(s, at);
                if at == ts {
                    assert(t.contains(sample));
                } else {
                    assert forall|x: Sample| t.contains(x) && x.timestamp == at <==> #[trigger]
                    s.contains(x) && x.timestamp == at by {
                        if t.contains(x) && x.timestamp == at {
                            let i = choose|i: int| 0 <= i < t.len() && t[i] == x;
                            assert(s[i] == x);
                        }
                        if s.contains(x) {
                            let i = choose|i: int| 0 <= i < s.len() && s[i] == x;
                            assert(t[i] == x);
                        }
                    }
                    lemma_same_at(s, t, at);
                }
            }
            if sample_at(s, ts) is Some {
                let i = choose|i: int| 0 <= i < s.len() && s[i] == sample_at(s, ts)->0;
                if i < s.len() - 1 {
                    assert(s[i].timestamp < s[s.len() - 1].timestamp);
                }
            }
        } else {
            let policy = terms.duplicates.in_force(asked);
            lemma_upsert_strict(s, true, sample, policy, ops.sum);
            let p = place_of(s, ts);
            if s[p].timestamp == ts {
                assert(s.contains(s[p]));
                lemma_held_at(s, ts);
                assert(sample_at(s, ts) == Some(s[p]));
            } else {
                assert forall|i: int| 0 <= i < s.len() implies (#[trigger] s[i]).timestamp != ts by {
                    if i > p {
                        assert(s[p].timestamp < s[i].timestamp);
                    }
                }
                assert(sample_at(s, ts) is None);
            }
            if told is Stored {
                let x = t[p];
                assert forall|at: Timestamp| #[trigger] sample_at(t, at) == if at == ts {
                    Some(x)
                } else {
                    sample_at(s, at)
                } by {
                    lemma_held_at(t, at);
                    lemma_held_at(s, at);
                    if at == ts {
                        assert(t.contains(x));
                    } else {
                        assert forall|y: Sample|
                            t.contains(y) && y.timestamp == at <==> #[trigger] s.contains(y)
                                && y.timestamp == at by {
                            if t.contains(y) && y.timestamp == at {
                                let i = choose|i: int| 0 <= i < t.len() && t[i] == y;
                                if s[p].timestamp == ts || i < p {
                                    assert(s[i] == y);
                                } else {
                                    assert(s[i - 1] == y);
                                }
                            }
                            if s.contains(y) && y.timestamp == at {
                                let i = choose|i: int| 0 <= i < s.len() && s[i] == y;
                                if s[p].timestamp == ts || i < p {
                                    assert(t[i] == y);
                                } else {
                                    assert(t[i + 1] == y);
                                }
                            }
                        }
                        lemma_same_at(s, t, at);
                    }
                }
            }
        }
    }
}

/// The sample at a timestamp is the one that a strictly sorted run holds there.
pub proof fn lemma_held_at(s: Seq<Sample>, at: Timestamp)
    requires
        is_strictly_sorted(s),
    ensures
        forall|x: Sample| #[trigger]
            s.contains(x) && x.timestamp == at ==> sample_at(s, at) == Some(x),
        sample_at(s, at) matches Some(x) ==> s.contains(x) && x.timestamp == at,
{
    lemma_sample_at(s, at);
    assert forall|x: Sample| #[trigger] s.contains(x) && x.timestamp == at implies sample_at(s, at)
        == Some(x) by {
        let i = choose|i: int| 0 <= i < s.len() && s[i] == x;
        let y = sample_at(s, at)->0;
        let j = choose|j: int| 0 <= j < s.len() && s[j] == y;
        if i < j {
            assert(s[i].timestamp < s[j].timestamp);
        }
        if j < i {
            assert(s[j].timestamp < s[i].timestamp);
        }
    }
}

/// Two strictly sorted runs that hold the same at a timestamp have the same sample there.
pub proof fn lemma_same_at(s: Seq<Sample>, t: Seq<Sample>, at: Timestamp)
    requires
        is_strictly_sorted(s),
        is_strictly_sorted(t),
        forall|x: Sample|
            t.contains(x) && x.timestamp == at <==> #[trigger] s.contains(x) && x.timestamp == at,
    ensures
        sample_at(s, at) == sample_at(t, at),
{
    lemma_held_at(s, at);
    lemma_held_at(t, at);
    if let Some(x) = sample_at(s, at) {
        assert(s.contains(x) && x.timestamp == at);
        assert(t.contains(x));
    }
    if let Some(x) = sample_at(t, at) {
        assert(t.contains(x) && x.timestamp == at);
        assert(s.contains(x));
    }
}

/// What is told of samples that are added one by one, and the samples after it.
pub open spec fn added_singly<
    S: Fn(u64, u64) -> u64,
    R: Fn(RoundingStrategy, u64) -> u64,
    C: Fn(u64, u64, u64) -> bool,
>(
    terms: Terms,
    s: Seq<Sample>,
    samples: Seq<Sample>,
    asked: Option<DuplicatePolicy>,
    ops: ValueOps<S, R, C>,
) -> (Seq<SampleAddResult>, Seq<Sample>)
    decreases samples.len(),
{
    if samples.len() == 0 {
        (Seq::empty(), s)
    } else {
        let (told, t) = added_singly(terms, s, samples.drop_last(), asked, ops);
        let x = samples.last();
        let (one, u) = added(terms, t, x.timestamp, x.value, asked, ops);
        (told.push(one), u)
    }
}

/// What is told of a sample of a batch is what is told of it when it is added by itself, as far as it
/// is passed over; otherwise it is to be merged.
pub open spec fn is_alike(told: SampleAddResult, by_itself: SampleAddResult, to_merge: bool) -> bool {
    &&& told == SampleAddResult::TooOld <==> by_itself == SampleAddResult::TooOld
    &&& told is Ignored || by_itself is Ignored ==> told == by_itself
    &&& to_merge <==> by_itself is Stored || by_itself is Duplicate
}

spec fn is_matched<
    S: Fn(u64, u64) -> u64,
    R: Fn(RoundingStrategy, u64) -> u64,
    C: Fn(u64, u64, u64) -> bool,
>(
    terms: Terms,
    s: Seq<Sample>,
    samples: Seq<Sample>,
    asked: Option<DuplicatePolicy>,
    ops: ValueOps<S, R, C>,
    m: int,
    g: Ingest,
) -> bool {
    let (told, t) = added_singly(terms, s, samples.take(m), asked, ops);
    &&& told.len() == m
    &&& is_strictly_sorted(t)
    &&& t.len() == 0 <==> g.last is None
    &&& s.len() > 0 ==> t.len() > 0
    &&& t.len() > 0 ==> {
        &&& t.last().timestamp == g.last->0.timestamp
        &&& s.len() > 0 ==> s.last().timestamp <= t.last().timestamp
        &&& (s.len() > 0 && s.last().timestamp == t.last().timestamp) || (m > 0
            && t.last().timestamp <= samples[m - 1].timestamp)
        &&& m < samples.len() && terms.duplicates.in_force(asked) == DuplicatePolicy::KeepLast
            ==> t.last() == g.last->0
    }
    &&& forall|i: int|
        0 <= i < m ==> is_alike(
            g.results[i],
            #[trigger] told[i],
            g.insert_index.contains(i as usize),
        )
    &&& g.results.len() == samples.len()
    &&& forall|i: int|
        m <= i < samples.len() ==> (#[trigger] g.results[i]) == SampleAddResult::Error
            && !g.insert_index.contains(i as usize)
    &&& m > 0 ==> g.prev == Some(samples[m - 1].timestamp)
    &&& m == 0 ==> g.prev is None
}

/// Samples are in order, none lies before the epoch where there is a retention, and one that has the
/// timestamp of the last sample is a number, unless no other follows.
pub open spec fn is_run<
    S: Fn(u64, u64) -> u64,
    R: Fn(RoundingStrategy, u64) -> u64,
    C: Fn(u64, u64, u64) -> bool,
>(
    terms: Terms,
    s: Seq<Sample>,
    samples: Seq<Sample>,
    ops: ValueOps<S, R, C>,
) -> bool {
    &&& is_strictly_sorted(samples)
    &&& samples.len() <= usize::MAX
    &&& terms.retention > 0 ==> forall|i: int|
        0 <= i < samples.len() ==> (#[trigger] samples[i]).timestamp >= 0
    &&& forall|i: int|
        0 <= i < samples.len() - 1 && s.len() > 0 && (#[trigger] samples[i]).timestamp
            == s.last().timestamp ==> !is_nan(ops.rounded(terms.rounding, samples[i].value))
}

proof fn lemma_singly<
    S: Fn(u64, u64) -> u64,
    R: Fn(RoundingStrategy, u64) -> u64,
    C: Fn(u64, u64, u64) -> bool,
>(
    terms: Terms,
    s: Seq<Sample>,
    samples: Seq<Sample>,
    old: Seq<bool>,
    asked: Option<DuplicatePolicy>,
    ops: ValueOps<S, R, C>,
    order: Seq<usize>,
    m: int,
)
    requires
        is_strictly_sorted(s),
        is_run(terms, s, samples, ops),
        terms.retention <= i64::MAX,
        order == Seq::new(samples.len(), |i: int| i as usize),
        old.len() == samples.len(),
        forall|i: int|
            0 <= i < samples.len() ==> #[trigger] old[i] == is_too_old(
                terms.retention,
                last_of(s),
                samples,
                i,
            ),
        0 <= m <= samples.len(),
    ensures
        is_matched(
            terms,
            s,
            samples,
            asked,
            ops,
            m,
            ingested(terms, last_of(s), samples, old, asked, ops, order.take(m)),
        ),
    decreases m,
{
    let g = ingested(terms, last_of(s), samples, old, asked, ops, order.take(m));
    if m == 0 {
        assert(order.take(0) =~= Seq::<usize>::empty());
        assert(samples.take(0) =~= Seq::<Sample>::empty());
    } else {
        let f = ingested(terms, last_of(s), samples, old, asked, ops, order.take(m - 1));
        lemma_singly(terms, s, samples, old, asked, ops, order, m - 1);
        assert(order.take(m).drop_last() =~= order.take(m - 1));
        assert(samples.take(m).drop_last() =~= samples.take(m - 1));
        let at = (m - 1) as usize;
        assert(order.take(m).last() == at);
        let x = samples[m - 1];
        assert(samples.take(m).last() == x);
        let (told, t) = added_singly(terms, s, samples.take(m - 1), asked, ops);
        let (one, u) = added(terms, t, x.timestamp, x.value, asked, ops);
        assert(added_singly(terms, s, samples.take(m), asked, ops) == (told.push(one), u));
        law_single_add(terms, t, x.timestamp, x.value, asked, ops);
        let adjusted = stored_as(terms, ops, x);
        if m > 1 {
            assert(samples[m - 2].timestamp < samples[m - 1].timestamp);
        }
        assert(f.prev != Some(x.timestamp));
        // Neither way is a sample too old for one that came before it.
        assert(is_too_old(terms.retention, last_of(s), samples, m - 1) == (terms.retention > 0
            && s.len() > 0 && s.last().timestamp - terms.retention > x.timestamp)) by {
            assert forall|j: int| 0 <= j < m - 1 implies !is_behind(
                terms.retention,
                (#[trigger] samples[j]).timestamp,
                x.timestamp,
            ) by {
                assert(samples[j].timestamp < samples[m - 1].timestamp);
            }
        }
        assert((one == SampleAddResult::TooOld) == old[m - 1]);
        let ignored = f.last is Some && adjusted.timestamp >= f.last->0.timestamp
            && terms.duplicates.ignores(adjusted, f.last->0, asked, ops);
        assert(!old[m - 1] ==> (one is Ignored) == ignored);
        let inserts = !old[m - 1] && !ignored;
        if inserts {
            assert(g.insert_index == f.insert_index.push(at));
            assert(g.insert_index[f.insert_index.len() as int] == at);
            lemma_last_after(terms, t, x, asked, ops);
            if t.len() > 0 && x.timestamp == t.last().timestamp {
                assert(s.len() > 0 && s.last().timestamp == x.timestamp);
                assert(samples[m - 1].timestamp == s.last().timestamp);
            }
        }
        assert forall|i: int| 0 <= i < m implies is_alike(
            g.results[i],
            #[trigger] told.push(one)[i],
            g.insert_index.contains(i as usize),
        ) by {
            if i < m - 1 {
                assert(is_alike(f.results[i], told[i], f.insert_index.contains(i as usize)));
                lemma_index_push(f.insert_index, at, i as usize);
                assert(g.results[i] == f.results[i]);
            } else {
                assert(f.results[i] == SampleAddResult::Error);
            }
        }
        assert forall|i: int| m <= i < samples.len() implies (#[trigger] g.results[i])
            == SampleAddResult::Error && !g.insert_index.contains(i as usize) by {
            assert(f.results[i] == SampleAddResult::Error);
            lemma_index_push(f.insert_index, at, i as usize);
        }
    }
}

proof fn lemma_index_push(index: Seq<usize>, at: usize, i: usize)
    requires
        i != at,
    ensures
        index.push(at).contains(i) == index.contains(i),
{
    if index.contains(i) {
        let k = choose|k: int| 0 <= k < index.len() && index[k] == i;
        assert(index.push(at)[k] == i);
    }
    if index.push(at).contains(i) {
        let k = choose|k: int| 0 <= k < index.push(at).len() && index.push(at)[k] == i;
        assert(index[k] == i);
    }
}

/// The last sample after one was added.
proof fn lemma_last_after<
    S: Fn(u64, u64) -> u64,
    R: Fn(RoundingStrategy, u64) -> u64,
    C: Fn(u64, u64, u64) -> bool,
>(
    terms: Terms,
    t: Seq<Sample>,
    x: Sample,
    asked: Option<DuplicatePolicy>,
    ops: ValueOps<S, R, C>,
)
    requires
        is_strictly_sorted(t),
    ensures
        ({
            let (one, u) = added(terms, t, x.timestamp, x.value, asked, ops);
            let sample = stored_as(terms, ops, x);
            &&& is_strictly_sorted(u)
            &&& one is Stored || one is Duplicate ==> if t.len() == 0 || x.timestamp
                > t.last().timestamp {
                u.len() > 0 && u.last() == sample
            } else {
                &&& u.len() > 0
                &&& u.last().timestamp == t.last().timestamp
                &&& x.timestamp < t.last().timestamp ==> u.last() == t.last()
                &&& x.timestamp == t.last().timestamp && terms.duplicates.in_force(asked)
                    == DuplicatePolicy::KeepLast && !is_nan(sample.value) ==> u.last() == sample
            }
        }),
{
    let (one, u) = added(terms, t, x.timestamp, x.value, asked, ops);
    let sample = stored_as(terms, ops, x);
    law_single_add(terms, t, x.timestamp, x.value, asked, ops);
    if t.len() > 0 && x.timestamp <= t.last().timestamp {
        let policy = terms.duplicates.in_force(asked);
        lemma_upsert_strict(t, true, sample, policy, ops.sum);
        let p = place_of(t, x.timestamp);
        if p < t.len() - 1 {
            assert(t[p].timestamp < t[t.len() - 1].timestamp);
        }
        assert(t[p].timestamp >= x.timestamp);
    }
}

/// A batch in the order of its timestamps counts as its samples added one by one: each is too old, or
/// ignored for the same last sample, exactly where adding it in its turn tells so, and is to be merged
/// otherwise. A batch of one sample is such a batch.
pub proof fn law_batch_is_one_by_one<
    A: Aggregation,
    S: Fn(u64, u64) -> u64,
    R: Fn(RoundingStrategy, u64) -> u64,
    C: Fn(u64, u64, u64) -> bool,
>(
    b: NormalizedBatch,
    series: TimeSeries<A>,
    samples: Seq<Sample>,
    asked: Option<DuplicatePolicy>,
    ops: ValueOps<S, R, C>,
    order: Seq<usize>,
)
    requires
        series.wf(),
        is_normalized(b, series, samples, asked, ops, order),
        is_run(series.terms(), series.samples(), samples, ops),
    ensures
        ({
            let told = added_singly(series.terms(), series.samples(), samples, asked, ops).0;
            &&& told.len() == samples.len()
            &&& b.results@.len() == samples.len()
            &&& forall|i: int|
                0 <= i < samples.len() ==> is_alike(
                    b.results@[i],
                    #[trigger] told[i],
                    b.insert_index@.contains(i as usize),
                )
        }),
        samples.len() == 1 ==> is_alike(
            b.results@[0],
            added(
                series.terms(),
                series.samples(),
                samples[0].timestamp,
                samples[0].value,
                asked,
                ops,
            ).0,
            b.to_insert@.len() == 1,
        ) && b.to_insert@.len() <= 1,
{
    let terms = series.terms();
    let s = series.samples();
    let n = samples.len() as int;
    let straight = Seq::new(samples.len(), |i: int| i as usize);
    assert(is_order(straight, samples)) by {
        assert forall|k: int, m: int|
            #![trigger straight[k], straight[m]]
            0 <= k < m < straight.len() implies comes_first(samples, straight[k], straight[m]) by {
            assert(samples[k].timestamp < samples[m].timestamp);
        }
    }
    law_one_order(order, straight, samples);
    law_too_old(series, samples);
    law_batch_outcomes(b, series, samples, asked, ops, order);
    lemma_singly(terms, s, samples, too_old(series, samples), asked, ops, straight, n);
    assert(straight.take(n) =~= straight);
    assert(samples.take(n) =~= samples);
    if n == 1 {
        let told = added_singly(terms, s, samples, asked, ops).0;
        assert(samples.drop_last() =~= Seq::<Sample>::empty());
        assert(added_singly(terms, s, samples.drop_last(), asked, ops) == (
            Seq::<SampleAddResult>::empty(),
            s,
        ));
        assert(told[0] == added(
            terms,
            s,
            samples[0].timestamp,
            samples[0].value,
            asked,
            ops,
        ).0);
        if b.insert_index@.contains(0) {
            let k = choose|k: int| 0 <= k < b.insert_index@.len() && b.insert_index@[k] == 0;
            assert(b.to_insert@.len() > 0);
        }
        if b.to_insert@.len() > 0 {
            assert(b.insert_index@[0] < samples.len());
            assert(b.insert_index@.contains(b.insert_index@[0]));
        }
        if b.to_insert@.len() > 1 {
            assert(b.insert_index@[0] < samples.len() && b.insert_index@[1] < samples.len());
            assert(b.to_insert@[0].timestamp < b.to_insert@[1].timestamp);
        }
    }
}

} // verus!
