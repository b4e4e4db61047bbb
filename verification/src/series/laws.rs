//! What holds of a compaction whatever happens to its source.
use crate::aggregation::Aggregation;
use crate::chunks::search::place_of;
use crate::sample::{is_sorted, is_strictly_sorted, DuplicatePolicy, Sample, Timestamp};
use crate::series::batch::{batched, fill_floor, is_filled, refill_all, replay, stream_all};
use crate::series::compaction::{
    cut, put, remade, removed, replaced, store_of, streamed, Flow, Source, Store,
};
use crate::series::rule::CompactionRule;
use crate::series::store::{
    added, last_of, lemma_filter_from, lemma_upsert_strict, RoundingStrategy, Terms, ValueOps,
};
use crate::series::update::lemma_filter_strict;
use crate::time::bucket_start_of;
use vstd::prelude::*;

verus! {

/// The destination holds only buckets that are older than the open one. With no bucket open it
/// holds none.
pub open spec fn is_settled<A: Aggregation>(f: Flow<A>) -> bool {
    &&& f.rule.wf()
    &&& is_strictly_sorted(f.dest)
    &&& match f.rule.bucket_start {
        Some(open) => {
            &&& 0 <= open
            &&& f.rule.start_of(open) == open
            &&& forall|i: int| 0 <= i < f.dest.len() ==> (#[trigger] f.dest[i]).timestamp < open
        },
        None => f.dest.len() == 0,
    }
}

/// The open bucket is that of the last timestamp.
pub open spec fn is_synced<A: Aggregation>(f: Flow<A>, last: Option<Timestamp>) -> bool {
    f.rule.bucket_start == match last {
        Some(ts) => Some(f.rule.start_of(ts)),
        None => None,
    }
}

/// Storing a bucket keeps the order of samples and adds nothing but the bucket.
pub open spec fn adds_one(store: Store, s: Seq<Sample>, ts: Timestamp, v: u64) -> bool {
    let t = store(s, ts, v).1;
    &&& is_strictly_sorted(t)
    &&& forall|i: int|
        0 <= i < t.len() ==> (#[trigger] t[i]).timestamp == ts || s.contains(t[i])
}

/// A destination that stores a bucket gets it and nothing else.
pub open spec fn adds_its_own(store: Store) -> bool {
    forall|s: Seq<Sample>, ts: Timestamp, v: u64|
        is_strictly_sorted(s) ==> #[trigger] adds_one(store, s, ts, v)
}

/// A bucket starts where its start's bucket does, and later timestamps have later buckets.
pub proof fn law_buckets<A: Aggregation>(rule: CompactionRule<A>, a: Timestamp, b: Timestamp)
    requires
        rule.wf(),
    ensures
        0 <= rule.start_of(a),
        a >= 0 ==> rule.start_of(a) <= a,
        rule.start_of(rule.start_of(a)) == rule.start_of(a),
        a <= b ==> rule.start_of(a) <= rule.start_of(b),
{
    let d = rule.bucket_duration as int;
    let al = rule.align_timestamp as int;
    lemma_bucket(a as int, al, d);
    lemma_bucket(b as int, al, d);
    if a <= b {
        lemma_bucket_monotone(a as int, b as int, al, d);
    }
}

pub proof fn lemma_bucket(ts: int, align: int, d: int)
    requires
        d > 0,
    ensures
        0 <= bucket_start_of(ts, align, d),
        ts >= 0 ==> bucket_start_of(ts, align, d) <= ts,
        ts < 0 ==> bucket_start_of(ts, align, d) == 0,
        bucket_start_of(bucket_start_of(ts, align, d), align, d) == bucket_start_of(ts, align, d),
{
    let m = (ts - align) % d;
    vstd::arithmetic::div_mod::lemma_fundamental_div_mod(ts - align, d);
    vstd::arithmetic::div_mod::lemma_mod_bound(ts - align, d);
    let start = ts - m;
    let q = (ts - align) / d;
    if start >= 0 {
        assert(start - align == d * q);
        assert(start - align == q * d + 0) by (nonlinear_arith)
            requires
                start - align == d * q,
        ;
        vstd::arithmetic::div_mod::lemma_fundamental_div_mod_converse(start - align, d, q, 0);
    } else {
        vstd::arithmetic::div_mod::lemma_mod_bound(0 - align, d);
    }
}

pub proof fn lemma_bucket_monotone(a: int, b: int, align: int, d: int)
    requires
        d > 0,
        a <= b,
    ensures
        bucket_start_of(a, align, d) <= bucket_start_of(b, align, d),
{
    vstd::arithmetic::div_mod::lemma_fundamental_div_mod(a - align, d);
    vstd::arithmetic::div_mod::lemma_fundamental_div_mod(b - align, d);
    vstd::arithmetic::div_mod::lemma_div_is_ordered(a - align, b - align, d);
    let qa = (a - align) / d;
    let qb = (b - align) / d;
    assert(d * qa <= d * qb) by (nonlinear_arith)
        requires
            d > 0,
            qa <= qb,
    ;
}

/// How destinations store buckets adds nothing but the bucket.
pub proof fn law_destinations_add_their_own<
    S: Fn(u64, u64) -> u64,
    R: Fn(RoundingStrategy, u64) -> u64,
    C: Fn(u64, u64, u64) -> bool,
>(terms: Terms, ops: ValueOps<S, R, C>)
    ensures
        adds_its_own(store_of(terms, ops)),
{
    let store = store_of(terms, ops);
    assert forall|s: Seq<Sample>, ts: Timestamp, v: u64| is_strictly_sorted(s) implies #[trigger]
    adds_one(store, s, ts, v) by {
        lemma_added(terms, s, ts, v, ops);
    }
}

proof fn lemma_added<
    S: Fn(u64, u64) -> u64,
    R: Fn(RoundingStrategy, u64) -> u64,
    C: Fn(u64, u64, u64) -> bool,
>(terms: Terms, s: Seq<Sample>, ts: Timestamp, v: u64, ops: ValueOps<S, R, C>)
    requires
        is_strictly_sorted(s),
    ensures
        adds_one(store_of(terms, ops), s, ts, v),
{
    let asked = Some(DuplicatePolicy::KeepLast);
    let sample = Sample { timestamp: ts, value: ops.rounded(terms.rounding, v) };
    let (told, t) = added(terms, s, ts, v, asked, ops);
    assert(t == store_of(terms, ops)(s, ts, v).1);
    if told !is Stored {
        assert forall|i: int| 0 <= i < t.len() implies (#[trigger] t[i]).timestamp == ts
            || s.contains(t[i]) by {
            assert(s.contains(s[i]));
        }
    } else if s.len() == 0 || ts > s.last().timestamp {
        assert forall|i: int, j: int| 0 <= i < j < t.len() implies t[i].timestamp
            < t[j].timestamp by {
            if j == s.len() {
                assert(s[i].timestamp <= s[s.len() - 1].timestamp);
            } else {
                assert(s[i].timestamp < s[j].timestamp);
            }
        }
        assert forall|i: int| 0 <= i < t.len() implies (#[trigger] t[i]).timestamp == ts
            || s.contains(t[i]) by {
            if i < s.len() {
                assert(s.contains(s[i]));
            }
        }
    } else {
        lemma_upsert_strict(s, true, sample, DuplicatePolicy::KeepLast, ops.sum);
        let at = place_of(s, ts);
        assert forall|i: int| 0 <= i < t.len() implies (#[trigger] t[i]).timestamp == ts
            || s.contains(t[i]) by {
            if i < at {
                assert(t[i] == s[i]);
            } else if i > at {
                if s[at].timestamp == ts {
                    assert(t[i] == s[i]);
                } else {
                    assert(t[i] == s[i - 1]);
                }
            }
        }
    }
}

proof fn lemma_cut_settled<A: Aggregation>(
    f: Flow<A>,
    start: Timestamp,
    end: Timestamp,
    bound: Timestamp,
)
    requires
        is_strictly_sorted(f.dest),
        forall|i: int| 0 <= i < f.dest.len() ==> (#[trigger] f.dest[i]).timestamp < bound,
    ensures
        is_strictly_sorted(cut(f, start, end).dest),
        forall|i: int|
            0 <= i < cut(f, start, end).dest.len() ==> (#[trigger] cut(
                f,
                start,
                end,
            ).dest[i]).timestamp < bound,
        f.dest.len() == 0 ==> cut(f, start, end).dest.len() == 0,
{
    broadcast use vstd::seq_lib::group_filter_ensures;

    let p = |x: Sample| !(start <= x.timestamp <= end);
    lemma_filter_from(f.dest, p);
    lemma_filter_strict(f.dest, p);
    let d = cut(f, start, end).dest;
    assert forall|i: int| 0 <= i < d.len() implies (#[trigger] d[i]).timestamp < bound by {
        assert(f.dest.contains(f.dest.filter(p)[i]));
    }
}

proof fn lemma_put_settled<A: Aggregation>(
    f: Flow<A>,
    store: Store,
    ts: Timestamp,
    v: u64,
    bound: Timestamp,
)
    requires
        adds_its_own(store),
        f.rule.start_of(ts) < bound,
        is_strictly_sorted(f.dest),
        forall|i: int| 0 <= i < f.dest.len() ==> (#[trigger] f.dest[i]).timestamp < bound,
    ensures
        is_strictly_sorted(put(f, store, ts, v).0.dest),
        forall|i: int|
            0 <= i < put(f, store, ts, v).0.dest.len() ==> (#[trigger] put(
                f,
                store,
                ts,
                v,
            ).0.dest[i]).timestamp < bound,
{
    let d = put(f, store, ts, v).0.dest;
    let at = f.rule.start_of(ts);
    assert(d == store(f.dest, at, v).1);
    assert(adds_one(store, f.dest, at, v));
    assert forall|i: int| 0 <= i < d.len() implies (#[trigger] d[i]).timestamp < bound by {
        assert(d[i].timestamp == at || f.dest.contains(d[i]));
    }
}

proof fn lemma_remade_settled<A: Aggregation>(
    f: Flow<A>,
    store: Store,
    s: Seq<Sample>,
    start: Timestamp,
    floor: Timestamp,
    excluded: Option<(Timestamp, Timestamp)>,
)
    requires
        is_settled(f),
        adds_its_own(store),
        f.rule.bucket_start is Some,
        f.rule.start_of(start) == start,
        start < f.rule.bucket_start->0,
    ensures
        is_settled(remade(f, store, s, start, floor, excluded)),
        remade(f, store, s, start, floor, excluded).rule == f.rule,
{
    let open = f.rule.bucket_start->0;
    let last = crate::series::compaction::just_before(f.rule.end_of(start));
    lemma_cut_settled(f, start, last, open);
    let read = crate::series::compaction::readable(s, start, last, floor, excluded);
    let v = crate::aggregation::fed(f.rule.aggregator.cleared(), read).result();
    lemma_put_settled(f, store, start, v, open);
}

/// A sample behind all others leaves only older buckets in the destination, and opens its own.
pub proof fn law_new_sample_settles<A: Aggregation>(
    f: Flow<A>,
    store: Store,
    source: Source,
    last: Option<Timestamp>,
    sample: Sample,
)
    requires
        is_settled(f),
        is_synced(f, last),
        last is Some ==> last->0 <= sample.timestamp,
        adds_its_own(store),
    ensures
        is_settled(streamed(f, store, source, sample)),
        is_synced(streamed(f, store, source, sample), Some(sample.timestamp)),
        streamed(f, store, source, sample).rule.same_terms(f.rule),
{
    law_buckets(f.rule, sample.timestamp, sample.timestamp);
    let start = f.rule.start_of(sample.timestamp);
    if let Some(open) = f.rule.bucket_start {
        law_buckets(f.rule, last->0, sample.timestamp);
        if start > open {
            lemma_put_settled(f, store, open, f.rule.aggregator.result(), start);
        }
    }
}

/// A sample among the others leaves the open bucket where it is, and only older ones in the
/// destination.
pub proof fn law_upsert_settles<A: Aggregation>(
    f: Flow<A>,
    store: Store,
    source: Source,
    last: Timestamp,
    sample: Sample,
)
    requires
        is_settled(f),
        is_synced(f, Some(last)),
        sample.timestamp <= last,
        adds_its_own(store),
    ensures
        is_settled(replaced(f, store, source, sample)),
        is_synced(replaced(f, store, source, sample), Some(last)),
{
    law_buckets(f.rule, sample.timestamp, last);
    let start = f.rule.start_of(sample.timestamp);
    let open = f.rule.bucket_start->0;
    if start < open {
        lemma_remade_settled(f, store, source.samples, start, source.floor(), None);
    }
}

proof fn lemma_shrunk_strict<A: Aggregation>(
    f: Flow<A>,
    store: Store,
    source: Source,
    bucket: Timestamp,
    start: Timestamp,
    end: Timestamp,
)
    requires
        is_strictly_sorted(f.dest),
        adds_its_own(store),
    ensures
        is_strictly_sorted(
            crate::series::compaction::shrunk(f, store, source, bucket, start, end).dest,
        ),
{
    let last = crate::series::compaction::just_before(f.rule.end_of(bucket));
    lemma_filter_strict(f.dest, |x: Sample| !(bucket <= x.timestamp <= last));
    let read = crate::series::compaction::readable(
        source.samples,
        bucket,
        last,
        source.floor(),
        Some((start, end)),
    );
    let v = crate::aggregation::fed(f.rule.aggregator.cleared(), read).result();
    assert(adds_one(store, f.dest, f.rule.start_of(bucket), v));
}

/// A removal, wherever the open bucket was before, leaves only buckets in the destination that are older
/// than that of the last sample, which is open.
pub proof fn law_removal_settles<A: Aggregation>(
    f: Flow<A>,
    store: Store,
    source: Source,
    start: Timestamp,
    end: Timestamp,
)
    requires
        f.rule.wf(),
        is_strictly_sorted(f.dest),
        adds_its_own(store),
    ensures
        is_settled(removed(f, store, source, start, end)),
        is_synced(
            removed(f, store, source, start, end),
            match last_of(source.samples) {
                Some(s) => Some(s.timestamp),
                None => None,
            },
        ),
{
    broadcast use vstd::seq_lib::group_filter_ensures;

    let first = f.rule.start_of(start);
    let last = f.rule.start_of(end);
    let g = crate::series::compaction::shrunk(f, store, source, first, start, end);
    let h = if last != first {
        let middle = f.rule.end_of(first);
        let k = if middle < last && g.dest.len() > 0 {
            cut(g, middle, crate::series::compaction::just_before(last))
        } else {
            g
        };
        crate::series::compaction::shrunk(k, store, source, last, start, end)
    } else {
        g
    };
    assert(h.rule == f.rule);
    lemma_shrunk_strict(f, store, source, first, start, end);
    if last != first {
        let middle = f.rule.end_of(first);
        let k = if middle < last && g.dest.len() > 0 {
            lemma_filter_strict(
                g.dest,
                |x: Sample|
                    !(middle <= x.timestamp <= crate::series::compaction::just_before(last)),
            );
            cut(g, middle, crate::series::compaction::just_before(last))
        } else {
            g
        };
        lemma_shrunk_strict(k, store, source, last, start, end);
    }
    match last_of(source.samples) {
        None => {
            let p = |x: Sample| !(i64::MIN <= x.timestamp <= i64::MAX);
            lemma_filter_strict(h.dest, p);
            assert(h.dest.filter(p).len() == 0) by {
                if h.dest.filter(p).len() > 0 {
                    assert(p(h.dest.filter(p)[0]));
                }
            }
        },
        Some(s) => {
            law_buckets(h.rule, s.timestamp, s.timestamp);
            let open = h.rule.start_of(s.timestamp);
            let p = |x: Sample| !(open <= x.timestamp <= i64::MAX);
            let d = h.dest.filter(p);
            lemma_filter_strict(h.dest, p);
            assert forall|i: int| 0 <= i < d.len() implies (#[trigger] d[i]).timestamp < open by {
                assert(p(d[i]));
            }
        },
    }
}

/// Samples streamed in order, the first of them not before the last timestamp.
proof fn lemma_stream_settles<A: Aggregation>(
    f: Flow<A>,
    store: Store,
    source: Source,
    last: Option<Timestamp>,
    s: Seq<Sample>,
)
    requires
        is_settled(f),
        is_synced(f, last),
        is_sorted(s),
        s.len() > 0 && last is Some ==> last->0 <= s[0].timestamp,
        adds_its_own(store),
    ensures
        is_settled(stream_all(f, store, source, s)),
        is_synced(
            stream_all(f, store, source, s),
            if s.len() == 0 {
                last
            } else {
                Some(s.last().timestamp)
            },
        ),
        stream_all(f, store, source, s).rule.same_terms(f.rule),
    decreases s.len(),
{
    if s.len() > 0 {
        let less = s.drop_last();
        assert(is_sorted(less)) by {
            assert forall|i: int, j: int| 0 <= i <= j < less.len() implies less[i].timestamp
                <= less[j].timestamp by {
                assert(s[i].timestamp <= s[j].timestamp);
            }
        }
        lemma_stream_settles(f, store, source, last, less);
        let g = stream_all(f, store, source, less);
        let at = if less.len() == 0 {
            last
        } else {
            Some(less.last().timestamp)
        };
        if less.len() > 0 {
            assert(s[less.len() - 1].timestamp <= s[s.len() - 1].timestamp);
        }
        law_new_sample_settles(g, store, source, at, s.last());
    }
}

/// Buckets that are not after the open one, made anew.
proof fn lemma_refill_settles<A: Aggregation>(
    f: Flow<A>,
    store: Store,
    source: Source,
    filled: Seq<(Timestamp, Timestamp)>,
    last: Timestamp,
    s: Seq<Sample>,
)
    requires
        is_settled(f),
        is_synced(f, Some(last)),
        forall|i: int| 0 <= i < s.len() ==> (#[trigger] s[i]).timestamp <= last,
        adds_its_own(store),
    ensures
        is_settled(refill_all(f, store, source, filled, s)),
        is_synced(refill_all(f, store, source, filled, s), Some(last)),
        refill_all(f, store, source, filled, s).rule.same_terms(f.rule),
    decreases s.len(),
{
    if s.len() > 0 {
        let less = s.drop_last();
        assert forall|i: int| 0 <= i < less.len() implies (#[trigger] less[i]).timestamp
            <= last by {
            assert(less[i] == s[i]);
        }
        lemma_refill_settles(f, store, source, filled, last, less);
        let g = refill_all(f, store, source, filled, less);
        let ts = s[s.len() - 1].timestamp;
        law_buckets(f.rule, ts, last);
        let bucket = f.rule.start_of(ts);
        assert(f.rule.start_of(last) == g.rule.start_of(last));
        assert(g.rule.start_of(bucket) == f.rule.start_of(bucket));
        let floor = fill_floor(g.rule, source.retention, filled, bucket);
        if g.rule.bucket_start != Some(bucket) {
            lemma_remade_settled(g, store, source.samples, bucket, floor, None);
        }
    }
}

/// The replay keeps the highest timestamp, which is the last from before or one that advanced,
/// and what is filled lies below it.
pub proof fn lemma_replay(prev_last: Option<Timestamp>, order: Seq<Timestamp>)
    ensures
        ({
            let r = replay(prev_last, order);
            &&& prev_last is Some ==> r.high is Some && prev_last->0 <= r.high->0
            &&& forall|i: int|
                0 <= i < r.filled.len() ==> r.high is Some && (#[trigger] r.filled[i]).0
                    <= r.high->0 && r.filled[i].1 <= r.high->0
            &&& r.advanced.len() == 0 ==> r.high == prev_last
            &&& r.advanced.len() > 0 ==> r.high == Some(r.advanced.last())
            &&& forall|i: int|
                0 <= i < r.advanced.len() ==> order.contains(#[trigger] r.advanced[i]) && (
                prev_last is Some ==> prev_last->0 < r.advanced[i])
            &&& forall|i: int, j: int|
                0 <= i < j < r.advanced.len() ==> r.advanced[i] < r.advanced[j]
            &&& forall|i: int|
                0 <= i < r.filled.len() ==> !r.advanced.contains((#[trigger] r.filled[i]).0)
            &&& forall|i: int|
                0 <= i < order.len() ==> r.advanced.contains(#[trigger] order[i]) || is_filled(
                    r.filled,
                    order[i],
                )
        }),
    decreases order.len(),
{
    if order.len() > 0 {
        let less = order.drop_last();
        lemma_replay(prev_last, less);
        let b = replay(prev_last, less);
        let r = replay(prev_last, order);
        let ts = order.last();
        assert forall|i: int| 0 <= i < r.advanced.len() implies order.contains(
            #[trigger] r.advanced[i],
        ) && (prev_last is Some ==> prev_last->0 < r.advanced[i]) by {
            if i < b.advanced.len() {
                assert(less.contains(b.advanced[i]));
                let k = choose|k: int| 0 <= k < less.len() && less[k] == b.advanced[i];
                assert(order[k] == r.advanced[i]);
            } else {
                assert(order[order.len() - 1] == r.advanced[i]);
            }
        }
        assert forall|i: int, j: int| 0 <= i < j < r.advanced.len() implies r.advanced[i]
            < r.advanced[j] by {
            if j >= b.advanced.len() {
                assert(b.advanced[i] <= b.advanced[b.advanced.len() - 1]);
            }
        }
        assert forall|i: int| 0 <= i < r.filled.len() implies !r.advanced.contains(
            (#[trigger] r.filled[i]).0,
        ) by {
            if i < b.filled.len() {
                assert(!b.advanced.contains(b.filled[i].0));
                if r.advanced.contains(r.filled[i].0) {
                    let k = choose|k: int|
                        0 <= k < r.advanced.len() && r.advanced[k] == r.filled[i].0;
                    if k < b.advanced.len() {
                        assert(b.advanced[k] == b.filled[i].0);
                    }
                }
            }
        }
        assert forall|i: int| 0 <= i < order.len() implies r.advanced.contains(
            #[trigger] order[i],
        ) || is_filled(r.filled, order[i]) by {
            if i < less.len() {
                assert(less[i] == order[i]);
                if b.advanced.contains(less[i]) {
                    let k = choose|k: int| 0 <= k < b.advanced.len() && b.advanced[k] == less[i];
                    assert(r.advanced[k] == order[i]);
                } else {
                    let k = choose|k: int|
                        0 <= k < b.filled.len() && (#[trigger] b.filled[k]).0 == less[i];
                    assert(r.filled[k].0 == order[i]);
                }
            } else if b.high is Some && ts <= b.high->0 {
                if !b.advanced.contains(ts) {
                    assert(r.filled[r.filled.len() - 1].0 == ts);
                }
            } else {
                assert(r.advanced[r.advanced.len() - 1] == ts);
            }
        }
    }
}

/// A batch leaves only older buckets in the destination and opens that of the highest timestamp,
/// whatever the order in which its samples came.
pub proof fn law_batch_settles<A: Aggregation>(
    f: Flow<A>,
    store: Store,
    source: Source,
    samples: Seq<Sample>,
    prev_last: Option<Timestamp>,
    order: Seq<Timestamp>,
)
    requires
        is_settled(f),
        is_synced(f, prev_last),
        is_sorted(samples),
        forall|i: int| 0 <= i < samples.len() ==> order.contains((#[trigger] samples[i]).timestamp),
        forall|i: int|
            0 <= i < order.len() ==> exists|j: int|
                0 <= j < samples.len() && (#[trigger] samples[j]).timestamp == #[trigger] order[i],
        adds_its_own(store),
    ensures
        is_settled(batched(f, store, source, samples, prev_last, order)),
        is_synced(
            batched(f, store, source, samples, prev_last, order),
            replay(prev_last, order).high,
        ),
{
    broadcast use vstd::seq_lib::group_filter_ensures;

    lemma_replay(prev_last, order);
    let r = replay(prev_last, order);
    let filled = r.filled;
    let p = |s: Sample| !is_filled(filled, s.timestamp);
    let q = |s: Sample| is_filled(filled, s.timestamp);
    let appends = samples.filter(p);
    let upserts = samples.filter(q);
    crate::chunks::search::lemma_filter_sorted(samples, p);
    lemma_filter_from(samples, q);
    // What is streamed advanced.
    assert forall|i: int| 0 <= i < appends.len() implies r.advanced.contains(
        (#[trigger] appends[i]).timestamp,
    ) by {
        assert(p(appends[i]));
        assert(samples.contains(appends[i]));
        let k = choose|k: int| 0 <= k < samples.len() && samples[k] == appends[i];
        assert(order.contains(samples[k].timestamp));
        let m = choose|m: int| 0 <= m < order.len() && order[m] == samples[k].timestamp;
        assert(r.advanced.contains(order[m]) || is_filled(filled, order[m]));
    }
    if appends.len() > 0 {
        let t = appends[0].timestamp;
        assert(r.advanced.contains(t));
        let k = choose|k: int| 0 <= k < r.advanced.len() && r.advanced[k] == t;
        assert(order.contains(r.advanced[k]));
    }
    lemma_stream_settles(f, store, source, prev_last, appends);
    let g = stream_all(f, store, source, appends);
    // The last that is streamed is the highest.
    if r.advanced.len() > 0 {
        let top = r.advanced.last();
        assert(order.contains(r.advanced[r.advanced.len() - 1]));
        let m = choose|m: int| 0 <= m < order.len() && order[m] == top;
        let j = choose|j: int|
            0 <= j < samples.len() && (#[trigger] samples[j]).timestamp == order[m];
        assert(!is_filled(filled, top)) by {
            if is_filled(filled, top) {
                let i = choose|i: int| 0 <= i < filled.len() && (#[trigger] filled[i]).0 == top;
                assert(!r.advanced.contains(filled[i].0));
                assert(r.advanced[r.advanced.len() - 1] == top);
            }
        }
        assert(p(samples[j]));
        assert(appends.contains(samples[j]));
        let n = choose|n: int| 0 <= n < appends.len() && appends[n] == samples[j];
        assert(appends[n].timestamp <= appends[appends.len() - 1].timestamp);
        let t = appends[appends.len() - 1].timestamp;
        assert(r.advanced.contains(t));
        let k = choose|k: int| 0 <= k < r.advanced.len() && r.advanced[k] == t;
        if k < r.advanced.len() - 1 {
            assert(r.advanced[k] < r.advanced[r.advanced.len() - 1]);
        }
        assert(t == top);
    } else if appends.len() > 0 {
        assert(r.advanced.contains(appends[0].timestamp));
    }
    assert(is_synced(g, r.high));
    if r.high is Some {
        let high = r.high->0;
        assert forall|i: int| 0 <= i < upserts.len() implies (#[trigger] upserts[i]).timestamp
            <= high by {
            assert(q(upserts[i]));
            let k = choose|k: int|
                0 <= k < filled.len() && (#[trigger] filled[k]).0 == upserts[i].timestamp;
            assert(filled[k].0 <= high);
        }
        lemma_refill_settles(g, store, source, filled, high, upserts);
    } else {
        assert(upserts.len() == 0) by {
            if upserts.len() > 0 {
                assert(q(upserts[0]));
                let k = choose|k: int|
                    0 <= k < filled.len() && (#[trigger] filled[k]).0 == upserts[0].timestamp;
                assert(filled[k].0 == upserts[0].timestamp);
            }
        }
    }
}

} // verus!
