//! A destination holds the aggregates of its source's buckets.
//!
//! A compaction is brought up to date in steps: by a sample behind the others or among them, by a
//! batch, by a removal. Here it is shown that after each step the destination is what it would be if
//! it were made anew: for every closed bucket it holds the aggregate of the samples that fall in it,
//! and nothing else; and the aggregator of the rule has seen the samples of the open bucket.
//!
//! This holds where buckets are whole. The first bucket is cut off at 0 where the alignment puts
//! its start before that, and then overlaps the second; the last timestamp there is belongs to no
//! bucket; and what retention has hidden is not read again.
use crate::aggregation::{fed, fed_any, Aggregation, Pick, PickAggregator};
use crate::chunks::search::{outside, place_of};
use crate::index::label_scan::lemma_ascending_unique;
use crate::sample::{is_nan, is_strictly_sorted, DuplicatePolicy, Sample, Timestamp};
use crate::series::batch::{
    batched, fill_floor, is_filled, refill_all, replay, stream_all,
};
use crate::series::compaction::{
    cut, just_before, left_out, put, readable, remade, removed, replaced, reread, resynced, shrunk,
    store_of, streamed, Flow, Source, Store,
};
use crate::series::laws::{law_buckets, lemma_replay};
use crate::series::rule::CompactionRule;
use crate::series::store::{
    added, last_of, lemma_filter_from, lemma_sample_at, lemma_upsert_strict, sample_at,
    RoundingStrategy, Terms, ValueOps,
};
use crate::series::update::lemma_filter_strict;
use crate::time::bucket_start_of;
use vstd::prelude::*;

verus! {

/// Whether a sample falls in a bucket.
pub open spec fn falls_in(align: Timestamp, duration: u64, bucket: Timestamp) -> spec_fn(
    Sample,
) -> bool {
    |x: Sample|
        bucket_start_of(x.timestamp as int, align as int, duration as int) as i64 == bucket
}

/// The samples that fall in a bucket.
pub open spec fn in_bucket<A: Aggregation>(
    rule: CompactionRule<A>,
    s: Seq<Sample>,
    bucket: Timestamp,
) -> Seq<Sample> {
    s.filter(falls_in(rule.align_timestamp, rule.bucket_duration, bucket))
}

/// The value at a timestamp, if there is one.
pub open spec fn value_at(s: Seq<Sample>, ts: Timestamp) -> Option<u64> {
    match sample_at(s, ts) {
        Some(x) => Some(x.value),
        None => None,
    }
}

/// The value that belongs at a timestamp of a destination: that of the bucket that starts there, if
/// one of its samples counts.
pub open spec fn aggregate_at<A: Aggregation>(
    rule: CompactionRule<A>,
    clean: A,
    kept: spec_fn(u64) -> u64,
    s: Seq<Sample>,
    ts: Timestamp,
) -> Option<u64> {
    let bucket = in_bucket(rule, s, ts);
    if rule.start_of(ts) == ts && fed_any(clean, bucket) {
        Some(kept(fed(clean, bucket).result()))
    } else {
        None
    }
}

/// A destination holds the aggregates of the buckets of a source that are closed, and nothing else,
/// and the aggregator of the rule has seen the open one.
pub open spec fn is_faithful<A: Aggregation>(
    f: Flow<A>,
    clean: A,
    kept: spec_fn(u64) -> u64,
    s: Seq<Sample>,
) -> bool {
    &&& f.rule.wf()
    &&& is_strictly_sorted(f.dest)
    &&& match last_of(s) {
        None => {
            &&& f.rule.bucket_start is None
            &&& f.rule.aggregator == clean
            &&& !f.rule.has_samples
            &&& f.dest.len() == 0
        },
        Some(last) => {
            let open = f.rule.start_of(last.timestamp);
            &&& f.rule.bucket_start == Some(open)
            &&& f.rule.aggregator == fed(clean, in_bucket(f.rule, s, open))
            &&& f.rule.has_samples == fed_any(clean, in_bucket(f.rule, s, open))
            &&& forall|ts: Timestamp| #[trigger]
                value_at(f.dest, ts) == if ts < open {
                    aggregate_at(f.rule, clean, kept, s, ts)
                } else {
                    None
                }
        },
    }
}

/// A destination gets the value of a bucket, as it keeps values, and is otherwise left as it is.
pub open spec fn stores_exactly(
    store: Store,
    kept: spec_fn(u64) -> u64,
    s: Seq<Sample>,
    ts: Timestamp,
    v: u64,
) -> bool {
    let t = store(s, ts, v).1;
    &&& is_strictly_sorted(t)
    &&& forall|at: Timestamp| #[trigger]
        value_at(t, at) == if at == ts {
            Some(kept(v))
        } else {
            value_at(s, at)
        }
}

/// A destination stores every value that is a number.
pub open spec fn is_exact(store: Store, kept: spec_fn(u64) -> u64) -> bool {
    forall|s: Seq<Sample>, ts: Timestamp, v: u64|
        is_strictly_sorted(s) && !is_nan(kept(v)) ==> #[trigger] stores_exactly(
            store,
            kept,
            s,
            ts,
            v,
        )
}

/// An aggregator that starts clean can be cleared at any time, and what it makes of samples that
/// count is a number.
pub open spec fn is_sound<A: Aggregation>(clean: A, kept: spec_fn(u64) -> u64) -> bool {
    &&& clean.cleared() == clean
    &&& forall|s: Seq<Sample>| (#[trigger] fed(clean, s)).cleared() == clean
    &&& forall|s: Seq<Sample>| #[trigger]
        fed_any(clean, s) ==> !is_nan(kept(fed(clean, s).result()))
}

/// The bucket of a timestamp is not cut off at 0.
pub open spec fn is_regular<A: Aggregation>(rule: CompactionRule<A>, ts: Timestamp) -> bool {
    &&& 0 <= ts
    &&& 0 <= ts - (ts - rule.align_timestamp) % (rule.bucket_duration as int)
}

/// Samples of which none is in a bucket that is cut off, none at the last timestamp there is, and
/// none older than the source keeps.
pub open spec fn is_whole<A: Aggregation>(
    rule: CompactionRule<A>,
    s: Seq<Sample>,
    floor: Timestamp,
) -> bool {
    &&& is_strictly_sorted(s)
    &&& forall|i: int|
        0 <= i < s.len() ==> is_regular(rule, (#[trigger] s[i]).timestamp) && floor
            <= s[i].timestamp < i64::MAX
}

/// A bucket that is not cut off starts at a timestamp.
pub open spec fn is_start<A: Aggregation>(rule: CompactionRule<A>, ts: Timestamp) -> bool {
    is_regular(rule, ts) && rule.start_of(ts) == ts
}

/// A destination with values at starts of buckets only.
pub open spec fn is_on_starts<A: Aggregation>(rule: CompactionRule<A>, dest: Seq<Sample>) -> bool {
    &&& is_strictly_sorted(dest)
    &&& forall|ts: Timestamp| #[trigger]
        value_at(dest, ts) is Some ==> is_start(rule, ts) && ts < i64::MAX
}

proof fn lemma_filter_same(s: Seq<Sample>, p: spec_fn(Sample) -> bool, q: spec_fn(Sample) -> bool)
    requires
        forall|i: int| 0 <= i < s.len() ==> p(#[trigger] s[i]) == q(s[i]),
    ensures
        s.filter(p) == s.filter(q),
    decreases s.len(),
{
    reveal(Seq::filter);
    if s.len() > 0 {
        let less = s.drop_last();
        assert forall|i: int| 0 <= i < less.len() implies p(#[trigger] less[i]) == q(less[i]) by {
            assert(less[i] == s[i]);
        }
        lemma_filter_same(less, p, q);
        assert(s[s.len() - 1] == s.last());
    }
}

proof fn lemma_filter_all(s: Seq<Sample>, p: spec_fn(Sample) -> bool)
    requires
        forall|i: int| 0 <= i < s.len() ==> p(#[trigger] s[i]),
    ensures
        s.filter(p) == s,
    decreases s.len(),
{
    reveal(Seq::filter);
    if s.len() > 0 {
        let less = s.drop_last();
        assert forall|i: int| 0 <= i < less.len() implies p(#[trigger] less[i]) by {
            assert(less[i] == s[i]);
        }
        lemma_filter_all(less, p);
        assert(s[s.len() - 1] == s.last());
        assert(less.push(s.last()) =~= s);
    } else {
        assert(s =~= Seq::<Sample>::empty());
    }
}

proof fn lemma_filter_none(s: Seq<Sample>, p: spec_fn(Sample) -> bool)
    requires
        forall|i: int| 0 <= i < s.len() ==> !p(#[trigger] s[i]),
    ensures
        s.filter(p).len() == 0,
{
    lemma_filter_from(s, p);
    if s.filter(p).len() > 0 {
        broadcast use vstd::seq_lib::group_filter_ensures;

        let x = s.filter(p)[0];
        assert(p(x));
        assert(s.contains(x));
    }
}

proof fn lemma_filter_push(s: Seq<Sample>, x: Sample, p: spec_fn(Sample) -> bool)
    ensures
        s.push(x).filter(p) == if p(x) {
            s.filter(p).push(x)
        } else {
            s.filter(p)
        },
{
    reveal(Seq::filter);
    assert(s.push(x).drop_last() =~= s);
}

/// What a filter leaves.
proof fn lemma_filter_has(s: Seq<Sample>, p: spec_fn(Sample) -> bool, x: Sample)
    ensures
        s.filter(p).contains(x) <==> s.contains(x) && p(x),
{
    broadcast use vstd::seq_lib::group_filter_ensures;

    lemma_filter_from(s, p);
    if s.filter(p).contains(x) {
        let k = choose|k: int| 0 <= k < s.filter(p).len() && s.filter(p)[k] == x;
        assert(s.contains(s.filter(p)[k]));
        assert(p(s.filter(p)[k]));
    }
    if s.contains(x) && p(x) {
        let k = choose|k: int| 0 <= k < s.len() && s[k] == x;
        assert(s.filter(p).contains(s[k]));
    }
}

/// The value at a timestamp is that of the one sample there.
proof fn lemma_value_at(s: Seq<Sample>, ts: Timestamp, v: u64)
    requires
        is_strictly_sorted(s),
    ensures
        value_at(s, ts) == Some(v) <==> s.contains(Sample { timestamp: ts, value: v }),
{
    lemma_sample_at(s, ts);
    let x = Sample { timestamp: ts, value: v };
    match sample_at(s, ts) {
        Some(y) => {
            let j = choose|j: int| 0 <= j < s.len() && s[j] == y;
            if s.contains(x) {
                let i = choose|i: int| 0 <= i < s.len() && s[i] == x;
                assert(i == j) by {
                    if i < j {
                        assert(s[i].timestamp < s[j].timestamp);
                    } else if j < i {
                        assert(s[j].timestamp < s[i].timestamp);
                    }
                }
            } else if y.value == v {
                assert(y == x);
            }
        },
        None => {
            if s.contains(x) {
                let i = choose|i: int| 0 <= i < s.len() && s[i] == x;
                assert(s[i].timestamp != ts);
            }
        },
    }
}

/// Two runs in order with the same samples are the same.
proof fn lemma_same_samples(a: Seq<Sample>, b: Seq<Sample>)
    requires
        is_strictly_sorted(a),
        is_strictly_sorted(b),
        forall|x: Sample| #[trigger] a.contains(x) <==> b.contains(x),
    ensures
        a == b,
{
    let less = |x: Sample, y: Sample| x.timestamp < y.timestamp;
    assert forall|i: int, j: int| 0 <= i < j < a.len() implies less(
        #[trigger] a[i],
        #[trigger] a[j],
    ) by {}
    assert forall|i: int, j: int| 0 <= i < j < b.len() implies less(
        #[trigger] b[i],
        #[trigger] b[j],
    ) by {}
    lemma_ascending_unique(a, b, less);
}

/// Two runs that agree on the samples of a bucket have the same ones in it.
proof fn lemma_same_bucket<A: Aggregation>(
    rule: CompactionRule<A>,
    a: Seq<Sample>,
    b: Seq<Sample>,
    bucket: Timestamp,
)
    requires
        is_strictly_sorted(a),
        is_strictly_sorted(b),
        forall|x: Sample|
            rule.start_of(x.timestamp) == bucket ==> (#[trigger] a.contains(x) <==> b.contains(x)),
    ensures
        in_bucket(rule, a, bucket) == in_bucket(rule, b, bucket),
{
    let p = falls_in(rule.align_timestamp, rule.bucket_duration, bucket);
    lemma_filter_strict(a, p);
    lemma_filter_strict(b, p);
    assert forall|x: Sample| #[trigger] a.filter(p).contains(x) <==> b.filter(p).contains(x) by {
        lemma_filter_has(a, p, x);
        lemma_filter_has(b, p, x);
    }
    lemma_same_samples(a.filter(p), b.filter(p));
}

/// Which timestamps fall in a bucket.
proof fn lemma_span<A: Aggregation>(rule: CompactionRule<A>, bucket: Timestamp, ts: Timestamp)
    requires
        rule.wf(),
        is_start(rule, bucket),
        is_regular(rule, ts),
    ensures
        rule.start_of(ts) == bucket <==> bucket <= ts < bucket + rule.bucket_duration,
        ts < i64::MAX ==> (rule.start_of(ts) == bucket <==> bucket <= ts <= just_before(
            rule.end_of(bucket),
        )),
{
    let d = rule.bucket_duration as int;
    let al = rule.align_timestamp as int;
    vstd::arithmetic::div_mod::lemma_fundamental_div_mod(ts - al, d);
    vstd::arithmetic::div_mod::lemma_mod_bound(ts - al, d);
    vstd::arithmetic::div_mod::lemma_fundamental_div_mod(bucket - al, d);
    vstd::arithmetic::div_mod::lemma_mod_bound(bucket - al, d);
    let q = (bucket - al) / d;
    assert((bucket - al) % d == 0);
    if bucket <= ts < bucket + d {
        assert(ts - al == q * d + (ts - bucket)) by (nonlinear_arith)
            requires
                bucket - al == d * q,
        ;
        vstd::arithmetic::div_mod::lemma_fundamental_div_mod_converse(ts - al, d, q, ts - bucket);
    }
}

/// The bucket of a timestamp that is not cut off starts where one does.
proof fn lemma_start<A: Aggregation>(rule: CompactionRule<A>, ts: Timestamp)
    requires
        rule.wf(),
        is_regular(rule, ts),
    ensures
        is_start(rule, rule.start_of(ts)),
        0 <= rule.start_of(ts) <= ts,
{
    let d = rule.bucket_duration as int;
    let al = rule.align_timestamp as int;
    let m = (ts - al) % d;
    let start = ts - m;
    law_buckets(rule, ts, ts);
    vstd::arithmetic::div_mod::lemma_fundamental_div_mod(ts - al, d);
    vstd::arithmetic::div_mod::lemma_mod_bound(ts - al, d);
    let q = (ts - al) / d;
    assert(start - al == q * d + 0) by (nonlinear_arith)
        requires
            ts - al == d * q + m,
            start == ts - m,
    ;
    vstd::arithmetic::div_mod::lemma_fundamental_div_mod_converse(start - al, d, q, 0);
}

/// What is read of a source for a bucket is what falls in it.
proof fn lemma_readable<A: Aggregation>(
    rule: CompactionRule<A>,
    s: Seq<Sample>,
    bucket: Timestamp,
    floor: Timestamp,
    excluded: Option<(Timestamp, Timestamp)>,
)
    requires
        rule.wf(),
        is_start(rule, bucket),
        is_whole(rule, s, floor),
        forall|i: int| 0 <= i < s.len() ==> !left_out(excluded, (#[trigger] s[i]).timestamp),
    ensures
        readable(s, bucket, just_before(rule.end_of(bucket)), floor, excluded) == in_bucket(
            rule,
            s,
            bucket,
        ),
{
    let from = if bucket < floor {
        floor
    } else {
        bucket
    };
    let end = just_before(rule.end_of(bucket));
    let p = |x: Sample| from <= x.timestamp <= end;
    let q = falls_in(rule.align_timestamp, rule.bucket_duration, bucket);
    let keep = |x: Sample| !left_out(excluded, x.timestamp);
    assert forall|i: int| 0 <= i < s.len() implies p(#[trigger] s[i]) == q(s[i]) by {
        lemma_span(rule, bucket, s[i].timestamp);
    }
    lemma_filter_same(s, p, q);
    let found = s.filter(p);
    assert forall|i: int| 0 <= i < found.len() implies keep(#[trigger] found[i]) by {
        lemma_filter_from(s, p);
        assert(s.contains(found[i]));
        let k = choose|k: int| 0 <= k < s.len() && s[k] == found[i];
        assert(!left_out(excluded, s[k].timestamp));
    }
    lemma_filter_all(found, keep);
}

/// A bucket with a value has a sample, so it is not cut off.
proof fn lemma_aggregate_start<A: Aggregation>(
    rule: CompactionRule<A>,
    clean: A,
    kept: spec_fn(u64) -> u64,
    s: Seq<Sample>,
    floor: Timestamp,
    ts: Timestamp,
)
    requires
        rule.wf(),
        is_whole(rule, s, floor),
        aggregate_at(rule, clean, kept, s, ts) is Some,
    ensures
        is_start(rule, ts),
        ts < i64::MAX,
{
    let p = falls_in(rule.align_timestamp, rule.bucket_duration, ts);
    let b = s.filter(p);
    assert(b.len() > 0);
    lemma_filter_has(s, p, b[0]);
    assert(b.contains(b[0]));
    let k = choose|k: int| 0 <= k < s.len() && s[k] == b[0];
    lemma_start(rule, s[k].timestamp);
}

/// What a faithful destination holds is at starts of buckets.
proof fn lemma_faithful_starts<A: Aggregation>(
    f: Flow<A>,
    clean: A,
    kept: spec_fn(u64) -> u64,
    s: Seq<Sample>,
    floor: Timestamp,
)
    requires
        is_faithful(f, clean, kept, s),
        is_whole(f.rule, s, floor),
    ensures
        is_on_starts(f.rule, f.dest),
{
    assert forall|ts: Timestamp| #[trigger] value_at(f.dest, ts) is Some implies is_start(
        f.rule,
        ts,
    ) && ts < i64::MAX by {
        if s.len() == 0 {
            lemma_sample_at(f.dest, ts);
        } else {
            lemma_aggregate_start(f.rule, clean, kept, s, floor, ts);
        }
    }
}

/// A destination without some buckets.
proof fn lemma_cut<A: Aggregation>(f: Flow<A>, start: Timestamp, end: Timestamp)
    requires
        is_strictly_sorted(f.dest),
    ensures
        cut(f, start, end).rule == f.rule,
        is_strictly_sorted(cut(f, start, end).dest),
        forall|ts: Timestamp| #[trigger]
            value_at(cut(f, start, end).dest, ts) == if start <= ts <= end {
                None
            } else {
                value_at(f.dest, ts)
            },
{
    let p = |x: Sample| !(start <= x.timestamp <= end);
    let t = cut(f, start, end).dest;
    lemma_filter_strict(f.dest, p);
    assert forall|ts: Timestamp| #[trigger]
        value_at(t, ts) == if start <= ts <= end {
            None
        } else {
            value_at(f.dest, ts)
        } by {
        match value_at(t, ts) {
            Some(v) => {
                lemma_value_at(t, ts, v);
                lemma_filter_has(f.dest, p, Sample { timestamp: ts, value: v });
                lemma_value_at(f.dest, ts, v);
            },
            None => {
                match value_at(f.dest, ts) {
                    Some(v) => {
                        lemma_value_at(t, ts, v);
                        lemma_filter_has(f.dest, p, Sample { timestamp: ts, value: v });
                        lemma_value_at(f.dest, ts, v);
                    },
                    None => {},
                }
            },
        }
    }
}

/// A destination without one bucket.
proof fn lemma_cut_bucket<A: Aggregation>(f: Flow<A>, bucket: Timestamp)
    requires
        f.rule.wf(),
        is_start(f.rule, bucket),
        is_on_starts(f.rule, f.dest),
    ensures
        ({
            let g = cut(f, bucket, just_before(f.rule.end_of(bucket)));
            &&& g.rule == f.rule
            &&& is_on_starts(f.rule, g.dest)
            &&& forall|ts: Timestamp| #[trigger]
                value_at(g.dest, ts) == if ts == bucket {
                    None
                } else {
                    value_at(f.dest, ts)
                }
        }),
{
    let last = just_before(f.rule.end_of(bucket));
    lemma_cut(f, bucket, last);
    let g = cut(f, bucket, last);
    assert forall|ts: Timestamp| #[trigger]
        value_at(g.dest, ts) == if ts == bucket {
            None
        } else {
            value_at(f.dest, ts)
        } by {
        if value_at(f.dest, ts) is Some {
            lemma_span(f.rule, bucket, ts);
            lemma_span(f.rule, bucket, bucket);
        }
    }
}

/// A destination with the value of one bucket stored.
proof fn lemma_put<A: Aggregation>(
    f: Flow<A>,
    store: Store,
    kept: spec_fn(u64) -> u64,
    bucket: Timestamp,
    v: u64,
)
    requires
        f.rule.start_of(bucket) == bucket,
        is_strictly_sorted(f.dest),
        is_exact(store, kept),
        !is_nan(kept(v)),
    ensures
        ({
            let g = put(f, store, bucket, v).0;
            &&& g.rule == f.rule
            &&& is_strictly_sorted(g.dest)
            &&& forall|ts: Timestamp| #[trigger]
                value_at(g.dest, ts) == if ts == bucket {
                    Some(kept(v))
                } else {
                    value_at(f.dest, ts)
                }
        }),
{
    assert(stores_exactly(store, kept, f.dest, bucket, v));
}

/// A destination with one bucket made anew.
proof fn lemma_remade<A: Aggregation>(
    f: Flow<A>,
    store: Store,
    clean: A,
    kept: spec_fn(u64) -> u64,
    s: Seq<Sample>,
    bucket: Timestamp,
    floor: Timestamp,
    excluded: Option<(Timestamp, Timestamp)>,
)
    requires
        f.rule.wf(),
        f.rule.aggregator.cleared() == clean,
        is_start(f.rule, bucket),
        is_on_starts(f.rule, f.dest),
        is_whole(f.rule, s, floor),
        forall|i: int| 0 <= i < s.len() ==> !left_out(excluded, (#[trigger] s[i]).timestamp),
        is_exact(store, kept),
        is_sound(clean, kept),
    ensures
        ({
            let g = remade(f, store, s, bucket, floor, excluded);
            &&& g.rule == f.rule
            &&& is_on_starts(f.rule, g.dest)
            &&& forall|ts: Timestamp| #[trigger]
                value_at(g.dest, ts) == if ts == bucket {
                    aggregate_at(f.rule, clean, kept, s, bucket)
                } else {
                    value_at(f.dest, ts)
                }
        }),
{
    lemma_readable(f.rule, s, bucket, floor, excluded);
    let b = in_bucket(f.rule, s, bucket);
    if fed_any(clean, b) {
        lemma_aggregate_start(f.rule, clean, kept, s, floor, bucket);
        lemma_put(f, store, kept, bucket, fed(clean, b).result());
    } else {
        lemma_cut_bucket(f, bucket);
    }
}

/// The open bucket, read again from its source.
proof fn lemma_reread<A: Aggregation>(
    f: Flow<A>,
    clean: A,
    s: Seq<Sample>,
    open: Timestamp,
    floor: Timestamp,
)
    requires
        f.rule.wf(),
        f.rule.aggregator.cleared() == clean,
        is_start(f.rule, open),
        is_whole(f.rule, s, floor),
    ensures
        ({
            let g = reread(f, s, open, floor);
            &&& g.dest == f.dest
            &&& g.rule.same_terms(f.rule)
            &&& g.rule.bucket_start == Some(open)
            &&& g.rule.aggregator == fed(clean, in_bucket(f.rule, s, open))
            &&& g.rule.has_samples == fed_any(clean, in_bucket(f.rule, s, open))
        }),
{
    lemma_readable(f.rule, s, open, floor, None);
}

/// A sample behind all others leaves the destination with the aggregates of the closed buckets.
pub proof fn law_new_sample_aggregated<A: Aggregation>(
    f: Flow<A>,
    store: Store,
    source: Source,
    clean: A,
    kept: spec_fn(u64) -> u64,
    s: Seq<Sample>,
    sample: Sample,
)
    requires
        is_faithful(f, clean, kept, s),
        is_strictly_sorted(s.push(sample)),
        is_exact(store, kept),
        is_sound(clean, kept),
    ensures
        is_faithful(streamed(f, store, source, sample), clean, kept, s.push(sample)),
{
    let t = s.push(sample);
    let g = streamed(f, store, source, sample);
    let start = f.rule.start_of(sample.timestamp);
    law_buckets(f.rule, sample.timestamp, sample.timestamp);
    let added = falls_in(f.rule.align_timestamp, f.rule.bucket_duration, start);
    lemma_filter_push(s, sample, added);
    assert(t.last() == sample);
    assert(in_bucket(f.rule, t, start) == in_bucket(f.rule, s, start).push(sample));
    let before = in_bucket(f.rule, s, start);
    assert(before.push(sample).drop_last() =~= before);
    assert(before.push(sample).last() == sample);
    assert(fed(clean, before.push(sample)) == fed(clean, before).after(sample));
    assert(fed_any(clean, before.push(sample)) == (fed_any(clean, before) || fed(
        clean,
        before,
    ).takes(sample)));
    assert(in_bucket(g.rule, t, start) == before.push(sample));
    assert forall|ts: Timestamp| ts != start implies #[trigger] aggregate_at(
        f.rule,
        clean,
        kept,
        t,
        ts,
    ) == aggregate_at(f.rule, clean, kept, s, ts) by {
        lemma_filter_push(s, sample, falls_in(f.rule.align_timestamp, f.rule.bucket_duration, ts));
    }
    if s.len() == 0 {
        lemma_filter_none(s, added);
        assert(before =~= Seq::<Sample>::empty());
        assert forall|ts: Timestamp| #[trigger] value_at(g.dest, ts) == if ts < start {
            aggregate_at(g.rule, clean, kept, t, ts)
        } else {
            None
        } by {
            lemma_sample_at(f.dest, ts);
            lemma_filter_none(s, falls_in(f.rule.align_timestamp, f.rule.bucket_duration, ts));
            assert(aggregate_at(g.rule, clean, kept, t, ts) == aggregate_at(
                f.rule,
                clean,
                kept,
                t,
                ts,
            ));
            if ts < start {
                assert(aggregate_at(f.rule, clean, kept, t, ts) == aggregate_at(
                    f.rule,
                    clean,
                    kept,
                    s,
                    ts,
                ));
            }
        }
    } else {
        let last = s.last();
        let open = f.rule.start_of(last.timestamp);
        assert(t[s.len() - 1].timestamp < t[s.len() as int].timestamp);
        law_buckets(f.rule, last.timestamp, sample.timestamp);
        if start == open {
            assert forall|ts: Timestamp| #[trigger] value_at(g.dest, ts) == if ts < start {
                aggregate_at(g.rule, clean, kept, t, ts)
            } else {
                None
            } by {
                assert(aggregate_at(g.rule, clean, kept, t, ts) == aggregate_at(
                    f.rule,
                    clean,
                    kept,
                    t,
                    ts,
                ));
            }
        } else {
            assert forall|i: int| 0 <= i < s.len() implies !added(#[trigger] s[i]) by {
                assert(t[i] == s[i]);
                assert(t[i].timestamp <= t[s.len() - 1].timestamp);
                law_buckets(f.rule, s[i].timestamp, last.timestamp);
            }
            lemma_filter_none(s, added);
            assert(before =~= Seq::<Sample>::empty());
            let b = in_bucket(f.rule, s, open);
            assert(f.rule.aggregator == fed(clean, b));
            assert(f.rule.aggregator.cleared() == clean);
            law_buckets(f.rule, open, open);
            if f.rule.has_samples {
                lemma_put(f, store, kept, open, fed(clean, b).result());
            }
            assert forall|ts: Timestamp| #[trigger] value_at(g.dest, ts) == if ts < start {
                aggregate_at(g.rule, clean, kept, t, ts)
            } else {
                None
            } by {
                assert(aggregate_at(g.rule, clean, kept, t, ts) == aggregate_at(
                    f.rule,
                    clean,
                    kept,
                    t,
                    ts,
                ));
                if open < ts < start {
                    let p = falls_in(f.rule.align_timestamp, f.rule.bucket_duration, ts);
                    assert forall|i: int| 0 <= i < s.len() implies !p(#[trigger] s[i]) by {
                        assert(t[i] == s[i]);
                        assert(t[i].timestamp <= t[s.len() - 1].timestamp);
                        law_buckets(f.rule, s[i].timestamp, last.timestamp);
                    }
                    lemma_filter_none(s, p);
                }
            }
        }
    }
}

/// A sample among the others leaves the destination with the aggregates of the closed buckets.
pub proof fn law_upsert_aggregated<A: Aggregation>(
    f: Flow<A>,
    store: Store,
    source: Source,
    clean: A,
    kept: spec_fn(u64) -> u64,
    s: Seq<Sample>,
    sample: Sample,
)
    requires
        is_faithful(f, clean, kept, s),
        is_whole(f.rule, s, source.floor()),
        is_whole(f.rule, source.samples, source.floor()),
        s.len() > 0,
        source.samples.len() > 0,
        source.samples.last().timestamp == s.last().timestamp,
        is_regular(f.rule, sample.timestamp),
        sample.timestamp <= s.last().timestamp,
        forall|x: Sample|
            x.timestamp != sample.timestamp ==> (#[trigger] s.contains(x)
                <==> source.samples.contains(x)),
        is_exact(store, kept),
        is_sound(clean, kept),
    ensures
        is_faithful(replaced(f, store, source, sample), clean, kept, source.samples),
{
    let t = source.samples;
    let floor = source.floor();
    let g = replaced(f, store, source, sample);
    let start = f.rule.start_of(sample.timestamp);
    let last = s.last();
    let open = f.rule.start_of(last.timestamp);
    lemma_faithful_starts(f, clean, kept, s, floor);
    lemma_start(f.rule, sample.timestamp);
    lemma_start(f.rule, s[s.len() - 1].timestamp);
    law_buckets(f.rule, sample.timestamp, last.timestamp);
    assert forall|b: Timestamp| b != start implies #[trigger] in_bucket(f.rule, s, b) == in_bucket(
        f.rule,
        t,
        b,
    ) by {
        lemma_same_bucket(f.rule, s, t, b);
    }
    assert(f.rule.aggregator == fed(clean, in_bucket(f.rule, s, open)));
    if start == open {
        lemma_reread(f, clean, t, open, floor);
    } else {
        lemma_remade(f, store, clean, kept, t, start, floor, None);
    }
    assert forall|ts: Timestamp| #[trigger] value_at(g.dest, ts) == if ts < open {
        aggregate_at(g.rule, clean, kept, t, ts)
    } else {
        None
    } by {
        assert(aggregate_at(g.rule, clean, kept, t, ts) == aggregate_at(f.rule, clean, kept, t, ts));
        if ts != start {
            assert(in_bucket(f.rule, s, ts) == in_bucket(f.rule, t, ts));
        }
    }
}

/// A destination with one bucket brought up to date after a removal.
proof fn lemma_shrunk<A: Aggregation>(
    f: Flow<A>,
    store: Store,
    source: Source,
    clean: A,
    kept: spec_fn(u64) -> u64,
    bucket: Timestamp,
    start: Timestamp,
    end: Timestamp,
)
    requires
        f.rule.wf(),
        f.rule.aggregator.cleared() == clean,
        is_start(f.rule, bucket),
        is_on_starts(f.rule, f.dest),
        is_whole(f.rule, source.samples, source.floor()),
        forall|i: int|
            0 <= i < source.samples.len() ==> !(start <= (#[trigger] source.samples[i]).timestamp
                <= end),
        is_exact(store, kept),
        is_sound(clean, kept),
    ensures
        ({
            let g = shrunk(f, store, source, bucket, start, end);
            &&& g.rule == f.rule
            &&& is_on_starts(f.rule, g.dest)
            &&& forall|ts: Timestamp| #[trigger]
                value_at(g.dest, ts) == if ts == bucket && f.rule.bucket_start != Some(bucket) {
                    aggregate_at(f.rule, clean, kept, source.samples, bucket)
                } else {
                    value_at(f.dest, ts)
                }
        }),
{
    let s = source.samples;
    let bucket_end = f.rule.end_of(bucket);
    if f.rule.bucket_start == Some(bucket) {
    } else if start <= bucket && end >= bucket_end {
        let p = falls_in(f.rule.align_timestamp, f.rule.bucket_duration, bucket);
        assert forall|i: int| 0 <= i < s.len() implies !p(#[trigger] s[i]) by {
            lemma_span(f.rule, bucket, s[i].timestamp);
        }
        lemma_filter_none(s, p);
        if f.dest.len() > 0 {
            lemma_cut_bucket(f, bucket);
        } else {
            assert forall|ts: Timestamp| #[trigger] value_at(f.dest, ts) is None by {
                lemma_sample_at(f.dest, ts);
            }
        }
    } else {
        lemma_remade(f, store, clean, kept, s, bucket, source.floor(), Some((start, end)));
    }
}

/// Buckets between two others, and what a removal leaves of them.
proof fn lemma_apart<A: Aggregation>(
    rule: CompactionRule<A>,
    s: Seq<Sample>,
    floor: Timestamp,
    start: Timestamp,
    end: Timestamp,
    bucket: Timestamp,
)
    requires
        rule.wf(),
        is_whole(rule, s, floor),
        start <= end,
        is_regular(
            rule,
            if start < 0 {
                0
            } else {
                start
            },
        ),
        is_start(rule, bucket),
        bucket != rule.start_of(start),
        bucket != rule.start_of(end),
    ensures
        rule.start_of(start) < bucket < rule.start_of(end) ==> in_bucket(
            rule,
            outside(s, start, end),
            bucket,
        ).len() == 0 && rule.end_of(rule.start_of(start)) <= bucket,
        !(rule.start_of(start) < bucket < rule.start_of(end)) ==> in_bucket(
            rule,
            outside(s, start, end),
            bucket,
        ) == in_bucket(rule, s, bucket),
{
    let t = outside(s, start, end);
    let out = |x: Sample| !(start <= x.timestamp <= end);
    let p = falls_in(rule.align_timestamp, rule.bucket_duration, bucket);
    lemma_filter_strict(s, out);
    lemma_removal_starts(rule, start, end);
    let first = rule.start_of(start);
    let last = rule.start_of(end);
    let from: Timestamp = if start < 0 {
        0
    } else {
        start
    };
    let to: Timestamp = if end < 0 {
        0
    } else {
        end
    };
    lemma_span(rule, first, from);
    lemma_span(rule, last, to);
    lemma_span(rule, first, bucket);
    lemma_span(rule, last, bucket);
    if first < bucket < last {
        lemma_span(rule, bucket, last);
        assert forall|i: int| 0 <= i < t.len() implies !p(#[trigger] t[i]) by {
            lemma_filter_has(s, out, t[i]);
            assert(t.contains(t[i]));
            let k = choose|k: int| 0 <= k < s.len() && s[k] == t[i];
            lemma_span(rule, bucket, s[k].timestamp);
        }
        lemma_filter_none(t, p);
    } else {
        if bucket < first {
            lemma_span(rule, bucket, first);
        }
        assert forall|x: Sample| rule.start_of(x.timestamp) == bucket implies (
        #[trigger] s.contains(x) <==> t.contains(x)) by {
            lemma_filter_has(s, out, x);
            if s.contains(x) {
                let k = choose|k: int| 0 <= k < s.len() && s[k] == x;
                lemma_span(rule, bucket, s[k].timestamp);
            }
        }
        lemma_same_bucket(rule, s, t, bucket);
    }
}

/// Where the first and the last bucket of a removal start.
proof fn lemma_removal_starts<A: Aggregation>(
    rule: CompactionRule<A>,
    start: Timestamp,
    end: Timestamp,
)
    requires
        rule.wf(),
        start <= end,
        is_regular(
            rule,
            if start < 0 {
                0
            } else {
                start
            },
        ),
    ensures
        is_start(rule, rule.start_of(start)),
        is_start(rule, rule.start_of(end)),
        rule.start_of(start) <= rule.start_of(end),
        is_regular(
            rule,
            if end < 0 {
                0
            } else {
                end
            },
        ),
        start < 0 ==> rule.start_of(0) == rule.start_of(start),
        end < 0 ==> rule.start_of(0) == rule.start_of(end),
{
    let al = rule.align_timestamp as int;
    let d = rule.bucket_duration as int;
    let from: Timestamp = if start < 0 {
        0
    } else {
        start
    };
    let to: Timestamp = if end < 0 {
        0
    } else {
        end
    };
    crate::series::laws::lemma_bucket(start as int, al, d);
    crate::series::laws::lemma_bucket(end as int, al, d);
    crate::series::laws::lemma_bucket(0, al, d);
    law_buckets(rule, start, end);
    vstd::arithmetic::div_mod::lemma_fundamental_div_mod(from - al, d);
    vstd::arithmetic::div_mod::lemma_fundamental_div_mod(to - al, d);
    vstd::arithmetic::div_mod::lemma_mod_bound(from - al, d);
    vstd::arithmetic::div_mod::lemma_mod_bound(to - al, d);
    vstd::arithmetic::div_mod::lemma_div_is_ordered(from - al, to - al, d);
    let qa = (from - al) / d;
    let qb = (to - al) / d;
    assert(d * qa <= d * qb) by (nonlinear_arith)
        requires
            d > 0,
            qa <= qb,
    ;
    lemma_start(rule, from);
    lemma_start(rule, to);
}

/// Finding the open bucket again settles a destination whose closed buckets are right.
proof fn lemma_resynced<A: Aggregation>(
    f: Flow<A>,
    source: Source,
    clean: A,
    kept: spec_fn(u64) -> u64,
)
    requires
        f.rule.wf(),
        f.rule.aggregator.cleared() == clean,
        is_on_starts(f.rule, f.dest),
        is_whole(f.rule, source.samples, source.floor()),
        source.samples.len() > 0 ==> forall|ts: Timestamp|
            ts < f.rule.start_of(source.samples.last().timestamp) ==> #[trigger] value_at(
                f.dest,
                ts,
            ) == aggregate_at(f.rule, clean, kept, source.samples, ts),
    ensures
        is_faithful(resynced(f, source), clean, kept, source.samples),
{
    let s = source.samples;
    let g = resynced(f, source);
    if s.len() == 0 {
        let h = Flow { rule: f.rule.idle(), ..f };
        if h.dest.len() > 0 {
            lemma_cut(h, i64::MIN, i64::MAX);
            if g.dest.len() > 0 {
                lemma_value_at(g.dest, g.dest[0].timestamp, g.dest[0].value);
                assert(g.dest.contains(g.dest[0]));
            }
        }
    } else {
        assert(s[s.len() - 1] == s.last());
        lemma_start(f.rule, s.last().timestamp);
        let open = f.rule.start_of(s.last().timestamp);
        let h = if f.dest.len() > 0 {
            lemma_cut(f, open, i64::MAX);
            cut(f, open, i64::MAX)
        } else {
            assert forall|ts: Timestamp| #[trigger] value_at(f.dest, ts) is None by {
                lemma_sample_at(f.dest, ts);
            }
            f
        };
        lemma_reread(h, clean, s, open, source.floor());
        assert forall|ts: Timestamp| #[trigger] value_at(g.dest, ts) == if ts < open {
            aggregate_at(g.rule, clean, kept, s, ts)
        } else {
            None
        } by {
            assert(aggregate_at(g.rule, clean, kept, s, ts) == aggregate_at(
                f.rule,
                clean,
                kept,
                s,
                ts,
            ));
        }
    }
}

/// A removal leaves the destination with the aggregates of what is left in the closed buckets.
pub proof fn law_removal_aggregated<A: Aggregation>(
    f: Flow<A>,
    store: Store,
    source: Source,
    clean: A,
    kept: spec_fn(u64) -> u64,
    s: Seq<Sample>,
    start: Timestamp,
    end: Timestamp,
)
    requires
        is_faithful(f, clean, kept, s),
        is_whole(f.rule, s, source.floor()),
        start <= end,
        is_regular(
            f.rule,
            if start < 0 {
                0
            } else {
                start
            },
        ),
        source.samples == outside(s, start, end),
        is_exact(store, kept),
        is_sound(clean, kept),
    ensures
        is_faithful(removed(f, store, source, start, end), clean, kept, source.samples),
{
    let t = source.samples;
    let floor = source.floor();
    let out = |x: Sample| !(start <= x.timestamp <= end);
    lemma_filter_strict(s, out);
    assert forall|i: int| 0 <= i < t.len() implies is_regular(f.rule, (#[trigger] t[i]).timestamp)
        && floor <= t[i].timestamp < i64::MAX && !(start <= t[i].timestamp <= end) && s.len() > 0
        && t[i].timestamp <= s.last().timestamp by {
        lemma_filter_has(s, out, t[i]);
        assert(t.contains(t[i]));
        let k = choose|k: int| 0 <= k < s.len() && s[k] == t[i];
        assert(s[k].timestamp <= s[s.len() - 1].timestamp);
    }
    assert(is_whole(f.rule, t, floor));
    lemma_faithful_starts(f, clean, kept, s, floor);
    lemma_removal_starts(f.rule, start, end);
    let first = f.rule.start_of(start);
    let last = f.rule.start_of(end);
    assert(f.rule.aggregator.cleared() == clean);
    lemma_shrunk(f, store, source, clean, kept, first, start, end);
    let g = shrunk(f, store, source, first, start, end);
    let middle = f.rule.end_of(first);
    let k = if last != first && middle < last && g.dest.len() > 0 {
        lemma_cut(g, middle, just_before(last));
        cut(g, middle, just_before(last))
    } else {
        g
    };
    assert(is_on_starts(f.rule, k.dest));
    if last != first {
        lemma_shrunk(k, store, source, clean, kept, last, start, end);
    }
    let h = if last != first {
        shrunk(k, store, source, last, start, end)
    } else {
        g
    };
    if t.len() > 0 {
        let open = f.rule.start_of(s.last().timestamp);
        assert(t[t.len() - 1].timestamp <= s.last().timestamp);
        law_buckets(f.rule, t.last().timestamp, s.last().timestamp);
        assert forall|ts: Timestamp| ts < f.rule.start_of(t.last().timestamp) implies #[trigger] value_at(
            h.dest,
            ts,
        ) == aggregate_at(f.rule, clean, kept, t, ts) by {
            if is_start(f.rule, ts) {
                if ts != first && ts != last {
                    lemma_apart(f.rule, s, floor, start, end, ts);
                    lemma_span(f.rule, first, ts);
                    if first < ts < last {
                        if g.dest.len() == 0 {
                            lemma_sample_at(g.dest, ts);
                        }
                    }
                }
            } else {
                if aggregate_at(f.rule, clean, kept, t, ts) is Some {
                    lemma_aggregate_start(f.rule, clean, kept, t, floor, ts);
                }
            }
        }
    }
    lemma_resynced(h, source, clean, kept);
}

/// Samples behind all others, one after the other.
proof fn lemma_stream_aggregated<A: Aggregation>(
    f: Flow<A>,
    store: Store,
    source: Source,
    clean: A,
    kept: spec_fn(u64) -> u64,
    s: Seq<Sample>,
    appends: Seq<Sample>,
)
    requires
        is_faithful(f, clean, kept, s),
        is_strictly_sorted(s + appends),
        is_exact(store, kept),
        is_sound(clean, kept),
    ensures
        is_faithful(stream_all(f, store, source, appends), clean, kept, s + appends),
        stream_all(f, store, source, appends).rule.same_terms(f.rule),
    decreases appends.len(),
{
    if appends.len() == 0 {
        assert(s + appends =~= s);
    } else {
        let less = appends.drop_last();
        let all = s + appends;
        assert(s + less =~= all.drop_last());
        assert(is_strictly_sorted(s + less)) by {
            assert forall|i: int, j: int| 0 <= i < j < (s + less).len() implies (s
                + less)[i].timestamp < (s + less)[j].timestamp by {
                assert(all[i].timestamp < all[j].timestamp);
            }
        }
        lemma_stream_aggregated(f, store, source, clean, kept, s, less);
        assert((s + less).push(appends.last()) =~= all);
        law_new_sample_aggregated(
            stream_all(f, store, source, less),
            store,
            source,
            clean,
            kept,
            s + less,
            appends.last(),
        );
    }
}

/// Whether one of a run of samples falls in a bucket.
spec fn is_touched<A: Aggregation>(
    rule: CompactionRule<A>,
    s: Seq<Sample>,
    bucket: Timestamp,
) -> bool {
    exists|i: int| 0 <= i < s.len() && rule.start_of((#[trigger] s[i]).timestamp) == bucket
}

/// The samples that a bucket stands for while buckets are made anew: the new ones if it was its
/// turn, and those from before if not.
spec fn standing<A: Aggregation>(
    rule: CompactionRule<A>,
    before: Seq<Sample>,
    after: Seq<Sample>,
    done: Seq<Sample>,
    bucket: Timestamp,
) -> Seq<Sample> {
    if is_touched(rule, done, bucket) {
        after
    } else {
        before
    }
}

/// A compaction some of whose buckets were made anew.
spec fn is_midway<A: Aggregation>(
    f: Flow<A>,
    clean: A,
    kept: spec_fn(u64) -> u64,
    before: Seq<Sample>,
    after: Seq<Sample>,
    done: Seq<Sample>,
    open: Timestamp,
) -> bool {
    &&& f.rule.wf()
    &&& is_on_starts(f.rule, f.dest)
    &&& f.rule.bucket_start == Some(open)
    &&& f.rule.aggregator == fed(
        clean,
        in_bucket(f.rule, standing(f.rule, before, after, done, open), open),
    )
    &&& f.rule.has_samples == fed_any(
        clean,
        in_bucket(f.rule, standing(f.rule, before, after, done, open), open),
    )
    &&& forall|ts: Timestamp| #[trigger]
        value_at(f.dest, ts) == if ts < open {
            aggregate_at(
                f.rule,
                clean,
                kept,
                standing(f.rule, before, after, done, ts),
                ts,
            )
        } else {
            None
        }
}

/// Whether a bucket had its turn, with one sample more.
proof fn lemma_touched<A: Aggregation>(
    rule: CompactionRule<A>,
    s: Seq<Sample>,
    bucket: Timestamp,
)
    requires
        s.len() > 0,
    ensures
        is_touched(rule, s, bucket) <==> is_touched(rule, s.drop_last(), bucket) || rule.start_of(
            s.last().timestamp,
        ) == bucket,
{
    let less = s.drop_last();
    if is_touched(rule, s, bucket) {
        let i = choose|i: int|
            0 <= i < s.len() && rule.start_of((#[trigger] s[i]).timestamp) == bucket;
        if i < less.len() {
            assert(less[i] == s[i]);
        }
    }
    if is_touched(rule, less, bucket) {
        let i = choose|i: int|
            0 <= i < less.len() && rule.start_of((#[trigger] less[i]).timestamp) == bucket;
        assert(s[i] == less[i]);
    }
    assert(s[s.len() - 1] == s.last());
}

/// Which bucket is touched depends on the terms of a rule alone.
proof fn lemma_touched_terms<A: Aggregation>(
    rule: CompactionRule<A>,
    other: CompactionRule<A>,
    s: Seq<Sample>,
    bucket: Timestamp,
)
    requires
        rule.same_terms(other),
    ensures
        is_touched(rule, s, bucket) == is_touched(other, s, bucket),
{
    if is_touched(rule, s, bucket) {
        let i = choose|i: int|
            0 <= i < s.len() && rule.start_of((#[trigger] s[i]).timestamp) == bucket;
        assert(other.start_of(s[i].timestamp) == bucket);
    }
    if is_touched(other, s, bucket) {
        let i = choose|i: int|
            0 <= i < s.len() && other.start_of((#[trigger] s[i]).timestamp) == bucket;
        assert(rule.start_of(s[i].timestamp) == bucket);
    }
}

/// The floor of a filling is not above that of the whole source.
proof fn lemma_fill_floor<A: Aggregation>(
    rule: CompactionRule<A>,
    source: Source,
    filled: Seq<(Timestamp, Timestamp)>,
    bucket: Timestamp,
)
    requires
        is_whole(rule, source.samples, source.floor()),
        source.samples.len() > 0,
        forall|i: int|
            0 <= i < filled.len() ==> (#[trigger] filled[i]).1 <= source.samples.last().timestamp,
    ensures
        is_whole(rule, source.samples, fill_floor(rule, source.retention, filled, bucket)),
    decreases filled.len(),
{
    if filled.len() > 0 {
        let less = filled.drop_last();
        assert(filled[filled.len() - 1] == filled.last());
        assert forall|i: int| 0 <= i < less.len() implies (#[trigger] less[i]).1
            <= source.samples.last().timestamp by {
            assert(less[i] == filled[i]);
        }
        lemma_fill_floor(rule, source, less, bucket);
    }
}

/// Buckets made anew one after the other.
proof fn lemma_refill_aggregated<A: Aggregation>(
    f: Flow<A>,
    store: Store,
    source: Source,
    clean: A,
    kept: spec_fn(u64) -> u64,
    filled: Seq<(Timestamp, Timestamp)>,
    before: Seq<Sample>,
    s: Seq<Sample>,
    open: Timestamp,
)
    requires
        is_midway(f, clean, kept, before, source.samples, Seq::empty(), open),
        is_start(f.rule, open),
        is_whole(f.rule, source.samples, source.floor()),
        source.samples.len() > 0,
        forall|i: int|
            0 <= i < filled.len() ==> (#[trigger] filled[i]).1 <= source.samples.last().timestamp,
        forall|i: int|
            0 <= i < s.len() ==> is_regular(f.rule, (#[trigger] s[i]).timestamp) && f.rule.start_of(
                s[i].timestamp,
            ) <= open,
        is_exact(store, kept),
        is_sound(clean, kept),
    ensures
        is_midway(
            refill_all(f, store, source, filled, s),
            clean,
            kept,
            before,
            source.samples,
            s,
            open,
        ),
        refill_all(f, store, source, filled, s).rule.same_terms(f.rule),
    decreases s.len(),
{
    let t = source.samples;
    if s.len() == 0 {
        assert(s =~= Seq::empty());
    } else {
        let less = s.drop_last();
        assert forall|i: int| 0 <= i < less.len() implies is_regular(
            f.rule,
            (#[trigger] less[i]).timestamp,
        ) && f.rule.start_of(less[i].timestamp) <= open by {
            assert(less[i] == s[i]);
        }
        lemma_refill_aggregated(f, store, source, clean, kept, filled, before, less, open);
        let g = refill_all(f, store, source, filled, less);
        let h = refill_all(f, store, source, filled, s);
        let bucket = f.rule.start_of(s[s.len() - 1].timestamp);
        lemma_start(f.rule, s[s.len() - 1].timestamp);
        assert(g.rule.start_of(s[s.len() - 1].timestamp) == bucket);
        assert(is_start(g.rule, bucket));
        assert(is_whole(g.rule, t, source.floor()));
        assert(g.rule.aggregator.cleared() == clean);
        if s.len() >= 2 && f.rule.start_of(s[s.len() - 2].timestamp) == bucket {
            assert(less[s.len() - 2] == s[s.len() - 2]);
            assert(g.rule.start_of(less[s.len() - 2].timestamp) == bucket);
            assert forall|b: Timestamp| #[trigger] is_touched(g.rule, s, b) == is_touched(
                g.rule,
                less,
                b,
            ) by {
                lemma_touched(g.rule, s, b);
            }
        } else {
            lemma_fill_floor(g.rule, source, filled, bucket);
            let floor = fill_floor(g.rule, source.retention, filled, bucket);
            if bucket == open {
                lemma_reread(g, clean, t, bucket, floor);
            } else {
                lemma_remade(g, store, clean, kept, t, bucket, floor, None);
            }
            assert forall|b: Timestamp| #[trigger] is_touched(h.rule, s, b) == (is_touched(
                g.rule,
                less,
                b,
            ) || b == bucket) by {
                lemma_touched(h.rule, s, b);
                lemma_touched_terms(h.rule, g.rule, less, b);
            }
            assert forall|ts: Timestamp| #[trigger] value_at(h.dest, ts) == if ts < open {
                aggregate_at(h.rule, clean, kept, standing(h.rule, before, t, s, ts), ts)
            } else {
                None
            } by {
                let at = standing(h.rule, before, t, s, ts);
                assert(is_touched(h.rule, s, ts) == (is_touched(g.rule, less, ts) || ts == bucket));
                assert(aggregate_at(h.rule, clean, kept, at, ts) == aggregate_at(
                    g.rule,
                    clean,
                    kept,
                    at,
                    ts,
                ));
            }
            assert(is_touched(h.rule, s, open) == (is_touched(g.rule, less, open) || open
                == bucket));
            assert(is_on_starts(h.rule, h.dest));
        }
    }
}

/// The parts of a batch: what advanced lies behind the samples from before, and what was filled
/// does not lie behind the last.
proof fn lemma_batch_parts(
    s: Seq<Sample>,
    samples: Seq<Sample>,
    order: Seq<Timestamp>,
    prev_last: Option<Timestamp>,
    appends: Seq<Sample>,
    upserts: Seq<Sample>,
)
    requires
        is_strictly_sorted(s),
        is_strictly_sorted(samples),
        prev_last == (match last_of(s) {
            Some(x) => Some(x.timestamp),
            None => None,
        }),
        forall|i: int| 0 <= i < samples.len() ==> order.contains((#[trigger] samples[i]).timestamp),
        forall|i: int|
            0 <= i < order.len() ==> exists|j: int|
                0 <= j < samples.len() && (#[trigger] samples[j]).timestamp == #[trigger] order[i],
        appends == samples.filter(
            |x: Sample| !is_filled(replay(prev_last, order).filled, x.timestamp),
        ),
        upserts == samples.filter(
            |x: Sample| is_filled(replay(prev_last, order).filled, x.timestamp),
        ),
    ensures
        is_strictly_sorted(s + appends),
        (s + appends).len() == 0 ==> samples.len() == 0,
        replay(prev_last, order).high == (match last_of(s + appends) {
            Some(x) => Some(x.timestamp),
            None => None,
        }),
        forall|i: int|
            0 <= i < upserts.len() ==> (s + appends).len() > 0 && (#[trigger] upserts[i]).timestamp
                <= (s + appends).last().timestamp,
        forall|i: int|
            0 <= i < replay(prev_last, order).filled.len() ==> (s + appends).len() > 0 && (
            #[trigger] replay(prev_last, order).filled[i]).1 <= (s + appends).last().timestamp,
        forall|x: Sample| #[trigger]
            samples.contains(x) <==> appends.contains(x) || upserts.contains(x),
        forall|i: int|
            0 <= i < appends.len() && s.len() > 0 ==> s.last().timestamp < (
            #[trigger] appends[i]).timestamp,
{
    let r = replay(prev_last, order);
    let filled = r.filled;
    let p = |x: Sample| !is_filled(filled, x.timestamp);
    let q = |x: Sample| is_filled(filled, x.timestamp);
    let all = s + appends;
    lemma_replay(prev_last, order);
    lemma_filter_strict(samples, p);
    assert forall|x: Sample| #[trigger] samples.contains(x) <==> appends.contains(x)
        || upserts.contains(x) by {
        lemma_filter_has(samples, p, x);
        lemma_filter_has(samples, q, x);
    }
    assert forall|i: int| 0 <= i < appends.len() implies r.advanced.contains(
        (#[trigger] appends[i]).timestamp,
    ) by {
        assert(appends.contains(appends[i]));
        lemma_filter_has(samples, p, appends[i]);
        let k = choose|k: int| 0 <= k < samples.len() && samples[k] == appends[i];
        assert(order.contains(samples[k].timestamp));
        let m = choose|m: int| 0 <= m < order.len() && order[m] == samples[k].timestamp;
        assert(r.advanced.contains(order[m]) || is_filled(filled, order[m]));
    }
    assert forall|i: int| 0 <= i < appends.len() && s.len() > 0 implies s.last().timestamp < (
    #[trigger] appends[i]).timestamp by {
        assert(r.advanced.contains(appends[i].timestamp));
        let k = choose|k: int|
            0 <= k < r.advanced.len() && r.advanced[k] == appends[i].timestamp;
        assert(order.contains(r.advanced[k]));
    }
    assert forall|i: int, j: int| 0 <= i < j < all.len() implies all[i].timestamp
        < all[j].timestamp by {
        if j < s.len() {
            assert(s[i].timestamp < s[j].timestamp);
        } else if i < s.len() {
            assert(s[i].timestamp <= s[s.len() - 1].timestamp);
            assert(appends[j - s.len()].timestamp > s.last().timestamp);
        } else {
            assert(appends[i - s.len()].timestamp < appends[j - s.len()].timestamp);
        }
    }
    if r.advanced.len() > 0 {
        let top = r.advanced.last();
        assert(r.advanced[r.advanced.len() - 1] == top);
        assert(order.contains(r.advanced[r.advanced.len() - 1]));
        let m = choose|m: int| 0 <= m < order.len() && order[m] == top;
        let j = choose|j: int|
            0 <= j < samples.len() && (#[trigger] samples[j]).timestamp == order[m];
        assert(!is_filled(filled, top)) by {
            if is_filled(filled, top) {
                let i = choose|i: int| 0 <= i < filled.len() && (#[trigger] filled[i]).0 == top;
                assert(!r.advanced.contains(filled[i].0));
            }
        }
        assert(p(samples[j]));
        lemma_filter_has(samples, p, samples[j]);
        assert(samples.contains(samples[j]));
        let n = choose|n: int| 0 <= n < appends.len() && appends[n] == samples[j];
        let t = appends[appends.len() - 1].timestamp;
        assert(r.advanced.contains(t));
        let k = choose|k: int| 0 <= k < r.advanced.len() && r.advanced[k] == t;
        if k < r.advanced.len() - 1 {
            assert(r.advanced[k] < r.advanced[r.advanced.len() - 1]);
        }
        if n < appends.len() - 1 {
            assert(appends[n].timestamp < appends[appends.len() - 1].timestamp);
        }
        assert(all.last() == appends.last());
    } else {
        if appends.len() > 0 {
            assert(r.advanced.contains(appends[0].timestamp));
        }
        assert(all =~= s);
    }
    assert forall|i: int| 0 <= i < upserts.len() implies all.len() > 0 && (
    #[trigger] upserts[i]).timestamp <= all.last().timestamp by {
        assert(upserts.contains(upserts[i]));
        lemma_filter_has(samples, q, upserts[i]);
        let k = choose|k: int|
            0 <= k < filled.len() && (#[trigger] filled[k]).0 == upserts[i].timestamp;
        assert(filled[k].0 <= r.high->0);
    }
    if all.len() == 0 && samples.len() > 0 {
        assert(samples.contains(samples[0]));
        if appends.contains(samples[0]) {
        } else {
            let k = choose|k: int| 0 <= k < upserts.len() && upserts[k] == samples[0];
            assert(upserts[k].timestamp <= all.last().timestamp);
        }
    }
}

/// Whether a run has a sample at a timestamp.
pub open spec fn has_timestamp(s: Seq<Sample>, ts: Timestamp) -> bool {
    exists|i: int| 0 <= i < s.len() && (#[trigger] s[i]).timestamp == ts
}

/// After a batch the last timestamp is that of the samples that came in order.
proof fn lemma_same_last(
    s: Seq<Sample>,
    samples: Seq<Sample>,
    appends: Seq<Sample>,
    upserts: Seq<Sample>,
    all: Seq<Sample>,
    after: Seq<Sample>,
)
    requires
        all == s + appends,
        all.len() > 0,
        is_strictly_sorted(all),
        is_strictly_sorted(after),
        forall|x: Sample| #[trigger]
            samples.contains(x) <==> appends.contains(x) || upserts.contains(x),
        forall|i: int|
            0 <= i < upserts.len() ==> (#[trigger] upserts[i]).timestamp <= all.last().timestamp,
        forall|x: Sample| #[trigger]
            after.contains(x) <==> samples.contains(x) || (s.contains(x) && !has_timestamp(
                samples,
                x.timestamp,
            )),
    ensures
        after.len() > 0,
        after.last().timestamp == all.last().timestamp,
{
    let top = all.last();
    let y = if has_timestamp(samples, top.timestamp) {
        samples[choose|i: int|
            0 <= i < samples.len() && (#[trigger] samples[i]).timestamp == top.timestamp]
    } else {
        top
    };
    if has_timestamp(samples, top.timestamp) {
        let i = choose|i: int|
            0 <= i < samples.len() && (#[trigger] samples[i]).timestamp == top.timestamp;
        assert(samples[i] == y);
        assert(samples.contains(y));
    } else if appends.len() > 0 {
        assert(appends[appends.len() - 1] == top);
        assert(appends.contains(top));
        assert(samples.contains(top));
        let i = choose|i: int| 0 <= i < samples.len() && samples[i] == top;
        assert(samples[i].timestamp == top.timestamp);
    } else {
        assert(s[s.len() - 1] == top);
        assert(s.contains(top));
    }
    assert(after.contains(y));
    let k = choose|k: int| 0 <= k < after.len() && after[k] == y;
    let x = after[after.len() - 1];
    assert(after.contains(x));
    assert(x.timestamp <= top.timestamp) by {
        if samples.contains(x) {
            if appends.contains(x) {
                let i = choose|i: int| 0 <= i < appends.len() && appends[i] == x;
                assert(all[s.len() + i] == x);
                if s.len() + i < all.len() - 1 {
                    assert(all[s.len() + i].timestamp < all[all.len() - 1].timestamp);
                }
            } else {
                let i = choose|i: int| 0 <= i < upserts.len() && upserts[i] == x;
                assert(upserts[i].timestamp <= top.timestamp);
            }
        } else {
            let i = choose|i: int| 0 <= i < s.len() && s[i] == x;
            assert(all[i] == x);
            if i < all.len() - 1 {
                assert(all[i].timestamp < all[all.len() - 1].timestamp);
            }
        }
    }
    if k < after.len() - 1 {
        assert(after[k].timestamp < after[after.len() - 1].timestamp);
    }
}

/// A bucket in which nothing was filled has what it had when the samples in order had come.
proof fn lemma_untouched<A: Aggregation>(
    rule: CompactionRule<A>,
    s: Seq<Sample>,
    samples: Seq<Sample>,
    appends: Seq<Sample>,
    upserts: Seq<Sample>,
    all: Seq<Sample>,
    after: Seq<Sample>,
    bucket: Timestamp,
)
    requires
        all == s + appends,
        is_strictly_sorted(all),
        is_strictly_sorted(after),
        is_strictly_sorted(s),
        forall|x: Sample| #[trigger]
            samples.contains(x) <==> appends.contains(x) || upserts.contains(x),
        forall|i: int|
            0 <= i < appends.len() && s.len() > 0 ==> s.last().timestamp < (
            #[trigger] appends[i]).timestamp,
        forall|x: Sample| #[trigger]
            after.contains(x) <==> samples.contains(x) || (s.contains(x) && !has_timestamp(
                samples,
                x.timestamp,
            )),
        !is_touched(rule, upserts, bucket),
    ensures
        in_bucket(rule, all, bucket) == in_bucket(rule, after, bucket),
{
    assert forall|x: Sample| rule.start_of(x.timestamp) == bucket implies (
    #[trigger] all.contains(x) <==> after.contains(x)) by {
        if upserts.contains(x) {
            let i = choose|i: int| 0 <= i < upserts.len() && upserts[i] == x;
            assert(rule.start_of(upserts[i].timestamp) == bucket);
        }
        if all.contains(x) {
            let k = choose|k: int| 0 <= k < all.len() && all[k] == x;
            if k < s.len() {
                assert(s[k] == x);
                assert(s.contains(x));
                if has_timestamp(samples, x.timestamp) {
                    let i = choose|i: int|
                        0 <= i < samples.len() && (#[trigger] samples[i]).timestamp == x.timestamp;
                    assert(samples.contains(samples[i]));
                    if appends.contains(samples[i]) {
                        let j = choose|j: int|
                            0 <= j < appends.len() && appends[j] == samples[i];
                        assert(s.last().timestamp < appends[j].timestamp);
                        if k < s.len() - 1 {
                            assert(s[k].timestamp < s[s.len() - 1].timestamp);
                        }
                    } else {
                        let j = choose|j: int|
                            0 <= j < upserts.len() && upserts[j] == samples[i];
                        assert(rule.start_of(upserts[j].timestamp) == bucket);
                    }
                }
            } else {
                assert(appends[k - s.len()] == x);
                assert(appends.contains(x));
                assert(samples.contains(x));
            }
        }
        if after.contains(x) {
            if samples.contains(x) {
                let i = choose|i: int| 0 <= i < appends.len() && appends[i] == x;
                assert(all[s.len() + i] == x);
            } else {
                let i = choose|i: int| 0 <= i < s.len() && s[i] == x;
                assert(all[i] == x);
            }
        }
    }
    lemma_same_bucket(rule, all, after, bucket);
}

/// A batch leaves the destination with the aggregates of the closed buckets, whatever the order in
/// which its samples came.
pub proof fn law_batch_aggregated<A: Aggregation>(
    f: Flow<A>,
    store: Store,
    source: Source,
    clean: A,
    kept: spec_fn(u64) -> u64,
    s: Seq<Sample>,
    samples: Seq<Sample>,
    prev_last: Option<Timestamp>,
    order: Seq<Timestamp>,
)
    requires
        is_faithful(f, clean, kept, s),
        is_whole(f.rule, s, i64::MIN),
        is_whole(f.rule, source.samples, source.floor()),
        is_strictly_sorted(samples),
        prev_last == (match last_of(s) {
            Some(x) => Some(x.timestamp),
            None => None,
        }),
        forall|i: int| 0 <= i < samples.len() ==> order.contains((#[trigger] samples[i]).timestamp),
        forall|i: int|
            0 <= i < order.len() ==> exists|j: int|
                0 <= j < samples.len() && (#[trigger] samples[j]).timestamp == #[trigger] order[i],
        forall|x: Sample| #[trigger]
            source.samples.contains(x) <==> samples.contains(x) || (s.contains(x)
                && !has_timestamp(samples, x.timestamp)),
        is_exact(store, kept),
        is_sound(clean, kept),
    ensures
        is_faithful(
            batched(f, store, source, samples, prev_last, order),
            clean,
            kept,
            source.samples,
        ),
{
    let t = source.samples;
    let filled = replay(prev_last, order).filled;
    let appends = samples.filter(|x: Sample| !is_filled(filled, x.timestamp));
    let upserts = samples.filter(|x: Sample| is_filled(filled, x.timestamp));
    let all = s + appends;
    lemma_batch_parts(s, samples, order, prev_last, appends, upserts);
    lemma_stream_aggregated(f, store, source, clean, kept, s, appends);
    let g = stream_all(f, store, source, appends);
    let h = refill_all(g, store, source, filled, upserts);
    let r = batched(f, store, source, samples, prev_last, order);
    assert(r.dest == h.dest && r.rule == h.rule);
    assert forall|x: Sample| t.contains(x) implies (#[trigger] all.contains(x)
        || upserts.contains(x)) by {
        if samples.contains(x) {
            if appends.contains(x) {
                let k = choose|k: int| 0 <= k < appends.len() && appends[k] == x;
                assert(all[s.len() + k] == x);
            }
        } else {
            let k = choose|k: int| 0 <= k < s.len() && s[k] == x;
            assert(all[k] == x);
        }
    }
    if all.len() == 0 {
        assert(t.len() == 0) by {
            if t.len() > 0 {
                assert(t.contains(t[0]));
                assert(all.contains(t[0]) || upserts.contains(t[0]));
                assert(samples.contains(t[0]));
            }
        }
        assert(upserts.len() == 0) by {
            if upserts.len() > 0 {
                assert(upserts.contains(upserts[0]));
                assert(samples.contains(upserts[0]));
            }
        }
    } else {
        lemma_same_last(s, samples, appends, upserts, all, t);
        assert forall|i: int| 0 <= i < all.len() implies is_regular(
            f.rule,
            (#[trigger] all[i]).timestamp,
        ) && i64::MIN <= all[i].timestamp < i64::MAX by {
            if i < s.len() {
                assert(s[i] == all[i]);
            } else {
                assert(appends[i - s.len()] == all[i]);
                assert(appends.contains(all[i]));
                assert(samples.contains(all[i]));
                assert(t.contains(all[i]));
                let k = choose|k: int| 0 <= k < t.len() && t[k] == all[i];
                assert(is_regular(f.rule, t[k].timestamp));
            }
        }
        assert(is_whole(g.rule, all, i64::MIN));
        lemma_faithful_starts(g, clean, kept, all, i64::MIN);
        let open = g.rule.start_of(all.last().timestamp);
        assert(all[all.len() - 1] == all.last());
        lemma_start(g.rule, all.last().timestamp);
        assert forall|b: Timestamp| !#[trigger] is_touched(g.rule, Seq::<Sample>::empty(), b) by {}
        assert forall|i: int| 0 <= i < upserts.len() implies is_regular(
            g.rule,
            (#[trigger] upserts[i]).timestamp,
        ) && g.rule.start_of(upserts[i].timestamp) <= open by {
            assert(upserts.contains(upserts[i]));
            assert(samples.contains(upserts[i]));
            assert(t.contains(upserts[i]));
            let k = choose|k: int| 0 <= k < t.len() && t[k] == upserts[i];
            assert(is_regular(f.rule, t[k].timestamp));
            law_buckets(g.rule, upserts[i].timestamp, all.last().timestamp);
        }
        assert forall|ts: Timestamp| #[trigger] value_at(g.dest, ts) == if ts < open {
            aggregate_at(
                g.rule,
                clean,
                kept,
                standing(g.rule, all, t, Seq::empty(), ts),
                ts,
            )
        } else {
            None
        } by {
            assert(!is_touched(g.rule, Seq::<Sample>::empty(), ts));
        }
        assert(!is_touched(g.rule, Seq::<Sample>::empty(), open));
        assert(is_midway(g, clean, kept, all, t, Seq::empty(), open));
        assert(is_whole(g.rule, t, source.floor()));
        lemma_refill_aggregated(g, store, source, clean, kept, filled, all, upserts, open);
        assert forall|b: Timestamp| #[trigger] in_bucket(
            h.rule,
            standing(h.rule, all, t, upserts, b),
            b,
        ) == in_bucket(h.rule, t, b) by {
            if !is_touched(h.rule, upserts, b) {
                lemma_untouched(h.rule, s, samples, appends, upserts, all, t, b);
            }
        }
        assert forall|ts: Timestamp| #[trigger] value_at(r.dest, ts) == if ts < open {
            aggregate_at(r.rule, clean, kept, t, ts)
        } else {
            None
        } by {
            assert(in_bucket(h.rule, standing(h.rule, all, t, upserts, ts), ts) == in_bucket(
                h.rule,
                t,
                ts,
            ));
        }
        assert(in_bucket(h.rule, standing(h.rule, all, t, upserts, open), open) == in_bucket(
            h.rule,
            t,
            open,
        ));
    }
}

/// A value stored in a series with no retention that ignores nothing but what it has already.
proof fn lemma_added_exactly<
    S: Fn(u64, u64) -> u64,
    R: Fn(RoundingStrategy, u64) -> u64,
    C: Fn(u64, u64, u64) -> bool,
>(terms: Terms, ops: ValueOps<S, R, C>, s: Seq<Sample>, ts: Timestamp, v: u64)
    requires
        terms.retention == 0,
        terms.duplicates.max_time_delta == 0,
        forall|a: u64, b: u64| #[trigger]
            ops.are_close(a, b, terms.duplicates.max_value_delta) ==> a == b,
        is_strictly_sorted(s),
        !is_nan(ops.rounded(terms.rounding, v)),
    ensures
        stores_exactly(store_of(terms, ops), |x: u64| ops.rounded(terms.rounding, x), s, ts, v),
{
    let asked = Some(DuplicatePolicy::KeepLast);
    let sample = Sample { timestamp: ts, value: ops.rounded(terms.rounding, v) };
    let (told, t) = added(terms, s, ts, v, asked, ops);
    assert(t == store_of(terms, ops)(s, ts, v).1);
    let at = place_of(s, ts);
    if s.len() > 0 && terms.duplicates.ignores(sample, s.last(), asked, ops) {
        assert(s[s.len() - 1] == sample);
    } else if s.len() == 0 || ts > s.last().timestamp {
        assert forall|i: int, j: int| 0 <= i < j < t.len() implies t[i].timestamp
            < t[j].timestamp by {
            if j == s.len() {
                assert(s[i].timestamp <= s[s.len() - 1].timestamp);
            } else {
                assert(s[i].timestamp < s[j].timestamp);
            }
        }
        assert(t[s.len() as int] == sample);
    } else {
        lemma_upsert_strict(s, true, sample, DuplicatePolicy::KeepLast, ops.sum);
        assert(t[at] == sample);
    }
    assert(t.contains(sample));
    assert forall|x: Sample| x.timestamp != ts implies (#[trigger] t.contains(x) <==> s.contains(
        x,
    )) by {
        if s.contains(x) {
            let k = choose|k: int| 0 <= k < s.len() && s[k] == x;
            assert(t[k] == x || t[k + 1] == x);
        }
        if t.contains(x) {
            let k = choose|k: int| 0 <= k < t.len() && t[k] == x;
            assert((k < s.len() && s[k] == x) || (k > 0 && s[k - 1] == x));
        }
    }
    assert forall|a: Timestamp| #[trigger] value_at(t, a) == if a == ts {
        Some(sample.value)
    } else {
        value_at(s, a)
    } by {
        if a == ts {
            lemma_value_at(t, ts, sample.value);
        } else {
            match value_at(t, a) {
                Some(w) => {
                    lemma_value_at(t, a, w);
                    lemma_value_at(s, a, w);
                },
                None => {
                    match value_at(s, a) {
                        Some(w) => {
                            lemma_value_at(t, a, w);
                            lemma_value_at(s, a, w);
                        },
                        None => {},
                    }
                },
            }
        }
    }
}

/// A destination without retention, and that finds no two different values close to each other,
/// stores every number as it is rounded.
pub proof fn law_plain_destination_is_exact<
    S: Fn(u64, u64) -> u64,
    R: Fn(RoundingStrategy, u64) -> u64,
    C: Fn(u64, u64, u64) -> bool,
>(terms: Terms, ops: ValueOps<S, R, C>)
    requires
        terms.retention == 0,
        terms.duplicates.max_time_delta == 0,
        forall|a: u64, b: u64| #[trigger]
            ops.are_close(a, b, terms.duplicates.max_value_delta) ==> a == b,
    ensures
        is_exact(store_of(terms, ops), |x: u64| ops.rounded(terms.rounding, x)),
{
    let kept = |x: u64| ops.rounded(terms.rounding, x);
    assert forall|s: Seq<Sample>, ts: Timestamp, v: u64|
        is_strictly_sorted(s) && !is_nan(kept(v)) implies #[trigger] stores_exactly(
        store_of(terms, ops),
        kept,
        s,
        ts,
        v,
    ) by {
        lemma_added_exactly(terms, ops, s, ts, v);
    }
}

proof fn lemma_fed_pick(pick: Pick, s: Seq<Sample>)
    ensures
        fed(PickAggregator { pick, value: None }, s).pick == pick,
        fed_any(PickAggregator { pick, value: None }, s) <==> fed(
            PickAggregator { pick, value: None },
            s,
        ).value is Some,
        match fed(PickAggregator { pick, value: None }, s).value {
            Some(v) => !is_nan(v),
            None => true,
        },
    decreases s.len(),
{
    if s.len() > 0 {
        lemma_fed_pick(pick, s.drop_last());
    }
}

/// The aggregators that pick one of the values of a bucket are sound where storing a number keeps
/// it one.
pub proof fn law_picks_are_sound(pick: Pick, kept: spec_fn(u64) -> u64)
    requires
        forall|v: u64| !is_nan(v) ==> !is_nan(#[trigger] kept(v)),
    ensures
        is_sound(PickAggregator { pick, value: None }, kept),
{
    let clean = PickAggregator { pick, value: None };
    assert forall|s: Seq<Sample>| (#[trigger] fed(clean, s)).cleared() == clean by {
        lemma_fed_pick(pick, s);
    }
    assert forall|s: Seq<Sample>| #[trigger] fed_any(clean, s) implies !is_nan(
        kept(fed(clean, s).result()),
    ) by {
        lemma_fed_pick(pick, s);
    }
}

} // verus!
