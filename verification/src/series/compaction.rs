//! What a change of a series does to a series that is made from it.
//!
//! A rule cuts time into buckets. The bucket of the last sample is open: its value is not in the
//! destination yet. A sample of a later bucket closes it, and its value is then stored.
use crate::aggregation::{fed, fed_any, feed, Aggregation};
use crate::chunks::search::{outside, within};
use crate::error::TsdbError;
use crate::sample::{DuplicatePolicy, Sample, SampleAddResult, Timestamp};
use crate::series::rule::CompactionRule;
use crate::series::store::{
    added, last_of, min_of, sample_at, RoundingStrategy, Terms, TimeSeries, ValueOps,
};
use crate::time::saturating_add_unsigned;
use vstd::prelude::*;

verus! {

/// A change of a series that has rules.
#[derive(Debug, Clone, Copy)]
pub enum CompactionOp<'a> {
    /// A sample behind all others was added.
    AddNew(Sample),
    /// A sample was put among the others.
    Upsert(Sample),
    /// Samples were merged. They are in order, one for a timestamp, with the values as stored.
    /// `prev_last` is the last timestamp from before. `input_order` has their timestamps as they
    /// came in.
    AddBatch {
        samples: &'a [Sample],
        prev_last: Option<Timestamp>,
        input_order: &'a [Timestamp],
    },
    /// The samples of a range of timestamps were removed.
    RemoveRange { start: Timestamp, end: Timestamp },
}

/// How a destination stores a bucket: from its samples, and the bucket's timestamp and value, to
/// what is told and the samples after it.
pub type Store = spec_fn(Seq<Sample>, Timestamp, u64) -> (SampleAddResult, Seq<Sample>);

/// How a destination on given terms stores a bucket: a value replaces the one before.
pub open spec fn store_of<
    S: Fn(u64, u64) -> u64,
    R: Fn(RoundingStrategy, u64) -> u64,
    C: Fn(u64, u64, u64) -> bool,
>(terms: Terms, ops: ValueOps<S, R, C>) -> Store {
    |s: Seq<Sample>, ts: Timestamp, v: u64|
        added(terms, s, ts, v, Some(DuplicatePolicy::KeepLast), ops)
}

/// Where a compaction stands: the samples of the destination, its marker, the rule, and what was
/// stored so far.
pub ghost struct Flow<A> {
    pub dest: Seq<Sample>,
    pub marker: Option<Sample>,
    pub rule: CompactionRule<A>,
    pub written: Seq<Sample>,
}

/// What a source is to its rules: its samples, and how long they are kept.
pub ghost struct Source {
    pub samples: Seq<Sample>,
    pub retention: u64,
}

impl Source {
    /// The oldest timestamp that the retention leaves.
    pub open spec fn floor(self) -> Timestamp {
        min_of(self.retention, self.samples)
    }
}

/// What is left out of a recalculation.
pub open spec fn left_out(excluded: Option<(Timestamp, Timestamp)>, ts: Timestamp) -> bool {
    match excluded {
        Some((start, end)) => start <= ts <= end,
        None => false,
    }
}

/// The samples of a source in a range of timestamps, from a floor on, without what is left out.
pub open spec fn readable(
    s: Seq<Sample>,
    start: Timestamp,
    end: Timestamp,
    floor: Timestamp,
    excluded: Option<(Timestamp, Timestamp)>,
) -> Seq<Sample> {
    within(
        s,
        if start < floor {
            floor
        } else {
            start
        },
        end,
    ).filter(|x: Sample| !left_out(excluded, x.timestamp))
}

/// One timestamp earlier.
pub open spec fn just_before(ts: Timestamp) -> Timestamp {
    (ts - 1) as i64
}

/// After storing a bucket. A marker that is not set takes the first bucket stored.
pub open spec fn put<A: Aggregation>(f: Flow<A>, store: Store, ts: Timestamp, value: u64) -> (
    Flow<A>,
    Option<Sample>,
) {
    let (told, dest) = store(f.dest, f.rule.start_of(ts), value);
    match told {
        SampleAddResult::Stored(s) => (
            Flow {
                dest,
                written: f.written.push(s),
                marker: if f.marker is None {
                    Some(s)
                } else {
                    f.marker
                },
                ..f
            },
            Some(s),
        ),
        _ => (Flow { dest, ..f }, None),
    }
}

/// After removing buckets. A marker whose bucket is gone falls back to the last that is left.
pub open spec fn cut<A: Aggregation>(f: Flow<A>, start: Timestamp, end: Timestamp) -> Flow<A> {
    let dest = outside(f.dest, start, end);
    Flow {
        dest,
        marker: match f.marker {
            Some(m) => if sample_at(dest, m.timestamp) is None {
                last_of(dest)
            } else {
                f.marker
            },
            None => None,
        },
        ..f
    }
}

/// After the open bucket was read again from the source.
pub open spec fn reread<A: Aggregation>(
    f: Flow<A>,
    s: Seq<Sample>,
    start: Timestamp,
    floor: Timestamp,
) -> Flow<A> {
    let read = readable(s, start, just_before(f.rule.end_of(start)), floor, None);
    Flow {
        rule: CompactionRule {
            aggregator: fed(f.rule.aggregator.cleared(), read),
            has_samples: fed_any(f.rule.aggregator.cleared(), read),
            bucket_start: Some(start),
            ..f.rule
        },
        ..f
    }
}

/// After a closed bucket was made anew from the source: its value is stored, or it goes where no
/// sample is left that counts.
pub open spec fn remade<A: Aggregation>(
    f: Flow<A>,
    store: Store,
    s: Seq<Sample>,
    start: Timestamp,
    floor: Timestamp,
    excluded: Option<(Timestamp, Timestamp)>,
) -> Flow<A> {
    let last = just_before(f.rule.end_of(start));
    let read = readable(s, start, last, floor, excluded);
    let clear = f.rule.aggregator.cleared();
    if fed_any(clear, read) {
        put(f, store, start, fed(clear, read).result()).0
    } else {
        cut(f, start, last)
    }
}

/// After the open bucket was closed by a sample of a later one.
pub open spec fn closed<A: Aggregation>(
    f: Flow<A>,
    store: Store,
    sample: Sample,
    next: Timestamp,
) -> Flow<A> {
    let after = if f.rule.has_samples && f.rule.bucket_start is Some {
        let (g, stored) = put(f, store, f.rule.bucket_start->0, f.rule.aggregator.result());
        match stored {
            Some(s) => Flow { marker: Some(s), ..g },
            None => g,
        }
    } else {
        f
    };
    Flow { rule: after.rule.idle().opened(next, sample), ..after }
}

/// After a sample behind all others.
pub open spec fn streamed<A: Aggregation>(
    f: Flow<A>,
    store: Store,
    source: Source,
    sample: Sample,
) -> Flow<A> {
    let start = f.rule.start_of(sample.timestamp);
    match f.rule.bucket_start {
        None => Flow { rule: f.rule.opened(start, sample), ..f },
        Some(open) => if start == open {
            Flow { rule: f.rule.counted(sample), ..f }
        } else if start > open {
            closed(f, store, sample, start)
        } else {
            remade(f, store, source.samples, start, source.floor(), None)
        },
    }
}

/// After a sample among the others.
pub open spec fn replaced<A: Aggregation>(
    f: Flow<A>,
    store: Store,
    source: Source,
    sample: Sample,
) -> Flow<A> {
    let start = f.rule.start_of(sample.timestamp);
    match f.rule.bucket_start {
        None => Flow { rule: f.rule.opened(start, sample), ..f },
        Some(open) => if start == open {
            reread(f, source.samples, open, source.floor())
        } else {
            remade(f, store, source.samples, start, source.floor(), None)
        },
    }
}

/// After samples of one closed bucket were removed: it goes where the removal covers it, and is
/// made anew where it does not. The open bucket is left alone.
pub open spec fn shrunk<A: Aggregation>(
    f: Flow<A>,
    store: Store,
    source: Source,
    bucket: Timestamp,
    start: Timestamp,
    end: Timestamp,
) -> Flow<A> {
    let bucket_end = f.rule.end_of(bucket);
    if f.rule.bucket_start == Some(bucket) {
        f
    } else if start <= bucket && end >= bucket_end {
        if f.dest.len() > 0 {
            cut(f, bucket, just_before(bucket_end))
        } else {
            f
        }
    } else {
        remade(f, store, source.samples, bucket, source.floor(), Some((start, end)))
    }
}

/// After the open bucket was found again: it is that of the last sample, and the destination
/// holds nothing from it on. With no sample there is neither.
pub open spec fn resynced<A: Aggregation>(f: Flow<A>, source: Source) -> Flow<A> {
    match last_of(source.samples) {
        None => {
            let g = Flow { rule: f.rule.idle(), ..f };
            if g.dest.len() > 0 {
                cut(g, i64::MIN, i64::MAX)
            } else {
                g
            }
        },
        Some(last) => {
            let start = f.rule.start_of(last.timestamp);
            let g = if f.dest.len() > 0 {
                cut(f, start, i64::MAX)
            } else {
                f
            };
            reread(g, source.samples, start, source.floor())
        },
    }
}

/// After a range of timestamps was removed.
pub open spec fn removed<A: Aggregation>(
    f: Flow<A>,
    store: Store,
    source: Source,
    start: Timestamp,
    end: Timestamp,
) -> Flow<A> {
    let first = f.rule.start_of(start);
    let last = f.rule.start_of(end);
    let g = shrunk(f, store, source, first, start, end);
    let h = if last != first {
        let middle = f.rule.end_of(first);
        let k = if middle < last && g.dest.len() > 0 {
            cut(g, middle, just_before(last))
        } else {
            g
        };
        shrunk(k, store, source, last, start, end)
    } else {
        g
    };
    resynced(h, source)
}

/// The state of a compaction.
pub open spec fn flow<A: Aggregation>(
    dest: TimeSeries<A>,
    rule: CompactionRule<A>,
    written: Seq<Sample>,
) -> Flow<A> {
    Flow { dest: dest.samples(), marker: dest.last_forward_close, rule, written }
}

/// The source of a compaction.
pub open spec fn source_of<A: Aggregation>(parent: TimeSeries<A>) -> Source {
    Source { samples: parent.samples(), retention: parent.retention }
}

/// A bucket that is stored with the last value winning is never refused.
proof fn lemma_never_refused<
    S: Fn(u64, u64) -> u64,
    R: Fn(RoundingStrategy, u64) -> u64,
    C: Fn(u64, u64, u64) -> bool,
>(terms: Terms, s: Seq<Sample>, ts: Timestamp, v: u64, ops: ValueOps<S, R, C>)
    ensures
        ({
            let told = added(terms, s, ts, v, Some(DuplicatePolicy::KeepLast), ops).0;
            told is Stored || told is Ignored || told is TooOld
        }),
{
}

/// Stores a bucket, and gives what was stored, unless the destination has no use for it.
fn add_dest_bucket<
    A: Aggregation,
    S: Fn(u64, u64) -> u64,
    R: Fn(RoundingStrategy, u64) -> u64,
    C: Fn(u64, u64, u64) -> bool,
>(
    dest: &mut TimeSeries<A>,
    rule: &CompactionRule<A>,
    written: &mut Vec<Sample>,
    ts: Timestamp,
    value: u64,
    ops: &ValueOps<S, R, C>,
) -> (r: Result<Option<Sample>, TsdbError>)
    requires
        old(dest).wf(),
        rule.wf(),
        ops.ok(),
    ensures
        final(dest).wf(),
        final(dest).same_setup(*old(dest)),
        (flow(*final(dest), *rule, final(written)@), r->Ok_0) == put(
            flow(*old(dest), *rule, old(written)@),
            store_of(old(dest).terms(), *ops),
            ts,
            value,
        ),
        r is Ok,
{
    let start: Timestamp = rule.calc_bucket_start(ts);
    proof {
        lemma_never_refused(dest.terms(), dest.samples(), start, value, *ops);
    }
    match dest.add(start, value, Some(DuplicatePolicy::KeepLast), ops) {
        SampleAddResult::Stored(sample) => {
            written.push(sample);
            if dest.last_forward_close.is_none() {
                dest.last_forward_close = Some(sample);
            }
            Ok(Some(sample))
        },
        SampleAddResult::Ignored(_) => Ok(None),
        SampleAddResult::TooOld => Ok(None),
        _ => Err(TsdbError::DestinationWrite(ts)),
    }
}

/// Removes buckets, and keeps the marker on one that is there.
fn remove_dest_range<A: Aggregation>(
    dest: &mut TimeSeries<A>,
    start: Timestamp,
    end: Timestamp,
) -> (r: Result<usize, TsdbError>)
    requires
        old(dest).wf(),
    ensures
        final(dest).wf(),
        final(dest).same_setup(*old(dest)),
        r is Ok,
        forall|rule: CompactionRule<A>, written: Seq<Sample>| #[trigger]
            flow(*final(dest), rule, written) == cut(flow(*old(dest), rule, written), start, end),
        within(old(dest).samples(), start, end).len() <= usize::MAX ==> r->Ok_0 == within(
            old(dest).samples(),
            start,
            end,
        ).len(),
{
    let n: usize = match dest.remove_range(start, end) {
        Ok(n) => n,
        Err(e) => {
            return Err(e);
        },
    };
    if let Some(marker) = dest.last_forward_close {
        match dest.get_sample(marker.timestamp) {
            Ok(None) => {
                dest.last_forward_close = dest.last_sample;
            },
            _ => {},
        }
    }
    Ok(n)
}

/// Aggregates the samples of a source in a range of timestamps, from a floor on, without what is
/// left out, and says whether one of them counts.
fn calculate_range<A: Aggregation>(
    parent: &TimeSeries<A>,
    aggregator: &mut A,
    start: Timestamp,
    end: Timestamp,
    min_ts: Timestamp,
    excluded: Option<(Timestamp, Timestamp)>,
) -> (r: bool)
    requires
        parent.wf(),
    ensures
        *final(aggregator) == fed(
            old(aggregator).cleared(),
            readable(parent.samples(), start, end, min_ts, excluded),
        ),
        r == fed_any(
            old(aggregator).cleared(),
            readable(parent.samples(), start, end, min_ts, excluded),
        ),
{
    aggregator.reset();
    let from: Timestamp = if start < min_ts {
        min_ts
    } else {
        start
    };
    let found = parent.stored_range_iter(from, end);
    let ghost keep = |x: Sample| !left_out(excluded, x.timestamp);
    let mut kept: Vec<Sample> = Vec::new();
    let mut i: usize = 0;
    proof {
        reveal(Seq::filter);
        assert(found@.take(0) =~= Seq::<Sample>::empty());
        assert(kept@ =~= found@.take(0).filter(keep));
    }
    while i < found.len()
        invariant
            i <= found@.len(),
            keep == (|x: Sample| !left_out(excluded, x.timestamp)),
            kept@ == found@.take(i as int).filter(keep),
        decreases found.len() - i,
    {
        proof {
            reveal(Seq::filter);
            assert(found@.take(i + 1).drop_last() =~= found@.take(i as int));
        }
        let s: Sample = found[i];
        let out: bool = match excluded {
            Some((a, b)) => a <= s.timestamp && s.timestamp <= b,
            None => false,
        };
        if !out {
            kept.push(s);
        }
        i += 1;
    }
    assert(found@.take(i as int) =~= found@);
    feed(aggregator, kept.as_slice())
}

/// Reads the open bucket again from the source.
pub fn recalculate_current_bucket<A: Aggregation>(
    parent: &TimeSeries<A>,
    rule: &mut CompactionRule<A>,
    bucket_start: Timestamp,
    min_ts: Timestamp,
)
    requires
        parent.wf(),
        old(rule).wf(),
        bucket_start >= 0,
    ensures
        final(rule).wf(),
        final(rule).same_terms(*old(rule)),
        forall|dest: TimeSeries<A>, written: Seq<Sample>| #[trigger]
            flow(dest, *final(rule), written) == reread(
                flow(dest, *old(rule), written),
                parent.samples(),
                bucket_start,
                min_ts,
            ),
{
    let end: Timestamp = saturating_add_unsigned(bucket_start, rule.bucket_duration);
    let has_samples: bool = calculate_range(
        parent,
        &mut rule.aggregator,
        bucket_start,
        end - 1,
        min_ts,
        None,
    );
    rule.has_samples = has_samples;
    rule.bucket_start = Some(bucket_start);
}

/// Makes a closed bucket anew from the source.
pub fn recalculate_bucket<
    A: Aggregation,
    S: Fn(u64, u64) -> u64,
    R: Fn(RoundingStrategy, u64) -> u64,
    C: Fn(u64, u64, u64) -> bool,
>(
    parent: &TimeSeries<A>,
    dest: &mut TimeSeries<A>,
    rule: &CompactionRule<A>,
    written: &mut Vec<Sample>,
    bucket_start: Timestamp,
    min_ts: Timestamp,
    excluded: Option<(Timestamp, Timestamp)>,
    ops: &ValueOps<S, R, C>,
) -> (r: Result<(), TsdbError>)
    requires
        parent.wf(),
        old(dest).wf(),
        rule.wf(),
        ops.ok(),
        bucket_start >= 0,
    ensures
        final(dest).wf(),
        final(dest).same_setup(*old(dest)),
        r is Ok,
        flow(*final(dest), *rule, final(written)@) == remade(
            flow(*old(dest), *rule, old(written)@),
            store_of(old(dest).terms(), *ops),
            parent.samples(),
            bucket_start,
            min_ts,
            excluded,
        ),
{
    let end: Timestamp = saturating_add_unsigned(bucket_start, rule.bucket_duration);
    let mut aggregator: A = rule.aggregator.copy();
    if calculate_range(parent, &mut aggregator, bucket_start, end - 1, min_ts, excluded) {
        let value: u64 = aggregator.finalize();
        match add_dest_bucket(dest, rule, written, bucket_start, value, ops) {
            Ok(_) => Ok(()),
            Err(e) => Err(e),
        }
    } else {
        match remove_dest_range(dest, bucket_start, end - 1) {
            Ok(_) => {
                assert(flow(*dest, *rule, written@) == cut(
                    flow(*old(dest), *rule, written@),
                    bucket_start,
                    just_before(end),
                ));
                Ok(())
            },
            Err(e) => Err(e),
        }
    }
}

/// Closes the open bucket and starts the next.
fn finalize_current_bucket<
    A: Aggregation,
    S: Fn(u64, u64) -> u64,
    R: Fn(RoundingStrategy, u64) -> u64,
    C: Fn(u64, u64, u64) -> bool,
>(
    dest: &mut TimeSeries<A>,
    rule: &mut CompactionRule<A>,
    written: &mut Vec<Sample>,
    new_sample: Sample,
    new_bucket_start: Timestamp,
    ops: &ValueOps<S, R, C>,
) -> (r: Result<(), TsdbError>)
    requires
        old(dest).wf(),
        old(rule).wf(),
        old(rule).bucket_start is Some,
        ops.ok(),
    ensures
        final(dest).wf(),
        final(dest).same_setup(*old(dest)),
        final(rule).wf(),
        r is Ok,
        flow(*final(dest), *final(rule), final(written)@) == closed(
            flow(*old(dest), *old(rule), old(written)@),
            store_of(old(dest).terms(), *ops),
            new_sample,
            new_bucket_start,
        ),
{
    if rule.has_samples {
        if let Some(current) = rule.bucket_start {
            let value: u64 = rule.aggregator.finalize();
            match add_dest_bucket(dest, rule, written, current, value, ops) {
                Ok(Some(published)) => {
                    dest.last_forward_close = Some(published);
                },
                Ok(None) => {},
                Err(e) => {
                    return Err(e);
                },
            }
        }
    }
    rule.reset();
    rule.start_bucket(new_bucket_start, new_sample);
    Ok(())
}

/// Takes a sample that was added behind all others.
pub fn handle_sample_compaction<
    A: Aggregation,
    S: Fn(u64, u64) -> u64,
    R: Fn(RoundingStrategy, u64) -> u64,
    C: Fn(u64, u64, u64) -> bool,
>(
    parent: &TimeSeries<A>,
    dest: &mut TimeSeries<A>,
    rule: &mut CompactionRule<A>,
    written: &mut Vec<Sample>,
    sample: Sample,
    ops: &ValueOps<S, R, C>,
) -> (r: Result<(), TsdbError>)
    requires
        parent.wf(),
        old(dest).wf(),
        old(rule).wf(),
        ops.ok(),
    ensures
        final(dest).wf(),
        final(dest).same_setup(*old(dest)),
        final(rule).wf(),
        final(rule).same_terms(*old(rule)),
        r is Ok,
        flow(*final(dest), *final(rule), final(written)@) == streamed(
            flow(*old(dest), *old(rule), old(written)@),
            store_of(old(dest).terms(), *ops),
            source_of(*parent),
            sample,
        ),
{
    let start: Timestamp = rule.calc_bucket_start(sample.timestamp);
    match rule.bucket_start {
        None => {
            rule.start_bucket(start, sample);
            Ok(())
        },
        Some(open) => if start == open {
            rule.update(sample);
            Ok(())
        } else if start > open {
            finalize_current_bucket(dest, rule, written, sample, start, ops)
        } else {
            let floor: Timestamp = parent.get_min_timestamp();
            recalculate_bucket(parent, dest, rule, written, start, floor, None, ops)
        },
    }
}

/// Takes a sample that was put among the others.
pub fn handle_compaction_upsert<
    A: Aggregation,
    S: Fn(u64, u64) -> u64,
    R: Fn(RoundingStrategy, u64) -> u64,
    C: Fn(u64, u64, u64) -> bool,
>(
    parent: &TimeSeries<A>,
    dest: &mut TimeSeries<A>,
    rule: &mut CompactionRule<A>,
    written: &mut Vec<Sample>,
    sample: Sample,
    ops: &ValueOps<S, R, C>,
) -> (r: Result<(), TsdbError>)
    requires
        parent.wf(),
        old(dest).wf(),
        old(rule).wf(),
        ops.ok(),
    ensures
        final(dest).wf(),
        final(dest).same_setup(*old(dest)),
        final(rule).wf(),
        final(rule).same_terms(*old(rule)),
        r is Ok,
        flow(*final(dest), *final(rule), final(written)@) == replaced(
            flow(*old(dest), *old(rule), old(written)@),
            store_of(old(dest).terms(), *ops),
            source_of(*parent),
            sample,
        ),
{
    let start: Timestamp = rule.calc_bucket_start(sample.timestamp);
    match rule.bucket_start {
        None => {
            rule.start_bucket(start, sample);
            Ok(())
        },
        Some(open) => {
            let floor: Timestamp = parent.get_min_timestamp();
            if start == open {
                recalculate_current_bucket(parent, rule, open, floor);
                Ok(())
            } else {
                recalculate_bucket(parent, dest, rule, written, start, floor, None, ops)
            }
        },
    }
}

/// Applies a removal to one bucket.
fn remove_or_recalculate_bucket<
    A: Aggregation,
    S: Fn(u64, u64) -> u64,
    R: Fn(RoundingStrategy, u64) -> u64,
    C: Fn(u64, u64, u64) -> bool,
>(
    parent: &TimeSeries<A>,
    dest: &mut TimeSeries<A>,
    rule: &CompactionRule<A>,
    written: &mut Vec<Sample>,
    bucket_start: Timestamp,
    start: Timestamp,
    end: Timestamp,
    ops: &ValueOps<S, R, C>,
) -> (r: Result<(), TsdbError>)
    requires
        parent.wf(),
        old(dest).wf(),
        rule.wf(),
        ops.ok(),
        bucket_start >= 0,
    ensures
        final(dest).wf(),
        final(dest).same_setup(*old(dest)),
        r is Ok,
        flow(*final(dest), *rule, final(written)@) == shrunk(
            flow(*old(dest), *rule, old(written)@),
            store_of(old(dest).terms(), *ops),
            source_of(*parent),
            bucket_start,
            start,
            end,
        ),
{
    if let Some(open) = rule.bucket_start {
        if open == bucket_start {
            return Ok(());
        }
    }
    let bucket_end: Timestamp = saturating_add_unsigned(bucket_start, rule.bucket_duration);
    if start <= bucket_start && end >= bucket_end {
        if !dest.is_empty() {
            match remove_dest_range(dest, bucket_start, bucket_end - 1) {
                Ok(_) => {
                    assert(flow(*dest, *rule, written@) == cut(
                        flow(*old(dest), *rule, written@),
                        bucket_start,
                        just_before(bucket_end),
                    ));
                },
                Err(e) => {
                    return Err(e);
                },
            }
        }
        Ok(())
    } else {
        let floor: Timestamp = parent.get_min_timestamp();
        recalculate_bucket(
            parent,
            dest,
            rule,
            written,
            bucket_start,
            floor,
            Some((start, end)),
            ops,
        )
    }
}

/// Finds the open bucket again.
fn resync_open_bucket_after_removal<A: Aggregation>(
    parent: &TimeSeries<A>,
    dest: &mut TimeSeries<A>,
    rule: &mut CompactionRule<A>,
) -> (r: Result<(), TsdbError>)
    requires
        parent.wf(),
        old(dest).wf(),
        old(rule).wf(),
    ensures
        final(dest).wf(),
        final(dest).same_setup(*old(dest)),
        final(rule).wf(),
        final(rule).same_terms(*old(rule)),
        r is Ok,
        forall|written: Seq<Sample>| #[trigger]
            flow(*final(dest), *final(rule), written) == resynced(
                flow(*old(dest), *old(rule), written),
                source_of(*parent),
            ),
{
    let ghost dest0 = *dest;
    let ghost rule0 = *rule;
    match parent.last_sample {
        None => {
            rule.reset();
            if !dest.is_empty() {
                match remove_dest_range(dest, i64::MIN, i64::MAX) {
                    Ok(_) => {},
                    Err(e) => {
                        return Err(e);
                    },
                }
            }
            Ok(())
        },
        Some(last) => {
            let (start, _) = rule.get_bucket_range(last.timestamp);
            if !dest.is_empty() {
                match remove_dest_range(dest, start, i64::MAX) {
                    Ok(_) => {},
                    Err(e) => {
                        return Err(e);
                    },
                }
            }
            let floor: Timestamp = parent.get_min_timestamp();
            recalculate_current_bucket(parent, rule, start, floor);
            proof {
                assert forall|written: Seq<Sample>| #[trigger]
                    flow(*dest, *rule, written) == resynced(
                        flow(dest0, rule0, written),
                        source_of(*parent),
                    ) by {
                    let mid = flow(*dest, rule0, written);
                    assert(flow(*dest, *rule, written) == reread(
                        mid,
                        parent.samples(),
                        start,
                        floor,
                    ));
                }
            }
            Ok(())
        },
    }
}

/// Takes the removal of a range of timestamps.
pub fn handle_compaction_range_removal<
    A: Aggregation,
    S: Fn(u64, u64) -> u64,
    R: Fn(RoundingStrategy, u64) -> u64,
    C: Fn(u64, u64, u64) -> bool,
>(
    parent: &TimeSeries<A>,
    dest: &mut TimeSeries<A>,
    rule: &mut CompactionRule<A>,
    written: &mut Vec<Sample>,
    start: Timestamp,
    end: Timestamp,
    ops: &ValueOps<S, R, C>,
) -> (r: Result<(), TsdbError>)
    requires
        parent.wf(),
        old(dest).wf(),
        old(rule).wf(),
        ops.ok(),
    ensures
        final(dest).wf(),
        final(dest).same_setup(*old(dest)),
        final(rule).wf(),
        final(rule).same_terms(*old(rule)),
        r is Ok,
        flow(*final(dest), *final(rule), final(written)@) == removed(
            flow(*old(dest), *old(rule), old(written)@),
            store_of(old(dest).terms(), *ops),
            source_of(*parent),
            start,
            end,
        ),
{
    let first: Timestamp = rule.calc_bucket_start(start);
    let last: Timestamp = rule.calc_bucket_start(end);
    match remove_or_recalculate_bucket(parent, dest, rule, written, first, start, end, ops) {
        Ok(_) => {},
        Err(e) => {
            return Err(e);
        },
    }
    if last != first {
        let middle: Timestamp = saturating_add_unsigned(first, rule.bucket_duration);
        if middle < last && !dest.is_empty() {
            let ghost before = *dest;
            match remove_dest_range(dest, middle, last - 1) {
                Ok(_) => {
                    assert(flow(*dest, *rule, written@) == cut(
                        flow(before, *rule, written@),
                        middle,
                        just_before(last),
                    ));
                },
                Err(e) => {
                    return Err(e);
                },
            }
        }
        match remove_or_recalculate_bucket(parent, dest, rule, written, last, start, end, ops) {
            Ok(_) => {},
            Err(e) => {
                return Err(e);
            },
        }
    }
    resync_open_bucket_after_removal(parent, dest, rule)
}

} // verus!
