//! What a batch of samples does to a series that is made from the one that got it.
//!
//! A batch is stored in the order of its timestamps, but counts as if its samples had come one by
//! one in the order in which they were given: a sample above all before it is streamed, another
//! one makes its bucket anew.
use crate::aggregation::Aggregation;
use crate::error::TsdbError;
use crate::sample::{is_sorted, Sample, Timestamp};
use crate::series::compaction::{
    flow, handle_sample_compaction, recalculate_bucket, recalculate_current_bucket, remade,
    reread, source_of, store_of, streamed, Flow, Source, Store,
};
use crate::series::rule::CompactionRule;
use crate::series::store::{
    floor_at, retention_floor, sample_at, RoundingStrategy, TimeSeries, ValueOps,
};
use vstd::prelude::*;

verus! {

/// How far the replay of a batch in the order given has come.
pub ghost struct Replay {
    /// The highest timestamp so far.
    pub high: Option<Timestamp>,
    /// The timestamps that were above all before them.
    pub advanced: Seq<Timestamp>,
    /// The others, each with the highest timestamp at that moment. A repetition of a timestamp
    /// that advanced in the same batch is none.
    pub filled: Seq<(Timestamp, Timestamp)>,
}

/// The replay of a batch.
pub open spec fn replay(prev_last: Option<Timestamp>, order: Seq<Timestamp>) -> Replay
    decreases order.len(),
{
    if order.len() == 0 {
        Replay { high: prev_last, advanced: Seq::empty(), filled: Seq::empty() }
    } else {
        let r = replay(prev_last, order.drop_last());
        let ts = order.last();
        if r.high is Some && ts <= r.high->0 {
            if r.advanced.contains(ts) {
                r
            } else {
                Replay { filled: r.filled.push((ts, r.high->0)), ..r }
            }
        } else {
            Replay { high: Some(ts), advanced: r.advanced.push(ts), ..r }
        }
    }
}

/// Whether a timestamp came after a higher one.
pub open spec fn is_filled(filled: Seq<(Timestamp, Timestamp)>, ts: Timestamp) -> bool {
    exists|i: int| 0 <= i < filled.len() && (#[trigger] filled[i]).0 == ts
}

/// The floor that was in force when a bucket was filled for the last time.
pub open spec fn fill_floor<A: Aggregation>(
    rule: CompactionRule<A>,
    retention: u64,
    filled: Seq<(Timestamp, Timestamp)>,
    bucket: Timestamp,
) -> Timestamp
    decreases filled.len(),
{
    if filled.len() == 0 {
        0
    } else if rule.start_of(filled.last().0) == bucket {
        floor_at(retention, filled.last().1)
    } else {
        fill_floor(rule, retention, filled.drop_last(), bucket)
    }
}

/// What a replay does to the marker of a destination.
pub ghost struct Trace {
    pub open: Option<Timestamp>,
    pub high: Option<Timestamp>,
    /// The bucket that was closed last by going forward.
    pub close: Option<Timestamp>,
    /// The bucket that was stored first.
    pub first: Option<Timestamp>,
}

/// The trace of a batch through the buckets of a rule.
pub open spec fn trace<A: Aggregation>(
    rule: CompactionRule<A>,
    prev_last: Option<Timestamp>,
    order: Seq<Timestamp>,
) -> Trace
    decreases order.len(),
{
    if order.len() == 0 {
        Trace { open: rule.bucket_start, high: prev_last, close: None, first: None }
    } else {
        let t = trace(rule, prev_last, order.drop_last());
        let ts = order.last();
        let bucket = rule.start_of(ts);
        if t.high is Some && ts <= t.high->0 {
            if t.open is Some && bucket < t.open->0 && t.first is None {
                Trace { first: Some(bucket), ..t }
            } else {
                t
            }
        } else {
            match t.open {
                Some(open) => if bucket > open {
                    Trace {
                        open: Some(bucket),
                        high: Some(ts),
                        close: Some(open),
                        first: if t.first is None {
                            Some(open)
                        } else {
                            t.first
                        },
                    }
                } else {
                    Trace { high: Some(ts), ..t }
                },
                None => Trace { open: Some(bucket), high: Some(ts), ..t },
            }
        }
    }
}

/// After samples were streamed, one after the other.
pub open spec fn stream_all<A: Aggregation>(
    f: Flow<A>,
    store: Store,
    source: Source,
    s: Seq<Sample>,
) -> Flow<A>
    decreases s.len(),
{
    if s.len() == 0 {
        f
    } else {
        streamed(stream_all(f, store, source, s.drop_last()), store, source, s.last())
    }
}

/// After a bucket was made anew with the floor of its last filling. One that is open, or that
/// opens by this, is not stored.
pub open spec fn refilled<A: Aggregation>(
    f: Flow<A>,
    store: Store,
    source: Source,
    filled: Seq<(Timestamp, Timestamp)>,
    bucket: Timestamp,
) -> Flow<A> {
    let floor = fill_floor(f.rule, source.retention, filled, bucket);
    if f.rule.bucket_start is None || f.rule.bucket_start == Some(bucket) {
        reread(f, source.samples, bucket, floor)
    } else {
        remade(f, store, source.samples, bucket, floor, None)
    }
}

/// After the buckets of samples were made anew, each once.
pub open spec fn refill_all<A: Aggregation>(
    f: Flow<A>,
    store: Store,
    source: Source,
    filled: Seq<(Timestamp, Timestamp)>,
    s: Seq<Sample>,
) -> Flow<A>
    decreases s.len(),
{
    if s.len() == 0 {
        f
    } else {
        let g = refill_all(f, store, source, filled, s.drop_last());
        let bucket = f.rule.start_of(s.last().timestamp);
        if s.len() >= 2 && f.rule.start_of(s[s.len() - 2].timestamp) == bucket {
            g
        } else {
            refilled(g, store, source, filled, bucket)
        }
    }
}

/// The bucket that the marker of a destination is on after a batch: the last that was closed by
/// going forward, or else the one that it was on, or else the first that was stored.
pub open spec fn marked(t: Trace, before: Option<Sample>) -> Option<Timestamp> {
    match t.close {
        Some(ts) => Some(ts),
        None => match before {
            Some(m) => Some(m.timestamp),
            None => t.first,
        },
    }
}

/// After a batch.
pub open spec fn batched<A: Aggregation>(
    f: Flow<A>,
    store: Store,
    source: Source,
    samples: Seq<Sample>,
    prev_last: Option<Timestamp>,
    order: Seq<Timestamp>,
) -> Flow<A> {
    let filled = replay(prev_last, order).filled;
    let g = stream_all(
        f,
        store,
        source,
        samples.filter(|s: Sample| !is_filled(filled, s.timestamp)),
    );
    let h = refill_all(
        g,
        store,
        source,
        filled,
        samples.filter(|s: Sample| is_filled(filled, s.timestamp)),
    );
    Flow {
        marker: match marked(trace(f.rule, prev_last, order), f.marker) {
            Some(ts) => sample_at(h.dest, ts),
            None => None,
        },
        ..h
    }
}

fn has_timestamp(v: &Vec<Timestamp>, ts: Timestamp) -> (r: bool)
    ensures
        r == v@.contains(ts),
{
    let mut i: usize = 0;
    while i < v.len()
        invariant
            i <= v@.len(),
            forall|j: int| 0 <= j < i ==> v@[j] != ts,
        decreases v.len() - i,
    {
        if v[i] == ts {
            assert(v@[i as int] == ts);
            return true;
        }
        i += 1;
    }
    false
}

/// The timestamps of a batch that came after a higher one, each with the highest at that moment.
fn find_backfills(prev_last: Option<Timestamp>, input_order: &[Timestamp]) -> (r: Vec<
    (Timestamp, Timestamp),
>)
    ensures
        r@ == replay(prev_last, input_order@).filled,
{
    let mut high: Option<Timestamp> = prev_last;
    let mut advanced: Vec<Timestamp> = Vec::new();
    let mut filled: Vec<(Timestamp, Timestamp)> = Vec::new();
    let mut i: usize = 0;
    assert(input_order@.take(0) =~= Seq::<Timestamp>::empty());
    while i < input_order.len()
        invariant
            i <= input_order@.len(),
            high == replay(prev_last, input_order@.take(i as int)).high,
            advanced@ == replay(prev_last, input_order@.take(i as int)).advanced,
            filled@ == replay(prev_last, input_order@.take(i as int)).filled,
        decreases input_order.len() - i,
    {
        assert(input_order@.take(i + 1).drop_last() =~= input_order@.take(i as int));
        let ts: Timestamp = input_order[i];
        let mut advances: bool = true;
        if let Some(max) = high {
            if ts <= max {
                advances = false;
                if !has_timestamp(&advanced, ts) {
                    filled.push((ts, max));
                }
            }
        }
        if advances {
            high = Some(ts);
            advanced.push(ts);
        }
        i += 1;
    }
    assert(input_order@.take(i as int) =~= input_order@);
    filled
}

/// What a batch does to the marker of a destination: the bucket closed last by going forward,
/// and the bucket stored first.
fn trace_dest_cache_in_input_order<A: Aggregation>(
    rule: &CompactionRule<A>,
    prev_last: Option<Timestamp>,
    input_order: &[Timestamp],
) -> (r: (Option<Timestamp>, Option<Timestamp>))
    requires
        rule.wf(),
    ensures
        r.0 == trace(*rule, prev_last, input_order@).close,
        r.1 == trace(*rule, prev_last, input_order@).first,
{
    let mut open: Option<Timestamp> = rule.bucket_start;
    let mut high: Option<Timestamp> = prev_last;
    let mut close: Option<Timestamp> = None;
    let mut first: Option<Timestamp> = None;
    let mut i: usize = 0;
    assert(input_order@.take(0) =~= Seq::<Timestamp>::empty());
    while i < input_order.len()
        invariant
            i <= input_order@.len(),
            rule.wf(),
            trace(*rule, prev_last, input_order@.take(i as int)) == (Trace {
                open,
                high,
                close,
                first,
            }),
        decreases input_order.len() - i,
    {
        assert(input_order@.take(i + 1).drop_last() =~= input_order@.take(i as int));
        let ts: Timestamp = input_order[i];
        let bucket: Timestamp = rule.calc_bucket_start(ts);
        let behind: bool = match high {
            Some(hw) => ts <= hw,
            None => false,
        };
        if behind {
            if let Some(current) = open {
                if bucket < current && first.is_none() {
                    first = Some(bucket);
                }
            }
        } else {
            high = Some(ts);
            match open {
                Some(current) => {
                    if bucket > current {
                        if first.is_none() {
                            first = Some(current);
                        }
                        close = Some(current);
                        open = Some(bucket);
                    }
                },
                None => {
                    open = Some(bucket);
                },
            }
        }
        i += 1;
    }
    assert(input_order@.take(i as int) =~= input_order@);
    (close, first)
}

fn was_filled(filled: &Vec<(Timestamp, Timestamp)>, ts: Timestamp) -> (r: bool)
    ensures
        r == is_filled(filled@, ts),
{
    let mut i: usize = 0;
    while i < filled.len()
        invariant
            i <= filled@.len(),
            forall|j: int| 0 <= j < i ==> (#[trigger] filled@[j]).0 != ts,
        decreases filled.len() - i,
    {
        if filled[i].0 == ts {
            assert(filled@[i as int].0 == ts);
            return true;
        }
        i += 1;
    }
    false
}

/// The floor that was in force when a bucket was filled for the last time.
fn last_fill_floor<A: Aggregation>(
    rule: &CompactionRule<A>,
    retention: u64,
    filled: &Vec<(Timestamp, Timestamp)>,
    bucket: Timestamp,
) -> (r: Timestamp)
    requires
        rule.wf(),
        retention <= i64::MAX,
    ensures
        r == fill_floor(*rule, retention, filled@, bucket),
{
    let mut i: usize = filled.len();
    assert(filled@.take(i as int) =~= filled@);
    while i > 0
        invariant
            i <= filled@.len(),
            rule.wf(),
            retention <= i64::MAX,
            fill_floor(*rule, retention, filled@, bucket) == fill_floor(
                *rule,
                retention,
                filled@.take(i as int),
                bucket,
            ),
        decreases i,
    {
        let (ts, max) = filled[i - 1];
        assert(filled@.take(i as int).drop_last() =~= filled@.take(i - 1));
        if rule.calc_bucket_start(ts) == bucket {
            return retention_floor(retention, max);
        }
        i -= 1;
    }
    0
}

/// Rules that differ only in their open bucket cut time alike.
proof fn lemma_same_buckets<A: Aggregation>(
    a: CompactionRule<A>,
    b: CompactionRule<A>,
    retention: u64,
    filled: Seq<(Timestamp, Timestamp)>,
    bucket: Timestamp,
)
    requires
        a.same_terms(b),
    ensures
        fill_floor(a, retention, filled, bucket) == fill_floor(b, retention, filled, bucket),
        forall|ts: Timestamp| #[trigger] a.start_of(ts) == b.start_of(ts),
    decreases filled.len(),
{
    if filled.len() > 0 {
        lemma_same_buckets(a, b, retention, filled.drop_last(), bucket);
    }
}

/// Takes a batch of samples, which are in order.
#[verifier::rlimit(60)]
pub fn handle_batch_compaction<
    A: Aggregation,
    S: Fn(u64, u64) -> u64,
    R: Fn(RoundingStrategy, u64) -> u64,
    C: Fn(u64, u64, u64) -> bool,
>(
    parent: &TimeSeries<A>,
    dest: &mut TimeSeries<A>,
    rule: &mut CompactionRule<A>,
    written: &mut Vec<Sample>,
    samples: &[Sample],
    prev_last: Option<Timestamp>,
    input_order: &[Timestamp],
    ops: &ValueOps<S, R, C>,
) -> (r: Result<(), TsdbError>)
    requires
        parent.wf(),
        old(dest).wf(),
        old(rule).wf(),
        ops.ok(),
        is_sorted(samples@),
    ensures
        final(dest).wf(),
        final(dest).same_setup(*old(dest)),
        final(rule).wf(),
        final(rule).same_terms(*old(rule)),
        r is Ok,
        flow(*final(dest), *final(rule), final(written)@) == batched(
            flow(*old(dest), *old(rule), old(written)@),
            store_of(old(dest).terms(), *ops),
            source_of(*parent),
            samples@,
            prev_last,
            input_order@,
        ),
{
    let ghost f0 = flow(*dest, *rule, written@);
    let ghost store = store_of(dest.terms(), *ops);
    let ghost source = source_of(*parent);
    let ghost dest0 = *dest;
    let ghost rule0 = *rule;
    let marker_before: Option<Sample> = dest.last_forward_close;
    let (close, first) = trace_dest_cache_in_input_order(rule, prev_last, input_order);
    let filled = find_backfills(prev_last, input_order);
    let ghost fills = |s: Sample| is_filled(filled@, s.timestamp);
    let ghost streams = |s: Sample| !is_filled(filled@, s.timestamp);
    let mut upserts: Vec<Sample> = Vec::new();
    let mut appends: Vec<Sample> = Vec::new();
    let mut i: usize = 0;
    proof {
        reveal(Seq::filter);
        assert(samples@.take(0) =~= Seq::<Sample>::empty());
        assert(upserts@ =~= samples@.take(0).filter(fills));
        assert(appends@ =~= samples@.take(0).filter(streams));
    }
    while i < samples.len()
        invariant
            i <= samples@.len(),
            fills == (|s: Sample| is_filled(filled@, s.timestamp)),
            streams == (|s: Sample| !is_filled(filled@, s.timestamp)),
            upserts@ == samples@.take(i as int).filter(fills),
            appends@ == samples@.take(i as int).filter(streams),
        decreases samples.len() - i,
    {
        proof {
            reveal(Seq::filter);
            assert(samples@.take(i + 1).drop_last() =~= samples@.take(i as int));
        }
        let s: Sample = samples[i];
        if was_filled(&filled, s.timestamp) {
            upserts.push(s);
        } else {
            appends.push(s);
        }
        i += 1;
    }
    assert(samples@.take(i as int) =~= samples@);
    let mut j: usize = 0;
    assert(appends@.take(0) =~= Seq::<Sample>::empty());
    while j < appends.len()
        invariant
            j <= appends@.len(),
            parent.wf(),
            dest.wf(),
            dest.same_setup(dest0),
            rule.wf(),
            rule.same_terms(rule0),
            ops.ok(),
            store == store_of(dest0.terms(), *ops),
            source == source_of(*parent),
            flow(*dest, *rule, written@) == stream_all(
                f0,
                store,
                source,
                appends@.take(j as int),
            ),
        decreases appends.len() - j,
    {
        assert(appends@.take(j + 1).drop_last() =~= appends@.take(j as int));
        assert(dest.terms() == dest0.terms());
        match handle_sample_compaction(parent, dest, rule, written, appends[j], ops) {
            Ok(_) => {},
            Err(e) => {
                return Err(e);
            },
        }
        j += 1;
    }
    assert(appends@.take(j as int) =~= appends@);
    let ghost f1 = flow(*dest, *rule, written@);
    let mut prev_bucket: Option<Timestamp> = None;
    let mut k: usize = 0;
    assert(upserts@.take(0) =~= Seq::<Sample>::empty());
    while k < upserts.len()
        invariant
            k <= upserts@.len(),
            parent.wf(),
            dest.wf(),
            dest.same_setup(dest0),
            rule.wf(),
            rule.same_terms(rule0),
            f1.rule.same_terms(rule0),
            ops.ok(),
            store == store_of(dest0.terms(), *ops),
            source == source_of(*parent),
            prev_bucket == if k == 0 {
                None
            } else {
                Some(f1.rule.start_of(upserts@[k - 1].timestamp))
            },
            flow(*dest, *rule, written@) == refill_all(
                f1,
                store,
                source,
                filled@,
                upserts@.take(k as int),
            ),
        decreases upserts.len() - k,
    {
        let ghost part = upserts@.take(k + 1);
        proof {
            assert(part.drop_last() =~= upserts@.take(k as int));
            assert(part.last() == upserts@[k as int]);
            assert(dest.terms() == dest0.terms());
        }
        let bucket: Timestamp = rule.calc_bucket_start(upserts[k].timestamp);
        proof {
            lemma_same_buckets(*rule, f1.rule, source.retention, filled@, bucket);
        }
        let same: bool = match prev_bucket {
            Some(b) => b == bucket,
            None => false,
        };
        if !same {
            let floor: Timestamp = last_fill_floor(rule, parent.retention, &filled, bucket);
            let open: bool = match rule.bucket_start {
                Some(b) => b == bucket,
                None => true,
            };
            if open {
                let ghost rule1 = *rule;
                recalculate_current_bucket(parent, rule, bucket, floor);
                assert(flow(*dest, *rule, written@) == reread(
                    flow(*dest, rule1, written@),
                    parent.samples(),
                    bucket,
                    floor,
                ));
            } else {
                match recalculate_bucket(parent, dest, rule, written, bucket, floor, None, ops) {
                    Ok(_) => {},
                    Err(e) => {
                        return Err(e);
                    },
                }
            }
        }
        prev_bucket = Some(bucket);
        k += 1;
    }
    assert(upserts@.take(k as int) =~= upserts@);
    let marker: Option<Timestamp> = match close {
        Some(ts) => Some(ts),
        None => match marker_before {
            Some(m) => Some(m.timestamp),
            None => first,
        },
    };
    dest.last_forward_close = match marker {
        Some(ts) => match dest.get_sample(ts) {
            Ok(found) => found,
            Err(_) => None,
        },
        None => None,
    };
    Ok(())
}

} // verus!
