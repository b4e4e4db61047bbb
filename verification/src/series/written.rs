//! What a compaction tells of its destination is what it did to it.
//!
//! The samples that a rule reports as written go on to the rules of its destination, and to those who
//! watch it. So none may be missing that the destination has got, and what is reported is what it holds.
use crate::aggregation::{fed, Aggregation};
use crate::error::TsdbError;
use crate::postings::SeriesRef;
use crate::sample::{is_strictly_sorted, DuplicatePolicy, Sample, SampleAddResult, Timestamp};
use crate::series::batch::{
    fill_floor, is_filled, marked, refill_all, replay, stream_all, trace,
};
use crate::series::cascade::{
    applied, at_timestamp, dest_ids, due, first_error, is_batch, is_id_queue, is_queue_of, last_with,
    wrote, PendingCompaction, RuleOutcome,
};
use crate::series::compaction::{
    cut, just_before, put, readable, remade, removed, replaced, reread, resynced, shrunk,
    store_of, streamed, CompactionOp, Flow, Source, Store,
};
use crate::series::ingest_laws::{law_single_add, lemma_held_at};
use crate::series::store::{
    last_of, lemma_filter_from, lemma_sample_at, sample_at, RoundingStrategy, Terms, ValueOps,
};
use crate::series::update::lemma_filter_strict;
use vstd::prelude::*;

verus! {

/// Storing a sample tells what it does: the destination holds what is told to be stored at its
/// timestamp, and is otherwise as it was.
pub open spec fn tells_one(store: Store, s: Seq<Sample>, ts: Timestamp, v: u64) -> bool {
    let (told, t) = store(s, ts, v);
    &&& is_strictly_sorted(t)
    &&& match told {
        SampleAddResult::Stored(x) => {
            &&& x.timestamp == ts
            &&& forall|at: Timestamp| #[trigger]
                sample_at(t, at) == if at == ts {
                    Some(x)
                } else {
                    sample_at(s, at)
                }
        },
        _ => t == s,
    }
}

/// Storing samples tells what it does.
pub open spec fn tells_what_it_does(store: Store) -> bool {
    forall|s: Seq<Sample>, ts: Timestamp, v: u64|
        is_strictly_sorted(s) ==> #[trigger] tells_one(store, s, ts, v)
}

/// Destinations tell what they store.
pub proof fn law_destinations_tell<
    S: Fn(u64, u64) -> u64,
    R: Fn(RoundingStrategy, u64) -> u64,
    C: Fn(u64, u64, u64) -> bool,
>(terms: Terms, ops: ValueOps<S, R, C>)
    ensures
        tells_what_it_does(store_of(terms, ops)),
{
    let store = store_of(terms, ops);
    assert forall|s: Seq<Sample>, ts: Timestamp, v: u64| is_strictly_sorted(s) implies #[trigger]
    tells_one(store, s, ts, v) by {
        law_single_add(terms, s, ts, v, Some(DuplicatePolicy::KeepLast), ops);
    }
}

/// A destination holds at a timestamp what was written there last, or what it held before where
/// nothing was; unless it holds nothing there any more.
pub open spec fn is_accounted<A: Aggregation>(
    before: Seq<Sample>,
    f: Flow<A>,
    ts: Timestamp,
) -> bool {
    sample_at(f.dest, ts) is None || sample_at(f.dest, ts) == match last_with(f.written, ts) {
        Some(x) => Some(x),
        None => sample_at(before, ts),
    }
}

/// All that a destination holds was written, or was there before; and its marker is on a bucket that it
/// holds.
pub open spec fn is_reported<A: Aggregation>(before: Seq<Sample>, f: Flow<A>) -> bool {
    &&& is_strictly_sorted(f.dest)
    &&& forall|ts: Timestamp| #[trigger] is_accounted(before, f, ts)
    &&& f.marker matches Some(m) ==> sample_at(f.dest, m.timestamp) is Some
}

proof fn lemma_put<A: Aggregation>(
    before: Seq<Sample>,
    f: Flow<A>,
    store: Store,
    ts: Timestamp,
    value: u64,
)
    requires
        is_reported(before, f),
        tells_what_it_does(store),
    ensures
        is_reported(before, put(f, store, ts, value).0),
        put(f, store, ts, value).1 matches Some(x) ==> x.timestamp == f.rule.start_of(ts)
            && sample_at(put(f, store, ts, value).0.dest, x.timestamp) == Some(x)
            && put(f, store, ts, value).0.written == f.written.push(x),
        put(f, store, ts, value).1 is None ==> put(f, store, ts, value).0.written == f.written,
        put(f, store, ts, value).0.rule == f.rule,
{
    let at = f.rule.start_of(ts);
    let g = put(f, store, ts, value).0;
    assert(tells_one(store, f.dest, at, value));
    assert forall|t: Timestamp| #[trigger] is_accounted(before, g, t) by {
        assert(is_accounted(before, f, t));
        if let Some(x) = put(f, store, ts, value).1 {
            assert(f.written.push(x).drop_last() =~= f.written);
        }
    }
    if let Some(m) = g.marker {
        if f.marker is Some {
            assert(sample_at(f.dest, m.timestamp) is Some);
        }
    }
}

proof fn lemma_cut<A: Aggregation>(
    before: Seq<Sample>,
    f: Flow<A>,
    start: Timestamp,
    end: Timestamp,
)
    requires
        is_reported(before, f),
    ensures
        is_reported(before, cut(f, start, end)),
        cut(f, start, end).rule == f.rule,
        cut(f, start, end).written == f.written,
{
    let g = cut(f, start, end);
    let p = |x: Sample| !(start <= x.timestamp <= end);
    lemma_filter_strict(f.dest, p);
    lemma_filter_from(f.dest, p);
    assert(g.dest == f.dest.filter(p));
    assert forall|t: Timestamp| #[trigger] is_accounted(before, g, t) by {
        assert(is_accounted(before, f, t));
        lemma_held_at(g.dest, t);
        lemma_held_at(f.dest, t);
        if let Some(x) = sample_at(g.dest, t) {
            let i = choose|i: int| 0 <= i < g.dest.len() && g.dest[i] == x;
            assert(f.dest.contains(f.dest.filter(p)[i]));
        }
    }
    if f.marker is Some && sample_at(g.dest, f.marker->0.timestamp) is None && g.dest.len() > 0 {
        lemma_held_at(g.dest, g.dest.last().timestamp);
        assert(g.dest.contains(g.dest.last()));
    }
}

/// The last sample with a timestamp has it, and none behind it does.
pub proof fn law_last_with(s: Seq<Sample>, ts: Timestamp)
    ensures
        match last_with(s, ts) {
            Some(x) => exists|i: int| #[trigger] is_last_at(s, i, ts) && s[i] == x,
            None => forall|i: int| 0 <= i < s.len() ==> (#[trigger] s[i]).timestamp != ts,
        },
    decreases s.len(),
{
    if s.len() > 0 {
        let less = s.drop_last();
        law_last_with(less, ts);
        if s.last().timestamp == ts {
            assert(is_last_at(s, s.len() - 1, ts));
        } else {
            match last_with(less, ts) {
                Some(x) => {
                    let i = choose|i: int| #[trigger] is_last_at(less, i, ts) && less[i] == x;
                    assert(is_last_at(s, i, ts)) by {
                        assert forall|k: int| i < k < s.len() implies (#[trigger] s[k]).timestamp
                            != ts by {
                            if k < less.len() {
                                assert(less[k] == s[k]);
                            }
                        }
                    }
                },
                None => {
                    assert forall|i: int| 0 <= i < s.len() implies (#[trigger] s[i]).timestamp
                        != ts by {
                        if i < less.len() {
                            assert(less[i] == s[i]);
                        }
                    }
                },
            }
        }
    }
}

/// A place is the last of a list at which there is a timestamp.
pub open spec fn is_last_at(s: Seq<Sample>, i: int, ts: Timestamp) -> bool {
    &&& 0 <= i < s.len()
    &&& s[i].timestamp == ts
    &&& forall|k: int| i < k < s.len() ==> (#[trigger] s[k]).timestamp != ts
}

proof fn lemma_remade<A: Aggregation>(
    before: Seq<Sample>,
    f: Flow<A>,
    store: Store,
    s: Seq<Sample>,
    start: Timestamp,
    floor: Timestamp,
    excluded: Option<(Timestamp, Timestamp)>,
)
    requires
        is_reported(before, f),
        tells_what_it_does(store),
    ensures
        is_reported(before, remade(f, store, s, start, floor, excluded)),
        is_one_step(f, remade(f, store, s, start, floor, excluded)),
{
    let last = just_before(f.rule.end_of(start));
    let read = readable(s, start, last, floor, excluded);
    let clear = f.rule.aggregator.cleared();
    lemma_put(before, f, store, start, fed(clear, read).result());
    lemma_cut(before, f, start, last);
}

/// At most one sample was written, and the destination holds it.
spec fn is_one_step<A: Aggregation>(f: Flow<A>, g: Flow<A>) -> bool {
    ||| g.written == f.written
    ||| exists|x: Sample| #[trigger]
        g.written == f.written.push(x) && sample_at(g.dest, x.timestamp) == Some(x)
}

proof fn lemma_streamed<A: Aggregation>(
    before: Seq<Sample>,
    f: Flow<A>,
    store: Store,
    source: Source,
    sample: Sample,
)
    requires
        is_reported(before, f),
        tells_what_it_does(store),
    ensures
        is_reported(before, streamed(f, store, source, sample)),
        is_one_step(f, streamed(f, store, source, sample)),
{
    let start = f.rule.start_of(sample.timestamp);
    let g = streamed(f, store, source, sample);
    if let Some(open) = f.rule.bucket_start {
        if start > open {
            if f.rule.has_samples {
                lemma_put(before, f, store, open, f.rule.aggregator.result());
                let (h, stored) = put(f, store, open, f.rule.aggregator.result());
                assert(g.dest == h.dest && g.written == h.written);
            }
        } else if start < open {
            lemma_remade(before, f, store, source.samples, start, source.floor(), None);
        }
    }
    assert forall|ts: Timestamp| #[trigger] is_accounted(before, g, ts) by {
        assert(is_accounted(before, f, ts));
        if let Some(open) = f.rule.bucket_start {
            let h = put(f, store, open, f.rule.aggregator.result()).0;
            if start > open && f.rule.has_samples {
                assert(is_accounted(before, h, ts));
            }
        }
    }
}

proof fn lemma_replaced<A: Aggregation>(
    before: Seq<Sample>,
    f: Flow<A>,
    store: Store,
    source: Source,
    sample: Sample,
)
    requires
        is_reported(before, f),
        tells_what_it_does(store),
    ensures
        is_reported(before, replaced(f, store, source, sample)),
        is_one_step(f, replaced(f, store, source, sample)),
{
    let start = f.rule.start_of(sample.timestamp);
    let g = replaced(f, store, source, sample);
    lemma_remade(before, f, store, source.samples, start, source.floor(), None);
    if f.rule.bucket_start is None || f.rule.bucket_start == Some(start) {
        lemma_same_held(before, f, g);
    }
}

proof fn lemma_same_held<A: Aggregation>(before: Seq<Sample>, f: Flow<A>, g: Flow<A>)
    requires
        is_reported(before, f),
        g.dest == f.dest,
        g.written == f.written,
        g.marker == f.marker,
    ensures
        is_reported(before, g),
{
    assert forall|ts: Timestamp| #[trigger] is_accounted(before, g, ts) by {
        assert(is_accounted(before, f, ts));
    }
}

proof fn lemma_shrunk<A: Aggregation>(
    before: Seq<Sample>,
    f: Flow<A>,
    store: Store,
    source: Source,
    bucket: Timestamp,
    start: Timestamp,
    end: Timestamp,
)
    requires
        is_reported(before, f),
        tells_what_it_does(store),
    ensures
        is_reported(before, shrunk(f, store, source, bucket, start, end)),
{
    lemma_cut(before, f, bucket, just_before(f.rule.end_of(bucket)));
    lemma_remade(
        before,
        f,
        store,
        source.samples,
        bucket,
        source.floor(),
        Some((start, end)),
    );
}

proof fn lemma_resynced<A: Aggregation>(before: Seq<Sample>, f: Flow<A>, source: Source)
    requires
        is_reported(before, f),
    ensures
        is_reported(before, resynced(f, source)),
{
    let g = resynced(f, source);
    match last_of(source.samples) {
        None => {
            let h = Flow { rule: f.rule.idle(), ..f };
            lemma_same_held(before, f, h);
            lemma_cut(before, h, i64::MIN, i64::MAX);
        },
        Some(last) => {
            let start = f.rule.start_of(last.timestamp);
            lemma_cut(before, f, start, i64::MAX);
            let h = if f.dest.len() > 0 {
                cut(f, start, i64::MAX)
            } else {
                f
            };
            lemma_same_held(before, h, g);
        },
    }
}

proof fn lemma_removed<A: Aggregation>(
    before: Seq<Sample>,
    f: Flow<A>,
    store: Store,
    source: Source,
    start: Timestamp,
    end: Timestamp,
)
    requires
        is_reported(before, f),
        tells_what_it_does(store),
    ensures
        is_reported(before, removed(f, store, source, start, end)),
{
    let first = f.rule.start_of(start);
    let last = f.rule.start_of(end);
    lemma_shrunk(before, f, store, source, first, start, end);
    let g = shrunk(f, store, source, first, start, end);
    let middle = f.rule.end_of(first);
    lemma_cut(before, g, middle, just_before(last));
    let k = if middle < last && g.dest.len() > 0 {
        cut(g, middle, just_before(last))
    } else {
        g
    };
    lemma_shrunk(before, k, store, source, last, start, end);
    let h = if last != first {
        shrunk(k, store, source, last, start, end)
    } else {
        g
    };
    lemma_resynced(before, h, source);
}

proof fn lemma_stream_all<A: Aggregation>(
    before: Seq<Sample>,
    f: Flow<A>,
    store: Store,
    source: Source,
    s: Seq<Sample>,
)
    requires
        is_reported(before, f),
        tells_what_it_does(store),
    ensures
        is_reported(before, stream_all(f, store, source, s)),
    decreases s.len(),
{
    if s.len() > 0 {
        lemma_stream_all(before, f, store, source, s.drop_last());
        lemma_streamed(
            before,
            stream_all(f, store, source, s.drop_last()),
            store,
            source,
            s.last(),
        );
    }
}

proof fn lemma_refill_all<A: Aggregation>(
    before: Seq<Sample>,
    f: Flow<A>,
    store: Store,
    source: Source,
    filled: Seq<(Timestamp, Timestamp)>,
    s: Seq<Sample>,
)
    requires
        is_reported(before, f),
        tells_what_it_does(store),
    ensures
        is_reported(before, refill_all(f, store, source, filled, s)),
    decreases s.len(),
{
    if s.len() > 0 {
        lemma_refill_all(before, f, store, source, filled, s.drop_last());
        let g = refill_all(f, store, source, filled, s.drop_last());
        let bucket = f.rule.start_of(s.last().timestamp);
        let floor = fill_floor(g.rule, source.retention, filled, bucket);
        lemma_remade(before, g, store, source.samples, bucket, floor, None);
        lemma_same_held(before, g, reread(g, source.samples, bucket, floor));
    }
}

proof fn lemma_applied<A: Aggregation>(
    f: Flow<A>,
    store: Store,
    source: Source,
    op: CompactionOp<'_>,
)
    requires
        f.written.len() == 0,
        is_strictly_sorted(f.dest),
        f.marker matches Some(m) ==> sample_at(f.dest, m.timestamp) is Some,
        tells_what_it_does(store),
    ensures
        is_reported(f.dest, applied(f, store, source, op)),
        op is AddNew || op is Upsert ==> is_one_step(f, applied(f, store, source, op)),
{
    let g = applied(f, store, source, op);
    assert(f.written =~= Seq::<Sample>::empty());
    assert(is_reported(f.dest, f));
    match op {
        CompactionOp::AddNew(s) => {
            lemma_streamed(f.dest, f, store, source, s);
        },
        CompactionOp::Upsert(s) => {
            lemma_replaced(f.dest, f, store, source, s);
        },
        CompactionOp::AddBatch { samples, prev_last, input_order } => {
            let filled = replay(prev_last, input_order@).filled;
            let appended = samples@.filter(|s: Sample| !is_filled(filled, s.timestamp));
            let upserts = samples@.filter(|s: Sample| is_filled(filled, s.timestamp));
            lemma_stream_all(f.dest, f, store, source, appended);
            let k = stream_all(f, store, source, appended);
            lemma_refill_all(f.dest, k, store, source, filled, upserts);
            let h = refill_all(k, store, source, filled, upserts);
            assert(g.dest == h.dest && g.written == h.written);
            assert forall|ts: Timestamp| #[trigger] is_accounted(f.dest, g, ts) by {
                assert(is_accounted(f.dest, h, ts));
            }
            if let Some(m) = g.marker {
                let ts = marked(trace(f.rule, prev_last, input_order@), f.marker)->0;
                lemma_sample_at(h.dest, ts);
                assert(m.timestamp == ts);
            }
        },
        CompactionOp::RemoveRange { start, end } => {
            lemma_removed(f.dest, f, store, source, start, end);
        },
    }
}

/// What a change of a source does to a destination is told in full. Every sample that the destination
/// holds after it, and did not before, is among those written. Where a sample was written and the
/// destination holds one at its timestamp, it is the one that was written there last. A single sample
/// makes for one that is written at most, and the destination holds it. The marker stays on a bucket
/// that the destination holds.
pub proof fn law_written<A: Aggregation>(
    f: Flow<A>,
    store: Store,
    source: Source,
    op: CompactionOp<'_>,
)
    requires
        f.written.len() == 0,
        is_strictly_sorted(f.dest),
        f.marker matches Some(m) ==> sample_at(f.dest, m.timestamp) is Some,
        tells_what_it_does(store),
    ensures
        ({
            let g = applied(f, store, source, op);
            &&& forall|x: Sample| #[trigger]
                g.dest.contains(x) && !f.dest.contains(x) ==> g.written.contains(x)
            &&& forall|ts: Timestamp, i: int|
                #[trigger] is_last_at(g.written, i, ts) && sample_at(g.dest, ts) is Some
                    ==> sample_at(g.dest, ts) == Some(g.written[i])
            &&& op is AddNew || op is Upsert ==> g.written.len() <= 1 && forall|i: int|
                0 <= i < g.written.len() ==> g.dest.contains(#[trigger] g.written[i])
            &&& g.marker matches Some(m) ==> sample_at(g.dest, m.timestamp) is Some
        }),
{
    let g = applied(f, store, source, op);
    lemma_applied(f, store, source, op);
    assert(is_reported(f.dest, g));
    assert forall|x: Sample| #[trigger] g.dest.contains(x) && !f.dest.contains(x) implies
        g.written.contains(x) by {
        let ts = x.timestamp;
        assert(is_accounted(f.dest, g, ts));
        lemma_held_at(g.dest, ts);
        lemma_held_at(f.dest, ts);
        law_last_with(g.written, ts);
        assert(sample_at(g.dest, ts) == Some(x));
        if last_with(g.written, ts) is Some {
            let i = choose|i: int| #[trigger] is_last_at(g.written, i, ts) && g.written[i] == x;
            assert(g.written[i] == x);
        }
    }
    assert forall|ts: Timestamp, i: int|
        #[trigger] is_last_at(g.written, i, ts) && sample_at(g.dest, ts) is Some implies sample_at(
        g.dest,
        ts,
    ) == Some(g.written[i]) by {
        assert(is_accounted(f.dest, g, ts));
        law_last_with(g.written, ts);
        assert(g.written[i].timestamp == ts);
        let j = choose|j: int|
            #[trigger] is_last_at(g.written, j, ts) && g.written[j] == last_with(g.written, ts)->0;
        assert(g.written[j].timestamp == ts);
    }
    if op is AddNew || op is Upsert {
        assert(is_one_step(f, g));
        if g.written.len() > 0 {
            let x = choose|x: Sample| #[trigger]
                g.written == f.written.push(x) && sample_at(g.dest, x.timestamp) == Some(x);
            lemma_held_at(g.dest, x.timestamp);
        }
    }
}

/// The outcomes that go on are those in which something was written.
pub proof fn law_wrote(outcomes: Seq<RuleOutcome>)
    ensures
        forall|o: RuleOutcome| #[trigger]
            wrote(outcomes).contains(o) <==> outcomes.contains(o) && o.written@.len() > 0,
        wrote(outcomes).len() <= outcomes.len(),
    decreases outcomes.len(),
{
    reveal(Seq::filter);
    if outcomes.len() > 0 {
        let less = outcomes.drop_last();
        law_wrote(less);
        let last = outcomes.last();
        let some = |o: RuleOutcome| o.written@.len() > 0;
        assert(wrote(outcomes) == outcomes.filter(some));
        assert forall|o: RuleOutcome| #[trigger]
            wrote(outcomes).contains(o) <==> outcomes.contains(o) && o.written@.len() > 0 by {
            assert(wrote(less).contains(o) <==> less.contains(o) && o.written@.len() > 0);
            assert(outcomes[outcomes.len() - 1] == last);
            if outcomes.contains(o) {
                let i = choose|i: int| 0 <= i < outcomes.len() && outcomes[i] == o;
                if i < less.len() {
                    assert(less[i] == o);
                }
            }
            if less.contains(o) {
                let i = choose|i: int| 0 <= i < less.len() && less[i] == o;
                assert(outcomes[i] == o);
            }
            if wrote(less).contains(o) {
                let i = choose|i: int| 0 <= i < wrote(less).len() && wrote(less)[i] == o;
                assert(wrote(outcomes)[i] == o);
            }
            if some(last) {
                assert(wrote(outcomes) == wrote(less).push(last));
                assert(wrote(outcomes)[wrote(less).len() as int] == last);
                if wrote(outcomes).contains(o) {
                    let i = choose|i: int| 0 <= i < wrote(outcomes).len() && wrote(outcomes)[i] == o;
                    if i < wrote(less).len() {
                        assert(wrote(less)[i] == o);
                    }
                }
            } else {
                assert(wrote(outcomes) == wrote(less));
            }
        }
    }
}

/// A series waits for its turn with the samples that were written in it: the last one for each
/// timestamp, in order, together with its last timestamp from before.
pub open spec fn waits_with(p: PendingCompaction, o: RuleOutcome) -> bool {
    &&& p.id == o.dest_id
    &&& p.prev_last == o.dest_prev_last
    &&& is_strictly_sorted(p.samples@)
    &&& forall|x: Sample| #[trigger]
        p.samples@.contains(x) <==> exists|i: int|
            #[trigger] is_last_at(o.written@, i, x.timestamp) && o.written@[i] == x
}

/// Every destination in which something was written gets its turn, with what was written.
pub proof fn law_writers_wait(p: Seq<PendingCompaction>, outcomes: Seq<RuleOutcome>)
    requires
        is_queue_of(p, wrote(outcomes)),
    ensures
        forall|k: int|
            0 <= k < outcomes.len() && (#[trigger] outcomes[k]).written@.len() > 0 ==> has_turn(
                p,
                outcomes[k],
            ),
        forall|i: int|
            0 <= i < p.len() ==> (#[trigger] p[i]).samples@.len() > 0 && is_turn_of_some(
                p[i],
                outcomes,
            ),
{
    let q = wrote(outcomes);
    law_wrote(outcomes);
    assert forall|i: int| 0 <= i < p.len() implies waits_with(#[trigger] p[i], q[i])
        && p[i].samples@.len() > 0 by {
        lemma_batch(p[i].samples@, q[i].written@);
        assert(q.contains(q[i]));
        let w = q[i].written@;
        law_last_with(w, w[0].timestamp);
        let k = choose|k: int| #[trigger] is_last_at(w, k, w[0].timestamp);
        assert(p[i].samples@.contains(w[k]));
    }
    assert forall|k: int|
        0 <= k < outcomes.len() && (#[trigger] outcomes[k]).written@.len() > 0 implies has_turn(
        p,
        outcomes[k],
    ) by {
        assert(outcomes.contains(outcomes[k]));
        assert(q.contains(outcomes[k]));
        let i = choose|i: int| 0 <= i < q.len() && q[i] == outcomes[k];
        assert(waits_with(p[i], outcomes[k]));
    }
    assert forall|i: int| 0 <= i < p.len() implies is_turn_of_some(#[trigger] p[i], outcomes) by {
        assert(q.contains(q[i]));
        let k = choose|k: int| 0 <= k < outcomes.len() && outcomes[k] == q[i];
        assert(waits_with(p[i], outcomes[k]));
    }
}

/// One of the series that wait is the destination of an outcome.
pub open spec fn has_turn(p: Seq<PendingCompaction>, o: RuleOutcome) -> bool {
    exists|i: int| 0 <= i < p.len() && waits_with(#[trigger] p[i], o)
}

/// A series that waits is the destination of one of the outcomes.
pub open spec fn is_turn_of_some(p: PendingCompaction, outcomes: Seq<RuleOutcome>) -> bool {
    exists|k: int| 0 <= k < outcomes.len() && waits_with(p, #[trigger] outcomes[k])
}

proof fn lemma_batch(batch: Seq<Sample>, written: Seq<Sample>)
    requires
        is_batch(batch, written),
    ensures
        forall|x: Sample| #[trigger]
            batch.contains(x) <==> exists|i: int|
                #[trigger] is_last_at(written, i, x.timestamp) && written[i] == x,
{
    assert forall|x: Sample| #[trigger]
        batch.contains(x) <==> exists|i: int|
            #[trigger] is_last_at(written, i, x.timestamp) && written[i] == x by {
        let ts = x.timestamp;
        law_last_with(written, ts);
        assert(at_timestamp(batch, ts) == last_with(written, ts));
        if batch.contains(x) {
            let i = choose|i: int| 0 <= i < batch.len() && batch[i] == x;
            assert(batch[i].timestamp == ts);
            let k = choose|k: int| 0 <= k < batch.len() && (#[trigger] batch[k]).timestamp == ts;
            if k < i {
                assert(batch[k].timestamp < batch[i].timestamp);
            }
            if i < k {
                assert(batch[i].timestamp < batch[k].timestamp);
            }
            assert(at_timestamp(batch, ts) == Some(x));
        }
        if exists|i: int| #[trigger] is_last_at(written, i, ts) && written[i] == x {
            let i = choose|i: int| #[trigger] is_last_at(written, i, ts) && written[i] == x;
            assert(written[i].timestamp == ts);
            let j = choose|j: int|
                #[trigger] is_last_at(written, j, ts) && written[j] == last_with(written, ts)->0;
            assert(written[j].timestamp == ts);
            assert(i == j);
            assert(at_timestamp(batch, ts) == Some(x));
            let k = choose|k: int| 0 <= k < batch.len() && (#[trigger] batch[k]).timestamp == ts;
            assert(batch[k] == x);
        }
    }
}

/// A removal goes on to every destination.
pub proof fn law_removal_goes_on(p: Seq<PendingCompaction>, outcomes: Seq<RuleOutcome>)
    requires
        is_id_queue(p, dest_ids(outcomes)),
    ensures
        p.len() == outcomes.len(),
        forall|k: int|
            0 <= k < outcomes.len() ==> (#[trigger] p[k]).id == outcomes[k].dest_id
                && p[k].samples@.len() == 0,
{
    assert forall|k: int| 0 <= k < outcomes.len() implies (#[trigger] p[k]).id
        == outcomes[k].dest_id && p[k].samples@.len() == 0 by {
        assert(dest_ids(outcomes)[k] == outcomes[k].dest_id);
    }
}

/// Whose turn is next: what waits at the end and had its turn is dropped, and the first from the end
/// that had none is the next.
pub proof fn law_due(p: Seq<PendingCompaction>, visited: Seq<SeriesRef>)
    ensures
        due(p, visited).len() <= p.len(),
        due(p, visited) == p.take(due(p, visited).len() as int),
        forall|i: int|
            due(p, visited).len() <= i < p.len() ==> visited.contains((#[trigger] p[i]).id),
        due(p, visited).len() > 0 ==> !visited.contains(due(p, visited).last().id),
        due(p, visited).len() == 0 <==> forall|i: int|
            0 <= i < p.len() ==> visited.contains((#[trigger] p[i]).id),
    decreases p.len(),
{
    if p.len() == 0 || !visited.contains(p.last().id) {
        assert(p.take(p.len() as int) =~= p);
        if p.len() > 0 {
            assert(p[p.len() - 1] == p.last());
        }
    } else {
        let less = p.drop_last();
        law_due(less, visited);
        let n = due(p, visited).len() as int;
        assert(p.take(n) =~= less.take(n));
        assert forall|i: int| n <= i < p.len() implies visited.contains((#[trigger] p[i]).id) by {
            if i < less.len() {
                assert(less[i] == p[i]);
            }
        }
        if n == 0 {
            assert forall|i: int| 0 <= i < p.len() implies visited.contains(
                (#[trigger] p[i]).id,
            ) by {
                if i < less.len() {
                    assert(less[i] == p[i]);
                }
            }
        } else {
            assert(due(p, visited).last() == p[n - 1]);
        }
    }
}

/// The first error of results is the one before which there is none.
pub proof fn law_first_error(results: Seq<Result<RuleOutcome, TsdbError>>)
    ensures
        match first_error(results) {
            Some(e) => exists|i: int|
                {
                    &&& 0 <= i < results.len()
                    &&& #[trigger] results[i] == Err::<RuleOutcome, TsdbError>(e)
                    &&& forall|k: int| 0 <= k < i ==> (#[trigger] results[k]) is Ok
                },
            None => forall|i: int| 0 <= i < results.len() ==> (#[trigger] results[i]) is Ok,
        },
    decreases results.len(),
{
    if results.len() > 0 {
        let less = results.drop_last();
        law_first_error(less);
        let n = results.len() - 1;
        match first_error(less) {
            Some(e) => {
                let i = choose|i: int|
                    {
                        &&& 0 <= i < less.len()
                        &&& #[trigger] less[i] == Err::<RuleOutcome, TsdbError>(e)
                        &&& forall|k: int| 0 <= k < i ==> (#[trigger] less[k]) is Ok
                    };
                assert(results[i] == less[i]);
                assert forall|k: int| 0 <= k < i implies (#[trigger] results[k]) is Ok by {
                    assert(less[k] == results[k]);
                }
            },
            None => {
                assert forall|k: int| 0 <= k < n implies (#[trigger] results[k]) is Ok by {
                    assert(less[k] == results[k]);
                }
                if results[n] is Err {
                    assert(results[n] == Err::<RuleOutcome, TsdbError>(first_error(results)->0));
                }
            },
        }
    }
}

/// A bucket that is new in a destination goes on to the rules of the destination.
pub proof fn law_new_bucket_goes_on<A: Aggregation>(
    f: Flow<A>,
    store: Store,
    source: Source,
    op: CompactionOp<'_>,
    outcomes: Seq<RuleOutcome>,
    k: int,
    p: Seq<PendingCompaction>,
    x: Sample,
)
    requires
        f.written.len() == 0,
        is_strictly_sorted(f.dest),
        f.marker matches Some(m) ==> sample_at(f.dest, m.timestamp) is Some,
        tells_what_it_does(store),
        0 <= k < outcomes.len(),
        outcomes[k].written@ == applied(f, store, source, op).written,
        is_queue_of(p, wrote(outcomes)),
        applied(f, store, source, op).dest.contains(x),
        !f.dest.contains(x),
    ensures
        exists|i: int|
            0 <= i < p.len() && (#[trigger] p[i]).id == outcomes[k].dest_id
                && p[i].samples@.contains(x),
{
    let g = applied(f, store, source, op);
    law_written(f, store, source, op);
    law_writers_wait(p, outcomes);
    assert(g.written.contains(x));
    let i = choose|i: int| 0 <= i < p.len() && waits_with(#[trigger] p[i], outcomes[k]);
    let ts = x.timestamp;
    law_last_with(g.written, ts);
    lemma_applied(f, store, source, op);
    lemma_held_at(g.dest, ts);
    let n = choose|n: int| 0 <= n < g.written.len() && g.written[n] == x;
    assert(g.written[n].timestamp == ts);
    let m = choose|m: int| #[trigger] is_last_at(g.written, m, ts);
    assert(g.written[m] == x);
    assert(p[i].samples@.contains(x));
}

} // verus!
