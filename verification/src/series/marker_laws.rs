//! Where the marker of a destination stands: on the bucket that was closed last by going forward.
use crate::aggregation::Aggregation;
use crate::sample::{Sample, SampleAddResult, Timestamp};
use crate::series::batch::{batched, replay, trace};
use crate::series::compaction::{cut, put, streamed, Flow, Source, Store};
use crate::series::laws::{is_synced, law_buckets};
use crate::series::rule::CompactionRule;
use crate::series::store::{lemma_sample_at, sample_at};
use vstd::prelude::*;

verus! {

/// Storing a bucket sets a marker that is not set to what was stored, and leaves one that is.
pub proof fn law_marker_stored<A: Aggregation>(f: Flow<A>, store: Store, ts: Timestamp, v: u64)
    ensures
        f.marker is Some ==> put(f, store, ts, v).0.marker == f.marker,
        f.marker is None ==> put(f, store, ts, v).0.marker == match store(
            f.dest,
            f.rule.start_of(ts),
            v,
        ).0 {
            SampleAddResult::Stored(s) => Some(s),
            _ => None,
        },
{
}

/// A sample that opens a later bucket moves the marker to the bucket that it closes, where that is
/// stored. A sample of the open bucket leaves it.
pub proof fn law_marker_moves<A: Aggregation>(
    f: Flow<A>,
    store: Store,
    source: Source,
    sample: Sample,
    open: Timestamp,
)
    requires
        f.rule.bucket_start == Some(open),
    ensures
        ({
            let start = f.rule.start_of(sample.timestamp);
            let g = streamed(f, store, source, sample);
            let stored = store(f.dest, f.rule.start_of(open), f.rule.aggregator.result()).0;
            &&& start == open ==> g.marker == f.marker
            &&& start > open && !f.rule.has_samples ==> g.marker == f.marker
            &&& start > open && f.rule.has_samples ==> match stored {
                SampleAddResult::Stored(s) => g.marker == Some(s),
                _ => g.marker == f.marker,
            }
        }),
{
}

/// After buckets were removed a marker stands on a bucket that is left: the one that it was on, or
/// the last. It is not set where it was not, or where none is left.
pub proof fn law_marker_kept<A: Aggregation>(f: Flow<A>, start: Timestamp, end: Timestamp)
    ensures
        ({
            let g = cut(f, start, end);
            let left = |m: Sample| sample_at(g.dest, m.timestamp) is Some;
            &&& f.marker is None ==> g.marker is None
            &&& f.marker is Some && left(f.marker->0) ==> g.marker == f.marker
            &&& f.marker is Some && !left(f.marker->0) ==> {
                &&& g.dest.len() == 0 ==> g.marker is None
                &&& g.dest.len() > 0 ==> g.marker == Some(g.dest[g.dest.len() - 1])
            }
            &&& g.marker is Some ==> left(g.marker->0)
        }),
{
    let g = cut(f, start, end);
    if g.dest.len() > 0 {
        let last = g.dest[g.dest.len() - 1];
        lemma_sample_at(g.dest, last.timestamp);
        assert(sample_at(g.dest, last.timestamp) is Some);
    }
}

/// The highest timestamp before a place of a batch.
pub open spec fn high_before(
    prev_last: Option<Timestamp>,
    order: Seq<Timestamp>,
    i: int,
) -> Option<Timestamp> {
    replay(prev_last, order.take(i)).high
}

/// A timestamp of a batch goes forward into a later bucket.
pub open spec fn closes<A: Aggregation>(
    rule: CompactionRule<A>,
    prev_last: Option<Timestamp>,
    order: Seq<Timestamp>,
    i: int,
) -> bool {
    let high = high_before(prev_last, order, i);
    &&& 0 <= i < order.len()
    &&& high is Some
    &&& order[i] > high->0
    &&& rule.start_of(order[i]) > rule.start_of(high->0)
}

/// A timestamp of a batch goes back into an earlier bucket.
pub open spec fn refills<A: Aggregation>(
    rule: CompactionRule<A>,
    prev_last: Option<Timestamp>,
    order: Seq<Timestamp>,
    i: int,
) -> bool {
    let high = high_before(prev_last, order, i);
    &&& 0 <= i < order.len()
    &&& high is Some
    &&& order[i] <= high->0
    &&& rule.start_of(order[i]) < rule.start_of(high->0)
}

/// The last place where a batch goes forward into a later bucket.
pub open spec fn closes_last<A: Aggregation>(
    rule: CompactionRule<A>,
    prev_last: Option<Timestamp>,
    order: Seq<Timestamp>,
    i: int,
) -> bool {
    &&& closes(rule, prev_last, order, i)
    &&& forall|j: int| i < j ==> !#[trigger] closes(rule, prev_last, order, j)
}

/// The first place where a batch goes into another bucket.
pub open spec fn turns_first<A: Aggregation>(
    rule: CompactionRule<A>,
    prev_last: Option<Timestamp>,
    order: Seq<Timestamp>,
    i: int,
) -> bool {
    &&& closes(rule, prev_last, order, i) || refills(rule, prev_last, order, i)
    &&& forall|j: int| j < i ==> !#[trigger] closes(rule, prev_last, order, j)
    &&& forall|j: int| j < i ==> !#[trigger] refills(rule, prev_last, order, j)
}

/// The bucket that is stored where a batch goes into another one: the one that is left by going
/// forward, or the one that is gone back to.
pub open spec fn turned<A: Aggregation>(
    rule: CompactionRule<A>,
    prev_last: Option<Timestamp>,
    order: Seq<Timestamp>,
    i: int,
) -> Timestamp {
    if closes(rule, prev_last, order, i) {
        rule.start_of(high_before(prev_last, order, i)->0)
    } else {
        rule.start_of(order[i])
    }
}

#[verifier::rlimit(40)]
proof fn lemma_trace<A: Aggregation>(
    rule: CompactionRule<A>,
    prev_last: Option<Timestamp>,
    order: Seq<Timestamp>,
)
    requires
        rule.wf(),
        rule.bucket_start == match prev_last {
            Some(ts) => Some(rule.start_of(ts)),
            None => None,
        },
    ensures
        ({
            let t = trace(rule, prev_last, order);
            &&& t.high == replay(prev_last, order).high
            &&& t.open == match t.high {
                Some(ts) => Some(rule.start_of(ts)),
                None => None,
            }
            &&& match t.close {
                None => forall|i: int| !#[trigger] closes(rule, prev_last, order, i),
                Some(b) => exists|i: int| #[trigger]
                    closes_last(rule, prev_last, order, i) && b == rule.start_of(
                        high_before(prev_last, order, i)->0,
                    ),
            }
            &&& match t.first {
                None => (forall|i: int| !#[trigger] closes(rule, prev_last, order, i)) && forall|
                    i: int,
                | !#[trigger] refills(rule, prev_last, order, i),
                Some(b) => exists|i: int| #[trigger]
                    turns_first(rule, prev_last, order, i) && b == turned(
                        rule,
                        prev_last,
                        order,
                        i,
                    ),
            }
        }),
    decreases order.len(),
{
    let t = trace(rule, prev_last, order);
    if order.len() > 0 {
        let less = order.drop_last();
        let n = order.len() - 1;
        let ts = order.last();
        lemma_trace(rule, prev_last, less);
        let b = trace(rule, prev_last, less);
        assert(order.take(n) =~= less);
        assert(order[n] == ts);
        assert forall|i: int| i < n implies #[trigger] closes(rule, prev_last, order, i) == closes(
            rule,
            prev_last,
            less,
            i,
        ) by {
            if 0 <= i {
                assert(order.take(i) =~= less.take(i));
            }
        }
        assert forall|i: int| i < n implies #[trigger] refills(rule, prev_last, order, i) == refills(
            rule,
            prev_last,
            less,
            i,
        ) by {
            if 0 <= i {
                assert(order.take(i) =~= less.take(i));
            }
        }
        assert forall|i: int| 0 <= i < n implies #[trigger] high_before(prev_last, order, i)
            == high_before(prev_last, less, i) by {
            assert(order.take(i) =~= less.take(i));
        }
        if let Some(h) = b.high {
            if h < ts {
                law_buckets(rule, h, ts);
            } else {
                law_buckets(rule, ts, h);
            }
        }
        if closes(rule, prev_last, order, n) {
            assert(closes_last(rule, prev_last, order, n));
        } else if let Some(c) = b.close {
            let i = choose|i: int| #[trigger]
                closes_last(rule, prev_last, less, i) && c == rule.start_of(
                    high_before(prev_last, less, i)->0,
                );
            assert(closes(rule, prev_last, less, i));
            assert(closes(rule, prev_last, order, i));
            assert forall|j: int| i < j implies !#[trigger] closes(rule, prev_last, order, j) by {
                if j < n {
                    assert(!closes(rule, prev_last, less, j));
                }
            }
            assert(closes_last(rule, prev_last, order, i));
        } else {
            assert forall|i: int| !#[trigger] closes(rule, prev_last, order, i) by {
                if i < n {
                    assert(!closes(rule, prev_last, less, i));
                }
            }
        }
        if let Some(x) = b.first {
            let i = choose|i: int| #[trigger]
                turns_first(rule, prev_last, less, i) && x == turned(rule, prev_last, less, i);
            assert(closes(rule, prev_last, less, i) || refills(rule, prev_last, less, i));
            assert(closes(rule, prev_last, order, i) == closes(rule, prev_last, less, i));
            assert(refills(rule, prev_last, order, i) == refills(rule, prev_last, less, i));
            assert forall|j: int| j < i implies !#[trigger] closes(rule, prev_last, order, j) by {
                assert(!closes(rule, prev_last, less, j));
            }
            assert forall|j: int| j < i implies !#[trigger] refills(rule, prev_last, order, j) by {
                assert(!refills(rule, prev_last, less, j));
            }
            assert(turns_first(rule, prev_last, order, i));
            assert(turned(rule, prev_last, order, i) == x);
        } else {
            assert forall|j: int| j < n implies !#[trigger] closes(rule, prev_last, order, j) by {
                assert(!closes(rule, prev_last, less, j));
            }
            assert forall|j: int| j < n implies !#[trigger] refills(rule, prev_last, order, j) by {
                assert(!refills(rule, prev_last, less, j));
            }
            if closes(rule, prev_last, order, n) || refills(rule, prev_last, order, n) {
                assert(turns_first(rule, prev_last, order, n));
            }
        }
    } else {
        assert(order =~= Seq::<Timestamp>::empty());
    }
}

/// After a batch the marker of a destination stands on the bucket that was closed last by going
/// forward. Where none was, it stands where it stood, or, where it was not set, on the first bucket
/// that the batch turned to; if it turned to none it is still not set. It is set to what the
/// destination holds there.
#[verifier::rlimit(40)]
pub proof fn law_batch_marker<A: Aggregation>(
    f: Flow<A>,
    store: Store,
    source: Source,
    samples: Seq<Sample>,
    prev_last: Option<Timestamp>,
    order: Seq<Timestamp>,
)
    requires
        f.rule.wf(),
        is_synced(f, prev_last),
    ensures
        ({
            let g = batched(f, store, source, samples, prev_last, order);
            &&& forall|i: int| #[trigger]
                closes_last(f.rule, prev_last, order, i) ==> g.marker == sample_at(
                    g.dest,
                    f.rule.start_of(high_before(prev_last, order, i)->0),
                )
            &&& (forall|i: int| !#[trigger] closes(f.rule, prev_last, order, i)) && f.marker is Some
                ==> g.marker == sample_at(g.dest, f.marker->0.timestamp)
            &&& (forall|i: int| !#[trigger] closes(f.rule, prev_last, order, i)) && f.marker is None
                ==> {
                &&& forall|i: int| #[trigger]
                    turns_first(f.rule, prev_last, order, i) ==> g.marker == sample_at(
                        g.dest,
                        f.rule.start_of(order[i]),
                    )
                &&& (forall|i: int| !#[trigger] refills(f.rule, prev_last, order, i)) ==> g.marker
                    is None
            }
        }),
{
    lemma_trace(f.rule, prev_last, order);
    let t = trace(f.rule, prev_last, order);
    let g = batched(f, store, source, samples, prev_last, order);
    assert forall|i: int| #[trigger] closes_last(f.rule, prev_last, order, i) implies g.marker
        == sample_at(g.dest, f.rule.start_of(high_before(prev_last, order, i)->0)) by {
        assert(closes(f.rule, prev_last, order, i));
        let k = choose|k: int| #[trigger]
            closes_last(f.rule, prev_last, order, k) && t.close->0 == f.rule.start_of(
                high_before(prev_last, order, k)->0,
            );
        assert(closes(f.rule, prev_last, order, k));
        assert(i == k);
    }
    if (forall|i: int| !#[trigger] closes(f.rule, prev_last, order, i)) {
        assert(t.close is None) by {
            if t.close is Some {
                let k = choose|k: int| #[trigger]
                    closes_last(f.rule, prev_last, order, k) && t.close->0 == f.rule.start_of(
                        high_before(prev_last, order, k)->0,
                    );
                assert(closes(f.rule, prev_last, order, k));
            }
        }
        if f.marker is None {
            assert forall|i: int| #[trigger] turns_first(f.rule, prev_last, order, i) implies
                g.marker == sample_at(g.dest, f.rule.start_of(order[i])) by {
                assert(refills(f.rule, prev_last, order, i));
                let k = choose|k: int| #[trigger]
                    turns_first(f.rule, prev_last, order, k) && t.first->0 == turned(
                        f.rule,
                        prev_last,
                        order,
                        k,
                    );
                assert(!closes(f.rule, prev_last, order, k));
                assert(refills(f.rule, prev_last, order, k));
                assert(i == k);
            }
            if (forall|i: int| !#[trigger] refills(f.rule, prev_last, order, i)) {
                if t.first is Some {
                    let k = choose|k: int| #[trigger]
                        turns_first(f.rule, prev_last, order, k) && t.first->0 == turned(
                            f.rule,
                            prev_last,
                            order,
                            k,
                        );
                    assert(!closes(f.rule, prev_last, order, k));
                    assert(!refills(f.rule, prev_last, order, k));
                }
            }
        }
    }
}

} // verus!
