//! What is done to a batch of samples before it is merged into a series.
//!
//! Retention, rounding, repeated timestamps and samples too close to the last are all seen to
//! here, so that a batch counts for a series as the same samples added one by one.
use crate::aggregation::Aggregation;
use crate::sample::{is_strictly_sorted, DuplicatePolicy, Sample, SampleAddResult, Timestamp};
use crate::series::store::{RoundingStrategy, Terms, TimeSeries, ValueOps};
use crate::time::{clamped, saturating_sub};
use vstd::prelude::*;

verus! {

/// A batch that is ready to be merged.
#[derive(Debug, Clone, PartialEq, Eq)]
pub struct NormalizedBatch {
    /// The samples to merge, with their values as stored, in the order of their timestamps.
    pub to_insert: Vec<Sample>,
    /// For each of them, where in the batch it was.
    pub insert_index: Vec<usize>,
    /// For each sample of the batch what became of it. Those to merge have no outcome yet: they
    /// are marked as failed.
    pub results: Vec<SampleAddResult>,
}

/// The oldest timestamp that a series takes.
pub fn get_min_allowed_timestamp<A: Aggregation>(series: &TimeSeries<A>) -> (r: Timestamp)
    requires
        series.retention <= i64::MAX,
    ensures
        r == if series.retention == 0 {
            0
        } else {
            series.min_timestamp()
        },
{
    if series.retention == 0 {
        0
    } else {
        series.get_min_timestamp()
    }
}

/// Which samples of a batch are too old, and the highest timestamp of those that are not: each is
/// held against the highest so far.
pub open spec fn gated(retention: u64, last: Option<Timestamp>, samples: Seq<Sample>) -> (
    Seq<bool>,
    Option<Timestamp>,
)
    decreases samples.len(),
{
    if samples.len() == 0 {
        (Seq::empty(), last)
    } else {
        let (old, high) = gated(retention, last, samples.drop_last());
        let ts = samples.last().timestamp;
        match high {
            Some(max) => if ts < clamped(max - retention) {
                (old.push(true), high)
            } else {
                (
                    old.push(false),
                    Some(
                        if ts > max {
                            ts
                        } else {
                            max
                        },
                    ),
                )
            },
            None => (old.push(false), Some(ts)),
        }
    }
}

/// Which samples of a batch are too old.
pub open spec fn too_old<A: Aggregation>(series: TimeSeries<A>, samples: Seq<Sample>) -> Seq<bool> {
    if series.retention == 0 {
        Seq::new(samples.len(), |i: int| false)
    } else {
        gated(
            series.retention,
            match series.last_sample {
                Some(s) => Some(s.timestamp),
                None => None,
            },
            samples,
        ).0
    }
}

/// Which samples of a batch are too old, each as it comes.
pub fn retention_gate<A: Aggregation>(series: &TimeSeries<A>, samples: &[Sample]) -> (r: Vec<bool>)
    requires
        series.retention <= i64::MAX,
    ensures
        r@ == too_old(*series, samples@),
        r@.len() == samples@.len(),
{
    let mut old: Vec<bool> = Vec::new();
    let mut i: usize = 0;
    if series.retention == 0 {
        while i < samples.len()
            invariant
                i <= samples@.len(),
                old@ == Seq::new(i as nat, |k: int| false),
            decreases samples.len() - i,
        {
            old.push(false);
            assert(old@ =~= Seq::new((i + 1) as nat, |k: int| false));
            i += 1;
        }
        return old;
    }
    let retention_ms: i64 = series.retention as i64;
    let ghost last = match series.last_sample {
        Some(s) => Some(s.timestamp),
        None => None,
    };
    let mut high: Option<Timestamp> = match series.last_sample {
        Some(s) => Some(s.timestamp),
        None => None,
    };
    assert(samples@.take(0) =~= Seq::<Sample>::empty());
    while i < samples.len()
        invariant
            i <= samples@.len(),
            retention_ms == series.retention,
            (old@, high) == gated(series.retention, last, samples@.take(i as int)),
            old@.len() == i,
        decreases samples.len() - i,
    {
        assert(samples@.take(i + 1).drop_last() =~= samples@.take(i as int));
        let ts: Timestamp = samples[i].timestamp;
        match high {
            Some(max) => {
                if ts < saturating_sub(max, retention_ms) {
                    old.push(true);
                } else {
                    old.push(false);
                    if ts > max {
                        high = Some(ts);
                    }
                }
            },
            None => {
                old.push(false);
                high = Some(ts);
            },
        }
        i += 1;
    }
    assert(samples@.take(i as int) =~= samples@);
    old
}

/// Whether one sample of a batch is dealt with before another: it is older, or as old and comes
/// first.
pub open spec fn comes_first(samples: Seq<Sample>, i: usize, j: usize) -> bool {
    samples[i as int].timestamp < samples[j as int].timestamp || (samples[i as int].timestamp
        == samples[j as int].timestamp && i < j)
}

/// The order in which the samples of a batch are dealt with.
pub open spec fn is_order(order: Seq<usize>, samples: Seq<Sample>) -> bool {
    &&& order.len() == samples.len()
    &&& forall|k: int| 0 <= k < order.len() ==> (#[trigger] order[k]) < samples.len()
    &&& forall|k: int, m: int|
        #![trigger order[k], order[m]]
        0 <= k < m < order.len() ==> comes_first(samples, order[k], order[m])
}

/// Whether one pair comes before another.
pub open spec fn pair_before(a: (i64, usize), b: (i64, usize)) -> bool {
    a.0 < b.0 || (a.0 == b.0 && a.1 <= b.1)
}

/// Sorts pairs with `slice::sort_unstable`: by the first part, then by the second. No pair is
/// added or lost.
#[verifier::external_body]
pub(crate) fn sort_keyed(v: &mut Vec<(i64, usize)>)
    ensures
        final(v)@.to_multiset() == old(v)@.to_multiset(),
        forall|i: int, j: int|
            0 <= i < j < final(v)@.len() ==> pair_before(
                #[trigger] final(v)@[i],
                #[trigger] final(v)@[j],
            ),
{
    v.sort_unstable();
}

/// The order in which the samples of a batch are dealt with: by timestamp, the first of two equal
/// ones first.
pub fn processing_order(samples: &[Sample]) -> (r: Vec<usize>)
    ensures
        is_order(r@, samples@),
{
    let mut keyed: Vec<(i64, usize)> = Vec::new();
    let mut i: usize = 0;
    while i < samples.len()
        invariant
            i <= samples@.len(),
            keyed@ == Seq::new(i as nat, |k: int| (samples@[k].timestamp, k as usize)),
        decreases samples.len() - i,
    {
        keyed.push((samples[i].timestamp, i));
        assert(keyed@ =~= Seq::new((i + 1) as nat, |k: int| (samples@[k].timestamp, k as usize)));
        i += 1;
    }
    let ghost made = keyed@;
    sort_keyed(&mut keyed);
    let ghost sorted = keyed@;
    proof {
        made.to_multiset_ensures();
        sorted.to_multiset_ensures();
        assert(sorted.len() == made.len());
        assert forall|k: int| 0 <= k < sorted.len() implies (#[trigger] sorted[k]).1
            < samples@.len() && sorted[k].0 == samples@[sorted[k].1 as int].timestamp by {
            assert(sorted.contains(sorted[k]));
            assert(made.to_multiset().count(sorted[k]) > 0);
            assert(made.contains(sorted[k]));
        }
        lemma_once(made, sorted);
    }
    let mut order: Vec<usize> = Vec::new();
    let mut j: usize = 0;
    while j < keyed.len()
        invariant
            j <= keyed@.len(),
            keyed@ == sorted,
            order@ == Seq::new(j as nat, |k: int| sorted[k].1),
        decreases keyed.len() - j,
    {
        order.push(keyed[j].1);
        assert(order@ =~= Seq::new((j + 1) as nat, |k: int| sorted[k].1));
        j += 1;
    }
    proof {
        assert forall|k: int, m: int|
            #![trigger order@[k], order@[m]]
            0 <= k < m < order@.len() implies comes_first(samples@, order@[k], order@[m]) by {
            assert(pair_before(sorted[k], sorted[m]));
            assert(sorted[k] != sorted[m]);
        }
    }
    order
}

/// Pairs that differ in their second part still do so in another order.
proof fn lemma_once(made: Seq<(i64, usize)>, sorted: Seq<(i64, usize)>)
    requires
        forall|i: int, j: int|
            0 <= i < j < made.len() ==> (#[trigger] made[i]).1 != (#[trigger] made[j]).1,
        sorted.to_multiset() == made.to_multiset(),
    ensures
        forall|i: int, j: int| 0 <= i < j < sorted.len() ==> sorted[i] != sorted[j],
{
    made.lemma_multiset_has_no_duplicates();
    sorted.to_multiset_ensures();
    assert(made.no_duplicates());
    assert forall|i: int, j: int| 0 <= i < j < sorted.len() implies sorted[i] != sorted[j] by {
        if sorted[i] == sorted[j] {
            let x = sorted[i];
            let less = sorted.remove(i);
            assert(less[j - 1] == x);
            assert(less.contains(x));
            less.to_multiset_ensures();
            assert(sorted.to_multiset().remove(sorted[i]) == less.to_multiset());
            assert(less.to_multiset().count(x) > 0);
            assert(sorted.to_multiset().count(x) >= 2);
            assert(made.to_multiset().count(x) <= 1);
        }
    }
}

/// How far the work on a batch has come.
pub ghost struct Ingest {
    pub prev: Option<Timestamp>,
    pub last: Option<Sample>,
    pub to_insert: Seq<Sample>,
    pub insert_index: Seq<usize>,
    pub results: Seq<SampleAddResult>,
}

/// The work on a batch after the samples of an order. Of samples with one timestamp only the
/// first counts; those that are too old or too close to the last are passed over.
pub open spec fn ingested<
    S: Fn(u64, u64) -> u64,
    R: Fn(RoundingStrategy, u64) -> u64,
    C: Fn(u64, u64, u64) -> bool,
>(
    terms: Terms,
    last: Option<Sample>,
    samples: Seq<Sample>,
    old: Seq<bool>,
    asked: Option<DuplicatePolicy>,
    ops: ValueOps<S, R, C>,
    order: Seq<usize>,
) -> Ingest
    decreases order.len(),
{
    if order.len() == 0 {
        Ingest {
            prev: None,
            last,
            to_insert: Seq::empty(),
            insert_index: Seq::empty(),
            results: Seq::new(samples.len(), |i: int| SampleAddResult::Error),
        }
    } else {
        let g = ingested(terms, last, samples, old, asked, ops, order.drop_last());
        let at = order.last();
        let s = samples[at as int];
        let adjusted = Sample {
            timestamp: s.timestamp,
            value: ops.rounded(terms.rounding, s.value),
        };
        if g.prev == Some(s.timestamp) {
            Ingest { results: g.results.update(at as int, SampleAddResult::Duplicate), ..g }
        } else if old[at as int] {
            Ingest {
                prev: Some(s.timestamp),
                results: g.results.update(at as int, SampleAddResult::TooOld),
                ..g
            }
        } else if g.last is Some && adjusted.timestamp >= g.last->0.timestamp
            && terms.duplicates.ignores(adjusted, g.last->0, asked, ops) {
            Ingest {
                prev: Some(s.timestamp),
                results: g.results.update(
                    at as int,
                    SampleAddResult::Ignored(g.last->0.timestamp),
                ),
                ..g
            }
        } else {
            Ingest {
                prev: Some(s.timestamp),
                last: if g.last is None || adjusted.timestamp >= g.last->0.timestamp {
                    Some(adjusted)
                } else {
                    g.last
                },
                to_insert: g.to_insert.push(adjusted),
                insert_index: g.insert_index.push(at),
                ..g
            }
        }
    }
}

/// That a batch is ready as the samples in their order make it.
pub open spec fn is_normalized<
    A: Aggregation,
    S: Fn(u64, u64) -> u64,
    R: Fn(RoundingStrategy, u64) -> u64,
    C: Fn(u64, u64, u64) -> bool,
>(
    b: NormalizedBatch,
    series: TimeSeries<A>,
    samples: Seq<Sample>,
    asked: Option<DuplicatePolicy>,
    ops: ValueOps<S, R, C>,
    order: Seq<usize>,
) -> bool {
    let g = ingested(
        series.terms(),
        series.last_sample,
        samples,
        too_old(series, samples),
        asked,
        ops,
        order,
    );
    &&& is_order(order, samples)
    &&& b.to_insert@ == g.to_insert
    &&& b.insert_index@ == g.insert_index
    &&& b.results@ == g.results
}

/// Makes a batch ready to be merged.
pub fn normalize_batch<
    A: Aggregation,
    S: Fn(u64, u64) -> u64,
    R: Fn(RoundingStrategy, u64) -> u64,
    C: Fn(u64, u64, u64) -> bool,
>(
    series: &TimeSeries<A>,
    samples: &[Sample],
    policy_override: Option<DuplicatePolicy>,
    ops: &ValueOps<S, R, C>,
) -> (r: NormalizedBatch)
    requires
        series.retention <= i64::MAX,
        ops.ok(),
    ensures
        exists|order: Seq<usize>|
            is_normalized(r, *series, samples@, policy_override, *ops, order),
        is_strictly_sorted(r.to_insert@),
        r.insert_index@.len() == r.to_insert@.len(),
        r.results@.len() == samples@.len(),
        forall|k: int|
            0 <= k < r.to_insert@.len() ==> {
                let at = #[trigger] r.insert_index@[k];
                &&& at < samples@.len()
                &&& r.to_insert@[k].timestamp == samples@[at as int].timestamp
                &&& r.to_insert@[k].value == ops.rounded(
                    series.rounding,
                    samples@[at as int].value,
                )
            },
{
    let old = retention_gate(series, samples);
    let order = processing_order(samples);
    let ghost terms = series.terms();
    let ghost asked = policy_override;
    let mut results: Vec<SampleAddResult> = Vec::new();
    let mut i: usize = 0;
    while i < samples.len()
        invariant
            i <= samples@.len(),
            results@ == Seq::new(i as nat, |k: int| SampleAddResult::Error),
        decreases samples.len() - i,
    {
        results.push(SampleAddResult::Error);
        assert(results@ =~= Seq::new((i + 1) as nat, |k: int| SampleAddResult::Error));
        i += 1;
    }
    let mut to_insert: Vec<Sample> = Vec::new();
    let mut insert_index: Vec<usize> = Vec::new();
    let mut running_last: Option<Sample> = series.last_sample;
    let mut prev_ts: Option<Timestamp> = None;
    let mut pos: usize = 0;
    assert(order@.take(0) =~= Seq::<usize>::empty());
    while pos < order.len()
        invariant
            pos <= order@.len(),
            is_order(order@, samples@),
            ops.ok(),
            terms == series.terms(),
            asked == policy_override,
            old@ == too_old(*series, samples@),
            old@.len() == samples@.len(),
            results@.len() == samples@.len(),
            ingested(
                terms,
                series.last_sample,
                samples@,
                old@,
                asked,
                *ops,
                order@.take(pos as int),
            ) == (Ingest {
                prev: prev_ts,
                last: running_last,
                to_insert: to_insert@,
                insert_index: insert_index@,
                results: results@,
            }),
            is_strictly_sorted(to_insert@),
            insert_index@.len() == to_insert@.len(),
            prev_ts == if pos == 0 {
                None
            } else {
                Some(samples@[order@[pos - 1] as int].timestamp)
            },
            to_insert@.len() > 0 ==> prev_ts is Some && to_insert@.last().timestamp <= prev_ts->0,
            forall|k: int|
                0 <= k < to_insert@.len() ==> {
                    let at = #[trigger] insert_index@[k];
                    &&& at < samples@.len()
                    &&& to_insert@[k].timestamp == samples@[at as int].timestamp
                    &&& to_insert@[k].value == ops.rounded(
                        series.rounding,
                        samples@[at as int].value,
                    )
                },
        decreases order.len() - pos,
    {
        assert(order@.take(pos + 1).drop_last() =~= order@.take(pos as int));
        let index: usize = order[pos];
        let sample: Sample = samples[index];
        if pos > 0 {
            assert(comes_first(samples@, order@[pos - 1], order@[pos as int]));
        }
        pos += 1;
        let repeated: bool = match prev_ts {
            Some(ts) => ts == sample.timestamp,
            None => false,
        };
        if repeated {
            results.set(index, SampleAddResult::Duplicate);
            continue;
        }
        prev_ts = Some(sample.timestamp);
        if old[index] {
            results.set(index, SampleAddResult::TooOld);
            continue;
        }
        let adjusted = Sample {
            timestamp: sample.timestamp,
            value: ops.adjust(series.rounding, sample.value),
        };
        let mut in_order: bool = true;
        if let Some(last) = running_last {
            in_order = adjusted.timestamp >= last.timestamp;
            if in_order && series.sample_duplicates.is_duplicate(
                &adjusted,
                &last,
                policy_override,
                ops,
            ) {
                results.set(index, SampleAddResult::Ignored(last.timestamp));
                continue;
            }
        }
        if in_order {
            running_last = Some(adjusted);
        }
        let ghost before = to_insert@;
        to_insert.push(adjusted);
        insert_index.push(index);
        proof {
            assert forall|a: int, b: int| 0 <= a < b < to_insert@.len() implies to_insert@[a].timestamp
                < to_insert@[b].timestamp by {
                if b == before.len() {
                    assert(before[a].timestamp <= before[before.len() - 1].timestamp);
                }
            }
        }
    }
    assert(order@.take(pos as int) =~= order@);
    let batch = NormalizedBatch { to_insert, insert_index, results };
    assert(is_normalized(batch, *series, samples@, policy_override, *ops, order@));
    batch
}

/// There is one order in which the samples of a batch are dealt with.
pub proof fn law_one_order(a: Seq<usize>, b: Seq<usize>, samples: Seq<Sample>)
    requires
        is_order(a, samples),
        is_order(b, samples),
        samples.len() <= usize::MAX,
    ensures
        a == b,
{
    lemma_order_rank(a, samples);
    lemma_order_rank(b, samples);
    assert forall|k: int| 0 <= k < a.len() implies a[k] == b[k] by {
        lemma_same_at(a, b, samples, k);
    }
    assert(a =~= b);
}

/// An order holds every position.
pub proof fn lemma_order_rank(a: Seq<usize>, samples: Seq<Sample>)
    requires
        is_order(a, samples),
        samples.len() <= usize::MAX,
    ensures
        forall|x: usize| x < samples.len() ==> a.contains(x),
{
    let n = samples.len();
    let all = Set::new(|x: usize| x < n);
    let held = a.to_set();
    assert(a.no_duplicates()) by {
        assert forall|i: int, j: int| 0 <= i < a.len() && 0 <= j < a.len() && i != j implies a[i]
            != a[j] by {
            if i < j {
                assert(comes_first(samples, a[i], a[j]));
            } else {
                assert(comes_first(samples, a[j], a[i]));
            }
        }
    }
    a.unique_seq_to_set();
    lemma_below(n);
    assert(held.subset_of(all)) by {
        assert forall|x: usize| held.contains(x) implies all.contains(x) by {
            let k = choose|k: int| 0 <= k < a.len() && a[k] == x;
            assert(a[k] < n);
        }
    }
    vstd::set_lib::lemma_subset_equality(held, all);
    assert forall|x: usize| x < n implies a.contains(x) by {
        assert(held.contains(x));
    }
}

/// How many positions there are below a bound.
proof fn lemma_below(n: nat)
    requires
        n <= usize::MAX,
    ensures
        Set::new(|x: usize| x < n).finite(),
        Set::new(|x: usize| x < n).len() == n,
    decreases n,
{
    let s = Set::new(|x: usize| x < n);
    if n == 0 {
        assert(s =~= Set::<usize>::empty());
    } else {
        let m = (n - 1) as nat;
        lemma_below(m);
        let less = Set::new(|x: usize| x < m);
        assert(s =~= less.insert(m as usize));
        assert(!less.contains(m as usize));
    }
}

/// Two orders agree wherever they agree before.
proof fn lemma_same_at(a: Seq<usize>, b: Seq<usize>, samples: Seq<Sample>, k: int)
    requires
        is_order(a, samples),
        is_order(b, samples),
        forall|x: usize| x < samples.len() ==> a.contains(x),
        forall|x: usize| x < samples.len() ==> b.contains(x),
        0 <= k < a.len(),
    ensures
        a[k] == b[k],
    decreases k,
{
    assert forall|j: int| 0 <= j < k implies a[j] == b[j] by {
        lemma_same_at(a, b, samples, j);
    }
    if a[k] != b[k] {
        assert(a.contains(b[k]));
        assert(b.contains(a[k]));
        let i = choose|i: int| 0 <= i < a.len() && a[i] == b[k];
        let j = choose|j: int| 0 <= j < b.len() && b[j] == a[k];
        if i < k {
            assert(a[i] == b[i]);
            assert(comes_first(samples, b[i], b[k]));
        }
        if j < k {
            assert(a[j] == b[j]);
            assert(comes_first(samples, a[j], a[k]));
        }
        assert(comes_first(samples, a[k], a[i]));
        assert(comes_first(samples, b[k], b[j]));
    }
}

} // verus!
