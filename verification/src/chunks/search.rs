//! Places and ranges in a run of samples that is sorted by timestamp.
use crate::sample::{is_sorted, Sample, Timestamp};
use vstd::prelude::*;

verus! {

/// The samples of a range of timestamps, both ends included.
pub open spec fn within(s: Seq<Sample>, start: Timestamp, end: Timestamp) -> Seq<Sample> {
    s.filter(|x: Sample| start <= x.timestamp <= end)
}

/// The samples outside a range of timestamps.
pub open spec fn outside(s: Seq<Sample>, start: Timestamp, end: Timestamp) -> Seq<Sample> {
    s.filter(|x: Sample| !(start <= x.timestamp <= end))
}

/// Where in a sorted run a timestamp is or would be: all samples before are older, and none from
/// there on is.
pub open spec fn is_place(s: Seq<Sample>, ts: int, at: int) -> bool {
    &&& 0 <= at <= s.len()
    &&& forall|i: int| 0 <= i < at ==> (#[trigger] s[i]).timestamp < ts
    &&& forall|i: int| at <= i < s.len() ==> (#[trigger] s[i]).timestamp >= ts
}

/// The place of a timestamp.
pub open spec fn place_of(s: Seq<Sample>, ts: Timestamp) -> int {
    choose|at: int| is_place(s, ts as int, at)
}

/// There is one such place.
pub proof fn lemma_place(s: Seq<Sample>, ts: Timestamp, at: int)
    requires
        is_place(s, ts as int, at),
    ensures
        place_of(s, ts) == at,
{
    let other = place_of(s, ts);
    assert(is_place(s, ts as int, other));
    if other < at {
        assert(s[other].timestamp < ts);
    }
    if at < other {
        assert(s[at].timestamp < ts);
    }
}

/// The first position of a sorted run that is not older than a timestamp, and whether it has
/// that very timestamp.
pub fn get_sample_index(samples: &[Sample], ts: Timestamp) -> (r: (usize, bool))
    requires
        is_sorted(samples@),
    ensures
        is_place(samples@, ts as int, r.0 as int),
        r.0 == place_of(samples@, ts),
        r.1 == (r.0 < samples@.len() && samples@[r.0 as int].timestamp == ts),
{
    let mut lo: usize = 0;
    let mut hi: usize = samples.len();
    while lo < hi
        invariant
            lo <= hi <= samples@.len(),
            is_sorted(samples@),
            forall|i: int| 0 <= i < lo ==> (#[trigger] samples@[i]).timestamp < ts,
            forall|i: int| hi <= i < samples@.len() ==> (#[trigger] samples@[i]).timestamp >= ts,
        decreases hi - lo,
    {
        let mid: usize = lo + (hi - lo) / 2;
        if samples[mid].timestamp < ts {
            lo = mid + 1;
        } else {
            hi = mid;
        }
    }
    proof {
        lemma_place(samples@, ts, lo as int);
    }
    (lo, lo < samples.len() && samples[lo].timestamp == ts)
}

/// The positions of a range of timestamps: from the first to one past the last.
pub fn range_bounds(samples: &[Sample], start: Timestamp, end: Timestamp) -> (r: (usize, usize))
    requires
        is_sorted(samples@),
    ensures
        r.0 <= r.1 <= samples@.len(),
        within(samples@, start, end) == samples@.subrange(r.0 as int, r.1 as int),
        outside(samples@, start, end) == samples@.take(r.0 as int) + samples@.skip(r.1 as int),
{
    let (lo, _) = get_sample_index(samples, start);
    let mut hi: usize = samples.len();
    if end < i64::MAX {
        let (place, _) = get_sample_index(samples, end + 1);
        hi = place;
    }
    if hi < lo {
        hi = lo;
    }
    proof {
        assert forall|i: int| 0 <= i < samples@.len() implies (lo <= i < hi <==> start
            <= (#[trigger] samples@[i]).timestamp <= end) by {}
        lemma_range(samples@, start, end, lo as int, hi as int);
    }
    (lo, hi)
}

/// The samples of a range stand together.
pub proof fn lemma_range(s: Seq<Sample>, start: Timestamp, end: Timestamp, lo: int, hi: int)
    requires
        0 <= lo <= hi <= s.len(),
        forall|i: int|
            0 <= i < s.len() ==> (lo <= i < hi <==> start <= (#[trigger] s[i]).timestamp <= end),
    ensures
        within(s, start, end) == s.subrange(lo, hi),
        outside(s, start, end) == s.take(lo) + s.skip(hi),
    decreases s.len(),
{
    reveal(Seq::filter);
    if s.len() == 0 {
        assert(s.subrange(lo, hi) =~= s);
        assert(s.take(lo) + s.skip(hi) =~= s);
    } else {
        let n = s.len() as int;
        let less = s.drop_last();
        let lo1 = if lo < n {
            lo
        } else {
            n - 1
        };
        let hi1 = if hi < n {
            hi
        } else {
            n - 1
        };
        assert forall|i: int| 0 <= i < less.len() implies (lo1 <= i < hi1 <==> start
            <= (#[trigger] less[i]).timestamp <= end) by {
            assert(less[i] == s[i]);
        }
        lemma_range(less, start, end, lo1, hi1);
        let last = s[n - 1];
        assert(s.last() == last);
        if lo <= n - 1 < hi {
            assert(s.subrange(lo, hi) =~= less.subrange(lo1, hi1).push(last));
            assert(s.take(lo) + s.skip(hi) =~= less.take(lo1) + less.skip(hi1));
        } else if hi <= n - 1 {
            assert(s.subrange(lo, hi) =~= less.subrange(lo1, hi1));
            assert(s.take(lo) + s.skip(hi) =~= (less.take(lo1) + less.skip(hi1)).push(last));
        } else {
            assert(lo == n && hi == n);
            assert(s.subrange(lo, hi) =~= less.subrange(lo1, hi1));
            assert(s.take(lo) + s.skip(hi) =~= (less.take(lo1) + less.skip(hi1)).push(last));
        }
    }
}

/// A copy of a run of samples.
pub fn copy_samples(samples: &[Sample]) -> (r: Vec<Sample>)
    ensures
        r@ == samples@,
{
    let mut out: Vec<Sample> = Vec::new();
    append_samples(&mut out, samples);
    assert(out@ =~= samples@);
    out
}

/// Adds a run of samples at the end of another.
pub fn append_samples(out: &mut Vec<Sample>, samples: &[Sample])
    ensures
        final(out)@ == old(out)@ + samples@,
{
    let ghost start = out@;
    let mut i: usize = 0;
    while i < samples.len()
        invariant
            i <= samples.len(),
            out@ == start + samples@.take(i as int),
        decreases samples.len() - i,
    {
        out.push(samples[i]);
        assert(out@ =~= start + samples@.take(i + 1));
        i += 1;
    }
    assert(samples@.take(i as int) =~= samples@);
}

/// A part of a sorted run is sorted.
pub proof fn lemma_filter_sorted(s: Seq<Sample>, keep: spec_fn(Sample) -> bool)
    requires
        is_sorted(s),
    ensures
        is_sorted(s.filter(keep)),
        forall|i: int|
            0 <= i < s.filter(keep).len() ==> s.contains(#[trigger] s.filter(keep)[i]),
    decreases s.len(),
{
    reveal(Seq::filter);
    if s.len() > 0 {
        let less = s.drop_last();
        lemma_filter_sorted(less, keep);
        let before = less.filter(keep);
        let now = s.filter(keep);
        assert forall|i: int| 0 <= i < now.len() implies s.contains(#[trigger] now[i]) by {
            if i < before.len() {
                assert(less.contains(before[i]));
                let j = choose|j: int| 0 <= j < less.len() && less[j] == before[i];
                assert(s[j] == now[i]);
            } else {
                assert(s[s.len() - 1] == now[i]);
            }
        }
        assert forall|i: int, j: int| 0 <= i <= j < now.len() implies now[i].timestamp
            <= now[j].timestamp by {
            assert(s.contains(now[i]));
            let k = choose|k: int| 0 <= k < s.len() && s[k] == now[i];
            assert(s[k].timestamp <= s[s.len() - 1].timestamp);
        }
    }
}

} // verus!
