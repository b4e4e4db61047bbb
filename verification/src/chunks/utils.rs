//! Filters on the samples and the timestamps of a query.
use crate::sample::{is_nan, order_value, value_is_nan, value_order, Sample, Timestamp};
use vstd::prelude::*;

verus! {

/// The values that a query asks for: from the one to the other, both included.
#[derive(Debug, Clone, Copy, PartialEq, Eq, Structural)]
pub struct ValueFilter {
    pub min: u64,
    pub max: u64,
}

/// Whether one value is at most another. Nothing is, of what is no number.
pub open spec fn value_at_most(a: u64, b: u64) -> bool {
    !is_nan(a) && !is_nan(b) && value_order(a) <= value_order(b)
}

/// Whether a sample passes a filter on values.
pub open spec fn value_passes(s: Sample, f: ValueFilter) -> bool {
    value_at_most(f.min, s.value) && value_at_most(s.value, f.max)
}

fn at_most(a: u64, b: u64) -> (r: bool)
    ensures
        r == value_at_most(a, b),
{
    !value_is_nan(a) && !value_is_nan(b) && order_value(a) <= order_value(b)
}

/// Drops the samples that do not pass a filter on values.
pub fn filter_samples_by_value(samples: &mut Vec<Sample>, value_filter: &ValueFilter)
    ensures
        final(samples)@ == old(samples)@.filter(|s: Sample| value_passes(s, *value_filter)),
{
    let ghost all = samples@;
    let ghost keep = |s: Sample| value_passes(s, *value_filter);
    let mut kept: Vec<Sample> = Vec::new();
    let mut i: usize = 0;
    proof {
        reveal(Seq::filter);
        assert(all.take(0) =~= Seq::<Sample>::empty());
        assert(kept@ =~= all.take(0).filter(keep));
    }
    while i < samples.len()
        invariant
            i <= samples@.len(),
            samples@ == all,
            keep == (|s: Sample| value_passes(s, *value_filter)),
            kept@ == all.take(i as int).filter(keep),
        decreases samples.len() - i,
    {
        proof {
            reveal(Seq::filter);
            assert(all.take(i + 1).drop_last() =~= all.take(i as int));
        }
        let s: Sample = samples[i];
        if at_most(value_filter.min, s.value) && at_most(s.value, value_filter.max) {
            kept.push(s);
        }
        i += 1;
    }
    assert(all.take(i as int) =~= all);
    *samples = kept;
}

/// Whether timestamps grow.
pub open spec fn timestamps_increase(s: Seq<Timestamp>) -> bool {
    forall|i: int, j: int| 0 <= i < j < s.len() ==> s[i] < s[j]
}

/// The timestamps of a list that lie in a range, each once, in order.
pub fn filter_timestamp_slice(
    ts_filter: &[Timestamp],
    start: Timestamp,
    end: Timestamp,
) -> (r: Vec<Timestamp>)
    ensures
        timestamps_increase(r@),
        forall|ts: Timestamp| #[trigger]
            r@.contains(ts) <==> ts_filter@.contains(ts) && start <= ts <= end,
{
    let mut out: Vec<Timestamp> = Vec::new();
    let mut i: usize = 0;
    while i < ts_filter.len()
        invariant
            i <= ts_filter@.len(),
            timestamps_increase(out@),
            forall|ts: Timestamp| #[trigger]
                out@.contains(ts) <==> ts_filter@.take(i as int).contains(ts) && start <= ts
                    <= end,
        decreases ts_filter.len() - i,
    {
        let ts: Timestamp = ts_filter[i];
        let ghost before = out@;
        let ghost seen = ts_filter@.take(i as int);
        let ghost now = ts_filter@.take(i + 1);
        assert(now =~= seen.push(ts));
        assert(now[i as int] == ts);
        assert forall|t: Timestamp| #[trigger] now.contains(t) <==> seen.contains(t) || t == ts by {
            if seen.contains(t) {
                let k = choose|k: int| 0 <= k < seen.len() && seen[k] == t;
                assert(now[k] == t);
            }
        }
        if ts >= start && ts <= end {
            insert_timestamp(&mut out, ts);
        }
        i += 1;
    }
    assert(ts_filter@.take(i as int) =~= ts_filter@);
    out
}

/// Adds a timestamp to a growing list, where it belongs, unless it is there.
pub fn insert_timestamp(out: &mut Vec<Timestamp>, ts: Timestamp)
    requires
        timestamps_increase(old(out)@),
    ensures
        timestamps_increase(final(out)@),
        forall|t: Timestamp| #[trigger]
            final(out)@.contains(t) <==> old(out)@.contains(t) || t == ts,
{
    let ghost before = out@;
    let mut lo: usize = 0;
    let mut hi: usize = out.len();
    while lo < hi
        invariant
            lo <= hi <= out@.len(),
            out@ == before,
            timestamps_increase(out@),
            forall|i: int| 0 <= i < lo ==> (#[trigger] out@[i]) < ts,
            forall|i: int| hi <= i < out@.len() ==> (#[trigger] out@[i]) >= ts,
        decreases hi - lo,
    {
        let mid: usize = lo + (hi - lo) / 2;
        if out[mid] < ts {
            lo = mid + 1;
        } else {
            hi = mid;
        }
    }
    if lo < out.len() && out[lo] == ts {
        assert(out@[lo as int] == ts);
        return;
    }
    out.insert(lo, ts);
    proof {
        assert forall|i: int, j: int| 0 <= i < j < out@.len() implies out@[i] < out@[j] by {
            if i < lo {
                assert(out@[i] == before[i]);
            }
            if i > lo {
                assert(out@[i] == before[i - 1]);
            }
            if j < lo {
                assert(out@[j] == before[j]);
            }
            if j > lo {
                assert(out@[j] == before[j - 1]);
                assert(before[j - 1] >= ts);
                if lo < j - 1 {
                    assert(before[lo as int] < before[j - 1]);
                }
            }
        }
        assert(out@[lo as int] == ts);
        assert forall|t: Timestamp| #[trigger] out@.contains(t) <==> before.contains(t) || t
            == ts by {
            if before.contains(t) {
                let k = choose|k: int| 0 <= k < before.len() && before[k] == t;
                if k < lo {
                    assert(out@[k] == t);
                } else {
                    assert(out@[k + 1] == t);
                }
            }
            if out@.contains(t) && t != ts {
                let k = choose|k: int| 0 <= k < out@.len() && out@[k] == t;
                if k < lo {
                    assert(before[k] == t);
                } else {
                    assert(before[k - 1] == t);
                }
            }
        }
    }
}

} // verus!
