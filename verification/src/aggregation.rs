//! Aggregators: what makes one value of the samples of a bucket.
use crate::sample::{is_nan, order_value, value_is_nan, value_order, Sample};
use vstd::prelude::*;

verus! {

/// A running aggregation, as a state that samples move.
pub trait Aggregation: Sized {
    /// The state with no sample seen.
    spec fn cleared(self) -> Self;

    /// The state after one more sample.
    spec fn after(self, s: Sample) -> Self;

    /// Whether a sample counts.
    spec fn takes(self, s: Sample) -> bool;

    /// The value of what was seen.
    spec fn result(self) -> u64;

    /// The state with buckets of a length in mind.
    spec fn windowed(self, ms: u64) -> Self;

    /// Forgets all samples.
    fn reset(&mut self)
        ensures
            *final(self) == old(self).cleared(),
    ;

    /// Takes a sample, and says whether it counts.
    fn update(&mut self, s: Sample) -> (r: bool)
        ensures
            *final(self) == old(self).after(s),
            r == old(self).takes(s),
    ;

    /// The value of what was seen.
    fn finalize(&self) -> (r: u64)
        ensures
            r == self.result(),
    ;

    /// Learns how long a bucket is.
    fn set_window_ms(&mut self, ms: u64)
        ensures
            *final(self) == old(self).windowed(ms),
    ;

    /// A copy of the state.
    fn copy(&self) -> (r: Self)
        ensures
            r == *self,
    ;
}

/// What an aggregator picks out of the values that it sees.
#[derive(Debug, Clone, Copy, PartialEq, Eq, Hash, Structural)]
pub enum Pick {
    First,
    Last,
    Min,
    Max,
}

/// An aggregator whose value is one of the values that it sees. What is no number does not count.
#[derive(Debug, Clone, Copy, PartialEq, Eq, Hash, Structural)]
pub struct PickAggregator {
    pub pick: Pick,
    pub value: Option<u64>,
}

/// The bits of a value that is no number: the value of no samples.
pub const NAN_BITS: u64 = 0x7FF8_0000_0000_0000;

impl PickAggregator {
    /// An aggregator that has seen nothing.
    pub fn new(pick: Pick) -> (r: Self)
        ensures
            r == (PickAggregator { pick, value: None }),
    {
        PickAggregator { pick, value: None }
    }
}

/// Which of two values is picked, the first seen first.
pub open spec fn picked(pick: Pick, a: u64, b: u64) -> u64 {
    match pick {
        Pick::First => a,
        Pick::Last => b,
        Pick::Min => if value_order(b) < value_order(a) {
            b
        } else {
            a
        },
        Pick::Max => if value_order(b) > value_order(a) {
            b
        } else {
            a
        },
    }
}

impl Aggregation for PickAggregator {
    open spec fn cleared(self) -> Self {
        PickAggregator { pick: self.pick, value: None }
    }

    open spec fn after(self, s: Sample) -> Self {
        if is_nan(s.value) {
            self
        } else {
            PickAggregator {
                pick: self.pick,
                value: Some(
                    match self.value {
                        Some(v) => picked(self.pick, v, s.value),
                        None => s.value,
                    },
                ),
            }
        }
    }

    open spec fn takes(self, s: Sample) -> bool {
        !is_nan(s.value)
    }

    open spec fn result(self) -> u64 {
        match self.value {
            Some(v) => v,
            None => NAN_BITS,
        }
    }

    open spec fn windowed(self, ms: u64) -> Self {
        self
    }

    fn reset(&mut self) {
        self.value = None;
    }

    fn update(&mut self, s: Sample) -> (r: bool) {
        if value_is_nan(s.value) {
            return false;
        }
        let v: u64 = match self.value {
            Some(v) => match self.pick {
                Pick::First => v,
                Pick::Last => s.value,
                Pick::Min => if order_value(s.value) < order_value(v) {
                    s.value
                } else {
                    v
                },
                Pick::Max => if order_value(s.value) > order_value(v) {
                    s.value
                } else {
                    v
                },
            },
            None => s.value,
        };
        self.value = Some(v);
        true
    }

    fn finalize(&self) -> (r: u64) {
        match self.value {
            Some(v) => v,
            None => NAN_BITS,
        }
    }

    fn set_window_ms(&mut self, ms: u64) {
    }

    fn copy(&self) -> (r: Self) {
        *self
    }
}

/// The state after a run of samples.
pub open spec fn fed<A: Aggregation>(a: A, s: Seq<Sample>) -> A
    decreases s.len(),
{
    if s.len() == 0 {
        a
    } else {
        fed(a, s.drop_last()).after(s.last())
    }
}

/// Whether one of a run of samples counts.
pub open spec fn fed_any<A: Aggregation>(a: A, s: Seq<Sample>) -> bool
    decreases s.len(),
{
    if s.len() == 0 {
        false
    } else {
        fed_any(a, s.drop_last()) || fed(a, s.drop_last()).takes(s.last())
    }
}

/// Feeds a run of samples, and says whether one of them counts.
pub fn feed<A: Aggregation>(a: &mut A, s: &[Sample]) -> (r: bool)
    ensures
        *final(a) == fed(*old(a), s@),
        r == fed_any(*old(a), s@),
{
    let ghost start = *a;
    let mut any: bool = false;
    let mut i: usize = 0;
    assert(s@.take(0) =~= Seq::<Sample>::empty());
    while i < s.len()
        invariant
            i <= s@.len(),
            *a == fed(start, s@.take(i as int)),
            any == fed_any(start, s@.take(i as int)),
        decreases s.len() - i,
    {
        assert(s@.take(i + 1).drop_last() =~= s@.take(i as int));
        if a.update(s[i]) {
            any = true;
        }
        i += 1;
    }
    assert(s@.take(i as int) =~= s@);
    any
}

} // verus!
