//! Samples, and what becomes of two samples with one timestamp.
//!
//! A value is held as the 64 bits of its IEEE 754 representation. What the library decides about
//! values (which of two is smaller, whether one is a number) it reads off those bits; their sum
//! it asks of the caller.
use crate::error::TsdbError;
use vstd::prelude::*;

verus! {

/// Milliseconds since the epoch.
pub type Timestamp = i64;

/// How many bytes a sample takes.
pub const SAMPLE_SIZE: usize = 16;

/// The sign bit of a value.
pub const SIGN_BIT: u64 = 0x8000_0000_0000_0000;

/// The bits of positive infinity: larger magnitudes are no numbers.
pub const INFINITY_BITS: u64 = 0x7FF0_0000_0000_0000;

/// The bits of the largest finite value.
pub const MAX_FINITE_BITS: u64 = 0x7FEF_FFFF_FFFF_FFFF;

/// One observation.
#[derive(Debug, Clone, Copy, PartialEq, Eq, Hash, Structural)]
pub struct Sample {
    pub timestamp: Timestamp,
    pub value: u64,
}

impl Sample {
    /// A sample of its two parts.
    pub fn new(timestamp: Timestamp, value: u64) -> (r: Sample)
        ensures
            r == (Sample { timestamp, value }),
    {
        Sample { timestamp, value }
    }
}

/// No sample is older than the one before it.
pub open spec fn is_sorted(s: Seq<Sample>) -> bool {
    forall|i: int, j: int| 0 <= i <= j < s.len() ==> s[i].timestamp <= s[j].timestamp
}

/// Each sample is younger than the one before it.
pub open spec fn is_strictly_sorted(s: Seq<Sample>) -> bool {
    forall|i: int, j: int| 0 <= i < j < s.len() ==> s[i].timestamp < s[j].timestamp
}

/// The magnitude of a value, as an integer that grows with it.
pub open spec fn magnitude(bits: u64) -> int {
    if bits >= SIGN_BIT {
        bits - SIGN_BIT
    } else {
        bits as int
    }
}

/// Whether a value is no number.
pub open spec fn is_nan(bits: u64) -> bool {
    magnitude(bits) > INFINITY_BITS
}

/// An integer that orders values as the numbers that they stand for.
pub open spec fn value_order(bits: u64) -> int {
    if bits >= SIGN_BIT {
        -magnitude(bits)
    } else {
        magnitude(bits)
    }
}

/// Whether a value is no number.
pub fn value_is_nan(bits: u64) -> (r: bool)
    ensures
        r == is_nan(bits),
{
    if bits >= SIGN_BIT {
        bits - SIGN_BIT > INFINITY_BITS
    } else {
        bits > INFINITY_BITS
    }
}

/// The integer that orders values.
pub fn order_value(bits: u64) -> (r: i64)
    ensures
        r == value_order(bits),
{
    if bits >= SIGN_BIT {
        -((bits - SIGN_BIT) as i64)
    } else {
        bits as i64
    }
}

/// What to do with a sample whose timestamp is taken.
#[derive(Debug, Clone, Copy, PartialEq, Eq, Hash, Structural)]
pub enum DuplicatePolicy {
    /// Refuse it.
    Block,
    /// Keep the value that is there.
    KeepFirst,
    /// Take the new value.
    KeepLast,
    /// Keep the smaller value.
    Min,
    /// Keep the larger value.
    Max,
    /// Keep the sum.
    Sum,
}

/// A function on values that has one result for each pair of arguments.
pub open spec fn is_sum<F: Fn(u64, u64) -> u64>(sum: F) -> bool {
    &&& forall|a: u64, b: u64| #[trigger] call_requires(sum, (a, b))
    &&& forall|a: u64, b: u64, r: u64, s: u64| #[trigger]
        call_ensures(sum, (a, b), r) && #[trigger] call_ensures(sum, (a, b), s) ==> r == s
}

/// What such a function gives.
pub open spec fn sum_of<F: Fn(u64, u64) -> u64>(sum: F, a: u64, b: u64) -> u64 {
    choose|r: u64| call_ensures(sum, (a, b), r)
}

/// The value that two samples with one timestamp leave, or `None` where the new one is refused.
pub open spec fn resolved<F: Fn(u64, u64) -> u64>(
    policy: DuplicatePolicy,
    old: u64,
    new: u64,
    sum: F,
) -> Option<u64> {
    if policy == DuplicatePolicy::Block {
        None
    } else if is_nan(new) {
        Some(old)
    } else if is_nan(old) {
        Some(new)
    } else {
        Some(
            match policy {
                DuplicatePolicy::KeepFirst => old,
                DuplicatePolicy::Min => if value_order(new) < value_order(old) {
                    new
                } else {
                    old
                },
                DuplicatePolicy::Max => if value_order(new) > value_order(old) {
                    new
                } else {
                    old
                },
                DuplicatePolicy::Sum => sum_of(sum, old, new),
                _ => new,
            },
        )
    }
}

impl DuplicatePolicy {
    /// The value that stays when a sample arrives at a timestamp that holds one.
    pub fn duplicate_value<F: Fn(u64, u64) -> u64>(
        self,
        ts: Timestamp,
        old: u64,
        new: u64,
        sum: &F,
    ) -> (r: Result<u64, TsdbError>)
        requires
            is_sum(*sum),
        ensures
            match resolved(self, old, new, *sum) {
                Some(v) => r == Ok::<u64, TsdbError>(v),
                None => r == Err::<u64, TsdbError>(TsdbError::DuplicateSample(ts)),
            },
    {
        if self == DuplicatePolicy::Block {
            return Err(TsdbError::DuplicateSample(ts));
        }
        if value_is_nan(new) {
            return Ok(old);
        }
        if value_is_nan(old) {
            return Ok(new);
        }
        match self {
            DuplicatePolicy::KeepFirst => Ok(old),
            DuplicatePolicy::Min => if order_value(new) < order_value(old) {
                Ok(new)
            } else {
                Ok(old)
            },
            DuplicatePolicy::Max => if order_value(new) > order_value(old) {
                Ok(new)
            } else {
                Ok(old)
            },
            DuplicatePolicy::Sum => Ok(sum(old, new)),
            _ => Ok(new),
        }
    }
}

/// What became of a sample that was offered to a series.
#[derive(Debug, Clone, Copy, PartialEq, Eq, Structural)]
pub enum SampleAddResult {
    /// It is stored, with this value.
    Stored(Sample),
    /// Its timestamp is taken, and the policy in force blocks it.
    Duplicate,
    /// It is too close to the last sample, which has this timestamp.
    Ignored(Timestamp),
    /// It is older than the series keeps samples.
    TooOld,
    /// It could not be stored.
    Error,
}

impl SampleAddResult {
    /// Whether the sample is stored.
    pub fn is_ok(&self) -> (r: bool)
        ensures
            r == (*self is Stored),
    {
        match self {
            SampleAddResult::Stored(_) => true,
            _ => false,
        }
    }
}

} // verus!
