//! Arithmetic on timestamps.
use crate::sample::Timestamp;
use vstd::prelude::*;

verus! {

/// A number, brought into the range of timestamps.
pub open spec fn clamped(v: int) -> int {
    if v < i64::MIN {
        i64::MIN as int
    } else if v > i64::MAX {
        i64::MAX as int
    } else {
        v
    }
}

/// A difference that stops at the ends of the range.
pub fn saturating_sub(a: i64, b: i64) -> (r: i64)
    ensures
        r == clamped(a - b),
{
    match a.checked_sub(b) {
        Some(v) => v,
        None => if b > 0 {
            i64::MIN
        } else {
            i64::MAX
        },
    }
}

/// A sum that stops at the end of the range.
pub fn saturating_add_unsigned(a: i64, b: u64) -> (r: i64)
    ensures
        r == clamped(a + b),
{
    let v: i128 = a as i128 + b as i128;
    if v > i64::MAX as i128 {
        i64::MAX
    } else {
        v as i64
    }
}

/// Where the bucket of a timestamp starts: at the last point at or before it that lies a whole
/// number of durations from the alignment, but not before the epoch.
pub open spec fn bucket_start_of(ts: int, align: int, duration: int) -> int {
    let start = ts - (ts - align) % duration;
    if start < 0 {
        0
    } else {
        start
    }
}

/// Where the bucket of a timestamp ends: one past its last timestamp.
pub open spec fn bucket_end_of(start: int, duration: int) -> int {
    clamped(start + duration)
}

/// Where the bucket of a timestamp starts.
pub fn calc_bucket_start(ts: Timestamp, align_timestamp: Timestamp, bucket_duration: u64) -> (r:
    Timestamp)
    requires
        bucket_duration > 0,
    ensures
        r == bucket_start_of(ts as int, align_timestamp as int, bucket_duration as int),
        0 <= r,
        ts >= 0 ==> r <= ts,
{
    let d: u128 = bucket_duration as u128;
    let diff: i128 = ts as i128 - align_timestamp as i128;
    let into: u128;
    if diff >= 0 {
        into = (diff as u128) % d;
    } else {
        let back: u128 = ((-diff) as u128) % d;
        proof {
            lemma_mod_of_negative(-diff as int, d as int);
        }
        into = if back == 0 {
            0
        } else {
            d - back
        };
    }
    assert(into as int == (ts - align_timestamp) % (bucket_duration as int));
    let start: i128 = ts as i128 - into as i128;
    if start < 0 {
        0
    } else {
        start as i64
    }
}

proof fn lemma_mod_of_negative(x: int, d: int)
    requires
        x > 0,
        d > 0,
    ensures
        (-x) % d == if x % d == 0 {
            0
        } else {
            d - x % d
        },
{
    vstd::arithmetic::div_mod::lemma_fundamental_div_mod(x, d);
    let q = x / d;
    let r = x % d;
    if r == 0 {
        assert(-x == (-q) * d + 0) by (nonlinear_arith)
            requires
                x == d * q + r,
                r == 0,
        ;
        vstd::arithmetic::div_mod::lemma_fundamental_div_mod_converse(-x, d, -q, 0);
    } else {
        assert(-x == (-q - 1) * d + (d - r)) by (nonlinear_arith)
            requires
                x == d * q + r,
        ;
        vstd::arithmetic::div_mod::lemma_fundamental_div_mod_converse(-x, d, -q - 1, d - r);
    }
}

} // verus!
