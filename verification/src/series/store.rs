//! The samples of a series.
use crate::aggregation::Aggregation;
use crate::chunks::chunk::TimeSeriesChunk;
use crate::chunks::search::{append_samples, is_place, lemma_place, outside, place_of, within};
use crate::chunks::uncompressed::{lemma_place_exists, upserted};
use crate::error::TsdbError;
use crate::labels::Label;
use crate::postings::SeriesRef;
use crate::sample::{
    is_strictly_sorted, is_sum, resolved, DuplicatePolicy, Sample, SampleAddResult, Timestamp,
};
use crate::series::rule::CompactionRule;
use crate::time::{clamped, saturating_sub};
use vstd::prelude::*;

verus! {

/// How values are rounded before they are stored.
#[derive(Debug, Clone, Copy, PartialEq, Eq, Hash, Structural)]
pub enum RoundingStrategy {
    /// To a number of significant digits.
    SignificantDigits(i32),
    /// To a number of digits behind the point.
    DecimalDigits(i32),
}

/// What a series does with samples at, or too close to, a timestamp that it holds.
#[derive(Debug, Clone, Copy, PartialEq, Eq, Hash, Structural)]
pub struct SampleDuplicatePolicy {
    /// The policy of the series, if it has one of its own.
    pub policy: Option<DuplicatePolicy>,
    /// How close in time a sample to ignore is to the last.
    pub max_time_delta: u64,
    /// How close in value it is.
    pub max_value_delta: u64,
}

/// The arithmetic on values that the library leaves to its caller.
pub struct ValueOps<S, R, C> {
    /// The sum of two values.
    pub sum: S,
    /// A value, rounded.
    pub round: R,
    /// Whether two values are no further apart than a third says.
    pub close: C,
}

impl<
    S: Fn(u64, u64) -> u64,
    R: Fn(RoundingStrategy, u64) -> u64,
    C: Fn(u64, u64, u64) -> bool,
> ValueOps<S, R, C> {
    /// The functions can be called with any values and give one result for each.
    pub open spec fn ok(&self) -> bool {
        &&& is_sum(self.sum)
        &&& forall|a: RoundingStrategy, v: u64| #[trigger] call_requires(self.round, (a, v))
        &&& forall|a: RoundingStrategy, v: u64, r: u64, s: u64| #[trigger]
            call_ensures(self.round, (a, v), r) && #[trigger] call_ensures(self.round, (a, v), s)
                ==> r == s
        &&& forall|a: u64, b: u64, d: u64| #[trigger] call_requires(self.close, (a, b, d))
        &&& forall|a: u64, b: u64, d: u64, r: bool, s: bool| #[trigger]
            call_ensures(self.close, (a, b, d), r) && #[trigger] call_ensures(
                self.close,
                (a, b, d),
                s,
            ) ==> r == s
    }

    /// A value as a series with a rounding stores it.
    pub open spec fn rounded(&self, rounding: Option<RoundingStrategy>, v: u64) -> u64 {
        match rounding {
            Some(a) => choose|r: u64| call_ensures(self.round, (a, v), r),
            None => v,
        }
    }

    /// Whether two values are close.
    pub open spec fn are_close(&self, a: u64, b: u64, d: u64) -> bool {
        choose|r: bool| call_ensures(self.close, (a, b, d), r)
    }

    /// A value as a series with a rounding stores it.
    pub fn adjust(&self, rounding: Option<RoundingStrategy>, v: u64) -> (r: u64)
        requires
            self.ok(),
        ensures
            r == self.rounded(rounding, v),
    {
        match rounding {
            Some(a) => (self.round)(a, v),
            None => v,
        }
    }
}

impl SampleDuplicatePolicy {
    /// The policy in force: one that is asked for, or that of the series, or to block.
    pub open spec fn in_force(&self, asked: Option<DuplicatePolicy>) -> DuplicatePolicy {
        match asked {
            Some(p) => p,
            None => match self.policy {
                Some(p) => p,
                None => DuplicatePolicy::Block,
            },
        }
    }

    /// Whether a sample is too close to the last to be stored: the policy in force lets the last
    /// value win, and neither time nor value moved by more than the series cares for.
    pub open spec fn ignores<
        S: Fn(u64, u64) -> u64,
        R: Fn(RoundingStrategy, u64) -> u64,
        C: Fn(u64, u64, u64) -> bool,
    >(
        &self,
        s: Sample,
        last: Sample,
        asked: Option<DuplicatePolicy>,
        ops: ValueOps<S, R, C>,
    ) -> bool {
        &&& self.in_force(asked) == DuplicatePolicy::KeepLast
        &&& s.timestamp >= last.timestamp
        &&& s.timestamp - last.timestamp <= self.max_time_delta
        &&& ops.are_close(s.value, last.value, self.max_value_delta)
    }

    /// The policy in force.
    pub fn resolve_policy(&self, asked: Option<DuplicatePolicy>) -> (r: DuplicatePolicy)
        ensures
            r == self.in_force(asked),
    {
        match asked {
            Some(p) => p,
            None => match self.policy {
                Some(p) => p,
                None => DuplicatePolicy::Block,
            },
        }
    }

    /// Whether a sample is too close to the last to be stored.
    pub fn is_duplicate<
        S: Fn(u64, u64) -> u64,
        R: Fn(RoundingStrategy, u64) -> u64,
        C: Fn(u64, u64, u64) -> bool,
    >(
        &self,
        s: &Sample,
        last: &Sample,
        asked: Option<DuplicatePolicy>,
        ops: &ValueOps<S, R, C>,
    ) -> (r: bool)
        requires
            ops.ok(),
        ensures
            r == self.ignores(*s, *last, asked, *ops),
    {
        if self.resolve_policy(asked) != DuplicatePolicy::KeepLast {
            return false;
        }
        if s.timestamp < last.timestamp {
            return false;
        }
        let apart: i128 = s.timestamp as i128 - last.timestamp as i128;
        if apart > self.max_time_delta as i128 {
            return false;
        }
        (ops.close)(s.value, last.value, self.max_value_delta)
    }
}

/// A series.
#[derive(Debug, Clone, PartialEq, Eq)]
pub struct TimeSeries<A> {
    pub id: SeriesRef,
    pub labels: Vec<Label>,
    /// How long samples are kept, in milliseconds. 0 keeps them for good.
    pub retention: u64,
    /// The size of new chunks.
    pub chunk_size: usize,
    pub chunks: Vec<TimeSeriesChunk>,
    pub total_samples: usize,
    pub first_timestamp: Timestamp,
    pub last_sample: Option<Sample>,
    pub sample_duplicates: SampleDuplicatePolicy,
    pub rounding: Option<RoundingStrategy>,
    pub rules: Vec<CompactionRule<A>>,
    /// The series that this one is a compaction of.
    pub src_series: Option<SeriesRef>,
    /// The bucket that the series, as the destination of a compaction, got last by its closing.
    pub last_forward_close: Option<Sample>,
}

/// The samples of chunks, one chunk after the other.
pub open spec fn flat(chunks: Seq<TimeSeriesChunk>) -> Seq<Sample>
    decreases chunks.len(),
{
    if chunks.len() == 0 {
        Seq::empty()
    } else {
        flat(chunks.drop_last()) + chunks.last()@
    }
}

/// What a chunk is to the series: its samples, and how many its size is for.
pub ghost struct Slot {
    pub samples: Seq<Sample>,
    pub limit: nat,
}

/// The chunks of a series.
pub open spec fn slots(chunks: Seq<TimeSeriesChunk>) -> Seq<Slot> {
    chunks.map_values(|c: TimeSeriesChunk| Slot { samples: c@, limit: c.limit() })
}

/// The chunks that hold samples.
pub open spec fn occupied(c: Seq<Slot>) -> Seq<Slot> {
    c.filter(|x: Slot| x.samples.len() > 0)
}

/// The chunks without the samples of a range of timestamps.
pub open spec fn without(c: Seq<Slot>, start: Timestamp, end: Timestamp) -> Seq<Slot> {
    c.map_values(|x: Slot| Slot { samples: outside(x.samples, start, end), limit: x.limit })
}

/// The oldest timestamp that a retention leaves, given the last.
pub open spec fn floor_at(retention: u64, last: Timestamp) -> Timestamp {
    if retention == 0 {
        0
    } else {
        let v = clamped(last - retention);
        if v < 0 {
            0
        } else {
            v as i64
        }
    }
}

/// What decides whether and how a series stores a sample.
pub ghost struct Terms {
    pub retention: u64,
    pub duplicates: SampleDuplicatePolicy,
    pub rounding: Option<RoundingStrategy>,
}

/// The oldest timestamp that a retention leaves of samples.
pub open spec fn min_of(retention: u64, s: Seq<Sample>) -> Timestamp {
    if retention == 0 {
        i64::MIN
    } else if s.len() == 0 {
        0
    } else {
        floor_at(retention, s.last().timestamp)
    }
}

/// What adding a sample gives: what is told, and the samples after it.
pub open spec fn added<
    S: Fn(u64, u64) -> u64,
    R: Fn(RoundingStrategy, u64) -> u64,
    C: Fn(u64, u64, u64) -> bool,
>(
    terms: Terms,
    s: Seq<Sample>,
    ts: Timestamp,
    value: u64,
    asked: Option<DuplicatePolicy>,
    ops: ValueOps<S, R, C>,
) -> (SampleAddResult, Seq<Sample>) {
    let sample = Sample { timestamp: ts, value: ops.rounded(terms.rounding, value) };
    if ts < min_of(terms.retention, s) {
        (SampleAddResult::TooOld, s)
    } else if s.len() > 0 && terms.duplicates.ignores(sample, s.last(), asked, ops) {
        (SampleAddResult::Ignored(s.last().timestamp), s)
    } else if s.len() == 0 || ts > s.last().timestamp {
        (SampleAddResult::Stored(sample), s.push(sample))
    } else {
        match upserted(s, true, sample, terms.duplicates.in_force(asked), ops.sum) {
            Ok(t) => (SampleAddResult::Stored(t[place_of(s, ts)]), t),
            Err(_) => (SampleAddResult::Duplicate, s),
        }
    }
}

/// The first timestamp of samples, or 0.
pub open spec fn first_of(s: Seq<Sample>) -> Timestamp {
    if s.len() == 0 {
        0
    } else {
        s[0].timestamp
    }
}

/// The last of samples.
pub open spec fn last_of(s: Seq<Sample>) -> Option<Sample> {
    if s.len() == 0 {
        None
    } else {
        Some(s.last())
    }
}

/// The chunks put together in two parts.
pub proof fn lemma_flat_add(a: Seq<TimeSeriesChunk>, b: Seq<TimeSeriesChunk>)
    ensures
        flat(a + b) == flat(a) + flat(b),
    decreases b.len(),
{
    if b.len() == 0 {
        assert(a + b =~= a);
        assert(flat(a) + flat(b) =~= flat(a));
    } else {
        assert((a + b).drop_last() =~= a + b.drop_last());
        assert((a + b).last() == b.last());
        lemma_flat_add(a, b.drop_last());
        assert(flat(a + b) =~= flat(a) + flat(b));
    }
}

/// The samples around one chunk.
pub proof fn lemma_flat_at(chunks: Seq<TimeSeriesChunk>, k: int)
    requires
        0 <= k < chunks.len(),
    ensures
        flat(chunks) == flat(chunks.take(k)) + chunks[k]@ + flat(chunks.skip(k + 1)),
{
    let a = chunks.take(k);
    let b = chunks.skip(k);
    let one = chunks.subrange(k, k + 1);
    let c = chunks.skip(k + 1);
    assert(a + b =~= chunks);
    assert(one + c =~= b);
    lemma_flat_add(a, b);
    lemma_flat_add(one, c);
    assert(one.drop_last() =~= Seq::<TimeSeriesChunk>::empty());
    assert(flat(one.drop_last()) =~= Seq::<Sample>::empty());
    assert(flat(one) =~= chunks[k]@);
    assert(flat(a) + (chunks[k]@ + flat(c)) =~= flat(a) + chunks[k]@ + flat(c));
}

/// A part of a strictly sorted run is strictly sorted.
pub proof fn lemma_part_strict(a: Seq<Sample>, b: Seq<Sample>, c: Seq<Sample>)
    requires
        is_strictly_sorted(a + b + c),
    ensures
        is_strictly_sorted(b),
        is_strictly_sorted(a),
        is_strictly_sorted(c),
        forall|i: int, j: int|
            #![trigger a[i], b[j]]
            0 <= i < a.len() && 0 <= j < b.len() ==> a[i].timestamp < b[j].timestamp,
        forall|i: int, j: int|
            #![trigger b[i], c[j]]
            0 <= i < b.len() && 0 <= j < c.len() ==> b[i].timestamp < c[j].timestamp,
        forall|i: int, j: int|
            #![trigger a[i], c[j]]
            0 <= i < a.len() && 0 <= j < c.len() ==> a[i].timestamp < c[j].timestamp,
{
    let s = a + b + c;
    let m = a.len() as int;
    let n = m + b.len();
    assert forall|i: int, j: int| 0 <= i < j < a.len() implies a[i].timestamp < a[j].timestamp by {
        assert(s[i] == a[i] && s[j] == a[j]);
    }
    assert forall|i: int, j: int| 0 <= i < j < b.len() implies b[i].timestamp < b[j].timestamp by {
        assert(s[m + i] == b[i] && s[m + j] == b[j]);
    }
    assert forall|i: int, j: int| 0 <= i < j < c.len() implies c[i].timestamp < c[j].timestamp by {
        assert(s[n + i] == c[i] && s[n + j] == c[j]);
    }
    assert forall|i: int, j: int|
        #![trigger a[i], b[j]]
        0 <= i < a.len() && 0 <= j < b.len() implies a[i].timestamp < b[j].timestamp by {
        assert(s[i] == a[i] && s[m + j] == b[j]);
    }
    assert forall|i: int, j: int|
        #![trigger b[i], c[j]]
        0 <= i < b.len() && 0 <= j < c.len() implies b[i].timestamp < c[j].timestamp by {
        assert(s[m + i] == b[i] && s[n + j] == c[j]);
    }
    assert forall|i: int, j: int|
        #![trigger a[i], c[j]]
        0 <= i < a.len() && 0 <= j < c.len() implies a[i].timestamp < c[j].timestamp by {
        assert(s[i] == a[i] && s[n + j] == c[j]);
    }
}

/// An upsert keeps timestamps apart.
pub proof fn lemma_upsert_strict<F: Fn(u64, u64) -> u64>(
    s: Seq<Sample>,
    full: bool,
    sample: Sample,
    policy: DuplicatePolicy,
    sum: F,
)
    requires
        is_strictly_sorted(s),
        s.len() > 0,
        sample.timestamp <= s.last().timestamp,
    ensures
        0 <= place_of(s, sample.timestamp) < s.len(),
        is_place(s, sample.timestamp as int, place_of(s, sample.timestamp)),
        match upserted(s, full, sample, policy, sum) {
            Ok(t) => {
                &&& is_strictly_sorted(t)
                &&& t.len() >= s.len()
                &&& t[place_of(s, sample.timestamp)].timestamp == sample.timestamp
                &&& place_of(t, sample.timestamp) == place_of(s, sample.timestamp)
                &&& t.last().timestamp == s.last().timestamp
            },
            Err(e) => e == TsdbError::DuplicateSample(sample.timestamp),
        },
{
    let ts = sample.timestamp;
    lemma_place_exists(s, ts);
    let at = place_of(s, ts);
    if at == s.len() {
        assert(s[s.len() - 1].timestamp < ts);
    }
    match upserted(s, full, sample, policy, sum) {
        Ok(t) => {
            if s[at].timestamp == ts {
                assert forall|i: int, j: int| 0 <= i < j < t.len() implies t[i].timestamp
                    < t[j].timestamp by {
                    assert(s[i].timestamp < s[j].timestamp);
                }
            } else {
                assert(t == s.insert(at, sample));
                assert forall|i: int, j: int| 0 <= i < j < t.len() implies t[i].timestamp
                    < t[j].timestamp by {
                    if i < at {
                        assert(t[i] == s[i]);
                    }
                    if i > at {
                        assert(t[i] == s[i - 1]);
                    }
                    if j < at {
                        assert(t[j] == s[j]);
                    }
                    if j > at {
                        assert(t[j] == s[j - 1]);
                        assert(s[at].timestamp > ts);
                        assert(s[at].timestamp <= s[j - 1].timestamp);
                    }
                }
                assert(t[t.len() - 1] == s[s.len() - 1]);
            }
            assert(is_place(t, ts as int, at)) by {
                assert forall|i: int| 0 <= i < at implies (#[trigger] t[i]).timestamp < ts by {
                    assert(t[i].timestamp < t[at].timestamp);
                }
                assert forall|i: int| at <= i < t.len() implies (#[trigger] t[i]).timestamp
                    >= ts by {
                    if at < i {
                        assert(t[at].timestamp < t[i].timestamp);
                    }
                }
            }
            lemma_place(t, ts, at);
        },
        Err(e) => {},
    }
}

/// An upsert into the chunk that a timestamp belongs to is one into the whole.
pub proof fn lemma_upsert_in_part<F: Fn(u64, u64) -> u64>(
    a: Seq<Sample>,
    b: Seq<Sample>,
    c: Seq<Sample>,
    full: bool,
    sample: Sample,
    policy: DuplicatePolicy,
    sum: F,
)
    requires
        is_strictly_sorted(a + b + c),
        b.len() > 0,
        sample.timestamp <= b.last().timestamp,
        forall|i: int| 0 <= i < a.len() ==> (#[trigger] a[i]).timestamp < sample.timestamp,
    ensures
        sample.timestamp <= (a + b + c).last().timestamp,
        place_of(a + b + c, sample.timestamp) == a.len() + place_of(b, sample.timestamp),
        match upserted(b, full, sample, policy, sum) {
            Ok(t) => upserted(a + b + c, full, sample, policy, sum) == Ok::<
                Seq<Sample>,
                TsdbError,
            >(a + t + c),
            Err(e) => upserted(a + b + c, full, sample, policy, sum) == Err::<
                Seq<Sample>,
                TsdbError,
            >(e),
        },
{
    let s = a + b + c;
    let ts = sample.timestamp;
    lemma_part_strict(a, b, c);
    lemma_upsert_strict(b, full, sample, policy, sum);
    let at = place_of(b, ts);
    let m = a.len() as int;
    assert(is_place(s, ts as int, m + at)) by {
        assert forall|i: int| 0 <= i < m + at implies (#[trigger] s[i]).timestamp < ts by {
            if i < m {
                assert(s[i] == a[i]);
            } else {
                assert(s[i] == b[i - m]);
            }
        }
        assert forall|i: int| m + at <= i < s.len() implies (#[trigger] s[i]).timestamp >= ts by {
            if i < m + b.len() {
                assert(s[i] == b[i - m]);
            } else {
                assert(s[i] == c[i - m - b.len()]);
                assert(b[b.len() - 1].timestamp < c[i - m - b.len()].timestamp);
            }
        }
    }
    lemma_place(s, ts, m + at);
    if c.len() == 0 {
        assert(s.last() == b.last());
    } else {
        assert(b[b.len() - 1].timestamp < c[c.len() - 1].timestamp);
        assert(s.last() == c[c.len() - 1]);
    }
    assert(s[m + at] == b[at]);
    match upserted(b, full, sample, policy, sum) {
        Ok(t) => {
            if b[at].timestamp == ts {
                let v = resolved(policy, b[at].value, sample.value, sum)->0;
                assert(s.update(m + at, Sample { timestamp: ts, value: v }) =~= a + t + c);
            } else {
                assert(s.insert(m + at, sample) =~= a + t + c);
            }
        },
        Err(e) => {},
    }
}

impl<A: Aggregation> TimeSeries<A> {
    /// The samples.
    pub open spec fn samples(&self) -> Seq<Sample> {
        flat(self.chunks@)
    }

    /// Samples are in order, one for a timestamp, and what is known about them is so. The count
    /// holds as long as a machine word can hold it.
    pub open spec fn wf(&self) -> bool {
        &&& is_strictly_sorted(self.samples())
        &&& self.samples().len() <= usize::MAX ==> self.total_samples == self.samples().len()
        &&& self.first_timestamp == first_of(self.samples())
        &&& self.last_sample == last_of(self.samples())
        &&& self.retention <= i64::MAX
        &&& self.rules_wf()
    }

    /// The rules have buckets that take time.
    pub open spec fn rules_wf(&self) -> bool {
        forall|i: int| 0 <= i < self.rules@.len() ==> (#[trigger] self.rules@[i]).wf()
    }

    /// Everything about the series but its samples and its marker.
    pub open spec fn same_setup(&self, other: Self) -> bool {
        &&& self.id == other.id
        &&& self.labels == other.labels
        &&& self.retention == other.retention
        &&& self.chunk_size == other.chunk_size
        &&& self.sample_duplicates == other.sample_duplicates
        &&& self.rounding == other.rounding
        &&& self.rules == other.rules
        &&& self.src_series == other.src_series
    }

    /// The oldest timestamp that the retention leaves: any, where there is none.
    pub open spec fn min_timestamp(&self) -> Timestamp {
        if self.retention == 0 {
            i64::MIN
        } else {
            match self.last_sample {
                Some(last) => floor_at(self.retention, last.timestamp),
                None => 0,
            }
        }
    }

    /// What decides whether and how a sample is stored.
    pub open spec fn terms(&self) -> Terms {
        Terms {
            retention: self.retention,
            duplicates: self.sample_duplicates,
            rounding: self.rounding,
        }
    }

    /// A series without samples.
    pub fn new(id: SeriesRef, chunk_size: usize) -> (r: Self)
        ensures
            r.wf(),
            r.id == id,
            r.chunk_size == chunk_size,
            r.samples() == Seq::<Sample>::empty(),
            r.chunks@.len() == 0,
            r.rules@.len() == 0,
            r.labels@.len() == 0,
            r.retention == 0,
            r.rounding is None,
            r.src_series is None,
            r.last_forward_close is None,
            r.sample_duplicates == (SampleDuplicatePolicy {
                policy: None,
                max_time_delta: 0,
                max_value_delta: 0,
            }),
    {
        TimeSeries {
            id,
            labels: Vec::new(),
            retention: 0,
            chunk_size,
            chunks: Vec::new(),
            total_samples: 0,
            first_timestamp: 0,
            last_sample: None,
            sample_duplicates: SampleDuplicatePolicy {
                policy: None,
                max_time_delta: 0,
                max_value_delta: 0,
            },
            rounding: None,
            rules: Vec::new(),
            src_series: None,
            last_forward_close: None,
        }
    }

    /// Whether there is no sample.
    pub fn is_empty(&self) -> (r: bool)
        requires
            self.wf(),
        ensures
            r == (self.samples().len() == 0),
    {
        self.last_sample.is_none()
    }

    /// Whether the series is the destination of a compaction.
    pub fn is_compaction(&self) -> (r: bool)
        ensures
            r == (self.src_series is Some),
    {
        self.src_series.is_some()
    }

    /// The last timestamp, or 0.
    pub fn last_timestamp(&self) -> (r: Timestamp)
        requires
            self.wf(),
        ensures
            r == if self.samples().len() == 0 {
                0
            } else {
                self.samples().last().timestamp
            },
    {
        match self.last_sample {
            Some(s) => s.timestamp,
            None => 0,
        }
    }

    /// The oldest timestamp that the retention leaves.
    pub fn get_min_timestamp(&self) -> (r: Timestamp)
        requires
            self.retention <= i64::MAX,
        ensures
            r == self.min_timestamp(),
    {
        if self.retention == 0 {
            return i64::MIN;
        }
        match self.last_sample {
            Some(last) => retention_floor(self.retention, last.timestamp),
            None => 0,
        }
    }

    /// The chunks are in order, each for itself.
    pub proof fn lemma_chunk(&self, k: int)
        requires
            is_strictly_sorted(self.samples()),
            0 <= k < self.chunks@.len(),
        ensures
            self.chunks@[k].wf(),
            is_strictly_sorted(self.chunks@[k]@),
            self.samples() == flat(self.chunks@.take(k)) + self.chunks@[k]@ + flat(
                self.chunks@.skip(k + 1),
            ),
    {
        lemma_flat_at(self.chunks@, k);
        lemma_part_strict(
            flat(self.chunks@.take(k)),
            self.chunks@[k]@,
            flat(self.chunks@.skip(k + 1)),
        );
    }

    /// The samples of a range of timestamps, whatever the retention says.
    pub fn stored_range_iter(&self, start: Timestamp, end: Timestamp) -> (r: Vec<Sample>)
        requires
            self.wf(),
        ensures
            r@ == within(self.samples(), start, end),
    {
        let mut out: Vec<Sample> = Vec::new();
        let mut k: usize = 0;
        proof {
            reveal(Seq::filter);
            assert(self.chunks@.take(0) =~= Seq::<TimeSeriesChunk>::empty());
            assert(flat(self.chunks@.take(0)) =~= Seq::<Sample>::empty());
            assert(within(flat(self.chunks@.take(0)), start, end) =~= Seq::<Sample>::empty());
        }
        while k < self.chunks.len()
            invariant
                k <= self.chunks@.len(),
                self.wf(),
                out@ == within(flat(self.chunks@.take(k as int)), start, end),
            decreases self.chunks.len() - k,
        {
            proof {
                self.lemma_chunk(k as int);
                let p = |x: Sample| start <= x.timestamp <= end;
                let a = flat(self.chunks@.take(k as int));
                assert(self.chunks@.take(k + 1).drop_last() =~= self.chunks@.take(k as int));
                Seq::filter_distributes_over_add(a, self.chunks@[k as int]@, p);
            }
            match self.chunks[k].get_range(start, end) {
                Ok(part) => {
                    append_samples(&mut out, part.as_slice());
                },
                Err(_) => {},
            }
            k += 1;
        }
        assert(self.chunks@.take(k as int) =~= self.chunks@);
        out
    }

    /// The samples of a range of timestamps that the retention leaves.
    pub fn range_iter(&self, start: Timestamp, end: Timestamp) -> (r: Vec<Sample>)
        requires
            self.wf(),
        ensures
            r@ == within(
                self.samples(),
                if start < self.min_timestamp() {
                    self.min_timestamp()
                } else {
                    start
                },
                end,
            ),
    {
        let floor: Timestamp = self.get_min_timestamp();
        let from: Timestamp = if start < floor {
            floor
        } else {
            start
        };
        self.stored_range_iter(from, end)
    }

    /// The sample at a timestamp.
    pub fn get_sample(&self, ts: Timestamp) -> (r: Result<Option<Sample>, TsdbError>)
        requires
            self.wf(),
        ensures
            r == Ok::<Option<Sample>, TsdbError>(sample_at(self.samples(), ts)),
    {
        let found = self.stored_range_iter(ts, ts);
        proof {
            lemma_sample_at(self.samples(), ts);
        }
        if found.len() == 0 {
            Ok(None)
        } else {
            Ok(Some(found[0]))
        }
    }

    /// The chunk that a timestamp belongs to: the first that ends at it or later.
    pub fn find_chunk(&self, ts: Timestamp) -> (r: usize)
        requires
            self.wf(),
            self.samples().len() > 0,
            ts <= self.samples().last().timestamp,
        ensures
            r < self.chunks@.len(),
            self.chunks@[r as int]@.len() > 0,
            ts <= self.chunks@[r as int]@.last().timestamp,
            forall|i: int|
                0 <= i < flat(self.chunks@.take(r as int)).len() ==> (#[trigger] flat(
                    self.chunks@.take(r as int),
                )[i]).timestamp < ts,
    {
        let mut k: usize = 0;
        proof {
            assert(self.chunks@.take(0) =~= Seq::<TimeSeriesChunk>::empty());
            assert(flat(self.chunks@.take(0)) =~= Seq::<Sample>::empty());
        }
        while k < self.chunks.len()
            invariant
                k <= self.chunks@.len(),
                self.wf(),
                forall|i: int|
                    0 <= i < flat(self.chunks@.take(k as int)).len() ==> (#[trigger] flat(
                        self.chunks@.take(k as int),
                    )[i]).timestamp < ts,
            decreases self.chunks.len() - k,
        {
            if !self.chunks[k].is_empty() && ts <= self.chunks[k].last_timestamp() {
                return k;
            }
            proof {
                self.lemma_chunk(k as int);
                let a = flat(self.chunks@.take(k as int));
                let b = self.chunks@[k as int]@;
                assert(self.chunks@.take(k + 1).drop_last() =~= self.chunks@.take(k as int));
                let both = flat(self.chunks@.take(k + 1));
                assert(both == a + b);
                assert forall|i: int| 0 <= i < both.len() implies (#[trigger] both[i]).timestamp
                    < ts by {
                    if i < a.len() {
                        assert(both[i] == a[i]);
                    } else {
                        assert(both[i] == b[i - a.len()]);
                        assert(b[i - a.len()].timestamp <= b[b.len() - 1].timestamp);
                    }
                }
            }
            k += 1;
        }
        proof {
            assert(self.chunks@.take(k as int) =~= self.chunks@);
            let s = self.samples();
            assert(s[s.len() - 1].timestamp < ts);
        }
        0
    }
}

/// The sample at a timestamp, if there is one.
pub open spec fn sample_at(s: Seq<Sample>, ts: Timestamp) -> Option<Sample> {
    let found = within(s, ts, ts);
    if found.len() == 0 {
        None
    } else {
        Some(found[0])
    }
}

/// What the sample at a timestamp is.
pub proof fn lemma_sample_at(s: Seq<Sample>, ts: Timestamp)
    ensures
        match sample_at(s, ts) {
            Some(x) => s.contains(x) && x.timestamp == ts,
            None => forall|i: int| 0 <= i < s.len() ==> (#[trigger] s[i]).timestamp != ts,
        },
{
    broadcast use vstd::seq_lib::group_filter_ensures;

    let p = |x: Sample| ts <= x.timestamp <= ts;
    let found = s.filter(p);
    if found.len() == 0 {
        assert forall|i: int| 0 <= i < s.len() implies (#[trigger] s[i]).timestamp != ts by {
            if s[i].timestamp == ts {
                assert(p(s[i]));
                assert(found.contains(s[i]));
            }
        }
    } else {
        assert(p(found[0]));
        lemma_filter_from(s, p);
    }
}

/// What a filter leaves was there.
pub proof fn lemma_filter_from(s: Seq<Sample>, p: spec_fn(Sample) -> bool)
    ensures
        forall|i: int| 0 <= i < s.filter(p).len() ==> s.contains(#[trigger] s.filter(p)[i]),
    decreases s.len(),
{
    reveal(Seq::filter);
    if s.len() > 0 {
        let less = s.drop_last();
        lemma_filter_from(less, p);
        let now = s.filter(p);
        assert forall|i: int| 0 <= i < now.len() implies s.contains(#[trigger] now[i]) by {
            if i < less.filter(p).len() {
                assert(less.contains(less.filter(p)[i]));
                let j = choose|j: int| 0 <= j < less.len() && less[j] == now[i];
                assert(s[j] == now[i]);
            } else {
                assert(s[s.len() - 1] == now[i]);
            }
        }
    }
}

/// The oldest timestamp that a retention leaves, given the last.
pub fn retention_floor(retention: u64, last: Timestamp) -> (r: Timestamp)
    requires
        retention <= i64::MAX,
    ensures
        r == floor_at(retention, last),
        r >= 0,
{
    if retention == 0 {
        return 0;
    }
    let v: i64 = saturating_sub(last, retention as i64);
    if v < 0 {
        0
    } else {
        v
    }
}

} // verus!
