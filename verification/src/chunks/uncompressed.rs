//! A chunk that holds its samples as they are.
use crate::chunks::merge::{law_merge_sorted, merge_chunk_samples, merge_steps, merged, outcomes};
use crate::chunks::search::{
    append_samples, copy_samples, get_sample_index, is_place, lemma_filter_sorted, outside,
    place_of, range_bounds, within,
};
use crate::encoding::{
    law_u64_round_trip, law_uvarint_round_trip, parse_u64_le, parse_uvarint, try_read_u64_le,
    try_read_uvarint, uvarint_bytes, write_u64_le, write_uvarint,
};
use crate::error::TsdbError;
use crate::sample::{
    is_sorted, is_sum, resolved, DuplicatePolicy, Sample, SampleAddResult, Timestamp,
    MAX_FINITE_BITS, SAMPLE_SIZE,
};
use vstd::prelude::*;

verus! {

/// How many samples a chunk of the default size holds.
pub const MAX_UNCOMPRESSED_SAMPLES: usize = 256;

/// The size of a chunk where none is asked for.
pub const DEFAULT_MAX_SIZE: usize = 4096;

/// Marks the bytes of an uncompressed chunk.
pub const FLAG_SERIALIZE_UNCOMPRESSED: u8 = 1;

/// A run of samples, with the size that it is meant to stay in.
#[derive(Clone, Debug, PartialEq, Eq, Hash)]
pub struct UncompressedChunk {
    pub max_size: usize,
    pub samples: Vec<Sample>,
    pub max_elements: usize,
}

/// What an upsert makes of the samples of a chunk.
pub open spec fn upserted<F: Fn(u64, u64) -> u64>(
    s: Seq<Sample>,
    full: bool,
    sample: Sample,
    policy: DuplicatePolicy,
    sum: F,
) -> Result<Seq<Sample>, TsdbError> {
    if s.len() == 0 {
        Ok(seq![sample])
    } else if sample.timestamp > s.last().timestamp {
        if full {
            Err(TsdbError::CapacityFull(MAX_UNCOMPRESSED_SAMPLES))
        } else {
            Ok(s.push(sample))
        }
    } else {
        let at = place_of(s, sample.timestamp);
        if s[at].timestamp == sample.timestamp {
            match resolved(policy, s[at].value, sample.value, sum) {
                Some(value) => Ok(
                    s.update(at, Sample { timestamp: sample.timestamp, value }),
                ),
                None => Err(TsdbError::DuplicateSample(sample.timestamp)),
            }
        } else {
            Ok(s.insert(at, sample))
        }
    }
}

/// What merging samples makes of the samples of a chunk, and what is told of them.
pub open spec fn merge_into<F: Fn(u64, u64) -> u64>(
    s: Seq<Sample>,
    full: bool,
    samples: Seq<Sample>,
    policy: DuplicatePolicy,
    sum: F,
) -> Result<(Seq<Sample>, Seq<SampleAddResult>), TsdbError> {
    if samples.len() == 0 {
        Ok((s, Seq::empty()))
    } else if samples.len() == 1 {
        let first = samples[0];
        if s.len() == 0 && full {
            Err(TsdbError::CapacityFull(MAX_UNCOMPRESSED_SAMPLES))
        } else {
            match upserted(s, full, first, policy, sum) {
                Ok(t) => Ok((t, seq![SampleAddResult::Stored(first)])),
                Err(TsdbError::DuplicateSample(_)) => Ok((s, seq![SampleAddResult::Duplicate])),
                Err(e) => Err(e),
            }
        }
    } else if s.len() == 0 || samples[0].timestamp > s.last().timestamp {
        Ok((s + samples, samples.map_values(|x: Sample| SampleAddResult::Stored(x))))
    } else {
        let steps = merge_steps(s, samples, policy, sum);
        Ok((merged(steps), outcomes(steps)))
    }
}

/// The samples of a chunk at given timestamps, in the order of those.
pub open spec fn samples_at(s: Seq<Sample>, timestamps: Seq<Timestamp>) -> Seq<Sample>
    decreases timestamps.len(),
{
    if timestamps.len() == 0 {
        Seq::empty()
    } else {
        let before = samples_at(s, timestamps.drop_last());
        let ts = timestamps.last();
        let at = place_of(s, ts);
        if at < s.len() && s[at].timestamp == ts {
            before.push(s[at])
        } else {
            before
        }
    }
}

/// The bytes of samples.
pub open spec fn samples_bytes(s: Seq<Sample>) -> Seq<u8>
    decreases s.len(),
{
    if s.len() == 0 {
        Seq::empty()
    } else {
        samples_bytes(s.drop_last()) + uvarint_bytes(s.last().timestamp as u64 as nat)
            + vstd::bytes::spec_u64_to_le_bytes(s.last().value)
    }
}

/// The bytes of a chunk.
pub open spec fn chunk_bytes(c: UncompressedChunk) -> Seq<u8> {
    uvarint_bytes(c.max_size as nat) + uvarint_bytes(c.max_elements as nat) + uvarint_bytes(
        c.samples@.len(),
    ) + samples_bytes(c.samples@)
}

/// What reading samples gives.
pub open spec fn parse_samples(b: Seq<u8>, n: nat) -> Option<Seq<Sample>>
    decreases n,
{
    if n == 0 {
        Some(Seq::empty())
    } else {
        match parse_uvarint(b) {
            Err(_) => None,
            Ok((ts, r1)) => match parse_u64_le(r1) {
                Err(_) => None,
                Ok((value, r2)) => match parse_samples(r2, (n - 1) as nat) {
                    None => None,
                    Some(more) => Some(seq![Sample { timestamp: ts as i64, value }] + more),
                },
            },
        }
    }
}

/// What reading a chunk gives: its two limits and its samples.
pub open spec fn parse_chunk(b: Seq<u8>) -> Result<(usize, usize, Seq<Sample>), TsdbError> {
    match parse_uvarint(b) {
        Err(_) => Err(TsdbError::DecodingError),
        Ok((max_size, r1)) => match parse_uvarint(r1) {
            Err(_) => Err(TsdbError::DecodingError),
            Ok((max_elements, r2)) => match parse_uvarint(r2) {
                Err(_) => Err(TsdbError::DecodingError),
                Ok((n, r3)) => match parse_samples(r3, n as usize as nat) {
                    None => Err(TsdbError::ChunkDecoding),
                    Some(samples) => Ok((max_size as usize, max_elements as usize, samples)),
                },
            },
        },
    }
}

impl Default for UncompressedChunk {
    fn default() -> (r: Self)
        ensures
            r.samples@ == Seq::<Sample>::empty(),
            r.max_size == DEFAULT_MAX_SIZE,
            r.max_elements == MAX_UNCOMPRESSED_SAMPLES,
    {
        UncompressedChunk {
            samples: Vec::new(),
            max_size: DEFAULT_MAX_SIZE,
            max_elements: MAX_UNCOMPRESSED_SAMPLES,
        }
    }
}

impl UncompressedChunk {
    /// The samples are in the order of their timestamps.
    pub open spec fn wf(&self) -> bool {
        is_sorted(self.samples@)
    }

    /// Whether the chunk holds as many samples as its size is for.
    pub open spec fn full(&self) -> bool {
        self.samples@.len() >= self.max_elements
    }

    /// Everything about the chunk but its samples.
    pub open spec fn same_limits(&self, other: Self) -> bool {
        self.max_size == other.max_size && self.max_elements == other.max_elements
    }

    /// A chunk of a size, with samples.
    pub fn new(size: usize, samples: &[Sample]) -> (r: Self)
        ensures
            r.samples@ == samples@,
            r.max_size == size,
            r.max_elements == size as nat / SAMPLE_SIZE as nat,
    {
        UncompressedChunk {
            samples: copy_samples(samples),
            max_size: size,
            max_elements: size / SAMPLE_SIZE,
        }
    }

    /// A chunk that is just large enough for samples.
    pub fn from_vec(samples: Vec<Sample>) -> (r: Self)
        requires
            samples@.len() * SAMPLE_SIZE <= usize::MAX,
        ensures
            r.samples == samples,
            r.max_elements == samples@.len(),
            r.max_size == samples@.len() * SAMPLE_SIZE,
    {
        let max_elements: usize = samples.len();
        let size: usize = max_elements * SAMPLE_SIZE;
        UncompressedChunk { samples, max_size: size, max_elements }
    }

    /// An empty chunk of a size.
    pub fn with_max_size(size: usize) -> (r: Self)
        ensures
            r.samples@ == Seq::<Sample>::empty(),
            r.max_size == size,
            r.max_elements == size as nat / SAMPLE_SIZE as nat,
    {
        UncompressedChunk { max_size: size, max_elements: size / SAMPLE_SIZE, samples: Vec::new() }
    }

    /// A copy.
    pub fn copy(&self) -> (r: Self)
        ensures
            r.samples@ == self.samples@,
            r.same_limits(*self),
    {
        UncompressedChunk {
            max_size: self.max_size,
            samples: copy_samples(self.samples.as_slice()),
            max_elements: self.max_elements,
        }
    }

    /// Puts a sample where its timestamp belongs, or resolves it with the one that is there.
    fn handle_insert<F: Fn(u64, u64) -> u64>(
        &mut self,
        sample: Sample,
        policy: DuplicatePolicy,
        sum: &F,
    ) -> (r: Result<(), TsdbError>)
        requires
            old(self).wf(),
            old(self).samples@.len() > 0,
            sample.timestamp <= old(self).samples@.last().timestamp,
            is_sum(*sum),
        ensures
            final(self).same_limits(*old(self)),
            match upserted(old(self).samples@, old(self).full(), sample, policy, *sum) {
                Ok(s) => r is Ok && final(self).samples@ == s,
                Err(e) => r == Err::<(), TsdbError>(e) && final(self).samples@ == old(
                    self,
                ).samples@,
            },
    {
        let ts: Timestamp = sample.timestamp;
        let (idx, found) = get_sample_index(self.samples.as_slice(), ts);
        if found {
            let current: u64 = self.samples[idx].value;
            let value: u64 = match policy.duplicate_value(ts, current, sample.value, sum) {
                Ok(value) => value,
                Err(e) => {
                    return Err(e);
                },
            };
            self.samples.set(idx, Sample { timestamp: ts, value });
        } else {
            self.samples.insert(idx, sample);
        }
        Ok(())
    }

    /// All samples, in order.
    pub fn iter(&self) -> (r: Vec<Sample>)
        ensures
            r@ == self.samples@,
    {
        copy_samples(self.samples.as_slice())
    }

    /// The samples of a range of timestamps, in order.
    pub fn range_iter(&self, start_ts: Timestamp, end_ts: Timestamp) -> (r: Vec<Sample>)
        requires
            self.wf(),
        ensures
            r@ == within(self.samples@, start_ts, end_ts),
    {
        self.get_range_slice(start_ts, end_ts)
    }

    /// The samples at given timestamps. Nothing is looked up where the first of them lies past
    /// the chunk.
    pub fn samples_by_timestamps(&self, timestamps: &[Timestamp]) -> (r: Result<
        Vec<Sample>,
        TsdbError,
    >)
        requires
            self.wf(),
        ensures
            r is Ok,
            self.samples@.len() == 0 || timestamps@.len() == 0 || timestamps@[0]
                > self.samples@.last().timestamp ==> r->Ok_0@ == Seq::<Sample>::empty(),
            self.samples@.len() > 0 && timestamps@.len() > 0 && timestamps@[0]
                <= self.samples@.last().timestamp ==> r->Ok_0@ == samples_at(
                self.samples@,
                timestamps@,
            ),
    {
        if self.samples.len() == 0 || timestamps.len() == 0 {
            return Ok(Vec::new());
        }
        if timestamps[0] > self.last_timestamp() {
            return Ok(Vec::new());
        }
        let mut samples: Vec<Sample> = Vec::new();
        let mut i: usize = 0;
        assert(timestamps@.take(0) =~= Seq::<Timestamp>::empty());
        while i < timestamps.len()
            invariant
                i <= timestamps@.len(),
                self.wf(),
                samples@ == samples_at(self.samples@, timestamps@.take(i as int)),
            decreases timestamps.len() - i,
        {
            assert(timestamps@.take(i + 1).drop_last() =~= timestamps@.take(i as int));
            let (pos, found) = get_sample_index(self.samples.as_slice(), timestamps[i]);
            if found {
                samples.push(self.samples[pos]);
            }
            i += 1;
        }
        assert(timestamps@.take(i as int) =~= timestamps@);
        Ok(samples)
    }

    /// The sample at a timestamp: the first of them, where there are several.
    pub fn get_sample(&self, ts: Timestamp) -> (r: Option<Sample>)
        requires
            self.wf(),
        ensures
            match r {
                Some(s) => s.timestamp == ts && {
                    let at = place_of(self.samples@, ts);
                    at < self.samples@.len() && self.samples@[at] == s
                },
                None => forall|i: int|
                    0 <= i < self.samples@.len() ==> (#[trigger] self.samples@[i]).timestamp != ts,
            },
    {
        let (idx, found) = get_sample_index(self.samples.as_slice(), ts);
        if found {
            Some(self.samples[idx])
        } else {
            proof {
                assert forall|i: int| 0 <= i < self.samples@.len() implies (
                #[trigger] self.samples@[i]).timestamp != ts by {
                    if i >= idx {
                        assert(self.samples@[idx as int].timestamp <= self.samples@[i].timestamp);
                    }
                }
            }
            None
        }
    }

    /// The samples of a range of timestamps.
    pub fn get_range_slice(&self, start_ts: Timestamp, end_ts: Timestamp) -> (r: Vec<Sample>)
        requires
            self.wf(),
        ensures
            r@ == within(self.samples@, start_ts, end_ts),
    {
        let (lo, hi) = range_bounds(self.samples.as_slice(), start_ts, end_ts);
        copy_samples(vstd::slice::slice_subrange(self.samples.as_slice(), lo, hi))
    }

    /// The samples of a range of timestamps, where there are any.
    pub fn get_range_as_ref(&self, start_ts: Timestamp, end_ts: Timestamp) -> (r: Option<&[Sample]>)
        requires
            self.wf(),
        ensures
            match r {
                Some(s) => s@.len() > 0 && s@ == within(self.samples@, start_ts, end_ts),
                None => within(self.samples@, start_ts, end_ts).len() == 0,
            },
    {
        match self.get_index_bounds(start_ts, end_ts) {
            Some((lo, hi)) => {
                assert(self.samples.len() == self.samples@.len());
                Some(
                vstd::slice::slice_subrange(self.samples.as_slice(), lo, hi + 1),
            )
            },
            None => None,
        }
    }

    /// The first and the last position of a range of timestamps, where it holds a sample.
    pub fn get_index_bounds(&self, start: Timestamp, end: Timestamp) -> (r: Option<(usize, usize)>)
        requires
            self.wf(),
        ensures
            match r {
                Some((lo, hi)) => {
                    &&& lo <= hi < self.samples@.len()
                    &&& within(self.samples@, start, end) == self.samples@.subrange(
                        lo as int,
                        hi + 1,
                    )
                    &&& outside(self.samples@, start, end) == self.samples@.take(lo as int)
                        + self.samples@.skip(hi + 1)
                },
                None => {
                    &&& within(self.samples@, start, end) == Seq::<Sample>::empty()
                    &&& outside(self.samples@, start, end) == self.samples@
                },
            },
    {
        let (lo, hi) = range_bounds(self.samples.as_slice(), start, end);
        if lo < hi {
            Some((lo, hi - 1))
        } else {
            assert(self.samples@.take(lo as int) + self.samples@.skip(hi as int)
                =~= self.samples@);
            None
        }
    }

    /// Whether a range of timestamps holds a sample.
    pub fn has_samples_in_range(&self, start: Timestamp, end: Timestamp) -> (r: bool)
        requires
            self.wf(),
        ensures
            r == (within(self.samples@, start, end).len() > 0),
    {
        let (lo, hi) = range_bounds(self.samples.as_slice(), start, end);
        lo < hi
    }

    /// The timestamp of the first sample, or 0.
    pub fn first_timestamp(&self) -> (r: Timestamp)
        ensures
            r == if self.samples@.len() == 0 {
                0
            } else {
                self.samples@[0].timestamp
            },
    {
        if self.samples.len() == 0 {
            return 0;
        }
        self.samples[0].timestamp
    }

    /// The timestamp of the last sample, or the largest there is.
    pub fn last_timestamp(&self) -> (r: Timestamp)
        ensures
            r == if self.samples@.len() == 0 {
                i64::MAX
            } else {
                self.samples@.last().timestamp
            },
    {
        if self.samples.len() == 0 {
            return i64::MAX;
        }
        self.samples[self.samples.len() - 1].timestamp
    }

    /// How many samples there are.
    pub fn len(&self) -> (r: usize)
        ensures
            r == self.samples@.len(),
    {
        self.samples.len()
    }

    /// Whether there is no sample.
    pub fn is_empty(&self) -> (r: bool)
        ensures
            r == (self.samples@.len() == 0),
    {
        self.samples.len() == 0
    }

    /// The value of the last sample, or the largest finite one.
    pub fn last_value(&self) -> (r: u64)
        ensures
            r == if self.samples@.len() == 0 {
                MAX_FINITE_BITS
            } else {
                self.samples@.last().value
            },
    {
        if self.samples.len() == 0 {
            return MAX_FINITE_BITS;
        }
        self.samples[self.samples.len() - 1].value
    }

    /// How many bytes the samples take.
    pub fn size(&self) -> (r: usize)
        requires
            self.samples@.len() * SAMPLE_SIZE <= usize::MAX,
        ensures
            r == self.samples@.len() * SAMPLE_SIZE,
    {
        self.samples.len() * SAMPLE_SIZE
    }

    /// The size that the chunk is meant to stay in.
    pub fn max_size(&self) -> (r: usize)
        ensures
            r == self.max_size,
    {
        self.max_size
    }

    /// Removes the samples of a range of timestamps, and says how many there were.
    pub fn remove_range(&mut self, start_ts: Timestamp, end_ts: Timestamp) -> (r: Result<
        usize,
        TsdbError,
    >)
        requires
            old(self).wf(),
        ensures
            r == Ok::<usize, TsdbError>(
                within(old(self).samples@, start_ts, end_ts).len() as usize,
            ),
            final(self).samples@ == outside(old(self).samples@, start_ts, end_ts),
            final(self).same_limits(*old(self)),
            final(self).wf(),
    {
        let ghost start = self.samples@;
        let count: usize = self.samples.len();
        let (lo, hi) = range_bounds(self.samples.as_slice(), start_ts, end_ts);
        let mut tail = self.samples.split_off(lo);
        let mut rest = tail.split_off(hi - lo);
        self.samples.append(&mut rest);
        proof {
            assert(self.samples@ =~= start.take(lo as int) + start.skip(hi as int));
            lemma_filter_sorted(start, |x: Sample| !(start_ts <= x.timestamp <= end_ts));
        }
        Ok(count - self.samples.len())
    }

    /// Adds a sample at the end.
    pub fn add_sample(&mut self, sample: &Sample) -> (r: Result<(), TsdbError>)
        ensures
            final(self).same_limits(*old(self)),
            old(self).full() ==> r == Err::<(), TsdbError>(
                TsdbError::CapacityFull(MAX_UNCOMPRESSED_SAMPLES),
            ) && final(self).samples@ == old(self).samples@,
            !old(self).full() ==> r is Ok && final(self).samples@ == old(self).samples@.push(
                *sample,
            ),
    {
        if self.is_full() {
            return Err(TsdbError::CapacityFull(MAX_UNCOMPRESSED_SAMPLES));
        }
        self.samples.push(*sample);
        Ok(())
    }

    /// The samples of a range of timestamps.
    pub fn get_range(&self, start: Timestamp, end: Timestamp) -> (r: Result<Vec<Sample>, TsdbError>)
        requires
            self.wf(),
        ensures
            r is Ok,
            r->Ok_0@ == within(self.samples@, start, end),
    {
        Ok(self.get_range_slice(start, end))
    }

    /// Puts a sample where its timestamp belongs, and says how many samples that adds.
    pub fn upsert_sample<F: Fn(u64, u64) -> u64>(
        &mut self,
        sample: Sample,
        dp_policy: DuplicatePolicy,
        sum: &F,
    ) -> (r: Result<usize, TsdbError>)
        requires
            old(self).wf(),
            is_sum(*sum),
        ensures
            final(self).same_limits(*old(self)),
            final(self).wf(),
            match upserted(old(self).samples@, old(self).full(), sample, dp_policy, *sum) {
                Ok(s) => final(self).samples@ == s && r == Ok::<usize, TsdbError>(
                    (s.len() - old(self).samples@.len()) as usize,
                ),
                Err(e) => r == Err::<usize, TsdbError>(e) && final(self).samples@ == old(
                    self,
                ).samples@,
            },
    {
        let ghost start = self.samples@;
        let count: usize = self.samples.len();
        if count == 0 {
            self.samples.push(sample);
            assert(self.samples@ =~= seq![sample]);
        } else {
            let last_ts: Timestamp = self.samples[count - 1].timestamp;
            if sample.timestamp > last_ts {
                match self.add_sample(&sample) {
                    Ok(_) => {},
                    Err(e) => {
                        return Err(e);
                    },
                }
            } else {
                proof {
                    lemma_upsert_sorted(start, self.full(), sample, dp_policy, *sum);
                }
                match self.handle_insert(sample, dp_policy, sum) {
                    Ok(_) => {},
                    Err(e) => {
                        return Err(e);
                    },
                }
            }
        }
        Ok(self.samples.len() - count)
    }

    /// Merges samples, which come in the order of their timestamps.
    pub fn merge_samples<F: Fn(u64, u64) -> u64>(
        &mut self,
        samples: &[Sample],
        dp_policy: Option<DuplicatePolicy>,
        sum: &F,
    ) -> (r: Result<Vec<SampleAddResult>, TsdbError>)
        requires
            old(self).wf(),
            is_sorted(samples@),
            is_sum(*sum),
        ensures
            final(self).same_limits(*old(self)),
            final(self).wf(),
            match merge_into(
                old(self).samples@,
                old(self).full(),
                samples@,
                policy_or_last(dp_policy),
                *sum,
            ) {
                Ok((s, told)) => r is Ok && final(self).samples@ == s && r->Ok_0@ == told,
                Err(e) => r is Err && r->Err_0 == e && final(self).samples@ == old(self).samples@,
            },
    {
        if samples.len() == 0 {
            return Ok(Vec::new());
        }
        let first: Sample = samples[0];
        let policy: DuplicatePolicy = match dp_policy {
            Some(p) => p,
            None => DuplicatePolicy::KeepLast,
        };
        if samples.len() == 1 {
            if self.is_empty() {
                match self.add_sample(&first) {
                    Ok(_) => {},
                    Err(e) => {
                        return Err(e);
                    },
                }
                assert(self.samples@ =~= seq![first]);
                let mut told: Vec<SampleAddResult> = Vec::new();
                told.push(SampleAddResult::Stored(first));
                assert(told@ =~= seq![SampleAddResult::Stored(first)]);
                return Ok(told);
            }
            return match self.upsert_sample(first, policy, sum) {
                Ok(_) => {
                    let mut told: Vec<SampleAddResult> = Vec::new();
                    told.push(SampleAddResult::Stored(first));
                    assert(told@ =~= seq![SampleAddResult::Stored(first)]);
                    Ok(told)
                },
                Err(TsdbError::DuplicateSample(_)) => {
                    let mut told: Vec<SampleAddResult> = Vec::new();
                    told.push(SampleAddResult::Duplicate);
                    assert(told@ =~= seq![SampleAddResult::Duplicate]);
                    Ok(told)
                },
                Err(e) => Err(e),
            };
        }
        if self.is_empty() || first.timestamp > self.last_timestamp() {
            append_samples(&mut self.samples, samples);
            let mut told: Vec<SampleAddResult> = Vec::new();
            let mut i: usize = 0;
            while i < samples.len()
                invariant
                    i <= samples@.len(),
                    told@ == samples@.take(i as int).map_values(
                        |x: Sample| SampleAddResult::Stored(x),
                    ),
                decreases samples.len() - i,
            {
                told.push(SampleAddResult::Stored(samples[i]));
                assert(told@ =~= samples@.take(i + 1).map_values(
                    |x: Sample| SampleAddResult::Stored(x),
                ));
                i += 1;
            }
            assert(samples@.take(i as int) =~= samples@);
            return Ok(told);
        }
        proof {
            law_merge_sorted(self.samples@, samples@, policy, *sum);
        }
        let (dest, told) = merge_chunk_samples(self.samples.as_slice(), samples, policy, sum);
        self.samples = dest;
        Ok(told)
    }

    /// Whether the chunk holds as many samples as its size is for.
    pub fn is_full(&self) -> (r: bool)
        ensures
            r == self.full(),
    {
        self.samples.len() >= self.max_elements
    }

    /// How many bytes a sample takes.
    pub fn bytes_per_sample(&self) -> (r: usize)
        ensures
            r == SAMPLE_SIZE,
    {
        SAMPLE_SIZE
    }

    /// Removes all samples.
    pub fn clear(&mut self)
        ensures
            final(self).samples@ == Seq::<Sample>::empty(),
            final(self).same_limits(*old(self)),
    {
        self.samples.clear();
    }

    /// Takes other samples for those that are there.
    pub fn set_data(&mut self, samples: &[Sample]) -> (r: Result<(), TsdbError>)
        ensures
            r is Ok,
            final(self).samples@ == samples@,
            final(self).same_limits(*old(self)),
    {
        self.samples = copy_samples(samples);
        Ok(())
    }

    /// Keeps the first half of the samples and gives the second. A lone sample stays.
    pub fn split(&mut self) -> (r: Result<Self, TsdbError>)
        ensures
            r is Ok,
            final(self).same_limits(*old(self)),
            r->Ok_0.same_limits(*old(self)),
            final(self).samples@ == old(self).samples@.take(split_at(old(self).samples@.len())),
            r->Ok_0.samples@ == old(self).samples@.skip(split_at(old(self).samples@.len())),
    {
        let ghost start = self.samples@;
        let n: usize = self.samples.len();
        if n == 0 {
            let r = self.copy();
            assert(start.take(0) =~= start);
            assert(start.skip(0) =~= start);
            return Ok(r);
        }
        let half: usize = if n == 1 {
            1
        } else {
            n / 2
        };
        let right = self.samples.split_off(half);
        assert(right@ =~= start.skip(half as int));
        assert(self.samples@ =~= start.take(half as int));
        Ok(
            UncompressedChunk {
                max_size: self.max_size,
                samples: right,
                max_elements: self.max_elements,
            },
        )
    }

    /// Writes the chunk: a flag, its limits and its samples.
    pub fn serialize(&self, dest: &mut Vec<u8>)
        ensures
            final(dest)@ == old(dest)@ + (seq![FLAG_SERIALIZE_UNCOMPRESSED] + chunk_bytes(*self)),
    {
        let ghost start = dest@;
        dest.push(FLAG_SERIALIZE_UNCOMPRESSED);
        self.serialize_raw(dest);
        assert(dest@ =~= start + (seq![FLAG_SERIALIZE_UNCOMPRESSED] + chunk_bytes(*self)));
    }

    /// Reads a chunk behind its flag.
    pub fn deserialize(buf: &[u8]) -> (r: Result<Self, TsdbError>)
        ensures
            buf@.len() < 2 ==> r is Err && r->Err_0 == TsdbError::ChunkDecoding,
            buf@.len() >= 2 ==> is_chunk_read(r, parse_chunk(buf@.skip(1))),
    {
        if buf.len() < 2 {
            return Err(TsdbError::ChunkDecoding);
        }
        let tail = vstd::slice::slice_subrange(buf, 1, buf.len());
        assert(tail@ =~= buf@.skip(1));
        Self::deserialize_raw(tail)
    }

    /// Writes the limits and the samples.
    pub fn serialize_raw(&self, buf: &mut Vec<u8>)
        ensures
            final(buf)@ == old(buf)@ + chunk_bytes(*self),
    {
        let ghost start = buf@;
        write_uvarint(buf, self.max_size as u64);
        write_uvarint(buf, self.max_elements as u64);
        write_uvarint(buf, self.samples.len() as u64);
        let ghost head = uvarint_bytes(self.max_size as nat) + uvarint_bytes(
            self.max_elements as nat,
        ) + uvarint_bytes(self.samples@.len());
        let mut i: usize = 0;
        assert(self.samples@.take(0) =~= Seq::<Sample>::empty());
        assert(buf@ =~= start + head + samples_bytes(self.samples@.take(0)));
        while i < self.samples.len()
            invariant
                i <= self.samples@.len(),
                buf@ == start + head + samples_bytes(self.samples@.take(i as int)),
            decreases self.samples.len() - i,
        {
            let s: Sample = self.samples[i];
            let ts: u64 = s.timestamp as u64;
            assert(self.samples@.take(i + 1).drop_last() =~= self.samples@.take(i as int));
            write_uvarint(buf, ts);
            write_u64_le(buf, s.value);
            assert(buf@ =~= start + head + samples_bytes(self.samples@.take(i + 1)));
            i += 1;
        }
        assert(self.samples@.take(i as int) =~= self.samples@);
        assert(start + head + samples_bytes(self.samples@) =~= start + chunk_bytes(*self));
    }

    /// Reads the limits and the samples. What follows them is not looked at.
    #[verifier::loop_isolation(false)]
    pub fn deserialize_raw(buf: &[u8]) -> (r: Result<Self, TsdbError>)
        ensures
            is_chunk_read(r, parse_chunk(buf@)),
    {
        let mut rest: &[u8] = buf;
        let max_size: usize = match read_usize(&mut rest) {
            Ok(v) => v,
            Err(e) => {
                return Err(e);
            },
        };
        let max_elements: usize = match read_usize(&mut rest) {
            Ok(v) => v,
            Err(e) => {
                return Err(e);
            },
        };
        let len: usize = match read_usize(&mut rest) {
            Ok(v) => v,
            Err(e) => {
                return Err(e);
            },
        };
        let ghost body = rest@;
        let mut samples: Vec<Sample> = Vec::new();
        let mut i: usize = 0;
        proof {
            match parse_samples(body, len as nat) {
                Some(more) => {
                    assert(samples@ + more =~= more);
                },
                None => {},
            }
        }
        while i < len
            invariant
                i <= len,
                parse_samples(body, len as nat) == with_samples(
                    samples@,
                    parse_samples(rest@, (len - i) as nat),
                ),
            decreases len - i,
        {
            let ts: u64 = match try_read_uvarint(&mut rest) {
                Ok(v) => v,
                Err(_) => {
                    return Err(TsdbError::ChunkDecoding);
                },
            };
            let value: u64 = match try_read_u64_le(&mut rest) {
                Ok(v) => v,
                Err(_) => {
                    return Err(TsdbError::ChunkDecoding);
                },
            };
            let ghost before = samples@;
            samples.push(Sample { timestamp: ts as i64, value });
            proof {
                match parse_samples(rest@, (len - i - 1) as nat) {
                    Some(more) => {
                        let s = Sample { timestamp: ts as i64, value };
                        assert(before + (seq![s] + more) =~= samples@ + more);
                    },
                    None => {},
                }
            }
            i += 1;
        }
        assert(samples@ + Seq::<Sample>::empty() =~= samples@);
        Ok(UncompressedChunk { max_size, samples, max_elements })
    }
}

/// Where a chunk of `n` samples is split.
pub open spec fn split_at(n: nat) -> int {
    if n <= 1 {
        n as int
    } else {
        n as int / 2
    }
}

/// The policy of a merge that names none.
pub open spec fn policy_or_last(p: Option<DuplicatePolicy>) -> DuplicatePolicy {
    match p {
        Some(p) => p,
        None => DuplicatePolicy::KeepLast,
    }
}

/// That a chunk was read as its bytes say.
pub open spec fn is_chunk_read(
    r: Result<UncompressedChunk, TsdbError>,
    parsed: Result<(usize, usize, Seq<Sample>), TsdbError>,
) -> bool {
    match parsed {
        Ok((max_size, max_elements, samples)) => r is Ok && r->Ok_0.max_size == max_size
            && r->Ok_0.max_elements == max_elements && r->Ok_0.samples@ == samples,
        Err(e) => r is Err && r->Err_0 == e,
    }
}

spec fn with_samples(done: Seq<Sample>, more: Option<Seq<Sample>>) -> Option<Seq<Sample>> {
    match more {
        Some(m) => Some(done + m),
        None => None,
    }
}

/// Reads a number of the header.
fn read_usize(buf: &mut &[u8]) -> (r: Result<usize, TsdbError>)
    ensures
        match parse_uvarint((*old(buf))@) {
            Ok((v, rest)) => r == Ok::<usize, TsdbError>(v as usize) && (*final(buf))@ == rest,
            Err(_) => r == Err::<usize, TsdbError>(TsdbError::DecodingError),
        },
{
    match try_read_uvarint(buf) {
        Ok(v) => Ok(v as usize),
        Err(_) => Err(TsdbError::DecodingError),
    }
}

/// An upsert keeps the order.
proof fn lemma_upsert_sorted<F: Fn(u64, u64) -> u64>(
    s: Seq<Sample>,
    full: bool,
    sample: Sample,
    policy: DuplicatePolicy,
    sum: F,
)
    requires
        is_sorted(s),
        s.len() > 0,
        sample.timestamp <= s.last().timestamp,
    ensures
        match upserted(s, full, sample, policy, sum) {
            Ok(t) => is_sorted(t) && s.len() <= t.len() <= s.len() + 1,
            Err(_) => true,
        },
        0 <= place_of(s, sample.timestamp) < s.len(),
{
    lemma_place_exists(s, sample.timestamp);
    let at = place_of(s, sample.timestamp);
    assert(is_place(s, sample.timestamp as int, at));
    if at == s.len() {
        assert(s[s.len() - 1].timestamp < sample.timestamp);
    }
    let t = s.insert(at, sample);
    assert forall|i: int, j: int| 0 <= i <= j < t.len() implies t[i].timestamp
        <= t[j].timestamp by {
        let i0 = if i <= at {
            i
        } else {
            i - 1
        };
        let j0 = if j < at {
            j
        } else {
            j - 1
        };
        if i < at {
            assert(t[i] == s[i]);
        }
        if i > at {
            assert(t[i] == s[i - 1]);
        }
        if j < at {
            assert(t[j] == s[j]);
        }
        if j > at {
            assert(t[j] == s[j - 1]);
        }
    }
}

/// A sorted run has a place for every timestamp.
pub proof fn lemma_place_exists(s: Seq<Sample>, ts: Timestamp)
    requires
        is_sorted(s),
    ensures
        is_place(s, ts as int, place_of(s, ts)),
    decreases s.len(),
{
    if s.len() == 0 {
        assert(is_place(s, ts as int, 0));
    } else if s.last().timestamp < ts {
        assert forall|i: int| 0 <= i < s.len() implies (#[trigger] s[i]).timestamp < ts by {
            assert(s[i].timestamp <= s[s.len() - 1].timestamp);
        }
        assert(is_place(s, ts as int, s.len() as int));
    } else {
        let less = s.drop_last();
        assert(is_sorted(less)) by {
            assert forall|i: int, j: int| 0 <= i <= j < less.len() implies less[i].timestamp
                <= less[j].timestamp by {
                assert(s[i].timestamp <= s[j].timestamp);
            }
        }
        lemma_place_exists(less, ts);
        let at = place_of(less, ts);
        assert(is_place(less, ts as int, at));
        assert forall|i: int| 0 <= i < at implies (#[trigger] s[i]).timestamp < ts by {
            assert(less[i] == s[i]);
        }
        assert forall|i: int| at <= i < s.len() implies (#[trigger] s[i]).timestamp >= ts by {
            if i < less.len() {
                assert(less[i] == s[i]);
            }
        }
        assert(is_place(s, ts as int, at));
    }
}

proof fn lemma_samples_first(s: Seq<Sample>)
    requires
        s.len() > 0,
    ensures
        samples_bytes(s) == uvarint_bytes(s[0].timestamp as u64 as nat)
            + vstd::bytes::spec_u64_to_le_bytes(s[0].value) + samples_bytes(s.skip(1)),
    decreases s.len(),
{
    if s.len() == 1 {
        assert(s.drop_last() =~= Seq::<Sample>::empty());
        assert(s.skip(1) =~= Seq::<Sample>::empty());
        assert(samples_bytes(s.drop_last()) =~= Seq::<u8>::empty());
        assert(samples_bytes(s.skip(1)) =~= Seq::<u8>::empty());
        assert(samples_bytes(s) =~= uvarint_bytes(s[0].timestamp as u64 as nat)
            + vstd::bytes::spec_u64_to_le_bytes(s[0].value) + samples_bytes(s.skip(1)));
    } else {
        lemma_samples_first(s.drop_last());
        assert(s.drop_last().skip(1) =~= s.skip(1).drop_last());
        assert(s.skip(1).last() == s.last());
        assert(samples_bytes(s) =~= uvarint_bytes(s[0].timestamp as u64 as nat)
            + vstd::bytes::spec_u64_to_le_bytes(s[0].value) + samples_bytes(s.skip(1)));
    }
}

proof fn lemma_samples_round_trip(s: Seq<Sample>)
    ensures
        parse_samples(samples_bytes(s), s.len()) == Some(s),
    decreases s.len(),
{
    if s.len() == 0 {
        assert(s =~= Seq::<Sample>::empty());
    } else {
        lemma_samples_first(s);
        lemma_samples_round_trip(s.skip(1));
        let ts = s[0].timestamp;
        let bits = ts as u64;
        let value = vstd::bytes::spec_u64_to_le_bytes(s[0].value);
        let more = samples_bytes(s.skip(1));
        assert(samples_bytes(s) =~= uvarint_bytes(bits as nat) + (value + more));
        law_uvarint_round_trip(bits, value + more);
        law_u64_round_trip(s[0].value, more);
        assert((ts as u64) as i64 == ts) by (bit_vector);
        assert(seq![s[0]] + s.skip(1) =~= s);
    }
}

/// A chunk that was written is read back.
pub proof fn law_chunk_round_trip(c: UncompressedChunk)
    ensures
        parse_chunk(chunk_bytes(c)) == Ok::<(usize, usize, Seq<Sample>), TsdbError>(
            (c.max_size, c.max_elements, c.samples@),
        ),
{
    let n = c.samples@.len();
    let t3 = samples_bytes(c.samples@);
    let t2 = uvarint_bytes(n) + t3;
    let t1 = uvarint_bytes(c.max_elements as nat) + t2;
    assert(chunk_bytes(c) =~= uvarint_bytes(c.max_size as nat) + t1);
    assert(n == c.samples.len());
    law_uvarint_round_trip(c.max_size as u64, t1);
    law_uvarint_round_trip(c.max_elements as u64, t2);
    law_uvarint_round_trip(n as u64, t3);
    lemma_samples_round_trip(c.samples@);
}

/// The two halves of a chunk that is split are the chunk.
pub proof fn law_split_keeps_samples(s: Seq<Sample>)
    ensures
        s.take(split_at(s.len())) + s.skip(split_at(s.len())) == s,
{
    assert(s.take(split_at(s.len())) + s.skip(split_at(s.len())) =~= s);
}

} // verus!
