//! A chunk of any encoding.
use crate::chunks::search::{lemma_filter_sorted, within};
use crate::chunks::uncompressed::{
    chunk_bytes, merge_into, parse_chunk, policy_or_last, samples_at, split_at, upserted,
    UncompressedChunk, FLAG_SERIALIZE_UNCOMPRESSED, MAX_UNCOMPRESSED_SAMPLES,
};
use crate::error::TsdbError;
use crate::sample::{
    is_sorted, is_sum, DuplicatePolicy, Sample, SampleAddResult, Timestamp, SAMPLE_SIZE,
};
use vstd::prelude::*;

verus! {

/// How a chunk stores its samples.
#[derive(Debug, Clone, Copy, PartialEq, Eq, Hash, Structural)]
pub enum ChunkEncoding {
    /// As they are.
    Uncompressed,
}

/// A chunk of one of the encodings.
#[derive(Clone, Debug, PartialEq, Eq, Hash)]
pub enum TimeSeriesChunk {
    Uncompressed(UncompressedChunk),
}

/// The room that a vector of samples has set aside, in samples, by `Vec::capacity`: at least what
/// it holds.
#[verifier::external_body]
fn reserved(samples: &Vec<Sample>) -> (r: usize)
    ensures
        r >= samples@.len(),
{
    samples.capacity()
}

impl TimeSeriesChunk {
    /// The chunk in its encoding.
    pub open spec fn inner(&self) -> UncompressedChunk {
        match *self {
            TimeSeriesChunk::Uncompressed(c) => c,
        }
    }

    /// The samples.
    pub open spec fn view(&self) -> Seq<Sample> {
        self.inner().samples@
    }

    /// The samples are in the order of their timestamps.
    pub open spec fn wf(&self) -> bool {
        is_sorted(self@)
    }

    /// How many samples the size of the chunk is for.
    pub open spec fn limit(&self) -> nat {
        self.inner().max_elements as nat
    }

    /// Whether the chunk holds as many samples as its size is for.
    pub open spec fn full(&self) -> bool {
        self@.len() >= self.limit()
    }

    /// Everything about the chunk but its samples.
    pub open spec fn same_limits(&self, other: Self) -> bool {
        self.inner().same_limits(other.inner())
    }

    /// An empty chunk of a size.
    pub fn new(encoding: ChunkEncoding, size: usize) -> (r: Self)
        ensures
            r@ == Seq::<Sample>::empty(),
            r.inner().max_size == size,
            r.limit() == size as nat / SAMPLE_SIZE as nat,
    {
        match encoding {
            ChunkEncoding::Uncompressed => TimeSeriesChunk::Uncompressed(
                UncompressedChunk::with_max_size(size),
            ),
        }
    }

    /// How the chunk stores its samples.
    pub fn get_encoding(&self) -> (r: ChunkEncoding)
        ensures
            r == ChunkEncoding::Uncompressed,
    {
        match self {
            TimeSeriesChunk::Uncompressed(_) => ChunkEncoding::Uncompressed,
        }
    }

    /// A copy.
    pub fn copy(&self) -> (r: Self)
        ensures
            r@ == self@,
            r.same_limits(*self),
    {
        match self {
            TimeSeriesChunk::Uncompressed(c) => TimeSeriesChunk::Uncompressed(c.copy()),
        }
    }

    /// All samples, in order.
    pub fn iter(&self) -> (r: Vec<Sample>)
        ensures
            r@ == self@,
    {
        match self {
            TimeSeriesChunk::Uncompressed(c) => c.iter(),
        }
    }

    /// The samples, where they are.
    pub fn as_slice(&self) -> (r: &[Sample])
        ensures
            r@ == self@,
    {
        match self {
            TimeSeriesChunk::Uncompressed(c) => c.samples.as_slice(),
        }
    }

    /// The timestamp of the first sample, or 0.
    pub fn first_timestamp(&self) -> (r: Timestamp)
        ensures
            r == if self@.len() == 0 {
                0
            } else {
                self@[0].timestamp
            },
    {
        match self {
            TimeSeriesChunk::Uncompressed(c) => c.first_timestamp(),
        }
    }

    /// The timestamp of the last sample, or the largest there is.
    pub fn last_timestamp(&self) -> (r: Timestamp)
        ensures
            r == if self@.len() == 0 {
                i64::MAX
            } else {
                self@.last().timestamp
            },
    {
        match self {
            TimeSeriesChunk::Uncompressed(c) => c.last_timestamp(),
        }
    }

    /// How many samples there are.
    pub fn len(&self) -> (r: usize)
        ensures
            r == self@.len(),
    {
        match self {
            TimeSeriesChunk::Uncompressed(c) => c.len(),
        }
    }

    /// Whether there is no sample.
    pub fn is_empty(&self) -> (r: bool)
        ensures
            r == (self@.len() == 0),
    {
        self.len() == 0
    }

    /// Whether the chunk holds as many samples as its size is for.
    pub fn is_full(&self) -> (r: bool)
        ensures
            r == self.full(),
    {
        match self {
            TimeSeriesChunk::Uncompressed(c) => c.is_full(),
        }
    }

    /// How many bytes the samples take.
    pub fn size(&self) -> (r: usize)
        requires
            self@.len() * SAMPLE_SIZE <= usize::MAX,
        ensures
            r == self@.len() * SAMPLE_SIZE,
    {
        match self {
            TimeSeriesChunk::Uncompressed(c) => c.size(),
        }
    }

    /// The size that the chunk is meant to stay in.
    pub fn max_size(&self) -> (r: usize)
        ensures
            r == self.inner().max_size,
    {
        match self {
            TimeSeriesChunk::Uncompressed(c) => c.max_size(),
        }
    }

    /// How many bytes a sample takes.
    pub fn bytes_per_sample(&self) -> (r: usize)
        ensures
            r == SAMPLE_SIZE,
    {
        SAMPLE_SIZE
    }

    /// How many more samples the size of the chunk is for.
    pub fn estimate_remaining_sample_capacity(&self) -> (r: usize)
        ensures
            r == if self@.len() <= self.limit() {
                self.limit() - self@.len()
            } else {
                0
            },
    {
        match self {
            TimeSeriesChunk::Uncompressed(c) => if c.samples.len() <= c.max_elements {
                c.max_elements - c.samples.len()
            } else {
                0
            },
        }
    }

    /// How much memory the samples take: the room that is set aside for them, which is at least
    /// what they need. How much more it is, is up to the allocator and not stated.
    pub fn memory_usage(&self) -> (r: usize)
        ensures
            r >= self@.len() * SAMPLE_SIZE || r == usize::MAX,
    {
        let n: usize = match self {
            TimeSeriesChunk::Uncompressed(c) => reserved(&c.samples),
        };
        if n <= usize::MAX / SAMPLE_SIZE {
            n * SAMPLE_SIZE
        } else {
            usize::MAX
        }
    }

    /// The samples of a range of timestamps.
    pub fn get_range(&self, start: Timestamp, end: Timestamp) -> (r: Result<Vec<Sample>, TsdbError>)
        requires
            self.wf(),
        ensures
            r is Ok,
            r->Ok_0@ == within(self@, start, end),
    {
        match self {
            TimeSeriesChunk::Uncompressed(c) => c.get_range(start, end),
        }
    }

    /// Whether a range of timestamps holds a sample.
    pub fn has_samples_in_range(&self, start: Timestamp, end: Timestamp) -> (r: bool)
        requires
            self.wf(),
        ensures
            r == (within(self@, start, end).len() > 0),
    {
        match self {
            TimeSeriesChunk::Uncompressed(c) => c.has_samples_in_range(start, end),
        }
    }

    /// The samples at given timestamps. Nothing is looked up where the first of them lies past
    /// the chunk.
    pub fn samples_by_timestamps(&self, timestamps: &[Timestamp]) -> (r: Result<
        Vec<Sample>,
        TsdbError,
    >)
        requires
            self.wf(),
        ensures
            r is Ok,
            self@.len() == 0 || timestamps@.len() == 0 || timestamps@[0] > self@.last().timestamp
                ==> r->Ok_0@ == Seq::<Sample>::empty(),
            self@.len() > 0 && timestamps@.len() > 0 && timestamps@[0] <= self@.last().timestamp
                ==> r->Ok_0@ == samples_at(self@, timestamps@),
    {
        match self {
            TimeSeriesChunk::Uncompressed(c) => c.samples_by_timestamps(timestamps),
        }
    }

    /// Adds a sample at the end.
    pub fn add_sample(&mut self, sample: &Sample) -> (r: Result<(), TsdbError>)
        ensures
            final(self).same_limits(*old(self)),
            old(self).full() ==> r == Err::<(), TsdbError>(
                TsdbError::CapacityFull(MAX_UNCOMPRESSED_SAMPLES),
            ) && final(self)@ == old(self)@,
            !old(self).full() ==> r is Ok && final(self)@ == old(self)@.push(*sample),
    {
        match self {
            TimeSeriesChunk::Uncompressed(c) => c.add_sample(sample),
        }
    }

    /// Puts a sample where its timestamp belongs, and says how many samples that adds.
    pub fn upsert_sample<F: Fn(u64, u64) -> u64>(
        &mut self,
        sample: Sample,
        dp_policy: DuplicatePolicy,
        sum: &F,
    ) -> (r: Result<usize, TsdbError>)
        requires
            old(self).wf(),
            is_sum(*sum),
        ensures
            final(self).same_limits(*old(self)),
            final(self).wf(),
            match upserted(old(self)@, old(self).full(), sample, dp_policy, *sum) {
                Ok(s) => final(self)@ == s && r == Ok::<usize, TsdbError>(
                    (s.len() - old(self)@.len()) as usize,
                ),
                Err(e) => r == Err::<usize, TsdbError>(e) && final(self)@ == old(self)@,
            },
    {
        match self {
            TimeSeriesChunk::Uncompressed(c) => c.upsert_sample(sample, dp_policy, sum),
        }
    }

    /// Merges samples, which come in the order of their timestamps.
    pub fn merge_samples<F: Fn(u64, u64) -> u64>(
        &mut self,
        samples: &[Sample],
        dp_policy: Option<DuplicatePolicy>,
        sum: &F,
    ) -> (r: Result<Vec<SampleAddResult>, TsdbError>)
        requires
            old(self).wf(),
            is_sorted(samples@),
            is_sum(*sum),
        ensures
            final(self).same_limits(*old(self)),
            final(self).wf(),
            match merge_into(
                old(self)@,
                old(self).full(),
                samples@,
                policy_or_last(dp_policy),
                *sum,
            ) {
                Ok((s, told)) => r is Ok && final(self)@ == s && r->Ok_0@ == told,
                Err(e) => r is Err && r->Err_0 == e && final(self)@ == old(self)@,
            },
    {
        match self {
            TimeSeriesChunk::Uncompressed(c) => c.merge_samples(samples, dp_policy, sum),
        }
    }

    /// Removes the samples of a range of timestamps, and says how many there were.
    pub fn remove_range(&mut self, start_ts: Timestamp, end_ts: Timestamp) -> (r: Result<
        usize,
        TsdbError,
    >)
        requires
            old(self).wf(),
        ensures
            r == Ok::<usize, TsdbError>(within(old(self)@, start_ts, end_ts).len() as usize),
            final(self)@ == crate::chunks::search::outside(old(self)@, start_ts, end_ts),
            final(self).same_limits(*old(self)),
            final(self).wf(),
    {
        match self {
            TimeSeriesChunk::Uncompressed(c) => c.remove_range(start_ts, end_ts),
        }
    }

    /// Removes all samples.
    pub fn clear(&mut self)
        ensures
            final(self)@ == Seq::<Sample>::empty(),
            final(self).same_limits(*old(self)),
    {
        match self {
            TimeSeriesChunk::Uncompressed(c) => c.clear(),
        }
    }

    /// Takes other samples for those that are there.
    pub fn set_data(&mut self, samples: &[Sample]) -> (r: Result<(), TsdbError>)
        ensures
            r is Ok,
            final(self)@ == samples@,
            final(self).same_limits(*old(self)),
    {
        match self {
            TimeSeriesChunk::Uncompressed(c) => c.set_data(samples),
        }
    }

    /// Keeps the first half of the samples and gives the second. A lone sample stays.
    pub fn split(&mut self) -> (r: Result<Self, TsdbError>)
        ensures
            r is Ok,
            final(self).same_limits(*old(self)),
            r->Ok_0.same_limits(*old(self)),
            final(self)@ == old(self)@.take(split_at(old(self)@.len())),
            r->Ok_0@ == old(self)@.skip(split_at(old(self)@.len())),
    {
        match self {
            TimeSeriesChunk::Uncompressed(c) => match c.split() {
                Ok(right) => Ok(TimeSeriesChunk::Uncompressed(right)),
                Err(e) => Err(e),
            },
        }
    }

    /// Writes the chunk.
    pub fn serialize(&self, dest: &mut Vec<u8>)
        ensures
            final(dest)@ == old(dest)@ + (seq![FLAG_SERIALIZE_UNCOMPRESSED] + chunk_bytes(
                self.inner(),
            )),
    {
        match self {
            TimeSeriesChunk::Uncompressed(c) => c.serialize(dest),
        }
    }

    /// Reads a chunk.
    pub fn deserialize(buf: &[u8]) -> (r: Result<Self, TsdbError>)
        ensures
            buf@.len() < 2 ==> r is Err && r->Err_0 == TsdbError::ChunkDecoding,
            buf@.len() >= 2 ==> match parse_chunk(buf@.skip(1)) {
                Ok((max_size, max_elements, samples)) => r is Ok && r->Ok_0@ == samples
                    && r->Ok_0.inner().max_size == max_size && r->Ok_0.limit() == max_elements,
                Err(e) => r is Err && r->Err_0 == e,
            },
    {
        match UncompressedChunk::deserialize(buf) {
            Ok(c) => Ok(TimeSeriesChunk::Uncompressed(c)),
            Err(e) => Err(e),
        }
    }
}

/// What moving samples of one chunk into another leaves of the two, and how many were moved, or
/// `None` where nothing is moved: the source is empty, or the room in the destination is no more
/// than a quarter of it.
pub open spec fn moved<F: Fn(u64, u64) -> u64>(
    dest: Seq<Sample>,
    limit: nat,
    src: Seq<Sample>,
    min_timestamp: Timestamp,
    policy: DuplicatePolicy,
    sum: F,
) -> Result<Option<(Seq<Sample>, Seq<Sample>, nat)>, TsdbError> {
    let room = if dest.len() <= limit {
        limit - dest.len()
    } else {
        0
    };
    let live = within(src, min_timestamp, i64::MAX);
    let n = if live.len() <= room {
        live.len() as int
    } else {
        room
    };
    if src.len() == 0 || (room < src.len() && room <= src.len() as int / 4) {
        Ok(None)
    } else {
        match merge_into(dest, dest.len() >= limit, live.take(n), policy, sum) {
            Ok((s, told)) => Ok(
                Some(
                    (
                        s,
                        if room >= src.len() {
                            Seq::empty()
                        } else {
                            live.skip(n)
                        },
                        told.len(),
                    ),
                ),
            ),
            Err(e) => Err(e),
        }
    }
}

/// Moves samples of a chunk into one before it, as far as that has room: all of them where they
/// fit, or the first where the room is more than a quarter of the source. Samples older than a
/// timestamp are dropped on the way. Gives the number of samples moved, or `None` where nothing
/// was done.
pub fn merge_by_capacity<F: Fn(u64, u64) -> u64>(
    dest: &mut TimeSeriesChunk,
    src: &mut TimeSeriesChunk,
    min_timestamp: Timestamp,
    policy: Option<DuplicatePolicy>,
    sum: &F,
) -> (r: Result<Option<usize>, TsdbError>)
    requires
        old(dest).wf(),
        old(src).wf(),
        is_sum(*sum),
    ensures
        final(dest).same_limits(*old(dest)),
        final(src).same_limits(*old(src)),
        final(dest).wf(),
        final(src).wf(),
        match moved(
            old(dest)@,
            old(dest).limit(),
            old(src)@,
            min_timestamp,
            policy_or_last(policy),
            *sum,
        ) {
            Ok(Some((d, s, n))) => {
                &&& r == Ok::<Option<usize>, TsdbError>(Some(n as usize))
                &&& n <= usize::MAX
                &&& final(dest)@ == d
                &&& final(src)@ == s
            },
            Ok(None) => {
                &&& r == Ok::<Option<usize>, TsdbError>(None)
                &&& final(dest)@ == old(dest)@
                &&& final(src)@ == old(src)@
            },
            Err(e) => {
                &&& r == Err::<Option<usize>, TsdbError>(e)
                &&& final(dest)@ == old(dest)@
                &&& final(src)@ == old(src)@
            },
        },
{
    let count: usize = src.len();
    let room: usize = dest.estimate_remaining_sample_capacity();
    if count == 0 || (room < count && room <= count / 4) {
        return Ok(None);
    }
    let ghost all = src@;
    let live: Vec<Sample> = match src.get_range(min_timestamp, i64::MAX) {
        Ok(live) => live,
        Err(e) => {
            return Err(e);
        },
    };
    let n: usize = if live.len() <= room {
        live.len()
    } else {
        room
    };
    proof {
        lemma_filter_sorted(all, |x: Sample| min_timestamp <= x.timestamp <= i64::MAX);
        lemma_part_sorted(live@, 0, n as int);
        lemma_part_sorted(live@, n as int, live@.len() as int);
        assert(live@.subrange(0, n as int) =~= live@.take(n as int));
        assert(live@.subrange(n as int, live@.len() as int) =~= live@.skip(n as int));
    }
    let head = vstd::slice::slice_subrange(live.as_slice(), 0, n);
    let told: Vec<SampleAddResult> = match dest.merge_samples(head, policy, sum) {
        Ok(told) => told,
        Err(e) => {
            return Err(e);
        },
    };
    if room >= count {
        src.clear();
    } else {
        let tail = vstd::slice::slice_subrange(live.as_slice(), n, live.len());
        match src.set_data(tail) {
            Ok(_) => {},
            Err(e) => {
                return Err(e);
            },
        }
    }
    assert(told.len() == told@.len());
    Ok(Some(told.len()))
}

/// A part of a sorted run is sorted.
pub proof fn lemma_part_sorted(s: Seq<Sample>, lo: int, hi: int)
    requires
        is_sorted(s),
        0 <= lo <= hi <= s.len(),
    ensures
        is_sorted(s.subrange(lo, hi)),
{
    let part = s.subrange(lo, hi);
    assert forall|i: int, j: int| 0 <= i <= j < part.len() implies part[i].timestamp
        <= part[j].timestamp by {
        assert(part[i] == s[lo + i]);
        assert(part[j] == s[lo + j]);
    }
}

} // verus!
