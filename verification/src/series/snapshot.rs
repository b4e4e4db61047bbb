//! Rules and chunks as the plain values that are written to a snapshot, and back.
use crate::aggregation::Aggregation;
use crate::chunks::uncompressed::UncompressedChunk;
use crate::error::TsdbError;
use crate::postings::SeriesRef;
use crate::sample::{Sample, Timestamp, SAMPLE_SIZE};
use crate::series::rule::CompactionRule;
use vstd::prelude::*;

verus! {

/// The largest size of a chunk.
pub const MAX_CHUNK_SIZE: usize = 1048576;

/// What stands for no open bucket.
pub const NO_BUCKET: Timestamp = -1;

/// A rule as plain values, beside its aggregator.
#[derive(Debug, Clone, Copy, PartialEq, Eq, Structural)]
pub struct RuleRecord {
    pub dest_id: SeriesRef,
    pub bucket_duration: u64,
    pub align_timestamp: Timestamp,
    /// Where the open bucket starts, or what stands for none.
    pub bucket_start: Timestamp,
    pub has_samples: bool,
}

/// The plain values of a rule.
pub open spec fn record_of<A>(rule: CompactionRule<A>) -> RuleRecord {
    RuleRecord {
        dest_id: rule.dest_id,
        bucket_duration: rule.bucket_duration,
        align_timestamp: rule.align_timestamp,
        bucket_start: match rule.bucket_start {
            Some(start) => start,
            None => NO_BUCKET,
        },
        has_samples: rule.has_samples,
    }
}

/// The rule of plain values and an aggregator.
pub open spec fn rule_of<A>(record: RuleRecord, aggregator: A) -> CompactionRule<A> {
    CompactionRule {
        dest_id: record.dest_id,
        aggregator,
        bucket_duration: record.bucket_duration,
        align_timestamp: record.align_timestamp,
        bucket_start: if record.bucket_start == NO_BUCKET {
            None
        } else {
            Some(record.bucket_start)
        },
        has_samples: record.has_samples,
    }
}

/// The plain values of a rule.
pub fn save_rule<A: Aggregation>(rule: &CompactionRule<A>) -> (r: RuleRecord)
    ensures
        r == record_of(*rule),
{
    RuleRecord {
        dest_id: rule.dest_id,
        bucket_duration: rule.bucket_duration,
        align_timestamp: rule.align_timestamp,
        bucket_start: match rule.bucket_start {
            Some(start) => start,
            None => NO_BUCKET,
        },
        has_samples: rule.has_samples,
    }
}

/// The rule of plain values and an aggregator.
pub fn load_rule<A: Aggregation>(record: &RuleRecord, aggregator: A) -> (r: CompactionRule<A>)
    ensures
        r == rule_of(*record, aggregator),
{
    CompactionRule {
        dest_id: record.dest_id,
        aggregator,
        bucket_duration: record.bucket_duration,
        align_timestamp: record.align_timestamp,
        bucket_start: if record.bucket_start == NO_BUCKET {
            None
        } else {
            Some(record.bucket_start)
        },
        has_samples: record.has_samples,
    }
}

/// A rule that is written and read back is the same. Buckets do not start before the epoch, so no
/// bucket starts where no bucket is meant.
pub proof fn law_rule_round_trip<A: Aggregation>(rule: CompactionRule<A>)
    requires
        rule.bucket_start != Some(NO_BUCKET),
    ensures
        rule_of(record_of(rule), rule.aggregator) == rule,
{
}

/// A chunk as plain values.
#[derive(Debug, Clone, PartialEq, Eq)]
pub struct ChunkRecord {
    pub max_size: usize,
    pub max_elements: usize,
    pub samples: Vec<Sample>,
}

/// A chunk can be read: it has room for no more samples than the largest chunk, and for those that
/// it holds.
pub open spec fn is_readable(max_elements: int, len: int) -> bool {
    max_elements <= MAX_CHUNK_SIZE as int / SAMPLE_SIZE as int && len <= max_elements
}

/// Whether the header of a chunk can be right, before its samples are read.
pub fn check_chunk_header(max_elements: usize, len: usize) -> (r: Result<(), TsdbError>)
    ensures
        r is Ok == is_readable(max_elements as int, len as int),
        r is Err ==> r->Err_0 == TsdbError::DecodingError,
{
    if max_elements > MAX_CHUNK_SIZE / SAMPLE_SIZE || len > max_elements {
        Err(TsdbError::DecodingError)
    } else {
        Ok(())
    }
}

/// The plain values of a chunk.
pub fn save_chunk(chunk: &UncompressedChunk) -> (r: ChunkRecord)
    ensures
        r.max_size == chunk.max_size,
        r.max_elements == chunk.max_elements,
        r.samples@ == chunk.samples@,
{
    let mut samples: Vec<Sample> = Vec::new();
    let mut i: usize = 0;
    while i < chunk.samples.len()
        invariant
            i <= chunk.samples@.len(),
            samples@ == chunk.samples@.take(i as int),
        decreases chunk.samples.len() - i,
    {
        samples.push(chunk.samples[i]);
        assert(samples@ =~= chunk.samples@.take(i + 1));
        i += 1;
    }
    assert(samples@ =~= chunk.samples@);
    ChunkRecord { max_size: chunk.max_size, max_elements: chunk.max_elements, samples }
}

/// The chunk of plain values, where they can be right.
pub fn load_chunk(record: ChunkRecord) -> (r: Result<UncompressedChunk, TsdbError>)
    ensures
        match r {
            Ok(chunk) => {
                &&& is_readable(record.max_elements as int, record.samples@.len() as int)
                &&& chunk.max_size == record.max_size
                &&& chunk.max_elements == record.max_elements
                &&& chunk.samples == record.samples
            },
            Err(e) => e == TsdbError::DecodingError && !is_readable(
                record.max_elements as int,
                record.samples@.len() as int,
            ),
        },
{
    match check_chunk_header(record.max_elements, record.samples.len()) {
        Ok(_) => Ok(
            UncompressedChunk {
                max_size: record.max_size,
                max_elements: record.max_elements,
                samples: record.samples,
            },
        ),
        Err(e) => Err(e),
    }
}

} // verus!
