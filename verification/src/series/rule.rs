//! The rule of a compaction: what is made of the samples of a series, for which other series.
use crate::aggregation::Aggregation;
use crate::postings::SeriesRef;
use crate::sample::{Sample, Timestamp};
use crate::time::{bucket_end_of, bucket_start_of, calc_bucket_start, saturating_add_unsigned};
use vstd::prelude::*;

verus! {

/// A rule, and how far the aggregation of its open bucket has come.
#[derive(Debug, Clone, PartialEq, Eq, Hash)]
pub struct CompactionRule<A> {
    /// The series that gets the buckets.
    pub dest_id: SeriesRef,
    /// What makes one value of the samples of a bucket.
    pub aggregator: A,
    /// How long a bucket is, in milliseconds.
    pub bucket_duration: u64,
    /// A timestamp at which a bucket starts.
    pub align_timestamp: Timestamp,
    /// Where the open bucket starts, if there is one.
    pub bucket_start: Option<Timestamp>,
    /// Whether a sample of the open bucket counts.
    pub has_samples: bool,
}

impl<A: Aggregation> CompactionRule<A> {
    /// A bucket takes time.
    pub open spec fn wf(&self) -> bool {
        self.bucket_duration > 0
    }

    /// Where the bucket of a timestamp starts.
    pub open spec fn start_of(&self, ts: Timestamp) -> Timestamp {
        bucket_start_of(
            ts as int,
            self.align_timestamp as int,
            self.bucket_duration as int,
        ) as i64
    }

    /// One past the last timestamp of the bucket that starts somewhere.
    pub open spec fn end_of(&self, start: Timestamp) -> Timestamp {
        bucket_end_of(start as int, self.bucket_duration as int) as i64
    }

    /// The parts that no sample changes.
    pub open spec fn same_terms(&self, other: Self) -> bool {
        &&& self.dest_id == other.dest_id
        &&& self.bucket_duration == other.bucket_duration
        &&& self.align_timestamp == other.align_timestamp
    }

    /// The rule with no open bucket.
    pub open spec fn idle(self) -> Self {
        CompactionRule {
            aggregator: self.aggregator.cleared(),
            bucket_start: None,
            has_samples: false,
            ..self
        }
    }

    /// The rule after one more sample of its open bucket.
    pub open spec fn counted(self, s: Sample) -> Self {
        CompactionRule {
            aggregator: self.aggregator.after(s),
            has_samples: self.has_samples || self.aggregator.takes(s),
            ..self
        }
    }

    /// The rule with its open bucket somewhere, and a first sample in it.
    pub open spec fn opened(self, start: Timestamp, s: Sample) -> Self {
        (CompactionRule { bucket_start: Some(start), ..self }).counted(s)
    }

    /// Where the bucket of a timestamp starts.
    pub fn calc_bucket_start(&self, ts: Timestamp) -> (r: Timestamp)
        requires
            self.wf(),
        ensures
            r == self.start_of(ts),
            r >= 0,
            ts >= 0 ==> r <= ts,
    {
        calc_bucket_start(ts, self.align_timestamp, self.bucket_duration)
    }

    /// Where the bucket of a timestamp starts, and one past where it ends.
    pub fn get_bucket_range(&self, ts: Timestamp) -> (r: (Timestamp, Timestamp))
        requires
            self.wf(),
        ensures
            r.0 == self.start_of(ts),
            r.1 == self.end_of(r.0),
            r.0 >= 0,
            r.1 > 0,
    {
        let start: Timestamp = self.calc_bucket_start(ts);
        let end: Timestamp = saturating_add_unsigned(start, self.bucket_duration);
        (start, end)
    }

    /// Forgets the open bucket.
    pub fn reset(&mut self)
        ensures
            *final(self) == old(self).idle(),
    {
        self.aggregator.reset();
        self.bucket_start = None;
        self.has_samples = false;
    }

    /// Counts a sample of the open bucket.
    pub fn update(&mut self, s: Sample)
        ensures
            *final(self) == old(self).counted(s),
    {
        if self.aggregator.update(s) {
            self.has_samples = true;
        }
    }

    /// Opens a bucket with its first sample.
    pub fn start_bucket(&mut self, start: Timestamp, s: Sample)
        ensures
            *final(self) == old(self).opened(start, s),
    {
        self.bucket_start = Some(start);
        self.update(s);
    }
}

/// The last timestamp before the end of a bucket.
pub open spec fn before(end: Timestamp) -> Timestamp {
    (end - 1) as i64
}

} // verus!
