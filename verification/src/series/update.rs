//! Changes to the samples of a series.
use crate::aggregation::Aggregation;
use crate::chunks::chunk::{ChunkEncoding, TimeSeriesChunk};
use crate::chunks::search::{outside, place_of, within};
use crate::chunks::uncompressed::upserted;
use crate::error::TsdbError;
use crate::sample::{is_strictly_sorted, DuplicatePolicy, Sample, SampleAddResult, Timestamp};
use crate::series::store::{
    added, first_of, flat, last_of, lemma_filter_from, lemma_flat_at, lemma_part_strict,
    lemma_upsert_in_part, lemma_upsert_strict, occupied, slots, without, RoundingStrategy,
    TimeSeries, ValueOps,
};
use vstd::prelude::*;

verus! {

/// A filter keeps timestamps apart.
pub proof fn lemma_filter_strict(s: Seq<Sample>, p: spec_fn(Sample) -> bool)
    requires
        is_strictly_sorted(s),
    ensures
        is_strictly_sorted(s.filter(p)),
    decreases s.len(),
{
    reveal(Seq::filter);
    if s.len() > 0 {
        let less = s.drop_last();
        assert(is_strictly_sorted(less)) by {
            assert forall|i: int, j: int| 0 <= i < j < less.len() implies less[i].timestamp
                < less[j].timestamp by {
                assert(s[i].timestamp < s[j].timestamp);
            }
        }
        lemma_filter_strict(less, p);
        lemma_filter_from(less, p);
        let before = less.filter(p);
        let now = s.filter(p);
        assert forall|i: int, j: int| 0 <= i < j < now.len() implies now[i].timestamp
            < now[j].timestamp by {
            if j >= before.len() {
                assert(less.contains(before[i]));
                let k = choose|k: int| 0 <= k < less.len() && less[k] == before[i];
                assert(s[k].timestamp < s[s.len() - 1].timestamp);
            }
        }
    }
}

/// The samples that two chunks leave do not depend on chunks without samples.
pub proof fn lemma_flat_drop_empty(chunks: Seq<TimeSeriesChunk>)
    ensures
        flat(chunks.filter(|c: TimeSeriesChunk| c@.len() > 0)) == flat(chunks),
    decreases chunks.len(),
{
    reveal(Seq::filter);
    let keep = |c: TimeSeriesChunk| c@.len() > 0;
    if chunks.len() > 0 {
        lemma_flat_drop_empty(chunks.drop_last());
        let less = chunks.drop_last().filter(keep);
        if keep(chunks.last()) {
            assert(chunks.filter(keep) == less.push(chunks.last()));
            assert(less.push(chunks.last()).drop_last() =~= less);
        } else {
            assert(flat(chunks.drop_last()) + chunks.last()@ =~= flat(chunks.drop_last()));
        }
    }
}

proof fn lemma_occupied_slots(chunks: Seq<TimeSeriesChunk>)
    ensures
        slots(chunks.filter(|c: TimeSeriesChunk| c@.len() > 0)) == occupied(slots(chunks)),
    decreases chunks.len(),
{
    reveal(Seq::filter);
    let keep = |c: TimeSeriesChunk| c@.len() > 0;
    if chunks.len() > 0 {
        let less = chunks.drop_last();
        lemma_occupied_slots(less);
        assert(slots(chunks).drop_last() =~= slots(less));
        let last = slots(chunks).last();
        assert(last.samples == chunks.last()@);
        if keep(chunks.last()) {
            assert(slots(less.filter(keep).push(chunks.last())) =~= slots(
                less.filter(keep),
            ).push(last));
        }
    } else {
        assert(slots(chunks.filter(keep)) =~= occupied(slots(chunks)));
    }
}

impl<A: Aggregation> TimeSeries<A> {
    /// Everything but the chunks and what is known about their samples.
    pub open spec fn same_frame(&self, other: Self) -> bool {
        self.same_setup(other) && self.last_forward_close == other.last_forward_close
    }

    /// How many samples the chunks hold.
    pub fn recalculate_total_samples(&mut self)
        ensures
            final(self).samples() == old(self).samples(),
            final(self).chunks == old(self).chunks,
            final(self).same_frame(*old(self)),
            final(self).first_timestamp == old(self).first_timestamp,
            final(self).last_sample == old(self).last_sample,
            final(self).samples().len() <= usize::MAX ==> final(self).total_samples == final(self).samples().len(),
    {
        let mut n: usize = 0;
        let mut k: usize = 0;
        proof {
            assert(self.chunks@.take(0) =~= Seq::<TimeSeriesChunk>::empty());
            assert(flat(self.chunks@.take(0)) =~= Seq::<Sample>::empty());
        }
        while k < self.chunks.len()
            invariant
                k <= self.chunks@.len(),
                flat(self.chunks@.take(k as int)).len() <= usize::MAX ==> n == flat(
                    self.chunks@.take(k as int),
                ).len(),
            decreases self.chunks.len() - k,
        {
            assert(self.chunks@.take(k + 1).drop_last() =~= self.chunks@.take(k as int));
            n = n.wrapping_add(self.chunks[k].len());
            k += 1;
        }
        assert(self.chunks@.take(k as int) =~= self.chunks@);
        self.total_samples = n;
    }

    /// The first timestamp and the last sample of the chunks.
    pub fn update_first_last_timestamps(&mut self)
        ensures
            final(self).samples() == old(self).samples(),
            final(self).chunks == old(self).chunks,
            final(self).same_frame(*old(self)),
            final(self).total_samples == old(self).total_samples,
            final(self).first_timestamp == first_of(final(self).samples()),
            final(self).last_sample == last_of(final(self).samples()),
    {
        let mut first: Timestamp = 0;
        let mut last: Option<Sample> = None;
        let mut k: usize = 0;
        proof {
            assert(self.chunks@.take(0) =~= Seq::<TimeSeriesChunk>::empty());
            assert(flat(self.chunks@.take(0)) =~= Seq::<Sample>::empty());
        }
        while k < self.chunks.len()
            invariant
                k <= self.chunks@.len(),
                first == first_of(flat(self.chunks@.take(k as int))),
                last == last_of(flat(self.chunks@.take(k as int))),
            decreases self.chunks.len() - k,
        {
            proof {
                assert(self.chunks@.take(k + 1).drop_last() =~= self.chunks@.take(k as int));
            }
            let ghost a = flat(self.chunks@.take(k as int));
            let ghost b = self.chunks@[k as int]@;
            let part = self.chunks[k].as_slice();
            let n: usize = part.len();
            if n > 0 {
                if last.is_none() {
                    first = part[0].timestamp;
                    assert(a.len() == 0);
                    assert((a + b)[0] == b[0]);
                } else {
                    assert((a + b)[0] == a[0]);
                }
                last = Some(part[n - 1]);
                assert((a + b).last() == b.last());
            } else {
                assert(a + b =~= a);
            }
            k += 1;
        }
        assert(self.chunks@.take(k as int) =~= self.chunks@);
        self.first_timestamp = first;
        self.last_sample = last;
    }

    /// A series of chunks whose samples are in order, one for a timestamp.
    pub fn from_chunks(chunks: Vec<TimeSeriesChunk>) -> (r: Result<Self, TsdbError>)
        requires
            is_strictly_sorted(flat(chunks@)),
        ensures
            r is Ok,
            r->Ok_0.wf(),
            r->Ok_0.chunks == chunks,
            r->Ok_0.retention == 0,
            r->Ok_0.rules@.len() == 0,
            r->Ok_0.sample_duplicates.policy is None,
    {
        let mut series: Self = TimeSeries::new(0, 4096);
        series.chunks = chunks;
        series.recalculate_total_samples();
        series.update_first_last_timestamps();
        Ok(series)
    }

    /// Adds a sample behind all others.
    fn append(&mut self, sample: Sample)
        requires
            old(self).wf(),
            old(self).samples().len() > 0 ==> old(self).samples().last().timestamp
                < sample.timestamp,
        ensures
            final(self).wf(),
            final(self).samples() == old(self).samples().push(sample),
            final(self).same_frame(*old(self)),
    {
        let ghost before = self.samples();
        let ghost chunks0 = self.chunks@;
        let n: usize = self.chunks.len();
        if n > 0 && !self.chunks[n - 1].is_full() {
            let mut chunk = match self.chunks.pop() {
                Some(c) => c,
                None => TimeSeriesChunk::new(ChunkEncoding::Uncompressed, self.chunk_size),
            };
            match chunk.add_sample(&sample) {
                Ok(_) => {},
                Err(_) => {},
            }
            let ghost grown = chunk;
            self.chunks.push(chunk);
            proof {
                assert(self.chunks@.drop_last() =~= chunks0.drop_last());
                assert(self.chunks@.last() == grown);
                assert(flat(chunks0.drop_last()) + chunks0.last()@.push(sample)
                    =~= before.push(sample));
            }
        } else {
            let mut chunk = TimeSeriesChunk::new(ChunkEncoding::Uncompressed, self.chunk_size);
            let mut one: Vec<Sample> = Vec::new();
            one.push(sample);
            match chunk.set_data(one.as_slice()) {
                Ok(_) => {},
                Err(_) => {},
            }
            let ghost fresh = chunk;
            self.chunks.push(chunk);
            proof {
                assert(self.chunks@.drop_last() =~= chunks0);
                assert(self.chunks@.last() == fresh);
                assert(before + one@ =~= before.push(sample));
            }
        }
        self.total_samples = self.total_samples.wrapping_add(1);
        if self.last_sample.is_none() {
            self.first_timestamp = sample.timestamp;
        }
        self.last_sample = Some(sample);
        proof {
            let s = self.samples();
            assert forall|i: int, j: int| 0 <= i < j < s.len() implies s[i].timestamp
                < s[j].timestamp by {
                if j == before.len() {
                    assert(before[i].timestamp <= before[before.len() - 1].timestamp);
                } else {
                    assert(before[i].timestamp < before[j].timestamp);
                }
            }
        }
    }

    /// Puts a sample that is not behind all others where it belongs.
    fn upsert<S: Fn(u64, u64) -> u64>(
        &mut self,
        sample: Sample,
        policy: DuplicatePolicy,
        sum: &S,
    ) -> (r: SampleAddResult)
        requires
            old(self).wf(),
            old(self).samples().len() > 0,
            sample.timestamp <= old(self).samples().last().timestamp,
            crate::sample::is_sum(*sum),
        ensures
            final(self).wf(),
            final(self).same_frame(*old(self)),
            match upserted(old(self).samples(), true, sample, policy, *sum) {
                Ok(t) => r == SampleAddResult::Stored(
                    t[place_of(old(self).samples(), sample.timestamp)],
                ) && final(self).samples() == t,
                Err(_) => r == SampleAddResult::Duplicate && final(self).samples() == old(
                    self,
                ).samples(),
            },
    {
        let ghost before = self.samples();
        let ghost chunks0 = self.chunks@;
        let k: usize = self.find_chunk(sample.timestamp);
        let mut chunk: TimeSeriesChunk = self.chunks[k].copy();
        let ghost a = flat(chunks0.take(k as int));
        let ghost b = chunks0[k as int]@;
        let ghost c = flat(chunks0.skip(k + 1));
        proof {
            self.lemma_chunk(k as int);
            lemma_part_strict(a, b, c);
            lemma_upsert_strict(b, true, sample, policy, *sum);
            lemma_upsert_in_part(a, b, c, true, sample, policy, *sum);
            lemma_upsert_strict(before, true, sample, policy, *sum);
            lemma_full_is_no_matter(b, chunk.full(), sample, policy, *sum);
        }
        match chunk.upsert_sample(sample, policy, sum) {
            Ok(grown) => {
                let ghost t = chunk@;
                let (at, _) = crate::chunks::search::get_sample_index(
                    chunk.as_slice(),
                    sample.timestamp,
                );
                let stored: Sample = chunk.as_slice()[at];
                self.chunks.set(k, chunk);
                self.total_samples = self.total_samples.wrapping_add(grown);
                proof {
                    let now = self.chunks@;
                    lemma_flat_at(now, k as int);
                    assert(now.take(k as int) =~= chunks0.take(k as int));
                    assert(now.skip(k + 1) =~= chunks0.skip(k + 1));
                    assert(self.samples() == a + t + c);
                    assert((a + t + c)[a.len() + at] == t[at as int]);
                }
                self.update_first_last_timestamps();
                SampleAddResult::Stored(stored)
            },
            Err(_) => SampleAddResult::Duplicate,
        }
    }

    /// Adds a sample: behind the others, or where it belongs among them, as far as retention and
    /// policies let it.
    pub fn add<
        S: Fn(u64, u64) -> u64,
        R: Fn(RoundingStrategy, u64) -> u64,
        C: Fn(u64, u64, u64) -> bool,
    >(
        &mut self,
        ts: Timestamp,
        value: u64,
        asked: Option<DuplicatePolicy>,
        ops: &ValueOps<S, R, C>,
    ) -> (r: SampleAddResult)
        requires
            old(self).wf(),
            ops.ok(),
        ensures
            final(self).wf(),
            final(self).same_frame(*old(self)),
            r == added(old(self).terms(), old(self).samples(), ts, value, asked, *ops).0,
            final(self).samples() == added(
                old(self).terms(),
                old(self).samples(),
                ts,
                value,
                asked,
                *ops,
            ).1,
    {
        if ts < self.get_min_timestamp() {
            return SampleAddResult::TooOld;
        }
        let sample = Sample { timestamp: ts, value: ops.adjust(self.rounding, value) };
        if let Some(last) = self.last_sample {
            if ts >= last.timestamp && self.sample_duplicates.is_duplicate(
                &sample,
                &last,
                asked,
                ops,
            ) {
                return SampleAddResult::Ignored(last.timestamp);
            }
            if ts <= last.timestamp {
                let policy: DuplicatePolicy = self.sample_duplicates.resolve_policy(asked);
                return self.upsert(sample, policy, &ops.sum);
            }
        }
        self.append(sample);
        SampleAddResult::Stored(sample)
    }

    /// Drops chunks without samples.
    pub fn drop_empty_chunks(&mut self)
        ensures
            slots(final(self).chunks@) == occupied(slots(old(self).chunks@)),
            final(self).samples() == old(self).samples(),
            final(self).same_frame(*old(self)),
            final(self).first_timestamp == old(self).first_timestamp,
            final(self).last_sample == old(self).last_sample,
            final(self).total_samples == old(self).total_samples,
    {
        let ghost all = self.chunks@;
        let ghost keep = |c: TimeSeriesChunk| c@.len() > 0;
        let mut rest: Vec<TimeSeriesChunk> = Vec::new();
        std::mem::swap(&mut rest, &mut self.chunks);
        let mut kept: Vec<TimeSeriesChunk> = Vec::new();
        proof {
            reveal(Seq::filter);
            assert(all.skip(0) =~= all);
            assert(kept@ =~= all.take(0).filter(keep));
        }
        // From the last to the first, so that each leaves the end.
        let n: usize = rest.len();
        let mut i: usize = 0;
        let mut back: Vec<TimeSeriesChunk> = Vec::new();
        while i < n
            invariant
                i <= n,
                n == all.len(),
                rest@ == all.take(n - i),
                back@ == all.skip(n - i).reverse(),
            decreases n - i,
        {
            match rest.pop() {
                Some(c) => {
                    assert(c == all[n - i - 1]);
                    back.push(c);
                    assert(back@ =~= all.skip(n - i - 1).reverse());
                    assert(rest@ =~= all.take(n - i - 1));
                },
                None => {},
            }
            i += 1;
        }
        assert(back@ =~= all.reverse());
        let mut j: usize = 0;
        assert(all.take(0) =~= Seq::<TimeSeriesChunk>::empty());
        while j < n
            invariant
                j <= n,
                n == all.len(),
                keep == (|c: TimeSeriesChunk| c@.len() > 0),
                back@ == all.skip(j as int).reverse(),
                kept@ == all.take(j as int).filter(keep),
            decreases n - j,
        {
            proof {
                reveal(Seq::filter);
                assert(all.take(j + 1).drop_last() =~= all.take(j as int));
            }
            match back.pop() {
                Some(c) => {
                    assert(c == all[j as int]);
                    assert(back@ =~= all.skip(j + 1).reverse());
                    if !c.is_empty() {
                        kept.push(c);
                    }
                },
                None => {},
            }
            j += 1;
        }
        assert(all.take(j as int) =~= all);
        proof {
            lemma_flat_drop_empty(all);
            lemma_occupied_slots(all);
        }
        self.chunks = kept;
    }

    /// Removes the samples of a range of timestamps, and says how many there were.
    pub fn remove_range(&mut self, start: Timestamp, end: Timestamp) -> (r: Result<
        usize,
        TsdbError,
    >)
        requires
            old(self).wf(),
        ensures
            final(self).wf(),
            final(self).same_frame(*old(self)),
            final(self).samples() == outside(old(self).samples(), start, end),
            slots(final(self).chunks@) == occupied(without(slots(old(self).chunks@), start, end)),
            r is Ok,
            within(old(self).samples(), start, end).len() <= usize::MAX ==> r->Ok_0 == within(
                old(self).samples(),
                start,
                end,
            ).len(),
    {
        let ghost before = self.samples();
        let ghost chunks0 = self.chunks@;
        let ghost start_self = *self;
        let ghost p_in = |x: Sample| start <= x.timestamp <= end;
        let ghost p_out = |x: Sample| !(start <= x.timestamp <= end);
        let mut removed: usize = 0;
        let mut k: usize = 0;
        proof {
            reveal(Seq::filter);
            assert(chunks0.take(0) =~= Seq::<TimeSeriesChunk>::empty());
            assert(flat(chunks0.take(0)) =~= Seq::<Sample>::empty());
            assert(flat(chunks0.take(0)).filter(p_in) =~= Seq::<Sample>::empty());
            assert(flat(chunks0.take(0)).filter(p_out) =~= Seq::<Sample>::empty());
            assert(slots(self.chunks@.take(0)) =~= without(slots(chunks0.take(0)), start, end));
        }
        while k < self.chunks.len()
            invariant
                k <= self.chunks@.len(),
                self.chunks@.len() == chunks0.len(),
                start_self.wf(),
                start_self.chunks@ == chunks0,
                self.same_frame(start_self),
                p_in == (|x: Sample| start <= x.timestamp <= end),
                p_out == (|x: Sample| !(start <= x.timestamp <= end)),
                self.chunks@.skip(k as int) == chunks0.skip(k as int),
                flat(self.chunks@.take(k as int)) == flat(chunks0.take(k as int)).filter(p_out),
                slots(self.chunks@.take(k as int)) == without(
                    slots(chunks0.take(k as int)),
                    start,
                    end,
                ),
                flat(chunks0.take(k as int)).filter(p_in).len() <= usize::MAX ==> removed == flat(
                    chunks0.take(k as int),
                ).filter(p_in).len(),
            decreases self.chunks.len() - k,
        {
            let ghost now = self.chunks@;
            proof {
                start_self.lemma_chunk(k as int);
                assert(now[k as int] == now.skip(k as int)[0]);
                assert(chunks0[k as int] == chunks0.skip(k as int)[0]);
                let a = flat(chunks0.take(k as int));
                let b = chunks0[k as int]@;
                assert(chunks0.take(k + 1).drop_last() =~= chunks0.take(k as int));
                Seq::filter_distributes_over_add(a, b, p_in);
                Seq::filter_distributes_over_add(a, b, p_out);
            }
            let mut chunk: TimeSeriesChunk = self.chunks[k].copy();
            match chunk.remove_range(start, end) {
                Ok(n) => {
                    assert(within(chunks0[k as int]@, start, end).len() <= usize::MAX) by {
                        broadcast use vstd::seq_lib::group_filter_ensures;

                        let len = self.chunks@[k as int].inner().samples.len();
                        assert(chunks0[k as int]@.len() == len);
                    }
                    removed = removed.wrapping_add(n);
                },
                Err(_) => {},
            }
            let ghost left = chunk;
            self.chunks.set(k, chunk);
            proof {
                assert(self.chunks@.take(k + 1).drop_last() =~= now.take(k as int));
                assert(self.chunks@.take(k + 1).last() == left);
                assert(self.chunks@.skip(k + 1) =~= now.skip(k as int).skip(1));
                assert(chunks0.skip(k + 1) =~= chunks0.skip(k as int).skip(1));
                let done = slots(self.chunks@.take(k + 1));
                let goal = without(slots(chunks0.take(k + 1)), start, end);
                assert forall|i: int| 0 <= i < k + 1 implies done[i] == goal[i] by {
                    if i < k {
                        assert(done[i] == slots(now.take(k as int))[i]);
                        assert(goal[i] == without(slots(chunks0.take(k as int)), start, end)[i]);
                    }
                }
                assert(done =~= goal);
            }
            k += 1;
        }
        proof {
            assert(self.chunks@.take(k as int) =~= self.chunks@);
            assert(chunks0.take(k as int) =~= chunks0);
            lemma_filter_strict(before, p_out);
        }
        self.drop_empty_chunks();
        self.recalculate_total_samples();
        self.update_first_last_timestamps();
        Ok(removed)
    }

    /// Removes the samples that the retention no longer leaves.
    pub fn trim(&mut self) -> (r: Result<(), TsdbError>)
        requires
            old(self).wf(),
        ensures
            r is Ok,
            final(self).wf(),
            final(self).same_frame(*old(self)),
            final(self).samples() == from_floor(old(self).samples(), old(self).min_timestamp()),
            old(self).retention == 0 ==> final(self).chunks == old(self).chunks,
            old(self).retention != 0 ==> slots(final(self).chunks@) == occupied(
                without(
                    slots(old(self).chunks@),
                    i64::MIN,
                    (old(self).min_timestamp() - 1) as i64,
                ),
            ),
    {
        if self.retention == 0 {
            proof {
                lemma_all_from_floor(self.samples(), i64::MIN);
            }
            return Ok(());
        }
        let floor: Timestamp = self.get_min_timestamp();
        match self.remove_range(i64::MIN, floor - 1) {
            Ok(_) => {},
            Err(e) => {
                return Err(e);
            },
        }
        proof {
            lemma_outside_is_from(old(self).samples(), floor);
        }
        Ok(())
    }
}

/// The samples from a timestamp on.
pub open spec fn from_floor(s: Seq<Sample>, floor: Timestamp) -> Seq<Sample> {
    within(s, floor, i64::MAX)
}

/// What is not before a timestamp is from it on.
proof fn lemma_outside_is_from(s: Seq<Sample>, floor: Timestamp)
    requires
        floor > i64::MIN,
    ensures
        outside(s, i64::MIN, (floor - 1) as i64) == from_floor(s, floor),
    decreases s.len(),
{
    reveal(Seq::filter);
    if s.len() > 0 {
        lemma_outside_is_from(s.drop_last(), floor);
    }
}

/// Where no sample is before a timestamp, all are from it on.
pub proof fn lemma_all_from_floor(s: Seq<Sample>, floor: Timestamp)
    requires
        forall|i: int| 0 <= i < s.len() ==> floor <= (#[trigger] s[i]).timestamp,
    ensures
        from_floor(s, floor) == s,
    decreases s.len(),
{
    reveal(Seq::filter);
    if s.len() > 0 {
        assert forall|i: int| 0 <= i < s.drop_last().len() implies floor <= (
        #[trigger] s.drop_last()[i]).timestamp by {
            assert(s.drop_last()[i] == s[i]);
        }
        lemma_all_from_floor(s.drop_last(), floor);
        assert(s.drop_last().push(s.last()) =~= s);
    } else {
        assert(from_floor(s, floor) =~= s);
    }
}

/// Where a sample is not behind all others, it does not matter whether a chunk is full.
proof fn lemma_full_is_no_matter<F: Fn(u64, u64) -> u64>(
    s: Seq<Sample>,
    full: bool,
    sample: Sample,
    policy: DuplicatePolicy,
    sum: F,
)
    requires
        s.len() > 0,
        sample.timestamp <= s.last().timestamp,
    ensures
        upserted(s, full, sample, policy, sum) == upserted(s, true, sample, policy, sum),
{
}

} // verus!
