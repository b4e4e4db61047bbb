//! Changes that run through a chain of compactions.
//!
//! A series whose samples changed hands the change to its rules. What a rule stored in its
//! destination is in turn a change of that series. [`Cascade`] decides which series comes next
//! and with which change; opening the series is up to the caller.
use crate::aggregation::Aggregation;
use crate::chunks::search::{get_sample_index, is_place};
use crate::error::TsdbError;
use crate::postings::SeriesRef;
use crate::sample::{is_sorted, is_strictly_sorted, Sample, Timestamp};
use crate::series::batch::{batched, handle_batch_compaction};
use crate::series::compaction::{
    flow, handle_compaction_range_removal, handle_compaction_upsert, handle_sample_compaction,
    removed, replaced, source_of, store_of, streamed, CompactionOp, Flow, Source, Store,
};
use crate::series::rule::CompactionRule;
use crate::series::store::{RoundingStrategy, TimeSeries, ValueOps};
use vstd::prelude::*;

verus! {

/// What a rule did to its destination.
#[derive(Debug, Clone, PartialEq, Eq)]
pub struct RuleOutcome {
    pub dest_id: SeriesRef,
    /// The last timestamp of the destination from before.
    pub dest_prev_last: Option<Timestamp>,
    /// What was stored, in the order in which it was.
    pub written: Vec<Sample>,
}

/// After a change.
pub open spec fn applied<A: Aggregation>(
    f: Flow<A>,
    store: Store,
    source: Source,
    op: CompactionOp<'_>,
) -> Flow<A> {
    match op {
        CompactionOp::AddNew(s) => streamed(f, store, source, s),
        CompactionOp::Upsert(s) => replaced(f, store, source, s),
        CompactionOp::AddBatch { samples, prev_last, input_order } => batched(
            f,
            store,
            source,
            samples@,
            prev_last,
            input_order@,
        ),
        CompactionOp::RemoveRange { start, end } => removed(f, store, source, start, end),
    }
}

/// A batch is in order.
pub open spec fn op_wf(op: CompactionOp<'_>) -> bool {
    match op {
        CompactionOp::AddBatch { samples, prev_last, input_order } => is_sorted(samples@),
        _ => true,
    }
}

/// Applies a change of a series to the destination of one of its rules.
pub fn apply_rule<
    A: Aggregation,
    S: Fn(u64, u64) -> u64,
    R: Fn(RoundingStrategy, u64) -> u64,
    C: Fn(u64, u64, u64) -> bool,
>(
    parent: &TimeSeries<A>,
    dest: &mut TimeSeries<A>,
    rule: &mut CompactionRule<A>,
    op: CompactionOp<'_>,
    ops: &ValueOps<S, R, C>,
) -> (r: Result<RuleOutcome, TsdbError>)
    requires
        parent.wf(),
        old(dest).wf(),
        old(rule).wf(),
        op_wf(op),
        ops.ok(),
    ensures
        final(dest).wf(),
        final(dest).same_setup(*old(dest)),
        final(rule).wf(),
        final(rule).same_terms(*old(rule)),
        r is Ok,
        flow(*final(dest), *final(rule), r->Ok_0.written@) == applied(
            flow(*old(dest), *old(rule), Seq::empty()),
            store_of(old(dest).terms(), *ops),
            source_of(*parent),
            op,
        ),
        r->Ok_0.dest_id == old(dest).id,
        r->Ok_0.dest_prev_last == match old(dest).last_sample {
            Some(s) => Some(s.timestamp),
            None => None,
        },
{
    let dest_id: SeriesRef = dest.id;
    let dest_prev_last: Option<Timestamp> = match dest.last_sample {
        Some(s) => Some(s.timestamp),
        None => None,
    };
    let mut written: Vec<Sample> = Vec::new();
    let done: Result<(), TsdbError> = match op {
        CompactionOp::AddNew(s) => handle_sample_compaction(
            parent,
            dest,
            rule,
            &mut written,
            s,
            ops,
        ),
        CompactionOp::Upsert(s) => handle_compaction_upsert(
            parent,
            dest,
            rule,
            &mut written,
            s,
            ops,
        ),
        CompactionOp::AddBatch { samples, prev_last, input_order } => handle_batch_compaction(
            parent,
            dest,
            rule,
            &mut written,
            samples,
            prev_last,
            input_order,
            ops,
        ),
        CompactionOp::RemoveRange { start, end } => handle_compaction_range_removal(
            parent,
            dest,
            rule,
            &mut written,
            start,
            end,
            ops,
        ),
    };
    match done {
        Ok(_) => Ok(RuleOutcome { dest_id, dest_prev_last, written }),
        Err(e) => Err(e),
    }
}

/// The first error of a list of results.
pub open spec fn first_error(results: Seq<Result<RuleOutcome, TsdbError>>) -> Option<TsdbError>
    decreases results.len(),
{
    if results.len() == 0 {
        None
    } else {
        match first_error(results.drop_last()) {
            Some(e) => Some(e),
            None => match results.last() {
                Ok(_) => None,
                Err(e) => Some(e),
            },
        }
    }
}

/// The outcomes of all rules, or the first error.
pub fn collect_outcomes(results: Vec<Result<RuleOutcome, TsdbError>>) -> (r: Result<
    Vec<RuleOutcome>,
    TsdbError,
>)
    ensures
        match first_error(results@) {
            Some(e) => r is Err && r->Err_0 == e,
            None => r is Ok && r->Ok_0@.len() == results@.len() && forall|i: int|
                0 <= i < results@.len() ==> results@[i] == Ok::<RuleOutcome, TsdbError>(
                    #[trigger] r->Ok_0@[i],
                ),
        },
{
    let ghost all = results@;
    let mut error: Option<TsdbError> = None;
    let mut rest: Vec<Result<RuleOutcome, TsdbError>> = results;
    let n: usize = rest.len();
    let mut outcomes: Vec<RuleOutcome> = Vec::new();
    let mut i: usize = 0;
    assert(all.skip(0) =~= all);
    assert(all.take(0) =~= Seq::<Result<RuleOutcome, TsdbError>>::empty());
    while i < n
        invariant
            i <= n,
            n == all.len(),
            rest@ == all.skip(i as int),
            error == first_error(all.take(i as int)),
            error is None ==> outcomes@.len() == i && forall|k: int|
                0 <= k < i ==> all[k] == Ok::<RuleOutcome, TsdbError>(#[trigger] outcomes@[k]),
        decreases n - i,
    {
        assert(all.take(i + 1).drop_last() =~= all.take(i as int));
        let one = rest.remove(0);
        assert(one == all[i as int]);
        assert(rest@ =~= all.skip(i + 1));
        match one {
            Ok(outcome) => {
                outcomes.push(outcome);
            },
            Err(e) => {
                if error.is_none() {
                    error = Some(e);
                }
            },
        }
        i += 1;
    }
    assert(all.take(i as int) =~= all);
    match error {
        Some(e) => Err(e),
        None => Ok(outcomes),
    }
}

/// The last sample of a list that has a timestamp.
pub open spec fn last_with(s: Seq<Sample>, ts: Timestamp) -> Option<Sample>
    decreases s.len(),
{
    if s.len() == 0 {
        None
    } else if s.last().timestamp == ts {
        Some(s.last())
    } else {
        last_with(s.drop_last(), ts)
    }
}

/// The sample of a run that has a timestamp.
pub open spec fn at_timestamp(s: Seq<Sample>, ts: Timestamp) -> Option<Sample> {
    if exists|i: int| 0 <= i < s.len() && (#[trigger] s[i]).timestamp == ts {
        Some(
            s[choose|i: int| 0 <= i < s.len() && (#[trigger] s[i]).timestamp == ts],
        )
    } else {
        None
    }
}

/// The samples that were stored, in order, one for a timestamp: the last that was stored there.
pub fn dedupe_written_samples(samples: Vec<Sample>) -> (r: Vec<Sample>)
    ensures
        is_strictly_sorted(r@),
        forall|ts: Timestamp| #[trigger] at_timestamp(r@, ts) == last_with(samples@, ts),
{
    let mut out: Vec<Sample> = Vec::new();
    let mut i: usize = 0;
    proof {
        assert(samples@.take(0) =~= Seq::<Sample>::empty());
    }
    while i < samples.len()
        invariant
            i <= samples@.len(),
            is_strictly_sorted(out@),
            forall|ts: Timestamp| #[trigger]
                at_timestamp(out@, ts) == last_with(samples@.take(i as int), ts),
        decreases samples.len() - i,
    {
        let ghost before = out@;
        let s: Sample = samples[i];
        let (at, found) = get_sample_index(out.as_slice(), s.timestamp);
        if found {
            out.set(at, s);
        } else {
            out.insert(at, s);
        }
        proof {
            assert(samples@.take(i + 1).drop_last() =~= samples@.take(i as int));
            assert(out@ == overwritten(before, s, at as int));
            lemma_overwritten_strict(before, s, at as int);
            assert forall|ts: Timestamp| #[trigger]
                at_timestamp(out@, ts) == last_with(samples@.take(i + 1), ts) by {
                lemma_written_at(before, s, at as int, ts);
                assert(at_timestamp(before, ts) == last_with(samples@.take(i as int), ts));
            }
        }
        i += 1;
    }
    assert(samples@.take(i as int) =~= samples@);
    out
}

/// In a strictly sorted run, the sample with a timestamp is the one that is found there.
proof fn lemma_at(s: Seq<Sample>, i: int)
    requires
        is_strictly_sorted(s),
        0 <= i < s.len(),
    ensures
        at_timestamp(s, s[i].timestamp) == Some(s[i]),
{
    let ts = s[i].timestamp;
    let k = choose|k: int| 0 <= k < s.len() && (#[trigger] s[k]).timestamp == ts;
    assert(s[k].timestamp == ts);
    if k < i {
        assert(s[k].timestamp < s[i].timestamp);
    }
    if i < k {
        assert(s[i].timestamp < s[k].timestamp);
    }
}

/// The run after a sample was written into it.
spec fn overwritten(before: Seq<Sample>, s: Sample, at: int) -> Seq<Sample> {
    if at < before.len() && before[at].timestamp == s.timestamp {
        before.update(at, s)
    } else {
        before.insert(at, s)
    }
}

proof fn lemma_overwritten_strict(before: Seq<Sample>, s: Sample, at: int)
    requires
        is_strictly_sorted(before),
        is_place(before, s.timestamp as int, at),
    ensures
        is_strictly_sorted(overwritten(before, s, at)),
{
    let now = overwritten(before, s, at);
    let replaces = at < before.len() && before[at].timestamp == s.timestamp;
    assert forall|i: int, j: int| 0 <= i < j < now.len() implies now[i].timestamp
        < now[j].timestamp by {
        if replaces {
            assert(before[i].timestamp < before[j].timestamp);
        } else {
            if i < at {
                assert(now[i] == before[i]);
            }
            if i > at {
                assert(now[i] == before[i - 1]);
            }
            if j < at {
                assert(now[j] == before[j]);
            }
            if j > at {
                assert(now[j] == before[j - 1]);
                assert(before[j - 1].timestamp >= s.timestamp);
                if j - 1 > at {
                    assert(before[at].timestamp < before[j - 1].timestamp);
                }
            }
        }
    }
}

proof fn lemma_written_at(before: Seq<Sample>, s: Sample, at: int, ts: Timestamp)
    requires
        is_strictly_sorted(before),
        is_place(before, s.timestamp as int, at),
    ensures
        at_timestamp(overwritten(before, s, at), ts) == if ts == s.timestamp {
            Some(s)
        } else {
            at_timestamp(before, ts)
        },
{
    let now = overwritten(before, s, at);
    let replaces = at < before.len() && before[at].timestamp == s.timestamp;
    lemma_overwritten_strict(before, s, at);
    if ts == s.timestamp {
        assert(now[at] == s);
        lemma_at(now, at);
    } else if exists|i: int| 0 <= i < before.len() && (#[trigger] before[i]).timestamp == ts {
        let k = choose|i: int| 0 <= i < before.len() && (#[trigger] before[i]).timestamp == ts;
        let m = if replaces || k < at {
            k
        } else {
            k + 1
        };
        assert(now[m] == before[k]);
        lemma_at(now, m);
        lemma_at(before, k);
    } else {
        assert forall|n: int| 0 <= n < now.len() implies (#[trigger] now[n]).timestamp != ts by {
            if n != at {
                let k = if replaces || n < at {
                    n
                } else {
                    n - 1
                };
                assert(now[n] == before[k]);
            }
        }
    }
}

/// A series that a change has reached.
#[derive(Debug, Clone, PartialEq, Eq)]
pub struct PendingCompaction {
    pub id: SeriesRef,
    /// What was stored in it: the batch for its rules. Empty where a removal runs through.
    pub samples: Vec<Sample>,
    /// Its last timestamp from before.
    pub prev_last: Option<Timestamp>,
}

/// A change on its way through a chain of compactions.
#[derive(Debug, Clone, PartialEq, Eq)]
pub struct Cascade {
    /// Whether the change is a removal, which runs through as it is.
    pub removal: bool,
    /// Whether the destinations are told of.
    pub notify: bool,
    /// The series that had their turn.
    pub visited: Vec<SeriesRef>,
    /// The series that wait for theirs. The last comes first.
    pub pending: Vec<PendingCompaction>,
    /// The series in which something was stored.
    pub notified: Vec<SeriesRef>,
}

/// The samples of a batch: those stored, in order, the last one for a timestamp.
pub open spec fn is_batch(batch: Seq<Sample>, written: Seq<Sample>) -> bool {
    &&& is_strictly_sorted(batch)
    &&& forall|ts: Timestamp| #[trigger] at_timestamp(batch, ts) == last_with(written, ts)
}

/// The outcomes that stored something.
pub open spec fn wrote(outcomes: Seq<RuleOutcome>) -> Seq<RuleOutcome> {
    outcomes.filter(|o: RuleOutcome| o.written@.len() > 0)
}

/// The destinations of outcomes.
pub open spec fn dest_ids(outcomes: Seq<RuleOutcome>) -> Seq<SeriesRef> {
    outcomes.map_values(|o: RuleOutcome| o.dest_id)
}

/// That waiting series are those in which something was stored, with it as their batch.
pub open spec fn is_queue_of(p: Seq<PendingCompaction>, outcomes: Seq<RuleOutcome>) -> bool {
    &&& p.len() == outcomes.len()
    &&& forall|i: int|
        0 <= i < p.len() ==> {
            &&& (#[trigger] p[i]).id == outcomes[i].dest_id
            &&& p[i].prev_last == outcomes[i].dest_prev_last
            &&& is_batch(p[i].samples@, outcomes[i].written@)
        }
}

/// That waiting series are those of a list, with nothing for their rules but a removal.
pub open spec fn is_id_queue(p: Seq<PendingCompaction>, ids: Seq<SeriesRef>) -> bool {
    &&& p.len() == ids.len()
    &&& forall|i: int|
        0 <= i < p.len() ==> {
            &&& (#[trigger] p[i]).id == ids[i]
            &&& p[i].prev_last is None
            &&& p[i].samples@.len() == 0
        }
}

/// What is left of the waiting series when those at the end that had their turn are dropped.
pub open spec fn due(p: Seq<PendingCompaction>, visited: Seq<SeriesRef>) -> Seq<PendingCompaction>
    decreases p.len(),
{
    if p.len() == 0 || !visited.contains(p.last().id) {
        p
    } else {
        due(p.drop_last(), visited)
    }
}

fn has_id(v: &Vec<SeriesRef>, id: SeriesRef) -> (r: bool)
    ensures
        r == v@.contains(id),
{
    let mut i: usize = 0;
    while i < v.len()
        invariant
            i <= v@.len(),
            forall|j: int| 0 <= j < i ==> v@[j] != id,
        decreases v.len() - i,
    {
        if v[i] == id {
            assert(v@[i as int] == id);
            return true;
        }
        i += 1;
    }
    false
}

impl Cascade {
    /// A change of a series, before any of its rules saw it. Samples that were added are told of
    /// to those who watch the destinations; other changes are not.
    pub fn new(id: SeriesRef, op: CompactionOp<'_>) -> (r: Self)
        ensures
            r.removal == (op is RemoveRange),
            r.notify == (op is AddNew || op is AddBatch),
            r.visited@ == seq![id],
            r.pending@.len() == 0,
            r.notified@.len() == 0,
    {
        let mut visited: Vec<SeriesRef> = Vec::new();
        visited.push(id);
        assert(visited@ =~= seq![id]);
        Cascade {
            removal: match op {
                CompactionOp::RemoveRange { start: _, end: _ } => true,
                _ => false,
            },
            notify: match op {
                CompactionOp::AddNew(_) => true,
                CompactionOp::AddBatch { samples: _, prev_last: _, input_order: _ } => true,
                _ => false,
            },
            visited,
            pending: Vec::new(),
            notified: Vec::new(),
        }
    }

    /// The series whose turn is next, if any is left that had none. It has had its turn then, and
    /// gets no other.
    pub fn next(&mut self) -> (r: Option<PendingCompaction>)
        ensures
            final(self).removal == old(self).removal,
            final(self).notify == old(self).notify,
            final(self).notified == old(self).notified,
            old(self).visited@.no_duplicates() ==> final(self).visited@.no_duplicates(),
            match r {
                Some(p) => {
                    let left = due(old(self).pending@, old(self).visited@);
                    &&& left.len() > 0
                    &&& p == left.last()
                    &&& final(self).pending@ == left.drop_last()
                    &&& final(self).visited@ == old(self).visited@.push(p.id)
                    &&& !old(self).visited@.contains(p.id)
                },
                None => {
                    &&& due(old(self).pending@, old(self).visited@).len() == 0
                    &&& final(self).pending@.len() == 0
                    &&& final(self).visited == old(self).visited
                },
            },
    {
        let ghost start = self.pending@;
        while self.pending.len() > 0
            invariant
                self.removal == old(self).removal,
                self.notify == old(self).notify,
                self.notified == old(self).notified,
                self.visited == old(self).visited,
                start == old(self).pending@,
                due(start, self.visited@) == due(self.pending@, self.visited@),
            decreases self.pending.len(),
        {
            let ghost held = self.pending@;
            match self.pending.pop() {
                Some(p) => {
                    assert(self.pending@ =~= held.drop_last());
                    if !has_id(&self.visited, p.id) {
                        proof {
                            if self.visited@.no_duplicates() {
                                lemma_one_more(self.visited@, p.id);
                            }
                        }
                        self.visited.push(p.id);
                        return Some(p);
                    }
                },
                None => {},
            }
        }
        None
    }

    /// Takes what the rules of a series did. A removal runs on to all their destinations, whatever
    /// they stored; other changes to those in which something was stored.
    pub fn absorb(&mut self, outcomes: Vec<RuleOutcome>)
        ensures
            final(self).removal == old(self).removal,
            final(self).notify == old(self).notify,
            final(self).visited == old(self).visited,
            final(self).notified@ == old(self).notified@ + dest_ids(wrote(outcomes@)),
            final(self).pending@.len() >= old(self).pending@.len(),
            final(self).pending@.take(old(self).pending@.len() as int) == old(self).pending@,
            old(self).removal ==> is_id_queue(
                final(self).pending@.skip(old(self).pending@.len() as int),
                dest_ids(outcomes@),
            ),
            !old(self).removal ==> is_queue_of(
                final(self).pending@.skip(old(self).pending@.len() as int),
                wrote(outcomes@),
            ),
    {
        let ghost all = outcomes@;
        let ghost start = self.pending@;
        let ghost told = self.notified@;
        let ghost m = start.len() as int;
        let ghost some = |o: RuleOutcome| o.written@.len() > 0;
        let n: usize = outcomes.len();
        let mut rest: Vec<RuleOutcome> = outcomes;
        let mut i: usize = 0;
        proof {
            reveal(Seq::filter);
            assert(all.skip(0) =~= all);
            assert(all.take(0) =~= Seq::<RuleOutcome>::empty());
            assert(wrote(all.take(0)) =~= Seq::<RuleOutcome>::empty());
            assert(told + dest_ids(wrote(all.take(0))) =~= told);
            assert(start.take(m) =~= start);
            assert(start.skip(m) =~= Seq::<PendingCompaction>::empty());
        }
        while i < n
            invariant
                i <= n,
                n == all.len(),
                m == start.len(),
                rest@ == all.skip(i as int),
                some == (|o: RuleOutcome| o.written@.len() > 0),
                self.removal == old(self).removal,
                self.notify == old(self).notify,
                self.visited == old(self).visited,
                self.notified@ == told + dest_ids(wrote(all.take(i as int))),
                self.pending@.len() >= m,
                self.pending@.take(m) == start,
                self.removal ==> is_id_queue(
                    self.pending@.skip(m),
                    dest_ids(all.take(i as int)),
                ),
                !self.removal ==> is_queue_of(self.pending@.skip(m), wrote(all.take(i as int))),
            decreases n - i,
        {
            let ghost queue = self.pending@;
            let ghost ids = self.notified@;
            let ghost seen = wrote(all.take(i as int));
            proof {
                reveal(Seq::filter);
                assert(all.take(i + 1).drop_last() =~= all.take(i as int));
                assert(all.take(i + 1).last() == all[i as int]);
            }
            let outcome = rest.remove(0);
            assert(outcome == all[i as int]);
            assert(rest@ =~= all.skip(i + 1));
            let wrote_some: bool = outcome.written.len() > 0;
            if wrote_some {
                self.notified.push(outcome.dest_id);
                assert(dest_ids(seen.push(outcome)) =~= dest_ids(seen).push(outcome.dest_id));
                assert(self.notified@ =~= told + dest_ids(seen.push(outcome)));
            }
            let ghost o = outcome;
            if self.removal {
                self.pending.push(
                    PendingCompaction {
                        id: outcome.dest_id,
                        samples: Vec::new(),
                        prev_last: None,
                    },
                );
                proof {
                    let now = self.pending@;
                    assert(now.take(m) =~= queue.take(m));
                    assert(now.skip(m) =~= queue.skip(m).push(now.last()));
                    assert(dest_ids(all.take(i + 1)) =~= dest_ids(all.take(i as int)).push(
                        o.dest_id,
                    ));
                }
            } else if wrote_some {
                let samples = dedupe_written_samples(outcome.written);
                self.pending.push(
                    PendingCompaction {
                        id: outcome.dest_id,
                        samples,
                        prev_last: outcome.dest_prev_last,
                    },
                );
                proof {
                    let now = self.pending@;
                    assert(now.take(m) =~= queue.take(m));
                    assert(now.skip(m) =~= queue.skip(m).push(now.last()));
                }
            }
            i += 1;
        }
        assert(all.take(i as int) =~= all);
    }

    /// The series to tell of, once no series is left.
    pub fn finish(self) -> (r: Vec<SeriesRef>)
        ensures
            r@ == if self.notify {
                self.notified@
            } else {
                Seq::<SeriesRef>::empty()
            },
    {
        if self.notify {
            self.notified
        } else {
            Vec::new()
        }
    }
}

proof fn lemma_one_more(visited: Seq<SeriesRef>, id: SeriesRef)
    requires
        visited.no_duplicates(),
        !visited.contains(id),
    ensures
        visited.push(id).no_duplicates(),
{
    let v = visited.push(id);
    assert forall|i: int, j: int| 0 <= i < v.len() && 0 <= j < v.len() && i != j implies v[i]
        != v[j] by {
        if i < visited.len() {
            assert(visited.contains(visited[i]));
        }
        if j < visited.len() {
            assert(visited.contains(visited[j]));
        }
    }
}

} // verus!
