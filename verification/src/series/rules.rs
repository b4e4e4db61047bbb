//! The rules of a series.
use crate::aggregation::Aggregation;
use crate::chunks::search::{outside, within};
use crate::error::TsdbError;
use crate::postings::SeriesRef;
use crate::sample::{Sample, Timestamp};
use crate::series::compaction::CompactionOp;
use crate::series::rule::CompactionRule;
use crate::series::store::TimeSeries;
use vstd::prelude::*;

verus! {

/// The position of the first rule with a destination, or one past the last rule.
pub open spec fn rule_at<A>(rules: Seq<CompactionRule<A>>, dest_id: SeriesRef) -> int
    decreases rules.len(),
{
    if rules.len() == 0 {
        0
    } else if rules[0].dest_id == dest_id {
        0
    } else {
        1 + rule_at(rules.skip(1), dest_id)
    }
}

proof fn lemma_rule_at<A>(rules: Seq<CompactionRule<A>>, dest_id: SeriesRef, at: int)
    requires
        0 <= at <= rules.len(),
        forall|i: int| 0 <= i < at ==> (#[trigger] rules[i]).dest_id != dest_id,
        at < rules.len() ==> rules[at].dest_id == dest_id,
    ensures
        rule_at(rules, dest_id) == at,
    decreases rules.len(),
{
    if rules.len() > 0 && at > 0 {
        assert(rules[0].dest_id != dest_id);
        let more = rules.skip(1);
        assert forall|i: int| 0 <= i < at - 1 implies (#[trigger] more[i]).dest_id != dest_id by {
            assert(more[i] == rules[i + 1]);
        }
        lemma_rule_at(more, dest_id, at - 1);
    }
}

fn find_rule<A>(rules: &Vec<CompactionRule<A>>, dest_id: SeriesRef) -> (r: usize)
    ensures
        r == rule_at(rules@, dest_id),
        r <= rules@.len(),
        r < rules@.len() ==> rules@[r as int].dest_id == dest_id,
        r == rules@.len() ==> forall|i: int|
            0 <= i < rules@.len() ==> (#[trigger] rules@[i]).dest_id != dest_id,
{
    let mut i: usize = 0;
    while i < rules.len()
        invariant
            i <= rules@.len(),
            forall|j: int| 0 <= j < i ==> (#[trigger] rules@[j]).dest_id != dest_id,
        decreases rules.len() - i,
    {
        if rules[i].dest_id == dest_id {
            proof {
                lemma_rule_at(rules@, dest_id, i as int);
            }
            return i;
        }
        i += 1;
    }
    proof {
        lemma_rule_at(rules@, dest_id, i as int);
    }
    i
}

impl<A: Aggregation> TimeSeries<A> {
    /// Everything but the rules.
    pub open spec fn same_but_rules(&self, other: Self) -> bool {
        *self == (TimeSeries { rules: self.rules, ..other })
    }

    /// Adds a rule. Its aggregator learns how long its buckets are.
    pub fn add_compaction_rule(&mut self, rule: CompactionRule<A>)
        ensures
            final(self).rules@ == old(self).rules@.push(
                (CompactionRule {
                    aggregator: rule.aggregator.windowed(rule.bucket_duration),
                    ..rule
                }),
            ),
            final(self).same_but_rules(*old(self)),
            old(self).wf() && rule.wf() ==> final(self).wf(),
    {
        let mut rule = rule;
        let ms: u64 = rule.bucket_duration;
        rule.aggregator.set_window_ms(ms);
        let ghost before = self.rules@;
        self.rules.push(rule);
        proof {
            if old(self).wf() && rule.wf() {
                assert forall|i: int| 0 <= i < self.rules@.len() implies (
                #[trigger] self.rules@[i]).wf() by {
                    if i < before.len() {
                        assert(self.rules@[i] == before[i]);
                    }
                }
            }
        }
    }

    /// Removes the rule with a destination, if there is one.
    pub fn remove_compaction_rule(&mut self, dest_id: SeriesRef) -> (r: Option<CompactionRule<A>>)
        ensures
            final(self).same_but_rules(*old(self)),
            match r {
                Some(rule) => {
                    let at = rule_at(old(self).rules@, dest_id);
                    &&& 0 <= at < old(self).rules@.len()
                    &&& rule == old(self).rules@[at]
                    &&& rule.dest_id == dest_id
                    &&& final(self).rules@ == old(self).rules@.remove(at)
                },
                None => {
                    &&& forall|i: int|
                        0 <= i < old(self).rules@.len() ==> (#[trigger] old(
                            self,
                        ).rules@[i]).dest_id != dest_id
                    &&& final(self).rules == old(self).rules
                },
            },
    {
        let at: usize = find_rule(&self.rules, dest_id);
        if at < self.rules.len() {
            Some(self.rules.remove(at))
        } else {
            None
        }
    }

    /// The rule with a destination, if there is one.
    pub fn get_rule_by_dest_id(&self, dest_id: SeriesRef) -> (r: Option<&CompactionRule<A>>)
        ensures
            match r {
                Some(rule) => {
                    let at = rule_at(self.rules@, dest_id);
                    &&& 0 <= at < self.rules@.len()
                    &&& *rule == self.rules@[at]
                    &&& rule.dest_id == dest_id
                },
                None => forall|i: int|
                    0 <= i < self.rules@.len() ==> (#[trigger] self.rules@[i]).dest_id != dest_id,
            },
    {
        let at: usize = find_rule(&self.rules, dest_id);
        if at < self.rules.len() {
            Some(&self.rules[at])
        } else {
            None
        }
    }

    /// Drops the rules whose destinations are missing.
    pub fn drop_rules_to(&mut self, missing: &Vec<SeriesRef>)
        ensures
            final(self).same_but_rules(*old(self)),
            final(self).rules@ == old(self).rules@.filter(
                |r: CompactionRule<A>| !missing@.contains(r.dest_id),
            ),
    {
        let ghost all = self.rules@;
        let ghost keep = |r: CompactionRule<A>| !missing@.contains(r.dest_id);
        let mut rest: Vec<CompactionRule<A>> = Vec::new();
        std::mem::swap(&mut rest, &mut self.rules);
        let n: usize = rest.len();
        let mut kept: Vec<CompactionRule<A>> = Vec::new();
        let mut i: usize = 0;
        proof {
            reveal(Seq::filter);
            assert(all.skip(0) =~= all);
            assert(all.take(0) =~= Seq::<CompactionRule<A>>::empty());
            assert(kept@ =~= all.take(0).filter(keep));
        }
        while i < n
            invariant
                i <= n,
                n == all.len(),
                keep == (|r: CompactionRule<A>| !missing@.contains(r.dest_id)),
                rest@ == all.skip(i as int),
                kept@ == all.take(i as int).filter(keep),
            decreases n - i,
        {
            proof {
                reveal(Seq::filter);
                assert(all.take(i + 1).drop_last() =~= all.take(i as int));
            }
            let rule = rest.remove(0);
            assert(rule == all[i as int]);
            assert(rest@ =~= all.skip(i + 1));
            let mut gone: bool = false;
            let mut j: usize = 0;
            while j < missing.len()
                invariant
                    j <= missing@.len(),
                    gone == exists|k: int| 0 <= k < j && missing@[k] == rule.dest_id,
                decreases missing.len() - j,
            {
                if missing[j] == rule.dest_id {
                    gone = true;
                }
                j += 1;
            }
            assert(gone == missing@.contains(rule.dest_id));
            if !gone {
                kept.push(rule);
            }
            i += 1;
        }
        assert(all.take(i as int) =~= all);
        self.rules = kept;
    }
}

impl<A: Aggregation> TimeSeries<A> {
    /// The change that a sample behind all others is to the rules, if there are any.
    pub fn run_compaction(&self, value: Sample) -> (r: Option<CompactionOp<'static>>)
        ensures
            self.rules@.len() == 0 ==> r is None,
            self.rules@.len() > 0 ==> r == Some(CompactionOp::AddNew(value)),
    {
        if self.rules.len() == 0 {
            return None;
        }
        Some(CompactionOp::AddNew(value))
    }

    /// The change that a sample among the others is to the rules, if there are any.
    pub fn upsert_compaction(&self, value: Sample) -> (r: Option<CompactionOp<'static>>)
        ensures
            self.rules@.len() == 0 ==> r is None,
            self.rules@.len() > 0 ==> r == Some(CompactionOp::Upsert(value)),
    {
        if self.rules.len() == 0 {
            return None;
        }
        Some(CompactionOp::Upsert(value))
    }

    /// The change that samples which were merged are to the rules, if there are any.
    pub fn batch_compaction<'a>(
        &self,
        samples: &'a [Sample],
        prev_last: Option<Timestamp>,
        input_order: &'a [Timestamp],
    ) -> (r: Option<CompactionOp<'a>>)
        ensures
            self.rules@.len() == 0 || samples@.len() == 0 ==> r is None,
            self.rules@.len() > 0 && samples@.len() > 0 ==> r == Some(
                CompactionOp::AddBatch { samples, prev_last, input_order },
            ),
    {
        if self.rules.len() == 0 || samples.len() == 0 {
            return None;
        }
        Some(CompactionOp::AddBatch { samples, prev_last, input_order })
    }

    /// Removes the samples of a range of timestamps: how many there were, and the change that
    /// this is to the rules, if any was removed and there are any.
    pub fn remove_range_with_compaction(&mut self, start_ts: Timestamp, end_ts: Timestamp) -> (r:
        Result<(usize, Option<CompactionOp<'static>>), TsdbError>)
        requires
            old(self).wf(),
        ensures
            r is Ok,
            final(self).wf(),
            final(self).same_frame(*old(self)),
            final(self).samples() == outside(old(self).samples(), start_ts, end_ts),
            within(old(self).samples(), start_ts, end_ts).len() <= usize::MAX ==> r->Ok_0.0
                == within(old(self).samples(), start_ts, end_ts).len(),
            r->Ok_0.1 == if r->Ok_0.0 > 0 && old(self).rules@.len() > 0 {
                Some(CompactionOp::RemoveRange { start: start_ts, end: end_ts })
            } else {
                None
            },
    {
        let deleted: usize = match self.remove_range(start_ts, end_ts) {
            Ok(n) => n,
            Err(e) => {
                return Err(e);
            },
        };
        if deleted > 0 && self.rules.len() > 0 {
            Ok((deleted, Some(CompactionOp::RemoveRange { start: start_ts, end: end_ts })))
        } else {
            Ok((deleted, None))
        }
    }
}

/// The value of the open bucket of the rule with a destination, as a sample at its start, if there
/// is such a rule and it has an open bucket.
pub open spec fn open_value<A: Aggregation>(
    rules: Seq<CompactionRule<A>>,
    dest_id: SeriesRef,
) -> Option<Sample> {
    let at = rule_at(rules, dest_id);
    if at < rules.len() && rules[at].bucket_start is Some {
        Some(
            Sample { timestamp: rules[at].bucket_start->0, value: rules[at].aggregator.result() },
        )
    } else {
        None
    }
}

/// The value of the open bucket that a series feeds, as a sample at its start.
pub fn get_latest_compaction_sample<A: Aggregation>(
    parent: &TimeSeries<A>,
    dest_id: SeriesRef,
) -> (r: Option<Sample>)
    ensures
        r == open_value(parent.rules@, dest_id),
        ({
            let at = rule_at(parent.rules@, dest_id);
            if at < parent.rules@.len() && parent.rules@[at].bucket_start is Some {
                r == Some(
                    Sample {
                        timestamp: parent.rules@[at].bucket_start->0,
                        value: parent.rules@[at].aggregator.result(),
                    },
                )
            } else {
                r is None
            }
        }),
{
    let at: usize = find_rule(&parent.rules, dest_id);
    if at >= parent.rules.len() {
        return None;
    }
    let rule = &parent.rules[at];
    match rule.bucket_start {
        Some(start) => Some(Sample { timestamp: start, value: rule.aggregator.finalize() }),
        None => None,
    }
}

} // verus!
