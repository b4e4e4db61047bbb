//! What is known of a destination from the rules of its source.
use crate::aggregation::{fed, Aggregation};
use crate::postings::SeriesRef;
use crate::sample::Sample;
use crate::series::compaction::Flow;
use crate::series::faithful::{in_bucket, is_faithful};
use crate::series::rule::CompactionRule;
use crate::series::rules::{open_value, rule_at};
use crate::series::store::last_of;
use vstd::prelude::*;

verus! {

/// The rule with a destination is the first that names it; there is none where none names it.
pub proof fn law_rule_at<A>(rules: Seq<CompactionRule<A>>, dest_id: SeriesRef)
    ensures
        0 <= rule_at(rules, dest_id) <= rules.len(),
        rule_at(rules, dest_id) < rules.len() ==> rules[rule_at(rules, dest_id)].dest_id == dest_id,
        forall|i: int|
            0 <= i < rule_at(rules, dest_id) ==> (#[trigger] rules[i]).dest_id != dest_id,
    decreases rules.len(),
{
    if rules.len() > 0 && rules[0].dest_id != dest_id {
        let more = rules.skip(1);
        law_rule_at(more, dest_id);
        assert forall|i: int| 0 <= i < rule_at(rules, dest_id) implies (
        #[trigger] rules[i]).dest_id != dest_id by {
            if i > 0 {
                assert(more[i - 1] == rules[i]);
            }
        }
    }
}

/// Nothing is told of the open bucket of a destination that no rule names.
pub proof fn law_no_open_value<A: Aggregation>(rules: Seq<CompactionRule<A>>, dest_id: SeriesRef)
    requires
        forall|i: int| 0 <= i < rules.len() ==> (#[trigger] rules[i]).dest_id != dest_id,
    ensures
        open_value(rules, dest_id) is None,
{
    law_rule_at(rules, dest_id);
}

/// Where the rule with a destination has kept up with its source, what is told of the open bucket is
/// what its aggregator makes of the samples in the bucket of the last one, at the start of that
/// bucket; of an empty source nothing is told.
pub proof fn law_open_value<A: Aggregation>(
    rules: Seq<CompactionRule<A>>,
    dest_id: SeriesRef,
    i: int,
    f: Flow<A>,
    clean: A,
    kept: spec_fn(u64) -> u64,
    s: Seq<Sample>,
)
    requires
        0 <= i < rules.len(),
        rules[i].dest_id == dest_id,
        forall|j: int| 0 <= j < i ==> (#[trigger] rules[j]).dest_id != dest_id,
        f.rule == rules[i],
        is_faithful(f, clean, kept, s),
    ensures
        match open_value(rules, dest_id) {
            None => s.len() == 0,
            Some(x) => {
                let open = f.rule.start_of(s.last().timestamp);
                &&& s.len() > 0
                &&& x.timestamp == open
                &&& x.value == fed(clean, in_bucket(f.rule, s, open)).result()
            },
        },
{
    law_rule_at(rules, dest_id);
    let at = rule_at(rules, dest_id);
    if at < i {
        assert(rules[at].dest_id != dest_id);
    }
    assert(at == i);
    assert(last_of(s) is None == (s.len() == 0));
}

} // verus!
