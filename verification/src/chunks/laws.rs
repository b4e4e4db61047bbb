//! What samples that come in make of the samples of a chunk.
use crate::chunks::chunk::moved;
use crate::chunks::merge::{meet, merge_steps, merged, outcomes, told, MergeStep};
use crate::chunks::search::{is_place, lemma_place, place_of, within};
use crate::chunks::uncompressed::{
    merge_into, policy_or_last, samples_at, upserted, MAX_UNCOMPRESSED_SAMPLES,
};
use crate::error::TsdbError;
use crate::sample::{
    is_nan, is_strictly_sorted, resolved, sum_of, DuplicatePolicy, Sample, SampleAddResult, Timestamp,
};
use crate::series::ingest_laws::is_settled_value;
use crate::series::store::lemma_filter_from;
use crate::series::update::lemma_filter_strict;
use vstd::prelude::*;

verus! {

/// A merge that names no policy lets the last value win.
pub proof fn law_merge_policy(p: DuplicatePolicy)
    ensures
        policy_or_last(Some(p)) == p,
        policy_or_last(None) == DuplicatePolicy::KeepLast,
{
}

/// Two values meet at a timestamp: what is left of them is as the policy says.
pub open spec fn is_met<F: Fn(u64, u64) -> u64>(
    policy: DuplicatePolicy,
    old: u64,
    new: u64,
    sum: F,
    value: u64,
) -> bool {
    &&& policy == DuplicatePolicy::Block ==> value == old
    &&& policy != DuplicatePolicy::Block ==> is_settled_value(policy, old, new, value)
    &&& policy == DuplicatePolicy::Sum && !is_nan(old) && !is_nan(new) ==> value == sum_of(sum, old, new)
}

/// Only the policy that blocks refuses a value. Under any other, what is no number gives way; of two
/// numbers the first, the last, the smaller or the larger stays, or their sum takes their place.
pub proof fn law_duplicates<F: Fn(u64, u64) -> u64>(
    policy: DuplicatePolicy,
    old: u64,
    new: u64,
    sum: F,
)
    ensures
        resolved(policy, old, new, sum) is None <==> policy == DuplicatePolicy::Block,
        resolved(policy, old, new, sum) is Some ==> is_met(
            policy,
            old,
            new,
            sum,
            resolved(policy, old, new, sum)->0,
        ),
{
}

/// A timestamp is taken.
pub open spec fn is_taken(s: Seq<Sample>, ts: Timestamp) -> bool {
    exists|i: int| 0 <= i < s.len() && (#[trigger] s[i]).timestamp == ts
}

/// A sample is what two runs leave at its timestamp: that of the one that has it, or what the policy
/// makes of both.
pub open spec fn is_left<F: Fn(u64, u64) -> u64>(
    left: Seq<Sample>,
    right: Seq<Sample>,
    policy: DuplicatePolicy,
    sum: F,
    x: Sample,
) -> bool {
    ||| left.contains(x) && !is_taken(right, x.timestamp)
    ||| right.contains(x) && !is_taken(left, x.timestamp)
    ||| exists|i: int, j: int|
        {
            &&& 0 <= i < left.len()
            &&& 0 <= j < right.len()
            &&& (#[trigger] left[i]).timestamp == x.timestamp
            &&& (#[trigger] right[j]).timestamp == x.timestamp
            &&& is_met(policy, left[i].value, right[j].value, sum, x.value)
        }
}

/// Whether a sample comes behind all samples of a full chunk.
pub open spec fn is_over(s: Seq<Sample>, full: bool, sample: Sample) -> bool {
    full && s.len() > 0 && forall|i: int|
        0 <= i < s.len() ==> (#[trigger] s[i]).timestamp < sample.timestamp
}

/// A sample that is added to a chunk stands at its timestamp then, and no other sample changes. It
/// is refused where the chunk is full and it comes last, or where its timestamp is taken and the
/// policy blocks it.
#[verifier::rlimit(40)]
pub proof fn law_upsert<F: Fn(u64, u64) -> u64>(
    s: Seq<Sample>,
    full: bool,
    sample: Sample,
    policy: DuplicatePolicy,
    sum: F,
)
    requires
        is_strictly_sorted(s),
    ensures
        ({
            let blocked = policy == DuplicatePolicy::Block && is_taken(s, sample.timestamp);
            match upserted(s, full, sample, policy, sum) {
                Ok(t) => {
                    &&& !is_over(s, full, sample) && !blocked
                    &&& is_strictly_sorted(t)
                    &&& is_taken(t, sample.timestamp)
                    &&& forall|x: Sample| #[trigger]
                        t.contains(x) ==> is_left(s, seq![sample], policy, sum, x)
                    &&& forall|x: Sample| #[trigger]
                        s.contains(x) && x.timestamp != sample.timestamp ==> t.contains(x)
                    &&& t.len() == s.len() + if is_taken(s, sample.timestamp) {
                        0int
                    } else {
                        1int
                    }
                },
                Err(TsdbError::CapacityFull(n)) => is_over(s, full, sample) && n
                    == MAX_UNCOMPRESSED_SAMPLES,
                Err(TsdbError::DuplicateSample(ts)) => blocked && ts == sample.timestamp,
                Err(_) => false,
            }
        }),
{
    let one = seq![sample];
    assert(one[0] == sample);
    let at = place_of(s, sample.timestamp);
    if s.len() == 0 {
        let t = seq![sample];
        assert(t[0] == sample);
    } else if sample.timestamp > s.last().timestamp {
        let last = s.len() - 1;
        assert(s[last].timestamp < sample.timestamp);
        assert forall|i: int| 0 <= i < s.len() implies (#[trigger] s[i]).timestamp
            < sample.timestamp by {}
        let t = s.push(sample);
        assert(t[s.len() as int] == sample);
        assert forall|x: Sample| #[trigger] s.contains(x) implies t.contains(x) by {
            let i = choose|i: int| 0 <= i < s.len() && s[i] == x;
            assert(t[i] == x);
        }
        assert forall|x: Sample| #[trigger] t.contains(x) implies is_left(
            s,
            one,
            policy,
            sum,
            x,
        ) by {
            let i = choose|i: int| 0 <= i < t.len() && t[i] == x;
            if i < s.len() {
                assert(s[i] == x);
            } else {
                assert(one.contains(x));
            }
        }
    } else {
        lemma_place_exists(s, sample.timestamp);
        let last = s.len() - 1;
        assert(s[last].timestamp >= sample.timestamp);
        assert(at < s.len());
        assert(!is_over(s, full, sample));
        if s[at].timestamp == sample.timestamp {
            law_duplicates(policy, s[at].value, sample.value, sum);
            if let Some(value) = resolved(policy, s[at].value, sample.value, sum) {
                let y = Sample { timestamp: sample.timestamp, value };
                let t = s.update(at, y);
                assert(t[at] == y);
                assert forall|x: Sample| #[trigger]
                    s.contains(x) && x.timestamp != sample.timestamp implies t.contains(x) by {
                    let i = choose|i: int| 0 <= i < s.len() && s[i] == x;
                    assert(t[i] == x);
                }
                assert forall|x: Sample| #[trigger] t.contains(x) implies is_left(
                    s,
                    one,
                    policy,
                    sum,
                    x,
                ) by {
                    let i = choose|i: int| 0 <= i < t.len() && t[i] == x;
                    if i == at {
                        assert(s[at].timestamp == x.timestamp && one[0].timestamp == x.timestamp);
                        assert(is_met(policy, s[at].value, one[0].value, sum, x.value));
                    } else {
                        assert(s[i] == x);
                        assert(s.contains(x));
                    }
                }
            }
        } else {
            assert(!is_taken(s, sample.timestamp));
            let t = s.insert(at, sample);
            assert(t[at] == sample);
            assert forall|i: int, j: int| 0 <= i < j < t.len() implies t[i].timestamp
                < t[j].timestamp by {
                if i < at {
                    assert(t[i] == s[i]);
                } else if i > at {
                    assert(t[i] == s[i - 1]);
                }
                if j < at {
                    assert(t[j] == s[j]);
                } else if j > at {
                    assert(t[j] == s[j - 1]);
                }
            }
            assert forall|x: Sample| #[trigger] s.contains(x) implies t.contains(x) by {
                let i = choose|i: int| 0 <= i < s.len() && s[i] == x;
                if i < at {
                    assert(t[i] == x);
                } else {
                    assert(t[i + 1] == x);
                }
            }
            assert forall|x: Sample| #[trigger] t.contains(x) implies is_left(
                s,
                one,
                policy,
                sum,
                x,
            ) by {
                let i = choose|i: int| 0 <= i < t.len() && t[i] == x;
                if i < at {
                    assert(s[i] == x);
                    assert(s.contains(x));
                } else if i > at {
                    assert(s[i - 1] == x);
                    assert(s.contains(x));
                } else {
                    assert(one.contains(x));
                }
            }
        }
    }
}

/// A sorted run has a place for every timestamp.
proof fn lemma_place_exists(s: Seq<Sample>, ts: Timestamp)
    requires
        is_strictly_sorted(s),
    ensures
        is_place(s, ts as int, place_of(s, ts)),
    decreases s.len(),
{
    if s.len() == 0 {
        assert(is_place(s, ts as int, 0));
        lemma_place(s, ts, 0);
    } else if s.last().timestamp < ts {
        assert(is_place(s, ts as int, s.len() as int));
        lemma_place(s, ts, s.len() as int);
    } else {
        let less = s.drop_last();
        lemma_place_exists(less, ts);
        let at = place_of(less, ts);
        assert forall|i: int| 0 <= i < at implies (#[trigger] s[i]).timestamp < ts by {
            assert(less[i] == s[i]);
        }
        assert forall|i: int| at <= i < s.len() implies (#[trigger] s[i]).timestamp >= ts by {
            if i < less.len() {
                assert(less[i] == s[i]);
            }
        }
        assert(is_place(s, ts as int, at));
        lemma_place(s, ts, at);
    }
}

/// What is told of a sample that came in: that it is a duplicate where its timestamp is taken and
/// the policy blocks it, and else that it is stored, as it then stands in the run.
pub open spec fn is_told_of(
    s: Seq<Sample>,
    t: Seq<Sample>,
    policy: DuplicatePolicy,
    ts: Timestamp,
    outcome: SampleAddResult,
) -> bool {
    if policy == DuplicatePolicy::Block && is_taken(s, ts) {
        outcome == SampleAddResult::Duplicate
    } else {
        outcome is Stored && outcome->Stored_0.timestamp == ts && t.contains(outcome->Stored_0)
    }
}

/// What a merged run holds, and what is told of the samples that came in.
pub open spec fn is_merge<F: Fn(u64, u64) -> u64>(
    left: Seq<Sample>,
    right: Seq<Sample>,
    policy: DuplicatePolicy,
    sum: F,
    all: Seq<Sample>,
    told: Seq<SampleAddResult>,
) -> bool {
    &&& is_strictly_sorted(all)
    &&& forall|x: Sample| #[trigger] all.contains(x) ==> is_left(left, right, policy, sum, x)
    &&& forall|i: int| 0 <= i < left.len() ==> is_taken(all, (#[trigger] left[i]).timestamp)
    &&& forall|i: int| 0 <= i < right.len() ==> is_taken(all, (#[trigger] right[i]).timestamp)
    &&& told.len() == right.len()
    &&& forall|i: int|
        0 <= i < right.len() ==> is_told_of(
            left,
            all,
            policy,
            right[i].timestamp,
            #[trigger] told[i],
        )
}

/// The first step of merging two runs, and what is left of them after it.
spec fn first_step<F: Fn(u64, u64) -> u64>(
    left: Seq<Sample>,
    right: Seq<Sample>,
    policy: DuplicatePolicy,
    sum: F,
) -> (MergeStep, Seq<Sample>, Seq<Sample>) {
    if left[0].timestamp < right[0].timestamp {
        (MergeStep::Kept(left[0]), left.skip(1), right)
    } else if right[0].timestamp < left[0].timestamp {
        (MergeStep::Taken(right[0]), left, right.skip(1))
    } else {
        (meet(left[0], right[0], policy, sum), left.skip(1), right.skip(1))
    }
}

proof fn lemma_first_step<F: Fn(u64, u64) -> u64>(
    left: Seq<Sample>,
    right: Seq<Sample>,
    policy: DuplicatePolicy,
    sum: F,
)
    requires
        left.len() > 0,
        right.len() > 0,
        is_strictly_sorted(left),
        is_strictly_sorted(right),
    ensures
        ({
            let (first, l, r) = first_step(left, right, policy, sum);
            let ts = first.sample().timestamp;
            &&& merge_steps(left, right, policy, sum) == seq![first] + merge_steps(
                l,
                r,
                policy,
                sum,
            )
            &&& merged(merge_steps(left, right, policy, sum)) == seq![first.sample()] + merged(
                merge_steps(l, r, policy, sum),
            )
            &&& l.len() + r.len() < left.len() + right.len()
            &&& l == left || (l == left.skip(1) && left[0].timestamp == ts)
            &&& r == right || (r == right.skip(1) && right[0].timestamp == ts)
            &&& is_strictly_sorted(l)
            &&& is_strictly_sorted(r)
            &&& forall|i: int| 0 <= i < l.len() ==> (#[trigger] l[i]).timestamp > ts
            &&& forall|i: int| 0 <= i < r.len() ==> (#[trigger] r[i]).timestamp > ts
        }),
{
    let (first, l, r) = first_step(left, right, policy, sum);
    let ts = first.sample().timestamp;
    assert(merge_steps(left, right, policy, sum) =~= seq![first] + merge_steps(l, r, policy, sum));
    assert(merged(merge_steps(left, right, policy, sum)) =~= seq![first.sample()] + merged(
        merge_steps(l, r, policy, sum),
    ));
    assert forall|i: int| 0 <= i < l.len() implies (#[trigger] l[i]).timestamp > ts by {
        if l.len() < left.len() {
            assert(l[i] == left[i + 1]);
        } else {
            assert(l[i] == left[i]);
        }
    }
    assert forall|i: int| 0 <= i < r.len() implies (#[trigger] r[i]).timestamp > ts by {
        if r.len() < right.len() {
            assert(r[i] == right[i + 1]);
        } else {
            assert(r[i] == right[i]);
        }
    }
}

/// A merged run is in order and holds what the two runs leave.
proof fn lemma_merge_holds<F: Fn(u64, u64) -> u64>(
    left: Seq<Sample>,
    right: Seq<Sample>,
    policy: DuplicatePolicy,
    sum: F,
)
    requires
        is_strictly_sorted(left),
        is_strictly_sorted(right),
    ensures
        is_strictly_sorted(merged(merge_steps(left, right, policy, sum))),
        forall|x: Sample| #[trigger]
            merged(merge_steps(left, right, policy, sum)).contains(x) ==> is_left(
                left,
                right,
                policy,
                sum,
                x,
            ),
    decreases left.len() + right.len(),
{
    let all = merged(merge_steps(left, right, policy, sum));
    if left.len() == 0 {
        assert(all =~= right);
    } else if right.len() == 0 {
        assert(all =~= left);
    } else {
        lemma_first_step(left, right, policy, sum);
        let (first, l, r) = first_step(left, right, policy, sum);
        let ts = first.sample().timestamp;
        lemma_merge_holds(l, r, policy, sum);
        let rest = merged(merge_steps(l, r, policy, sum));
        assert forall|i: int| 0 <= i < rest.len() implies (#[trigger] rest[i]).timestamp > ts by {
            assert(rest.contains(rest[i]));
            lemma_left_later(l, r, policy, sum, rest[i], ts);
        }
        assert forall|i: int, j: int| 0 <= i < j < all.len() implies all[i].timestamp
            < all[j].timestamp by {
            assert(all[j] == rest[j - 1]);
            if i > 0 {
                assert(all[i] == rest[i - 1]);
            }
        }
        lemma_taken_skip(left, l, ts);
        lemma_taken_skip(right, r, ts);
        assert forall|x: Sample| #[trigger] all.contains(x) implies is_left(
            left,
            right,
            policy,
            sum,
            x,
        ) by {
            let i = choose|i: int| 0 <= i < all.len() && all[i] == x;
            if i == 0 {
                lemma_first_left(left, right, policy, sum);
            } else {
                assert(rest[i - 1] == x);
                assert(rest.contains(x));
                lemma_left_grows(left, right, l, r, policy, sum, x, ts);
            }
        }
    }
}

/// A merged run takes every timestamp of the two runs.
proof fn lemma_merge_takes<F: Fn(u64, u64) -> u64>(
    left: Seq<Sample>,
    right: Seq<Sample>,
    policy: DuplicatePolicy,
    sum: F,
    ts: Timestamp,
)
    requires
        is_strictly_sorted(left),
        is_strictly_sorted(right),
        is_taken(left, ts) || is_taken(right, ts),
    ensures
        is_taken(merged(merge_steps(left, right, policy, sum)), ts),
    decreases left.len() + right.len(),
{
    let all = merged(merge_steps(left, right, policy, sum));
    if left.len() == 0 {
        assert(all =~= right);
    } else if right.len() == 0 {
        assert(all =~= left);
    } else {
        lemma_first_step(left, right, policy, sum);
        let (first, l, r) = first_step(left, right, policy, sum);
        let rest = merged(merge_steps(l, r, policy, sum));
        if first.sample().timestamp == ts {
            assert(all[0].timestamp == ts);
        } else {
            lemma_taken_skip(left, l, first.sample().timestamp);
            lemma_taken_skip(right, r, first.sample().timestamp);
            assert(is_taken(left, ts) == is_taken(l, ts));
            assert(is_taken(right, ts) == is_taken(r, ts));
            lemma_merge_takes(l, r, policy, sum, ts);
            let i = choose|i: int| 0 <= i < rest.len() && (#[trigger] rest[i]).timestamp == ts;
            assert(all[i + 1].timestamp == ts);
        }
    }
}

/// What is told of the samples that came in is so.
#[verifier::rlimit(40)]
proof fn lemma_merge_tells<F: Fn(u64, u64) -> u64>(
    left: Seq<Sample>,
    right: Seq<Sample>,
    policy: DuplicatePolicy,
    sum: F,
)
    requires
        is_strictly_sorted(left),
        is_strictly_sorted(right),
    ensures
        outcomes(merge_steps(left, right, policy, sum)).len() == right.len(),
        forall|i: int|
            0 <= i < right.len() ==> is_told_of(
                left,
                merged(merge_steps(left, right, policy, sum)),
                policy,
                right[i].timestamp,
                #[trigger] outcomes(merge_steps(left, right, policy, sum))[i],
            ),
    decreases left.len() + right.len(),
{
    let steps = merge_steps(left, right, policy, sum);
    let all = merged(steps);
    let news = outcomes(steps);
    if left.len() == 0 {
        assert(all =~= right);
        lemma_all_told(right);
        assert(steps =~= right.map_values(|s: Sample| MergeStep::Taken(s)));
        assert forall|i: int| 0 <= i < right.len() implies is_told_of(
            left,
            all,
            policy,
            right[i].timestamp,
            #[trigger] news[i],
        ) by {
            assert(news[i] == SampleAddResult::Stored(right[i]));
            assert(all.contains(right[i]));
        }
    } else if right.len() == 0 {
        lemma_none_told(left);
        assert(steps =~= left.map_values(|s: Sample| MergeStep::Kept(s)));
    } else {
        lemma_first_step(left, right, policy, sum);
        let (first, l, r) = first_step(left, right, policy, sum);
        let ts = first.sample().timestamp;
        let more = merge_steps(l, r, policy, sum);
        let rest = merged(more);
        lemma_merge_tells(l, r, policy, sum);
        lemma_merge_holds(l, r, policy, sum);
        assert forall|i: int| 0 <= i < more.len() implies (#[trigger] merged(more)[i]).timestamp
            > ts by {
            assert(rest.contains(rest[i]));
            lemma_left_later(l, r, policy, sum, rest[i], ts);
        }
        lemma_first_told(first, more, ts);
        lemma_taken_skip(left, l, ts);
        assert(all.skip(1) =~= rest);
        assert(all[0] == first.sample());
        assert(all.contains(first.sample()));
        let later = outcomes(more);
        assert forall|i: int| 0 <= i < right.len() implies is_told_of(
            left,
            all,
            policy,
            right[i].timestamp,
            #[trigger] news[i],
        ) by {
            if r.len() == right.len() {
                assert(news[i] == later[i]);
                assert(r[i] == right[i]);
                lemma_told_grows(left, l, rest, all, policy, ts, right[i].timestamp, later[i]);
            } else if i > 0 {
                assert(news[i] == later[i - 1]);
                assert(r[i - 1] == right[i]);
                lemma_told_grows(left, l, rest, all, policy, ts, right[i].timestamp, later[i - 1]);
            } else {
                lemma_first_is_told(left, right, policy, sum, all);
            }
        }
    }
}

/// What is told of the first sample that came in, where the first step is about it.
proof fn lemma_first_is_told<F: Fn(u64, u64) -> u64>(
    left: Seq<Sample>,
    right: Seq<Sample>,
    policy: DuplicatePolicy,
    sum: F,
    all: Seq<Sample>,
)
    requires
        left.len() > 0,
        right.len() > 0,
        is_strictly_sorted(left),
        right[0].timestamp <= left[0].timestamp,
        all.contains(first_step(left, right, policy, sum).0.sample()),
    ensures
        first_step(left, right, policy, sum).0.outcome() is Some,
        is_told_of(
            left,
            all,
            policy,
            right[0].timestamp,
            first_step(left, right, policy, sum).0.outcome()->0,
        ),
{
    law_duplicates(policy, left[0].value, right[0].value, sum);
    let ts = right[0].timestamp;
    if left[0].timestamp == ts {
        assert(is_taken(left, ts));
    } else {
        assert forall|k: int| 0 <= k < left.len() implies (#[trigger] left[k]).timestamp != ts by {}
    }
}

/// Merging leaves at each timestamp what the two runs have there, tells of each sample that came in,
/// and keeps the order.
pub proof fn law_merge<F: Fn(u64, u64) -> u64>(
    left: Seq<Sample>,
    right: Seq<Sample>,
    policy: DuplicatePolicy,
    sum: F,
)
    requires
        is_strictly_sorted(left),
        is_strictly_sorted(right),
    ensures
        is_merge(
            left,
            right,
            policy,
            sum,
            merged(merge_steps(left, right, policy, sum)),
            outcomes(merge_steps(left, right, policy, sum)),
        ),
{
    let all = merged(merge_steps(left, right, policy, sum));
    lemma_merge_holds(left, right, policy, sum);
    lemma_merge_tells(left, right, policy, sum);
    assert forall|i: int| 0 <= i < left.len() implies is_taken(
        all,
        (#[trigger] left[i]).timestamp,
    ) by {
        lemma_merge_takes(left, right, policy, sum, left[i].timestamp);
    }
    assert forall|i: int| 0 <= i < right.len() implies is_taken(
        all,
        (#[trigger] right[i]).timestamp,
    ) by {
        lemma_merge_takes(left, right, policy, sum, right[i].timestamp);
    }
}

/// Merging samples into a chunk gives what the two runs leave. Of a single sample it is told as it
/// came, of more as they stand in the chunk then. Only a single sample can be too much for a chunk.
#[verifier::rlimit(40)]
pub proof fn law_merge_into<F: Fn(u64, u64) -> u64>(
    s: Seq<Sample>,
    full: bool,
    samples: Seq<Sample>,
    policy: DuplicatePolicy,
    sum: F,
)
    requires
        is_strictly_sorted(s),
        is_strictly_sorted(samples),
    ensures
        match merge_into(s, full, samples, policy, sum) {
            Ok((t, told)) => {
                &&& is_strictly_sorted(t)
                &&& forall|x: Sample| #[trigger] t.contains(x) ==> is_left(s, samples, policy, sum, x)
                &&& forall|i: int| 0 <= i < s.len() ==> is_taken(t, (#[trigger] s[i]).timestamp)
                &&& forall|i: int|
                    0 <= i < samples.len() ==> is_taken(t, (#[trigger] samples[i]).timestamp)
                &&& told.len() == samples.len()
                &&& samples.len() == 1 ==> told[0] == if policy == DuplicatePolicy::Block
                    && is_taken(s, samples[0].timestamp) {
                    SampleAddResult::Duplicate
                } else {
                    SampleAddResult::Stored(samples[0])
                }
                &&& samples.len() > 1 ==> forall|i: int|
                    0 <= i < samples.len() ==> is_told_of(
                        s,
                        t,
                        policy,
                        samples[i].timestamp,
                        #[trigger] told[i],
                    )
                &&& samples.len() == 1 ==> !is_over(s, full, samples[0]) && !(full && s.len() == 0)
            },
            Err(e) => {
                &&& e == TsdbError::CapacityFull(MAX_UNCOMPRESSED_SAMPLES)
                &&& samples.len() == 1
                &&& is_over(s, full, samples[0]) || (full && s.len() == 0)
            },
        },
{
    if samples.len() == 0 {
        assert forall|x: Sample| #[trigger] s.contains(x) implies is_left(
            s,
            samples,
            policy,
            sum,
            x,
        ) by {}
    } else if samples.len() == 1 {
        law_upsert(s, full, samples[0], policy, sum);
        assert(samples =~= seq![samples[0]]);
        if let Ok(t) = upserted(s, full, samples[0], policy, sum) {
            assert forall|i: int| 0 <= i < s.len() implies is_taken(
                t,
                (#[trigger] s[i]).timestamp,
            ) by {
                if s[i].timestamp != samples[0].timestamp {
                    assert(s.contains(s[i]));
                    assert(t.contains(s[i]));
                    let k = choose|k: int| 0 <= k < t.len() && t[k] == s[i];
                    assert(t[k].timestamp == s[i].timestamp);
                }
            }
        } else {
            assert forall|x: Sample| #[trigger] s.contains(x) && is_taken(
                s,
                samples[0].timestamp,
            ) && policy == DuplicatePolicy::Block implies is_left(s, samples, policy, sum, x) by {
                let i = choose|i: int| 0 <= i < s.len() && s[i] == x;
                if x.timestamp == samples[0].timestamp {
                    assert(s[i].timestamp == x.timestamp && samples[0].timestamp == x.timestamp);
                    assert(is_met(policy, s[i].value, samples[0].value, sum, x.value));
                }
            }
        }
    } else if s.len() == 0 || samples[0].timestamp > s.last().timestamp {
        let t = s + samples;
        let told = samples.map_values(|x: Sample| SampleAddResult::Stored(x));
        assert forall|i: int| 0 <= i < s.len() implies (#[trigger] s[i]).timestamp
            < samples[0].timestamp by {
            assert(s[i].timestamp <= s[s.len() - 1].timestamp);
        }
        assert forall|i: int| 0 <= i < samples.len() implies (#[trigger] samples[i]).timestamp
            >= samples[0].timestamp by {}
        assert forall|i: int, j: int| 0 <= i < j < t.len() implies t[i].timestamp
            < t[j].timestamp by {
            if j < s.len() {
                assert(s[i].timestamp < s[j].timestamp);
            } else if i < s.len() {
                assert(t[i] == s[i] && t[j] == samples[j - s.len()]);
            } else {
                assert(t[i] == samples[i - s.len()] && t[j] == samples[j - s.len()]);
            }
        }
        assert forall|x: Sample| #[trigger] t.contains(x) implies is_left(
            s,
            samples,
            policy,
            sum,
            x,
        ) by {
            let i = choose|i: int| 0 <= i < t.len() && t[i] == x;
            if i < s.len() {
                assert(s[i] == x);
                assert(s.contains(x));
            } else {
                assert(samples[i - s.len()] == x);
                assert(samples.contains(x));
            }
        }
        assert forall|i: int| 0 <= i < s.len() implies is_taken(t, (#[trigger] s[i]).timestamp) by {
            assert(t[i] == s[i]);
        }
        assert forall|i: int| 0 <= i < samples.len() implies is_taken(
            t,
            (#[trigger] samples[i]).timestamp,
        ) by {
            assert(t[i + s.len()] == samples[i]);
        }
        assert forall|i: int| 0 <= i < samples.len() implies is_told_of(
            s,
            t,
            policy,
            samples[i].timestamp,
            #[trigger] told[i],
        ) by {
            assert(t[i + s.len()] == samples[i]);
            assert(t.contains(samples[i]));
            assert(!is_taken(s, samples[i].timestamp));
        }
    } else {
        law_merge(s, samples, policy, sum);
    }
}

/// Reading timestamps gives the samples that stand at them, in the order of the timestamps.
pub proof fn law_samples_at(s: Seq<Sample>, timestamps: Seq<Timestamp>)
    requires
        is_strictly_sorted(s),
    ensures
        samples_at(s, timestamps).map_values(|x: Sample| x.timestamp) == timestamps.filter(
            |ts: Timestamp| is_taken(s, ts),
        ),
        forall|i: int|
            0 <= i < samples_at(s, timestamps).len() ==> s.contains(
                #[trigger] samples_at(s, timestamps)[i],
            ),
    decreases timestamps.len(),
{
    reveal(Seq::filter);
    let found = samples_at(s, timestamps);
    let taken = |ts: Timestamp| is_taken(s, ts);
    let of = |x: Sample| x.timestamp;
    if timestamps.len() > 0 {
        let before = samples_at(s, timestamps.drop_last());
        law_samples_at(s, timestamps.drop_last());
        let ts = timestamps.last();
        let at = place_of(s, ts);
        lemma_place_exists(s, ts);
        assert(is_taken(s, ts) == (at < s.len() && s[at].timestamp == ts)) by {
            if is_taken(s, ts) {
                let i = choose|i: int| 0 <= i < s.len() && (#[trigger] s[i]).timestamp == ts;
                if i < at {
                    assert(s[i].timestamp < ts);
                }
                if at < i {
                    assert(s[at].timestamp < s[i].timestamp);
                }
            }
        }
        if is_taken(s, ts) {
            assert(found.map_values(of) =~= before.map_values(of).push(ts));
            assert forall|i: int| 0 <= i < found.len() implies s.contains(#[trigger] found[i]) by {
                if i < before.len() {
                    assert(found[i] == before[i]);
                } else {
                    assert(s[at] == found[i]);
                }
            }
        }
    } else {
        assert(found.map_values(of) =~= timestamps.filter(taken));
    }
}

/// How much room a chunk has.
pub open spec fn room_in(dest: Seq<Sample>, limit: nat) -> int {
    if dest.len() > limit {
        0
    } else {
        limit - dest.len()
    }
}

/// Nothing is moved from an empty chunk, nor into one that has room for no more than a quarter of
/// the samples. Else the oldest of the samples that are not out of date are moved, as many as there
/// is room for, and the others stay; what is out of date goes, and none of the others is lost.
#[verifier::rlimit(40)]
pub proof fn law_moved<F: Fn(u64, u64) -> u64>(
    dest: Seq<Sample>,
    limit: nat,
    src: Seq<Sample>,
    min_timestamp: Timestamp,
    policy: DuplicatePolicy,
    sum: F,
)
    requires
        is_strictly_sorted(dest),
        is_strictly_sorted(src),
    ensures
        moved(dest, limit, src, min_timestamp, policy, sum) == Ok::<
            Option<(Seq<Sample>, Seq<Sample>, nat)>,
            TsdbError,
        >(None) <==> src.len() == 0 || (room_in(dest, limit) < src.len() && 4 * room_in(dest, limit)
            <= src.len()),
        moved(dest, limit, src, min_timestamp, policy, sum) matches Ok(Some((s, rest, n))) ==> {
            &&& is_strictly_sorted(s)
            &&& n <= room_in(dest, limit)
            &&& rest.len() > 0 ==> n == room_in(dest, limit)
            &&& forall|x: Sample| #[trigger]
                src.contains(x) && x.timestamp >= min_timestamp ==> is_taken(s, x.timestamp)
                    || rest.contains(x)
            &&& forall|x: Sample| #[trigger]
                rest.contains(x) ==> src.contains(x) && x.timestamp >= min_timestamp
            &&& forall|i: int| 0 <= i < dest.len() ==> is_taken(s, (#[trigger] dest[i]).timestamp)
            &&& forall|x: Sample| #[trigger]
                s.contains(x) && !is_taken(dest, x.timestamp) ==> src.contains(x) && x.timestamp
                    >= min_timestamp && !rest.contains(x)
        },
{
    broadcast use vstd::seq_lib::group_filter_ensures;

    let room = room_in(dest, limit);
    let keep = |x: Sample| min_timestamp <= x.timestamp <= i64::MAX;
    let live = within(src, min_timestamp, i64::MAX);
    assert(live == src.filter(keep));
    lemma_filter_strict(src, keep);
    lemma_filter_from(src, keep);
    src.lemma_filter_len(keep);
    let n = if live.len() <= room {
        live.len() as int
    } else {
        room
    };
    let part = live.take(n);
    assert(is_strictly_sorted(part));
    law_merge_into(dest, dest.len() >= limit, part, policy, sum);
    if let Ok(Some((s, rest, k))) = moved(dest, limit, src, min_timestamp, policy, sum) {
        assert(rest =~= live.skip(n));
        assert forall|x: Sample| #[trigger]
            src.contains(x) && x.timestamp >= min_timestamp implies is_taken(s, x.timestamp)
            || rest.contains(x) by {
            assert(keep(x));
            assert(live.contains(x));
            let i = choose|i: int| 0 <= i < live.len() && live[i] == x;
            if i < n {
                assert(part[i] == x);
                assert(is_taken(s, part[i].timestamp));
            } else {
                assert(rest[i - n] == x);
            }
        }
        assert forall|x: Sample| #[trigger] rest.contains(x) implies src.contains(x)
            && x.timestamp >= min_timestamp by {
            let i = choose|i: int| 0 <= i < rest.len() && rest[i] == x;
            assert(live[i + n] == x);
            assert(src.contains(src.filter(keep)[i + n]));
            assert(keep(live[i + n]));
        }
        assert forall|x: Sample| #[trigger]
            s.contains(x) && !is_taken(dest, x.timestamp) implies src.contains(x) && x.timestamp
            >= min_timestamp && !rest.contains(x) by {
            assert(is_left(dest, part, policy, sum, x));
            if dest.contains(x) {
                let i = choose|i: int| 0 <= i < dest.len() && dest[i] == x;
                assert(dest[i].timestamp == x.timestamp);
            }
            assert(part.contains(x));
            let i = choose|i: int| 0 <= i < part.len() && part[i] == x;
            assert(live[i] == x);
            assert(src.contains(src.filter(keep)[i]));
            assert(keep(live[i]));
            if rest.contains(x) {
                let j = choose|j: int| 0 <= j < rest.len() && rest[j] == x;
                assert(live[i].timestamp < live[j + n].timestamp);
            }
        }
    }
}

/// What was told of later samples stays true of the whole run.
proof fn lemma_told_grows(
    left: Seq<Sample>,
    l: Seq<Sample>,
    rest: Seq<Sample>,
    all: Seq<Sample>,
    policy: DuplicatePolicy,
    ts: Timestamp,
    at: Timestamp,
    outcome: SampleAddResult,
)
    requires
        at > ts,
        all.len() == rest.len() + 1,
        all.skip(1) == rest,
        forall|t: Timestamp| t != ts ==> (#[trigger] is_taken(left, t) == is_taken(l, t)),
        is_told_of(l, rest, policy, at, outcome),
    ensures
        is_told_of(left, all, policy, at, outcome),
{
    assert(is_taken(left, at) == is_taken(l, at));
    if outcome is Stored && rest.contains(outcome->Stored_0) {
        let x = outcome->Stored_0;
        let i = choose|i: int| 0 <= i < rest.len() && rest[i] == x;
        assert(all.skip(1)[i] == all[i + 1]);
        assert(all[i + 1] == x);
    }
}

/// Without its first sample, or with it, a run takes the same later timestamps.
proof fn lemma_taken_skip(s: Seq<Sample>, t: Seq<Sample>, ts: Timestamp)
    requires
        s.len() > 0,
        t == s || (t == s.skip(1) && s[0].timestamp == ts),
    ensures
        forall|at: Timestamp| at != ts ==> (#[trigger] is_taken(s, at) == is_taken(t, at)),
{
    if t != s {
        assert forall|at: Timestamp| at != ts implies (#[trigger] is_taken(s, at) == is_taken(
            t,
            at,
        )) by {
            if is_taken(s, at) {
                let i = choose|i: int| 0 <= i < s.len() && (#[trigger] s[i]).timestamp == at;
                assert(t[i - 1].timestamp == at);
            }
            if is_taken(t, at) {
                let i = choose|i: int| 0 <= i < t.len() && (#[trigger] t[i]).timestamp == at;
                assert(s[i + 1].timestamp == at);
            }
        }
    }
}

/// What later samples leave is later.
proof fn lemma_left_later<F: Fn(u64, u64) -> u64>(
    l: Seq<Sample>,
    r: Seq<Sample>,
    policy: DuplicatePolicy,
    sum: F,
    x: Sample,
    ts: Timestamp,
)
    requires
        is_left(l, r, policy, sum, x),
        forall|i: int| 0 <= i < l.len() ==> (#[trigger] l[i]).timestamp > ts,
        forall|i: int| 0 <= i < r.len() ==> (#[trigger] r[i]).timestamp > ts,
    ensures
        x.timestamp > ts,
{
}

/// What later samples leave, the whole runs leave.
proof fn lemma_left_grows<F: Fn(u64, u64) -> u64>(
    left: Seq<Sample>,
    right: Seq<Sample>,
    l: Seq<Sample>,
    r: Seq<Sample>,
    policy: DuplicatePolicy,
    sum: F,
    x: Sample,
    ts: Timestamp,
)
    requires
        is_left(l, r, policy, sum, x),
        x.timestamp > ts,
        left.len() > 0,
        right.len() > 0,
        l == left || l == left.skip(1),
        r == right || r == right.skip(1),
        forall|at: Timestamp| at != ts ==> (#[trigger] is_taken(left, at) == is_taken(l, at)),
        forall|at: Timestamp| at != ts ==> (#[trigger] is_taken(right, at) == is_taken(r, at)),
    ensures
        is_left(left, right, policy, sum, x),
{
    assert(is_taken(left, x.timestamp) == is_taken(l, x.timestamp));
    assert(is_taken(right, x.timestamp) == is_taken(r, x.timestamp));
    let a: int = if l == left {
        0
    } else {
        1
    };
    let b: int = if r == right {
        0
    } else {
        1
    };
    assert forall|i: int| 0 <= i < l.len() implies #[trigger] l[i] == left[i + a] by {}
    assert forall|i: int| 0 <= i < r.len() implies #[trigger] r[i] == right[i + b] by {}
    if l.contains(x) && !is_taken(r, x.timestamp) {
        let i = choose|i: int| 0 <= i < l.len() && l[i] == x;
        assert(left[i + a] == x);
    } else if r.contains(x) && !is_taken(l, x.timestamp) {
        let i = choose|i: int| 0 <= i < r.len() && r[i] == x;
        assert(right[i + b] == x);
    } else {
        let (i, j) = choose|i: int, j: int|
            {
                &&& 0 <= i < l.len()
                &&& 0 <= j < r.len()
                &&& (#[trigger] l[i]).timestamp == x.timestamp
                &&& (#[trigger] r[j]).timestamp == x.timestamp
                &&& is_met(policy, l[i].value, r[j].value, sum, x.value)
            };
        assert(left[i + a].timestamp == x.timestamp && right[j + b].timestamp == x.timestamp);
        assert(is_met(policy, left[i + a].value, right[j + b].value, sum, x.value));
    }
}

/// The first step leaves what the two runs have at the first timestamp.
proof fn lemma_first_left<F: Fn(u64, u64) -> u64>(
    left: Seq<Sample>,
    right: Seq<Sample>,
    policy: DuplicatePolicy,
    sum: F,
)
    requires
        left.len() > 0,
        right.len() > 0,
        is_strictly_sorted(left),
        is_strictly_sorted(right),
    ensures
        is_left(
            left,
            right,
            policy,
            sum,
            merged(merge_steps(left, right, policy, sum))[0],
        ),
{
    let x = merged(merge_steps(left, right, policy, sum))[0];
    law_duplicates(policy, left[0].value, right[0].value, sum);
    if left[0].timestamp < right[0].timestamp {
        assert(x == left[0]);
        assert(left.contains(x));
        assert forall|i: int| 0 <= i < right.len() implies (#[trigger] right[i]).timestamp
            != x.timestamp by {}
    } else if right[0].timestamp < left[0].timestamp {
        assert(x == right[0]);
        assert(right.contains(x));
        assert forall|i: int| 0 <= i < left.len() implies (#[trigger] left[i]).timestamp
            != x.timestamp by {}
    } else {
        assert(x == meet(left[0], right[0], policy, sum).sample());
        assert(left[0].timestamp == x.timestamp && right[0].timestamp == x.timestamp);
        assert(is_met(policy, left[0].value, right[0].value, sum, x.value));
    }
}

/// Where all samples of a run came in, each is told to be stored.
proof fn lemma_all_told(right: Seq<Sample>)
    requires
        is_strictly_sorted(right),
    ensures
        outcomes(right.map_values(|s: Sample| MergeStep::Taken(s))) == right.map_values(
            |s: Sample| SampleAddResult::Stored(s),
        ),
    decreases right.len(),
{
    let steps = right.map_values(|s: Sample| MergeStep::Taken(s));
    if right.len() > 0 {
        let less = right.drop_last();
        lemma_all_told(less);
        assert(steps.drop_last() =~= less.map_values(|s: Sample| MergeStep::Taken(s)));
        assert(!told(steps.drop_last(), right.last().timestamp)) by {
            assert forall|i: int| 0 <= i < less.len() implies (#[trigger] steps.drop_last()[i]).sample().timestamp
                != right.last().timestamp by {
                assert(steps.drop_last()[i].sample() == right[i]);
            }
        }
        assert(right.map_values(|s: Sample| SampleAddResult::Stored(s)) =~= less.map_values(
            |s: Sample| SampleAddResult::Stored(s),
        ).push(SampleAddResult::Stored(right.last())));
    } else {
        assert(right.map_values(|s: Sample| SampleAddResult::Stored(s)) =~= Seq::empty());
    }
}

/// Where no sample came in, nothing is told.
proof fn lemma_none_told(left: Seq<Sample>)
    ensures
        outcomes(left.map_values(|s: Sample| MergeStep::Kept(s))) == Seq::<
            SampleAddResult,
        >::empty(),
    decreases left.len(),
{
    if left.len() > 0 {
        lemma_none_told(left.drop_last());
        assert(left.map_values(|s: Sample| MergeStep::Kept(s)).drop_last()
            =~= left.drop_last().map_values(|s: Sample| MergeStep::Kept(s)));
    }
}

/// What is told of a first step comes before what is told of later ones.
proof fn lemma_first_told(first: MergeStep, more: Seq<MergeStep>, ts: Timestamp)
    requires
        first.sample().timestamp == ts,
        forall|i: int| 0 <= i < more.len() ==> (#[trigger] merged(more)[i]).timestamp > ts,
    ensures
        outcomes(seq![first] + more) == match first.outcome() {
            Some(r) => seq![r] + outcomes(more),
            None => outcomes(more),
        },
    decreases more.len(),
{
    let steps = seq![first] + more;
    if more.len() == 0 {
        assert(steps.drop_last() =~= Seq::<MergeStep>::empty());
        assert(outcomes(steps.drop_last()) =~= Seq::empty());
        assert(!told(steps.drop_last(), ts));
        assert(outcomes(more) =~= Seq::<SampleAddResult>::empty());
        assert(steps.last() == first);
    } else {
        let less = more.drop_last();
        assert forall|i: int| 0 <= i < less.len() implies (#[trigger] merged(less)[i]).timestamp
            > ts by {
            assert(merged(less)[i] == merged(more)[i]);
        }
        lemma_first_told(first, less, ts);
        assert(steps.drop_last() =~= seq![first] + less);
        assert(steps.last() == more.last());
        let at = more.last().sample().timestamp;
        assert(merged(more)[more.len() - 1].timestamp > ts);
        assert(told(steps.drop_last(), at) == told(less, at)) by {
            if told(steps.drop_last(), at) {
                let i = choose|i: int|
                    0 <= i < steps.drop_last().len() && (
                    #[trigger] steps.drop_last()[i]).outcome() is Some
                        && steps.drop_last()[i].sample().timestamp == at;
                assert(less[i - 1] == steps.drop_last()[i]);
            }
            if told(less, at) {
                let i = choose|i: int|
                    0 <= i < less.len() && (#[trigger] less[i]).outcome() is Some
                        && less[i].sample().timestamp == at;
                assert(steps.drop_last()[i + 1] == less[i]);
            }
        }
    }
}

} // verus!
