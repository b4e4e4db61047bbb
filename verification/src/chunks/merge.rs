//! Merging samples into the samples of a chunk.
use crate::sample::{
    is_sorted, is_sum, resolved, DuplicatePolicy, Sample, SampleAddResult, Timestamp,
};
use vstd::prelude::*;

verus! {

/// One sample of a merged run, and where it comes from.
pub ghost enum MergeStep {
    /// A sample that was there.
    Kept(Sample),
    /// A sample that came in, at a timestamp of its own or as the policy resolved it.
    Taken(Sample),
    /// A sample that was there, at the timestamp of one that was refused.
    Refused(Sample),
}

impl MergeStep {
    pub open spec fn sample(self) -> Sample {
        match self {
            MergeStep::Kept(s) => s,
            MergeStep::Taken(s) => s,
            MergeStep::Refused(s) => s,
        }
    }

    /// What the one who brought a sample is told, if the step is about a sample that came in.
    pub open spec fn outcome(self) -> Option<SampleAddResult> {
        match self {
            MergeStep::Kept(_) => None,
            MergeStep::Taken(s) => Some(SampleAddResult::Stored(s)),
            MergeStep::Refused(_) => Some(SampleAddResult::Duplicate),
        }
    }
}

/// What one sample that came in makes of one that was there, at the same timestamp.
pub open spec fn meet<F: Fn(u64, u64) -> u64>(
    old: Sample,
    new: Sample,
    policy: DuplicatePolicy,
    sum: F,
) -> MergeStep {
    match resolved(policy, old.value, new.value, sum) {
        Some(value) => MergeStep::Taken(Sample { timestamp: old.timestamp, value }),
        None => MergeStep::Refused(old),
    }
}

/// The merged run: samples by timestamp, where one that was there and one that came in meet in
/// pairs.
pub open spec fn merge_steps<F: Fn(u64, u64) -> u64>(
    left: Seq<Sample>,
    right: Seq<Sample>,
    policy: DuplicatePolicy,
    sum: F,
) -> Seq<MergeStep>
    decreases left.len() + right.len(),
{
    if left.len() == 0 {
        right.map_values(|s: Sample| MergeStep::Taken(s))
    } else if right.len() == 0 {
        left.map_values(|s: Sample| MergeStep::Kept(s))
    } else if left[0].timestamp < right[0].timestamp {
        seq![MergeStep::Kept(left[0])] + merge_steps(left.skip(1), right, policy, sum)
    } else if right[0].timestamp < left[0].timestamp {
        seq![MergeStep::Taken(right[0])] + merge_steps(left, right.skip(1), policy, sum)
    } else {
        seq![meet(left[0], right[0], policy, sum)] + merge_steps(
            left.skip(1),
            right.skip(1),
            policy,
            sum,
        )
    }
}

/// The samples of a merged run.
pub open spec fn merged(steps: Seq<MergeStep>) -> Seq<Sample> {
    steps.map_values(|m: MergeStep| m.sample())
}

/// Whether steps tell of a sample that came in with a timestamp.
pub open spec fn told(steps: Seq<MergeStep>, ts: Timestamp) -> bool {
    exists|i: int|
        0 <= i < steps.len() && (#[trigger] steps[i]).outcome() is Some
            && steps[i].sample().timestamp == ts
}

/// What is told of the samples that came in: one outcome for each of their timestamps.
pub open spec fn outcomes(steps: Seq<MergeStep>) -> Seq<SampleAddResult>
    decreases steps.len(),
{
    if steps.len() == 0 {
        Seq::empty()
    } else {
        let before = steps.drop_last();
        match steps.last().outcome() {
            Some(r) => if told(before, steps.last().sample().timestamp) {
                outcomes(before)
            } else {
                outcomes(before).push(r)
            },
            None => outcomes(before),
        }
    }
}

/// Merges samples into a run that may hold some of their timestamps: the merged run, and what
/// became of each timestamp that came in.
#[verifier::rlimit(40)]
pub fn merge_chunk_samples<F: Fn(u64, u64) -> u64>(
    left: &[Sample],
    right: &[Sample],
    policy: DuplicatePolicy,
    sum: &F,
) -> (r: (Vec<Sample>, Vec<SampleAddResult>))
    requires
        is_sorted(left@),
        is_sorted(right@),
        is_sum(*sum),
    ensures
        r.0@ == merged(merge_steps(left@, right@, policy, *sum)),
        r.1@ == outcomes(merge_steps(left@, right@, policy, *sum)),
{
    let ghost whole = merge_steps(left@, right@, policy, *sum);
    let ghost mut steps = Seq::<MergeStep>::empty();
    let mut dest: Vec<Sample> = Vec::new();
    let mut results: Vec<SampleAddResult> = Vec::new();
    let mut last_told: Option<Timestamp> = None;
    let mut i: usize = 0;
    let mut j: usize = 0;
    proof {
        assert(left@.skip(0) =~= left@);
        assert(right@.skip(0) =~= right@);
        assert(steps + whole =~= whole);
        assert(merged(steps) =~= Seq::<Sample>::empty());
    }
    while i < left.len() || j < right.len()
        invariant
            i <= left@.len(),
            j <= right@.len(),
            is_sorted(left@),
            is_sorted(right@),
            is_sum(*sum),
            whole == steps + merge_steps(left@.skip(i as int), right@.skip(j as int), policy, *sum),
            dest@ == merged(steps),
            results@ == outcomes(steps),
            last_told is None ==> forall|ts: Timestamp| !#[trigger] told(steps, ts),
            last_told is Some ==> told(steps, last_told->0) && forall|ts: Timestamp| #[trigger]
                told(steps, ts) ==> ts <= last_told->0,
            last_told is Some && j < right@.len() ==> last_told->0 <= right@[j as int].timestamp,
        decreases left.len() - i + right.len() - j,
    {
        let ghost l = left@.skip(i as int);
        let ghost r = right@.skip(j as int);
        let ghost before = steps;
        let step: Sample;
        let mut outcome: Option<SampleAddResult> = None;
        let ghost made: MergeStep;
        let ghost tail: Seq<MergeStep>;
        if j >= right.len() || (i < left.len() && left[i].timestamp < right[j].timestamp) {
            step = left[i];
            proof {
                made = MergeStep::Kept(left@[i as int]);
                assert(l.skip(1) =~= left@.skip(i + 1));
                tail = merge_steps(l.skip(1), r, policy, *sum);
                if r.len() == 0 {
                    let f = |s: Sample| MergeStep::Kept(s);
                    assert(l.map_values(f) =~= seq![made] + l.skip(1).map_values(f));
                    if l.skip(1).len() == 0 {
                        assert(r.map_values(|s: Sample| MergeStep::Taken(s)) =~= l.skip(1).map_values(f));
                    }
                }
                assert(merge_steps(l, r, policy, *sum) == seq![made] + tail);
            }
            i += 1;
        } else if i >= left.len() || right[j].timestamp < left[i].timestamp {
            step = right[j];
            outcome = Some(SampleAddResult::Stored(right[j]));
            proof {
                made = MergeStep::Taken(right@[j as int]);
                assert(r.skip(1) =~= right@.skip(j + 1));
                tail = merge_steps(l, r.skip(1), policy, *sum);
                if l.len() == 0 {
                    let f = |s: Sample| MergeStep::Taken(s);
                    assert(r.map_values(f) =~= seq![made] + r.skip(1).map_values(f));
                }
                assert(merge_steps(l, r, policy, *sum) == seq![made] + tail);
            }
            j += 1;
        } else {
            let old: Sample = left[i];
            let new: Sample = right[j];
            match policy.duplicate_value(old.timestamp, old.value, new.value, sum) {
                Ok(value) => {
                    step = Sample { timestamp: old.timestamp, value };
                    outcome = Some(SampleAddResult::Stored(step));
                },
                Err(_) => {
                    step = old;
                    outcome = Some(SampleAddResult::Duplicate);
                },
            }
            proof {
                made = meet(old, new, policy, *sum);
                assert(l.skip(1) =~= left@.skip(i + 1));
                assert(r.skip(1) =~= right@.skip(j + 1));
                tail = merge_steps(l.skip(1), r.skip(1), policy, *sum);
                assert(merge_steps(l, r, policy, *sum) == seq![made] + tail);
            }
            i += 1;
            j += 1;
        }
        dest.push(step);
        proof {
            steps = before.push(made);
            assert(steps.drop_last() =~= before);
            assert(before + (seq![made] + tail) =~= steps + tail);
            assert(merged(steps) =~= merged(before).push(step));
            lemma_told_push(before, made);
        }
        if let Some(told_now) = outcome {
            let known: bool = match last_told {
                Some(ts) => ts == step.timestamp,
                None => false,
            };
            if !known {
                results.push(told_now);
                last_told = Some(step.timestamp);
            }
        }
    }
    proof {
        let none = merge_steps(left@.skip(i as int), right@.skip(j as int), policy, *sum);
        assert(none =~= Seq::<MergeStep>::empty());
        assert(steps + none =~= steps);
    }
    (dest, results)
}

proof fn lemma_told_push(steps: Seq<MergeStep>, m: MergeStep)
    ensures
        forall|ts: Timestamp| #[trigger]
            told(steps.push(m), ts) <==> told(steps, ts) || (m.outcome() is Some
                && m.sample().timestamp == ts),
{
    let all = steps.push(m);
    assert forall|ts: Timestamp| #[trigger] told(all, ts) <==> told(steps, ts) || (
    m.outcome() is Some && m.sample().timestamp == ts) by {
        if told(steps, ts) {
            let i = choose|i: int|
                0 <= i < steps.len() && (#[trigger] steps[i]).outcome() is Some
                    && steps[i].sample().timestamp == ts;
            assert(all[i] == steps[i]);
        }
        if m.outcome() is Some && m.sample().timestamp == ts {
            assert(all[steps.len() as int] == m);
        }
        if told(all, ts) {
            let i = choose|i: int|
                0 <= i < all.len() && (#[trigger] all[i]).outcome() is Some
                    && all[i].sample().timestamp == ts;
            if i < steps.len() {
                assert(steps[i] == all[i]);
            }
        }
    }
}

/// A merged run of sorted runs is sorted.
pub proof fn law_merge_sorted<F: Fn(u64, u64) -> u64>(
    left: Seq<Sample>,
    right: Seq<Sample>,
    policy: DuplicatePolicy,
    sum: F,
)
    requires
        is_sorted(left),
        is_sorted(right),
    ensures
        is_sorted(merged(merge_steps(left, right, policy, sum))),
{
    lemma_merge_floor(left, right, policy, sum, i64::MIN);
}

proof fn lemma_merge_floor<F: Fn(u64, u64) -> u64>(
    left: Seq<Sample>,
    right: Seq<Sample>,
    policy: DuplicatePolicy,
    sum: F,
    floor: Timestamp,
)
    requires
        is_sorted(left),
        is_sorted(right),
        left.len() > 0 ==> floor <= left[0].timestamp,
        right.len() > 0 ==> floor <= right[0].timestamp,
    ensures
        is_sorted(merged(merge_steps(left, right, policy, sum))),
        forall|i: int|
            0 <= i < merged(merge_steps(left, right, policy, sum)).len() ==> floor <= (
            #[trigger] merged(merge_steps(left, right, policy, sum))[i]).timestamp,
    decreases left.len() + right.len(),
{
    let steps = merge_steps(left, right, policy, sum);
    let all = merged(steps);
    if left.len() == 0 {
        assert(all =~= right);
    } else if right.len() == 0 {
        assert(all =~= left);
    } else {
        let (first, l, r) = if left[0].timestamp < right[0].timestamp {
            (MergeStep::Kept(left[0]), left.skip(1), right)
        } else if right[0].timestamp < left[0].timestamp {
            (MergeStep::Taken(right[0]), left, right.skip(1))
        } else {
            (meet(left[0], right[0], policy, sum), left.skip(1), right.skip(1))
        };
        let ts = first.sample().timestamp;
        lemma_merge_floor(l, r, policy, sum, ts);
        let rest = merged(merge_steps(l, r, policy, sum));
        assert(all =~= seq![first.sample()] + rest);
        assert forall|i: int, j: int| 0 <= i <= j < all.len() implies all[i].timestamp
            <= all[j].timestamp by {
            if i > 0 {
                assert(all[i] == rest[i - 1]);
            }
            if j > 0 {
                assert(all[j] == rest[j - 1]);
            }
        }
        assert forall|i: int| 0 <= i < all.len() implies floor <= (#[trigger] all[i]).timestamp by {
            if i > 0 {
                assert(all[i] == rest[i - 1]);
            }
        }
    }
}

} // verus!
