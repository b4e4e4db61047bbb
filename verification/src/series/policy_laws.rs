//! What a configuration of policies means for keys, and what its durations stand for.
use crate::regexp::{is_refused, regex_found};
use crate::series::digest::{label_items, sample_items, word_bytes, Item};
use crate::series::policy::{
    aggregation_title, duration_of, is_digit, is_policy_read, lemma_decimal, lemma_digit_count,
    lemma_split_behind, lemma_split_plain, policy_duration, policy_key, policy_of, unit_ms,
    AggregationType, CompactionPolicy, PolicyError,
};
use crate::series::policy_config::{
    configured, filter_at, group_at, grouped, is_entry_read, is_for, with_groups, with_policies,
    Config, Entry, FilterGroup, Group,
};
use crate::bytes::utf8;
use crate::labels::Label;
use crate::sample::Sample;
use crate::text::{decimal, is_blank, lemma_first_at, lemma_split_some, split_text};
use vstd::prelude::*;

verus! {

/// A policy with a filter is meant for the keys that the filter is found in; one without for all.
pub open spec fn is_meant(filter: Option<Seq<char>>, key: Seq<char>) -> bool {
    match filter {
        Some(f) => regex_found(f, key),
        None => true,
    }
}

/// No policy is for any key in an empty configuration.
pub proof fn law_no_policies(key: Seq<char>, p: CompactionPolicy)
    ensures
        !is_for(Config { filtered: Seq::empty(), global: Seq::empty() }, key, p),
{
}

/// After policies were added, those are for a key that were before, and those that were added and
/// are meant for it. They are refused only where one of them is there already with the same filter.
#[verifier::rlimit(40)]
pub proof fn law_policies_added(
    c: Config,
    policies: Seq<CompactionPolicy>,
    filter: Option<Seq<char>>,
    key: Seq<char>,
    p: CompactionPolicy,
)
    ensures
        match with_policies(c, policies, filter) {
            Ok(d) => is_for(d, key, p) <==> is_for(c, key, p) || (policies.contains(p) && is_meant(
                filter,
                key,
            )),
            Err(e) => {
                &&& e == PolicyError::DuplicatePolicy
                &&& exists|i: int, j: int|
                    {
                        &&& 0 <= i < c.filtered.len()
                        &&& 0 <= j < policies.len()
                        &&& filter == Some((#[trigger] c.filtered[i]).filter)
                        &&& c.filtered[i].policies.contains(#[trigger] policies[j])
                    }
            },
        },
{
    match filter {
        None => {
            let all = c.global + policies;
            assert(all.contains(p) <==> c.global.contains(p) || policies.contains(p)) by {
                if c.global.contains(p) {
                    let i = choose|i: int| 0 <= i < c.global.len() && c.global[i] == p;
                    assert(all[i] == p);
                }
                if policies.contains(p) {
                    let i = choose|i: int| 0 <= i < policies.len() && policies[i] == p;
                    assert(all[i + c.global.len()] == p);
                }
                if all.contains(p) {
                    let i = choose|i: int| 0 <= i < all.len() && all[i] == p;
                    if i < c.global.len() {
                        assert(c.global[i] == p);
                    } else {
                        assert(policies[i - c.global.len()] == p);
                    }
                }
            }
        },
        Some(f) => {
            let at = filter_at(c.filtered, f);
            lemma_first_filter(c.filtered, f);
            if let Ok(d) = with_policies(c, policies, filter) {
                let g = d.filtered[at];
                assert(g.filter == f);
                let old = if at < c.filtered.len() {
                    c.filtered[at].policies
                } else {
                    Seq::<CompactionPolicy>::empty()
                };
                assert(g.policies =~= old + policies);
                assert(g.policies.contains(p) <==> old.contains(p) || policies.contains(p)) by {
                    if old.contains(p) {
                        let i = choose|i: int| 0 <= i < old.len() && old[i] == p;
                        assert(g.policies[i] == p);
                    }
                    if policies.contains(p) {
                        let i = choose|i: int| 0 <= i < policies.len() && policies[i] == p;
                        assert(g.policies[i + old.len()] == p);
                    }
                    if g.policies.contains(p) {
                        let i = choose|i: int| 0 <= i < g.policies.len() && g.policies[i] == p;
                        if i < old.len() {
                            assert(old[i] == p);
                        } else {
                            assert(policies[i - old.len()] == p);
                        }
                    }
                }
                assert forall|i: int| 0 <= i < c.filtered.len() && i != at implies (
                #[trigger] d.filtered[i]) == c.filtered[i] by {}
                if is_for(c, key, p) && !c.global.contains(p) {
                    let i = choose|i: int|
                        0 <= i < c.filtered.len() && regex_found(
                            (#[trigger] c.filtered[i]).filter,
                            key,
                        ) && c.filtered[i].policies.contains(p);
                    assert(regex_found(d.filtered[i].filter, key) && d.filtered[i].policies.contains(
                        p,
                    ));
                }
                if policies.contains(p) && regex_found(f, key) {
                    assert(regex_found(d.filtered[at].filter, key)
                        && d.filtered[at].policies.contains(p));
                }
                if is_for(d, key, p) && !d.global.contains(p) {
                    let i = choose|i: int|
                        0 <= i < d.filtered.len() && regex_found(
                            (#[trigger] d.filtered[i]).filter,
                            key,
                        ) && d.filtered[i].policies.contains(p);
                    if i != at {
                        assert(c.filtered[i] == d.filtered[i]);
                    } else if old.contains(p) {
                        assert(c.filtered[at].policies.contains(p));
                    }
                }
            } else {
                let j = choose|j: int|
                    0 <= j < policies.len() && c.filtered[at].policies.contains(
                        #[trigger] policies[j],
                    );
                assert(filter == Some(c.filtered[at].filter));
                assert(c.filtered[at].policies.contains(policies[j]));
            }
        },
    }
}

proof fn lemma_first_filter(groups: Seq<FilterGroup>, filter: Seq<char>)
    ensures
        0 <= filter_at(groups, filter) <= groups.len(),
        filter_at(groups, filter) < groups.len() ==> groups[filter_at(groups, filter)].filter
            == filter,
    decreases groups.len(),
{
    if groups.len() > 0 && groups[0].filter != filter {
        lemma_first_filter(groups.skip(1), filter);
    }
}

proof fn lemma_first_group(groups: Seq<Group>, filter: Option<Seq<char>>)
    ensures
        0 <= group_at(groups, filter) <= groups.len(),
        group_at(groups, filter) < groups.len() ==> groups[group_at(groups, filter)].filter
            == filter,
    decreases groups.len(),
{
    if groups.len() > 0 && groups[0].filter != filter {
        lemma_first_group(groups.skip(1), filter);
    }
}

/// Some group has a policy with a filter.
pub open spec fn has_grouped(
    groups: Seq<Group>,
    filter: Option<Seq<char>>,
    p: CompactionPolicy,
) -> bool {
    exists|g: int|
        0 <= g < groups.len() && (#[trigger] groups[g]).filter == filter && groups[g].policies.contains(
            p,
        )
}

/// Putting policies with the same filter together keeps each with its filter, and makes up none.
pub proof fn law_policies_grouped(list: Seq<Entry>, filter: Option<Seq<char>>, p: CompactionPolicy)
    ensures
        has_grouped(grouped(list), filter, p) <==> exists|i: int|
            0 <= i < list.len() && (#[trigger] list[i]).policy == p && list[i].filter == filter,
    decreases list.len(),
{
    let now = grouped(list);
    if list.len() > 0 {
        let less = list.drop_last();
        let before = grouped(less);
        let e = list.last();
        let at = group_at(before, e.filter);
        law_policies_grouped(less, filter, p);
        lemma_first_group(before, e.filter);
        let old = if at < before.len() {
            before[at].policies
        } else {
            Seq::<CompactionPolicy>::empty()
        };
        assert(now[at].policies =~= old.push(e.policy));
        assert(now[at].policies.contains(p) <==> old.contains(p) || e.policy == p) by {
            if old.contains(p) {
                let i = choose|i: int| 0 <= i < old.len() && old[i] == p;
                assert(now[at].policies[i] == p);
            }
            assert(now[at].policies[old.len() as int] == e.policy);
            if now[at].policies.contains(p) {
                let i = choose|i: int|
                    0 <= i < now[at].policies.len() && now[at].policies[i] == p;
                if i < old.len() {
                    assert(old[i] == p);
                }
            }
        }
        assert(has_grouped(now, filter, p) <==> has_grouped(before, filter, p) || (e.policy == p
            && e.filter == filter)) by {
            if has_grouped(before, filter, p) {
                let g = choose|g: int|
                    0 <= g < before.len() && (#[trigger] before[g]).filter == filter
                        && before[g].policies.contains(p);
                if g != at {
                    assert(now[g] == before[g]);
                }
                assert(now[g].filter == filter && now[g].policies.contains(p));
            }
            if e.policy == p && e.filter == filter {
                assert(now[at].filter == filter && now[at].policies.contains(p));
            }
            if has_grouped(now, filter, p) {
                let g = choose|g: int|
                    0 <= g < now.len() && (#[trigger] now[g]).filter == filter
                        && now[g].policies.contains(p);
                if g != at {
                    assert(before[g] == now[g]);
                } else if old.contains(p) {
                    assert(before[at].filter == filter);
                }
            }
        }
        if exists|i: int|
            0 <= i < list.len() && (#[trigger] list[i]).policy == p && list[i].filter == filter {
            let i = choose|i: int|
                0 <= i < list.len() && (#[trigger] list[i]).policy == p && list[i].filter == filter;
            if i < less.len() {
                assert(less[i].policy == p && less[i].filter == filter);
            }
        }
        if exists|i: int|
            0 <= i < less.len() && (#[trigger] less[i]).policy == p && less[i].filter == filter {
            let i = choose|i: int|
                0 <= i < less.len() && (#[trigger] less[i]).policy == p && less[i].filter == filter;
            assert(list[i] == less[i]);
        }
        if e.policy == p && e.filter == filter {
            assert(list[list.len() - 1] == e);
        }
    }
}

/// Some group has a policy and is meant for a key.
pub open spec fn is_grouped_for(groups: Seq<Group>, key: Seq<char>, p: CompactionPolicy) -> bool {
    exists|g: int|
        0 <= g < groups.len() && is_meant((#[trigger] groups[g]).filter, key)
            && groups[g].policies.contains(p)
}

proof fn lemma_groups_added(
    c: Config,
    groups: Seq<Group>,
    taken: Seq<bool>,
    key: Seq<char>,
    p: CompactionPolicy,
)
    ensures
        with_groups(c, groups, taken).1 is None ==> (is_for(
            with_groups(c, groups, taken).0,
            key,
            p,
        ) <==> is_for(c, key, p) || is_grouped_for(groups, key, p)),
        is_for(c, key, p) ==> is_for(with_groups(c, groups, taken).0, key, p),
        is_for(with_groups(c, groups, taken).0, key, p) ==> is_for(c, key, p) || is_grouped_for(
            groups,
            key,
            p,
        ),
    decreases groups.len(),
{
    if groups.len() > 0 {
        let less = groups.drop_last();
        lemma_groups_added(c, less, taken, key, p);
        let d = with_groups(c, less, taken).0;
        let g = groups.last();
        law_policies_added(d, g.policies, g.filter, key, p);
        assert(is_grouped_for(groups, key, p) <==> is_grouped_for(less, key, p) || (is_meant(
            g.filter,
            key,
        ) && g.policies.contains(p))) by {
            if is_grouped_for(less, key, p) {
                let i = choose|i: int|
                    0 <= i < less.len() && is_meant((#[trigger] less[i]).filter, key)
                        && less[i].policies.contains(p);
                assert(groups[i] == less[i]);
            }
            if is_grouped_for(groups, key, p) {
                let i = choose|i: int|
                    0 <= i < groups.len() && is_meant((#[trigger] groups[i]).filter, key)
                        && groups[i].policies.contains(p);
                if i < less.len() {
                    assert(less[i] == groups[i]);
                }
            }
            assert(groups[groups.len() - 1] == g);
        }
    }
}

/// Some entry of a list has a policy and is meant for a key.
pub open spec fn is_listed_for(list: Seq<Entry>, key: Seq<char>, p: CompactionPolicy) -> bool {
    exists|i: int|
        0 <= i < list.len() && (#[trigger] list[i]).policy == p && is_meant(list[i].filter, key)
}

/// A text that is refused changes nothing. One that is taken puts its policies to those that were
/// there, or in their place: after it those are for a key that the text lists for it, and, unless
/// they were replaced, those from before.
pub proof fn law_configured(
    c: Config,
    parsed: Result<Seq<Entry>, PolicyError>,
    replace: bool,
    taken: Seq<bool>,
    key: Seq<char>,
    p: CompactionPolicy,
)
    ensures
        parsed matches Err(e) ==> configured(c, parsed, replace, taken) == (c, Some(e)),
        parsed matches Ok(list) ==> {
            let (d, error) = configured(c, parsed, replace, taken);
            &&& error is None ==> (is_for(d, key, p) <==> (!replace && is_for(c, key, p))
                || is_listed_for(list, key, p))
            &&& is_for(d, key, p) ==> (!replace && is_for(c, key, p)) || is_listed_for(list, key, p)
            &&& !replace && is_for(c, key, p) ==> is_for(d, key, p)
        },
{
    if let Ok(list) = parsed {
        let none = Config { filtered: Seq::empty(), global: Seq::empty() };
        let start = if replace {
            none
        } else {
            c
        };
        let groups = grouped(list);
        law_no_policies(key, p);
        lemma_groups_added(start, groups, taken, key, p);
        if is_listed_for(list, key, p) {
            let i = choose|i: int|
                0 <= i < list.len() && (#[trigger] list[i]).policy == p && is_meant(
                    list[i].filter,
                    key,
                );
            law_policies_grouped(list, list[i].filter, p);
            assert(has_grouped(groups, list[i].filter, p));
            let g = choose|g: int|
                0 <= g < groups.len() && (#[trigger] groups[g]).filter == list[i].filter
                    && groups[g].policies.contains(p);
            assert(is_meant(groups[g].filter, key));
        }
        if is_grouped_for(groups, key, p) {
            let g = choose|g: int|
                0 <= g < groups.len() && is_meant((#[trigger] groups[g]).filter, key)
                    && groups[g].policies.contains(p);
            law_policies_grouped(list, groups[g].filter, p);
            assert(has_grouped(groups, groups[g].filter, p));
        }
    }
}

/// The milliseconds of a number of units, where these are a timestamp.
pub open spec fn milliseconds(n: nat, unit: nat) -> Option<u64> {
    if n * unit <= i64::MAX {
        Some((n * unit) as u64)
    } else {
        None
    }
}

/// In a policy a number stands for milliseconds, alone or before `m` or `ms`; before `s`, `M`, `h`,
/// `d`, `w` and `y` it stands for seconds, minutes of 60 of them, hours of 60 minutes, days of 24
/// hours, weeks of 7 days and years of 365 days.
pub proof fn law_durations(n: nat)
    ensures
        policy_duration(decimal(n)) == milliseconds(n, 1),
        policy_duration(decimal(n) + seq!['m']) == milliseconds(n, 1),
        policy_duration(decimal(n) + seq!['m', 's']) == milliseconds(n, 1),
        policy_duration(decimal(n) + seq!['s']) == milliseconds(n, 1000),
        policy_duration(decimal(n) + seq!['M']) == milliseconds(n, 60 * 1000),
        policy_duration(decimal(n) + seq!['h']) == milliseconds(n, 60 * 60 * 1000),
        policy_duration(decimal(n) + seq!['d']) == milliseconds(n, 24 * 60 * 60 * 1000),
        policy_duration(decimal(n) + seq!['w']) == milliseconds(n, 7 * 24 * 60 * 60 * 1000),
        policy_duration(decimal(n) + seq!['y']) == milliseconds(n, 365 * 24 * 60 * 60 * 1000),
{
    let none = Seq::<char>::empty();
    lemma_decimal(n);
    lemma_united(n, none);
    lemma_united(n, seq!['m', 's']);
    lemma_united(n, seq!['s']);
    lemma_united(n, seq!['m']);
    lemma_united(n, seq!['h']);
    lemma_united(n, seq!['d']);
    lemma_united(n, seq!['w']);
    lemma_united(n, seq!['y']);
    assert(decimal(n) + none =~= decimal(n));
    let s = decimal(n);
    assert(is_digit(s[s.len() - 1]));
    assert((s + seq!['m']).drop_last() =~= s);
    assert((s + seq!['M']).drop_last() =~= s);
    assert(seq!['m', 's'][0] == 'm');
    assert(seq!['s'][0] == 's' && seq!['m'][0] == 'm' && seq!['h'][0] == 'h');
    assert(seq!['d'][0] == 'd' && seq!['w'][0] == 'w' && seq!['y'][0] == 'y');
    assert(seq!['m', 's'].len() == 2 && seq!['s'].len() == 1);
}

proof fn lemma_united(n: nat, unit: Seq<char>)
    requires
        unit.len() > 0 ==> !is_digit(unit[0]),
        unit_ms(unit) is Some,
    ensures
        duration_of(decimal(n) + unit) == milliseconds(n, unit_ms(unit)->0),
{
    lemma_decimal(n);
    let s = decimal(n) + unit;
    let k = decimal(n).len() as int;
    assert forall|i: int| 0 <= i < k implies is_digit(#[trigger] s[i]) by {
        assert(s[i] == decimal(n)[i]);
    }
    lemma_digit_count(s, k);
    assert(s.skip(k) =~= unit);
    assert(s.take(k) =~= decimal(n));
}

/// A policy is read from three or four parts, where the first names an aggregation and the others
/// are durations, the first of them not 0; it has what they say. Every refusal has its cause.
pub proof fn law_policy_parts(parts: Seq<Seq<char>>, kind: Option<AggregationType>)
    ensures
        policy_of(parts, kind) is Ok <==> {
            &&& parts.len() == 3 || parts.len() == 4
            &&& kind is Some
            &&& forall|i: int|
                1 <= i < parts.len() ==> policy_duration(#[trigger] parts[i]) is Some
            &&& policy_duration(parts[1]) != Some(0u64)
        },
        policy_of(parts, kind) matches Ok(p) ==> {
            &&& kind == Some(p.aggregator)
            &&& policy_duration(parts[1]) == Some(p.bucket_duration_ms)
            &&& policy_duration(parts[2]) == Some(p.retention_ms)
            &&& parts.len() == 3 ==> p.bucket_alignment == 0
            &&& parts.len() == 4 && p.bucket_alignment >= 0 ==> policy_duration(parts[3]) == Some(
                p.bucket_alignment as u64,
            )
        },
        policy_of(parts, kind) matches Err(e) ==> {
            &&& e == PolicyError::InvalidFormat <==> parts.len() < 3 || parts.len() > 4
            &&& e == PolicyError::UnknownAggregation ==> kind is None
            &&& e == PolicyError::InvalidBucketDuration ==> policy_duration(parts[1]) is None
            &&& e == PolicyError::ZeroBucketDuration ==> policy_duration(parts[1]) == Some(0u64)
            &&& e == PolicyError::InvalidRetention ==> policy_duration(parts[2]) is None
            &&& e == PolicyError::InvalidAlignment ==> parts.len() == 4 && policy_duration(parts[3])
                is None
            &&& e != PolicyError::EmptyFilter && e != PolicyError::InvalidFilter && e
                != PolicyError::EmptyPolicy && e != PolicyError::DuplicatePolicy
        },
{
    if (parts.len() == 3 || parts.len() == 4) && (forall|i: int|
        1 <= i < parts.len() ==> policy_duration(#[trigger] parts[i]) is Some) {
        assert(policy_duration(parts[1]) is Some);
        assert(policy_duration(parts[2]) is Some);
        if parts.len() == 4 {
            assert(policy_duration(parts[3]) is Some);
        }
    }
    if policy_of(parts, kind) is Ok {
        assert forall|i: int| 1 <= i < parts.len() implies policy_duration(
            #[trigger] parts[i],
        ) is Some by {
            assert(i == 1 || i == 2 || i == 3);
        }
        if parts.len() == 4 {
            let v = policy_duration(parts[3])->0;
            assert(v as i64 >= 0 ==> (v as i64) as u64 == v) by (bit_vector);
        }
    }
}

/// A text that is cut at a separator has the parts of the two pieces; a piece without one is one part.
pub proof fn law_split(a: Seq<char>, sep: char, b: Seq<char>)
    ensures
        split_text(a + seq![sep] + b, sep) == split_text(a, sep) + split_text(b, sep),
        (forall|i: int| 0 <= i < a.len() ==> #[trigger] a[i] != sep) ==> split_text(a, sep)
            == seq![a],
    decreases b.len(),
{
    let all = a + seq![sep] + b;
    if forall|i: int| 0 <= i < a.len() ==> #[trigger] a[i] != sep {
        lemma_split_plain(a, sep);
    }
    if b.len() == 0 {
        assert(all.drop_last() =~= a);
        assert(all.last() == sep);
        assert(split_text(all, sep) =~= split_text(a, sep) + split_text(b, sep));
    } else {
        let less = b.drop_last();
        law_split(a, sep, less);
        lemma_split_some(less, sep);
        assert(all.drop_last() =~= a + seq![sep] + less);
        assert(all.last() == b.last());
        let before = split_text(a, sep) + split_text(less, sep);
        assert(before.last() == split_text(less, sep).last());
        assert(split_text(all, sep) =~= split_text(a, sep) + split_text(b, sep));
    }
}

/// An entry of a configuration is a policy; what stands behind its first bar is the filter of the
/// policy, and must not be blank. Without a bar there is no filter.
pub proof fn law_entry_read(s: Seq<char>, r: Result<Entry, PolicyError>)
    requires
        is_entry_read(s, r),
    ensures
        !s.contains('|') ==> match r {
            Ok(e) => e.filter is None && is_policy_read(s, Ok::<CompactionPolicy, PolicyError>(e.policy)),
            Err(e) => is_policy_read(s, Err::<CompactionPolicy, PolicyError>(e)),
        },
        forall|before: Seq<char>, filter: Seq<char>|
            s == #[trigger] (before + seq!['|'] + filter) && !before.contains('|') ==> match r {
                Ok(e) => {
                    &&& e.filter == Some(filter)
                    &&& !is_blank(filter)
                    &&& is_policy_read(before, Ok::<CompactionPolicy, PolicyError>(e.policy))
                },
                Err(e) => {
                    ||| is_policy_read(before, Err::<CompactionPolicy, PolicyError>(e))
                    ||| e == PolicyError::EmptyFilter && is_blank(filter)
                    ||| e == PolicyError::InvalidFilter && is_refused(filter)
                },
            },
{
    if !s.contains('|') {
        assert forall|i: int| 0 <= i < s.len() implies s[i] != '|' by {
            assert(s.contains(s[i]));
        }
        lemma_first_at(s, '|', s.len() as int);
        assert(s.take(s.len() as int) =~= s);
    }
    assert forall|before: Seq<char>, filter: Seq<char>|
        s == #[trigger] (before + seq!['|'] + filter) && !before.contains('|') implies match r {
        Ok(e) => {
            &&& e.filter == Some(filter)
            &&& !is_blank(filter)
            &&& is_policy_read(before, Ok::<CompactionPolicy, PolicyError>(e.policy))
        },
        Err(e) => {
            ||| is_policy_read(before, Err::<CompactionPolicy, PolicyError>(e))
            ||| e == PolicyError::EmptyFilter && is_blank(filter)
            ||| e == PolicyError::InvalidFilter && is_refused(filter)
        },
    } by {
        let n = before.len() as int;
        assert forall|i: int| 0 <= i < n implies s[i] != '|' by {
            assert(s[i] == before[i]);
            assert(before.contains(before[i]));
        }
        assert(s[n] == '|');
        lemma_first_at(s, '|', n);
        assert(s.take(n) =~= before);
        assert(s.skip(n + 1) =~= filter);
    }
}

/// A text has no underscore.
spec fn is_plain(s: Seq<char>) -> bool {
    forall|i: int| 0 <= i < s.len() ==> #[trigger] s[i] != '_'
}

proof fn lemma_titles(a: AggregationType, b: AggregationType)
    ensures
        is_plain(aggregation_title(a)),
        aggregation_title(a) == aggregation_title(b) ==> a == b,
{
    reveal_strlit("AVG");
    reveal_strlit("COUNT");
    reveal_strlit("FIRST");
    reveal_strlit("LAST");
    reveal_strlit("MAX");
    reveal_strlit("MIN");
    reveal_strlit("RANGE");
    reveal_strlit("RATE");
    reveal_strlit("STD.P");
    reveal_strlit("STD.S");
    reveal_strlit("SUM");
    reveal_strlit("VAR.P");
    reveal_strlit("VAR.S");
    let x = aggregation_title(a);
    let y = aggregation_title(b);
    if x == y {
        assert(x.len() == y.len() && x[0] == y[0] && x[1] == y[1] && x[2] == y[2] && x[x.len() - 1]
            == y[y.len() - 1]);
    }
}

/// The parts of the key of a policy behind the key of its source.
spec fn key_parts(p: CompactionPolicy) -> Seq<Seq<char>> {
    if p.bucket_alignment > 0 {
        seq![
            aggregation_title(p.aggregator),
            decimal(p.bucket_duration_ms as nat),
            decimal(p.bucket_alignment as nat),
        ]
    } else {
        seq![aggregation_title(p.aggregator), decimal(p.bucket_duration_ms as nat)]
    }
}

proof fn lemma_key_parts(p: CompactionPolicy, key: Seq<char>)
    requires
        p.bucket_duration_ms > 0,
    ensures
        split_text(policy_key(p, key), '_') == split_text(key, '_') + key_parts(p),
{
    let title = aggregation_title(p.aggregator);
    let duration = decimal(p.bucket_duration_ms as nat);
    let alignment = decimal(p.bucket_alignment as nat);
    lemma_titles(p.aggregator, p.aggregator);
    lemma_decimal(p.bucket_duration_ms as nat);
    lemma_decimal(p.bucket_alignment as nat);
    lemma_split_behind(key, '_', title);
    let one = key + seq!['_'] + title;
    assert forall|i: int| 0 <= i < duration.len() implies #[trigger] duration[i] != '_' by {
        assert(is_digit(duration[i]));
    }
    lemma_split_behind(one, '_', duration);
    let two = one + seq!['_'] + duration;
    if p.bucket_alignment > 0 {
        assert forall|i: int| 0 <= i < alignment.len() implies #[trigger] alignment[i] != '_' by {
            assert(is_digit(alignment[i]));
        }
        lemma_split_behind(two, '_', alignment);
        assert(policy_key(p, key) =~= two + seq!['_'] + alignment);
    } else {
        assert(policy_key(p, key) =~= two);
    }
    assert(split_text(policy_key(p, key), '_') =~= split_text(key, '_') + key_parts(p));
}

/// Under one key two policies make the same key only where they aggregate in the same way, over
/// buckets that are as long and start at the same times.
pub proof fn law_policy_keys_apart(p: CompactionPolicy, q: CompactionPolicy, key: Seq<char>)
    requires
        p.bucket_duration_ms > 0,
        q.bucket_duration_ms > 0,
        policy_key(p, key) == policy_key(q, key),
    ensures
        p.aggregator == q.aggregator,
        p.bucket_duration_ms == q.bucket_duration_ms,
        p.bucket_alignment == q.bucket_alignment || (p.bucket_alignment <= 0 && q.bucket_alignment
            <= 0),
{
    lemma_key_parts(p, key);
    lemma_key_parts(q, key);
    let a = split_text(key, '_') + key_parts(p);
    let b = split_text(key, '_') + key_parts(q);
    let n = split_text(key, '_').len() as int;
    assert(a.len() == b.len());
    assert(a[n] == aggregation_title(p.aggregator));
    assert(b[n] == aggregation_title(q.aggregator));
    assert(a[n + 1] == decimal(p.bucket_duration_ms as nat));
    assert(b[n + 1] == decimal(q.bucket_duration_ms as nat));
    lemma_titles(p.aggregator, q.aggregator);
    lemma_decimal(p.bucket_duration_ms as nat);
    lemma_decimal(q.bucket_duration_ms as nat);
    if p.bucket_alignment > 0 {
        assert(a[n + 2] == decimal(p.bucket_alignment as nat));
        assert(b[n + 2] == decimal(q.bucket_alignment as nat));
        lemma_decimal(p.bucket_alignment as nat);
        lemma_decimal(q.bucket_alignment as nat);
    }
}

/// A sample adds its timestamp and behind it the bytes of its value, one sample after another.
pub proof fn law_sample_items(samples: Seq<Sample>)
    ensures
        sample_items(samples).len() == 2 * samples.len(),
        forall|i: int|
            0 <= i < samples.len() ==> sample_items(samples)[2 * i] == Item::Number(
                (#[trigger] samples[i]).timestamp,
            ),
        forall|i: int|
            0 <= i < samples.len() ==> sample_items(samples)[2 * i + 1] == Item::Text(
                word_bytes((#[trigger] samples[i]).value),
            ),
    decreases samples.len(),
{
    if samples.len() > 0 {
        let less = samples.drop_last();
        law_sample_items(less);
        assert forall|i: int| 0 <= i < samples.len() implies sample_items(samples)[2 * i]
            == Item::Number((#[trigger] samples[i]).timestamp) && sample_items(samples)[2 * i + 1]
            == Item::Text(word_bytes(samples[i].value)) by {
            if i < less.len() {
                assert(less[i] == samples[i]);
                assert(sample_items(samples)[2 * i] == sample_items(less)[2 * i]);
                assert(sample_items(samples)[2 * i + 1] == sample_items(less)[2 * i + 1]);
            }
        }
    }
}

/// The three items of a label, from one on.
pub open spec fn is_label_at(items: Seq<Item>, at: int, l: Label) -> bool {
    &&& items[at] == Item::Text(utf8(l.name@))
    &&& items[at + 1] == Item::Text(utf8("="@))
    &&& items[at + 2] == Item::Text(utf8(l.value@))
}

/// A label adds its name, a sign of equality and its value, one label after another.
pub proof fn law_label_items(labels: Seq<Label>)
    ensures
        label_items(labels).len() == 3 * labels.len(),
        forall|i: int|
            0 <= i < labels.len() ==> is_label_at(label_items(labels), 3 * i, #[trigger] labels[i]),
    decreases labels.len(),
{
    if labels.len() > 0 {
        let less = labels.drop_last();
        law_label_items(less);
        assert forall|i: int| 0 <= i < labels.len() implies is_label_at(
            label_items(labels),
            3 * i,
            #[trigger] labels[i],
        ) by {
            if i < less.len() {
                assert(less[i] == labels[i]);
                assert(is_label_at(label_items(less), 3 * i, less[i]));
                assert(label_items(labels)[3 * i] == label_items(less)[3 * i]);
                assert(label_items(labels)[3 * i + 1] == label_items(less)[3 * i + 1]);
                assert(label_items(labels)[3 * i + 2] == label_items(less)[3 * i + 2]);
            }
        }
    }
}

} // verus!
