//! Series by the value of a label.
use crate::aggregation::Aggregation;
use crate::bytes::{bytes_less, lex_less, utf8};
use crate::index::label_querier::{get_label, label_value};
use crate::labels::Label;
use crate::sample::Sample;
use crate::series::store::TimeSeries;
use crate::text::{push_text, text_of};
use crate::text_map::{empty_map, entries_of, number_under, put_number};
use vstd::prelude::*;

verus! {

/// The label that tells how a group was reduced.
pub const REDUCER_KEY: &'static str = "__reducer__";

/// The label that tells what a group was made of.
pub const SOURCE_KEY: &'static str = "__source__";

/// A series that a query is about.
pub struct MRangeSeriesMeta<'a, A> {
    pub series: &'a TimeSeries<A>,
    pub source_key: String,
    /// The value of the open bucket, where that is asked for.
    pub latest: Option<Sample>,
    /// The value of the label that series are grouped by.
    pub group_label_value: Option<String>,
}

/// The text of an optional string.
pub open spec fn text_opt(s: Option<String>) -> Option<Seq<char>> {
    match s {
        Some(t) => Some(t@),
        None => None,
    }
}

/// The values that series are grouped by.
pub open spec fn group_values<'a, A>(metas: Seq<MRangeSeriesMeta<'a, A>>) -> Seq<Option<Seq<char>>> {
    metas.map_values(|m: MRangeSeriesMeta<'a, A>| text_opt(m.group_label_value))
}

/// A series with the value that it is grouped by.
pub open spec fn same_but_group<'a, A>(
    a: MRangeSeriesMeta<'a, A>,
    b: MRangeSeriesMeta<'a, A>,
) -> bool {
    a.series == b.series && a.source_key == b.source_key && a.latest == b.latest
}

/// Looks up the value of the label that series are grouped by.
pub fn collect_group_label_values<'a, A: Aggregation>(
    metas: Vec<MRangeSeriesMeta<'a, A>>,
    group_label: &str,
) -> (r: Vec<MRangeSeriesMeta<'a, A>>)
    ensures
        r@.len() == metas@.len(),
        forall|i: int|
            0 <= i < r@.len() ==> same_but_group(#[trigger] r@[i], metas@[i]) && text_opt(
                r@[i].group_label_value,
            ) == label_value(metas@[i].series.labels@, group_label@),
{
    let ghost all = metas@;
    let mut rest: Vec<MRangeSeriesMeta<'a, A>> = metas;
    let mut out: Vec<MRangeSeriesMeta<'a, A>> = Vec::new();
    let ghost mut n: int = 0;
    assert(all.skip(0) =~= all);
    while rest.len() > 0
        invariant
            0 <= n <= all.len(),
            rest@ == all.skip(n),
            out@.len() == n,
            forall|i: int|
                0 <= i < n ==> same_but_group(#[trigger] out@[i], all[i]) && text_opt(
                    out@[i].group_label_value,
                ) == label_value(all[i].series.labels@, group_label@),
        decreases rest.len(),
    {
        let meta = rest.remove(0);
        proof {
            assert(meta == all[n]);
            assert(rest@ =~= all.skip(n + 1));
        }
        let value: Option<String> = match get_label(&meta.series.labels, group_label) {
            Some(label) => Some(label.value.as_str().to_owned()),
            None => None,
        };
        out.push(
            MRangeSeriesMeta {
                series: meta.series,
                source_key: meta.source_key,
                latest: meta.latest,
                group_label_value: value,
            },
        );
        proof {
            n = n + 1;
        }
    }
    out
}

/// A value, and the numbers of the series that have it.
pub type Group = (Seq<char>, Seq<int>);

/// Where the group of a value is, or the end.
pub open spec fn group_place(groups: Seq<Group>, value: Seq<char>) -> int
    decreases groups.len(),
{
    if groups.len() == 0 {
        0
    } else {
        let before = group_place(groups.drop_last(), value);
        if before < groups.len() - 1 || groups.last().0 == value {
            before
        } else {
            groups.len() as int
        }
    }
}

/// The groups of values, each where its value comes first. What has no value is in no group.
pub open spec fn grouped(values: Seq<Option<Seq<char>>>) -> Seq<Group>
    decreases values.len(),
{
    if values.len() == 0 {
        Seq::empty()
    } else {
        let done = grouped(values.drop_last());
        let n = values.len() - 1;
        match values.last() {
            None => done,
            Some(v) => {
                let at = group_place(done, v);
                if 0 <= at < done.len() {
                    done.update(at, (v, done[at].1.push(n)))
                } else {
                    done.push((v, seq![n]))
                }
            },
        }
    }
}

pub(crate) proof fn lemma_group_place(groups: Seq<Group>, value: Seq<char>)
    ensures
        0 <= group_place(groups, value) <= groups.len(),
        group_place(groups, value) < groups.len() ==> groups[group_place(groups, value)].0 == value,
        forall|k: int| 0 <= k < group_place(groups, value) ==> (#[trigger] groups[k]).0 != value,
    decreases groups.len(),
{
    if groups.len() > 0 {
        lemma_group_place(groups.drop_last(), value);
        let less = groups.drop_last();
        assert forall|k: int| 0 <= k < group_place(groups, value) implies (
        #[trigger] groups[k]).0 != value by {
            if k < less.len() {
                assert(less[k] == groups[k]);
            }
        }
    }
}

/// Every series is in the group of its value, once, and in no other.
pub proof fn law_groups(values: Seq<Option<Seq<char>>>)
    ensures
        forall|i: int, j: int|
            0 <= i < j < grouped(values).len() ==> (#[trigger] grouped(values)[i]).0 != (
            #[trigger] grouped(values)[j]).0,
        forall|g: int, k: int|
            0 <= g < grouped(values).len() && 0 <= k < grouped(values)[g].1.len() ==> 0 <= (
            #[trigger] grouped(values)[g].1[k]) < values.len() && values[grouped(values)[g].1[k]]
                == Some(grouped(values)[g].0),
        forall|n: int|
            0 <= n < values.len() && (#[trigger] values[n]) is Some ==> exists|g: int|
                0 <= g < grouped(values).len() && (#[trigger] grouped(values)[g]).0 == values[n]->0
                    && grouped(values)[g].1.contains(n),
    decreases values.len(),
{
    if values.len() > 0 {
        let less = values.drop_last();
        law_groups(less);
        let done = grouped(less);
        let out = grouped(values);
        let last = values.len() - 1;
        match values.last() {
            None => {
                assert forall|n: int|
                    0 <= n < values.len() && (#[trigger] values[n]) is Some implies exists|g: int|
                    0 <= g < out.len() && (#[trigger] out[g]).0 == values[n]->0
                        && out[g].1.contains(n) by {
                    assert(less[n] == values[n]);
                }
                assert forall|g: int, k: int|
                    0 <= g < out.len() && 0 <= k < out[g].1.len() implies 0 <= (
                #[trigger] out[g].1[k]) < values.len() && values[out[g].1[k]] == Some(out[g].0) by {
                    assert(0 <= done[g].1[k] < less.len());
                    assert(less[done[g].1[k]] == values[done[g].1[k]]);
                }
            },
            Some(v) => {
                let at = group_place(done, v);
                lemma_group_place(done, v);
                assert forall|i: int, j: int| 0 <= i < j < out.len() implies (
                #[trigger] out[i]).0 != (#[trigger] out[j]).0 by {
                    if j < done.len() {
                        assert(out[i].0 == done[i].0 && out[j].0 == done[j].0);
                    } else {
                        assert(out[i] == done[i]);
                    }
                }
                assert forall|g: int, k: int|
                    0 <= g < out.len() && 0 <= k < out[g].1.len() implies 0 <= (
                #[trigger] out[g].1[k]) < values.len() && values[out[g].1[k]] == Some(out[g].0) by {
                    if g < done.len() && k < done[g].1.len() {
                        assert(out[g].1[k] == done[g].1[k]);
                        assert(0 <= done[g].1[k] < less.len());
                        assert(less[done[g].1[k]] == values[done[g].1[k]]);
                    } else {
                        assert(out[g].1[k] == last);
                    }
                }
                assert forall|n: int|
                    0 <= n < values.len() && (#[trigger] values[n]) is Some implies exists|g: int|
                    0 <= g < out.len() && (#[trigger] out[g]).0 == values[n]->0
                        && out[g].1.contains(n) by {
                    if n < last {
                        assert(less[n] == values[n]);
                        let g = choose|g: int|
                            0 <= g < done.len() && (#[trigger] done[g]).0 == less[n]->0
                                && done[g].1.contains(n);
                        let k = choose|k: int| 0 <= k < done[g].1.len() && done[g].1[k] == n;
                        assert(out[g].1[k] == n);
                        assert(out[g].0 == done[g].0);
                    } else if at < done.len() {
                        assert(out[at].1[done[at].1.len() as int] == n);
                        assert(out[at].0 == v);
                    } else {
                        assert(out[done.len() as int].1[0] == n);
                        assert(out[done.len() as int].0 == v);
                    }
                }
            },
        }
    }
}

/// A text put among others that are in order.
pub open spec fn insert_text_sorted(s: Seq<Seq<char>>, x: Seq<char>) -> Seq<Seq<char>>
    decreases s.len(),
{
    if s.len() == 0 || !lex_less(utf8(x), utf8(s.last())) {
        s.push(x)
    } else {
        insert_text_sorted(s.drop_last(), x).push(s.last())
    }
}

/// Texts in order.
pub open spec fn texts_sorted(texts: Seq<Seq<char>>) -> Seq<Seq<char>>
    decreases texts.len(),
{
    if texts.len() == 0 {
        texts
    } else {
        insert_text_sorted(texts_sorted(texts.drop_last()), texts.last())
    }
}

/// The characters of texts.
pub open spec fn texts_of(texts: Seq<String>) -> Seq<Seq<char>> {
    texts.map_values(|t: String| t@)
}

proof fn lemma_insert_text_at(s: Seq<Seq<char>>, x: Seq<char>, pos: int)
    requires
        0 <= pos <= s.len(),
        forall|k: int| pos <= k < s.len() ==> lex_less(utf8(x), utf8(#[trigger] s[k])),
        pos > 0 ==> !lex_less(utf8(x), utf8(s[pos - 1])),
    ensures
        insert_text_sorted(s, x) == s.insert(pos, x),
    decreases s.len(),
{
    if pos == s.len() {
        assert(s.insert(pos, x) =~= s.push(x));
    } else {
        let less = s.drop_last();
        assert forall|k: int| pos <= k < less.len() implies lex_less(
            utf8(x),
            utf8(#[trigger] less[k]),
        ) by {
            assert(less[k] == s[k]);
        }
        lemma_insert_text_at(less, x, pos);
        assert(lex_less(utf8(x), utf8(s[s.len() - 1])));
        assert(s.insert(pos, x) =~= less.insert(pos, x).push(s.last()));
    }
}

/// Puts a text among others that are in order.
pub fn insert_sorted(texts: &mut Vec<String>, text: String)
    ensures
        texts_of(final(texts)@) == insert_text_sorted(texts_of(old(texts)@), text@),
{
    let ghost was = texts@;
    let ghost x = text@;
    let mut pos: usize = texts.len();
    while pos > 0 && bytes_less(text.as_str().as_bytes(), texts[pos - 1].as_str().as_bytes())
        invariant
            pos <= texts@.len(),
            x == text@,
            forall|k: int|
                pos <= k < texts@.len() ==> lex_less(utf8(x), utf8((#[trigger] texts@[k])@)),
        decreases pos,
    {
        pos -= 1;
    }
    texts.insert(pos, text);
    proof {
        assert forall|k: int| pos <= k < texts_of(was).len() implies lex_less(
            utf8(x),
            utf8(#[trigger] texts_of(was)[k]),
        ) by {
            assert(lex_less(utf8(x), utf8(was[k]@)));
        }
        lemma_insert_text_at(texts_of(was), x, pos as int);
        assert(texts_of(texts@) =~= texts_of(was).insert(pos as int, x));
    }
}

/// The series of a group, with what the answer tells of them.
pub struct GroupedSeriesData<'a, A> {
    pub value: String,
    pub series: Vec<MRangeSeriesMeta<'a, A>>,
    pub labels: Vec<Label>,
    pub source_keys: Vec<String>,
}

/// A group holds the series with these numbers, and names their keys in order.
pub open spec fn is_group<'a, A>(
    metas: Seq<MRangeSeriesMeta<'a, A>>,
    group: Group,
    data: GroupedSeriesData<'a, A>,
) -> bool {
    &&& data.value@ == group.0
    &&& data.series@.len() == group.1.len()
    &&& forall|k: int| 0 <= k < group.1.len() ==> 0 <= (#[trigger] group.1[k]) < metas.len()
    &&& forall|k: int|
        0 <= k < data.series@.len() ==> same_but_group(
            #[trigger] data.series@[k],
            metas[group.1[k]],
        )
    &&& texts_of(data.source_keys@) == texts_sorted(keys_of(metas, group.1))
}

/// The keys of the series with these numbers.
pub open spec fn keys_of<'a, A>(metas: Seq<MRangeSeriesMeta<'a, A>>, numbers: Seq<int>) -> Seq<
    Seq<char>,
> {
    numbers.map_values(|n: int| metas[n].source_key@)
}

/// The groups of series.
pub open spec fn are_groups<'a, A>(
    metas: Seq<MRangeSeriesMeta<'a, A>>,
    groups: Seq<Group>,
    data: Seq<GroupedSeriesData<'a, A>>,
) -> bool {
    &&& data.len() == groups.len()
    &&& forall|g: int| 0 <= g < data.len() ==> is_group(metas, groups[g], #[trigger] data[g])
}

/// The map tells where the group of each value is.
spec fn are_places(m: Map<Seq<char>, usize>, groups: Seq<Group>) -> bool {
    &&& forall|v: Seq<char>| #[trigger]
        m.contains_key(v) ==> m[v] < groups.len() && groups[m[v] as int].0 == v
    &&& forall|i: int| 0 <= i < groups.len() ==> m.contains_key((#[trigger] groups[i]).0)
    &&& forall|i: int, j: int|
        0 <= i < j < groups.len() ==> (#[trigger] groups[i]).0 != (#[trigger] groups[j]).0
}

/// Adds a series to a group.
fn add_member<'a, A: Aggregation>(
    data: GroupedSeriesData<'a, A>,
    meta: MRangeSeriesMeta<'a, A>,
    Ghost(metas): Ghost<Seq<MRangeSeriesMeta<'a, A>>>,
    Ghost(group): Ghost<Group>,
    Ghost(n): Ghost<int>,
) -> (r: GroupedSeriesData<'a, A>)
    requires
        is_group(metas, group, data),
        0 <= n < metas.len(),
        same_but_group(meta, metas[n]),
    ensures
        is_group(metas, (group.0, group.1.push(n)), r),
        r.labels == data.labels,
{
    let mut data = data;
    let ghost keys = keys_of(metas, group.1);
    let ghost was = data.series@;
    let key: String = meta.source_key.as_str().to_owned();
    insert_sorted(&mut data.source_keys, key);
    data.series.push(meta);
    proof {
        let more = group.1.push(n);
        let keys_now = keys_of(metas, more);
        assert(keys_now.drop_last() =~= keys);
        assert(keys_now.last() == metas[n].source_key@);
        assert forall|k: int| 0 <= k < data.series@.len() implies same_but_group(
            #[trigger] data.series@[k],
            metas[more[k]],
        ) by {
            if k < was.len() {
                assert(same_but_group(was[k], metas[group.1[k]]));
                assert(data.series@[k] == was[k]);
            }
        }
        assert forall|k: int| 0 <= k < more.len() implies 0 <= (#[trigger] more[k]) < metas.len() by {
            if k < group.1.len() {
                assert(more[k] == group.1[k]);
            }
        }
    }
    data
}

/// Puts series with the same value of a label together, and names their keys in order. A series
/// without the label is left out.
pub fn group_series<'a, A: Aggregation>(metas: Vec<MRangeSeriesMeta<'a, A>>) -> (r: Vec<
    GroupedSeriesData<'a, A>,
>)
    ensures
        are_groups(metas@, grouped(group_values(metas@)), r@),
        forall|g: int| 0 <= g < r@.len() ==> (#[trigger] r@[g]).labels@.len() == 0,
{
    let ghost all = metas@;
    let ghost values = group_values(all);
    let mut rest: Vec<MRangeSeriesMeta<'a, A>> = metas;
    let mut out: Vec<GroupedSeriesData<'a, A>> = Vec::new();
    let mut places = empty_map();
    let ghost mut n: int = 0;
    proof {
        assert(all.skip(0) =~= all);
        assert(values.take(0) =~= Seq::<Option<Seq<char>>>::empty());
    }
    while rest.len() > 0
        invariant
            0 <= n <= all.len(),
            rest@ == all.skip(n),
            values == group_values(all),
            are_places(entries_of(places), grouped(values.take(n))),
            are_groups(all, grouped(values.take(n)), out@),
            forall|g: int| 0 <= g < out@.len() ==> (#[trigger] out@[g]).labels@.len() == 0,
        decreases rest.len(),
    {
        let meta = rest.remove(0);
        let ghost done = grouped(values.take(n));
        let ghost now = grouped(values.take(n + 1));
        proof {
            assert(meta == all[n]);
            assert(rest@ =~= all.skip(n + 1));
            assert(values.take(n + 1).drop_last() =~= values.take(n));
            assert(values.take(n + 1).last() == text_opt(meta.group_label_value));
        }
        match meta.group_label_value {
            None => {},
            Some(value) => {
                let ghost v = value@;
                proof {
                    lemma_group_place(done, v);
                }
                let member = MRangeSeriesMeta {
                    series: meta.series,
                    source_key: meta.source_key,
                    latest: meta.latest,
                    group_label_value: None,
                };
                match number_under(&places, value.as_str()) {
                    Some(at) => {
                        proof {
                            assert(done[at as int].0 == v);
                            let p = group_place(done, v);
                            if p < at {
                                assert(done[p].0 != done[at as int].0);
                            }
                            assert(at == p);
                        }
                        let ghost was = out@;
                        assert(is_group(all, done[at as int], was[at as int]));
                        let data = out.remove(at);
                        let data = add_member(
                            data,
                            member,
                            Ghost(all),
                            Ghost(done[at as int]),
                            Ghost(n),
                        );
                        out.insert(at, data);
                        proof {
                            assert(out@ =~= was.update(at as int, data));
                            assert forall|g: int| 0 <= g < out@.len() implies is_group(
                                all,
                                now[g],
                                #[trigger] out@[g],
                            ) by {
                                assert(is_group(all, done[g], was[g]));
                            }
                            assert forall|i: int, j: int| 0 <= i < j < now.len() implies (
                            #[trigger] now[i]).0 != (#[trigger] now[j]).0 by {
                                assert(now[i].0 == done[i].0 && now[j].0 == done[j].0);
                            }
                            assert forall|i: int| 0 <= i < now.len() implies entries_of(
                                places,
                            ).contains_key((#[trigger] now[i]).0) by {
                                assert(entries_of(places).contains_key(done[i].0));
                            }
                            assert forall|t: Seq<char>| #[trigger] entries_of(places).contains_key(
                                t,
                            ) implies entries_of(places)[t] < now.len() && now[entries_of(
                                places,
                            )[t] as int].0 == t by {
                                assert(done[entries_of(places)[t] as int].0 == t);
                            }
                        }
                    },
                    None => {
                        proof {
                            let p = group_place(done, v);
                            if p < done.len() {
                                assert(entries_of(places).contains_key(done[p].0));
                            }
                        }
                        let ghost m0 = entries_of(places);
                        let ghost was = out@;
                        let at: usize = out.len();
                        put_number(&mut places, value.as_str().to_owned(), at);
                        let data = GroupedSeriesData {
                            value,
                            series: Vec::new(),
                            labels: Vec::new(),
                            source_keys: Vec::new(),
                        };
                        proof {
                            let none = Seq::<int>::empty();
                            assert(keys_of(all, none) =~= Seq::<Seq<char>>::empty());
                            assert(texts_of(data.source_keys@) =~= Seq::<Seq<char>>::empty());
                            assert(is_group(all, (v, none), data));
                            assert(none.push(n) =~= seq![n]);
                        }
                        let data = add_member(
                            data,
                            member,
                            Ghost(all),
                            Ghost((v, Seq::<int>::empty())),
                            Ghost(n),
                        );
                        out.push(data);
                        proof {
                            assert(now =~= done.push((v, seq![n])));
                            assert forall|g: int| 0 <= g < out@.len() implies is_group(
                                all,
                                now[g],
                                #[trigger] out@[g],
                            ) by {
                                if g < was.len() {
                                    assert(is_group(all, done[g], was[g]));
                                    assert(out@[g] == was[g]);
                                }
                            }
                            assert forall|i: int, j: int| 0 <= i < j < now.len() implies (
                            #[trigger] now[i]).0 != (#[trigger] now[j]).0 by {
                                assert(now[i] == done[i]);
                                assert(m0.contains_key(done[i].0));
                                if j < done.len() {
                                    assert(now[j] == done[j]);
                                }
                            }
                            assert forall|i: int| 0 <= i < now.len() implies entries_of(
                                places,
                            ).contains_key((#[trigger] now[i]).0) by {
                                if i < done.len() {
                                    assert(m0.contains_key(done[i].0));
                                }
                            }
                            assert forall|t: Seq<char>| #[trigger] entries_of(places).contains_key(
                                t,
                            ) implies entries_of(places)[t] < now.len() && now[entries_of(
                                places,
                            )[t] as int].0 == t by {
                                if t != v {
                                    assert(m0.contains_key(t));
                                    assert(done[m0[t] as int].0 == t);
                                }
                            }
                        }
                    },
                }
            },
        }
        proof {
            n = n + 1;
        }
    }
    assert(values.take(n) =~= values);
    out
}

/// Texts with commas in between.
pub open spec fn joined_texts(texts: Seq<Seq<char>>) -> Seq<char>
    decreases texts.len(),
{
    if texts.len() == 0 {
        Seq::empty()
    } else if texts.len() == 1 {
        texts[0]
    } else {
        joined_texts(texts.drop_last()).push(',') + texts.last()
    }
}

fn join_texts(texts: &Vec<String>) -> (r: String)
    ensures
        r@ == joined_texts(texts_of(texts@)),
{
    let ghost views = texts_of(texts@);
    let mut chars: Vec<char> = Vec::new();
    let mut i: usize = 0;
    assert(views.take(0) =~= Seq::<Seq<char>>::empty());
    while i < texts.len()
        invariant
            i <= texts@.len(),
            views == texts_of(texts@),
            chars@ == joined_texts(views.take(i as int)),
        decreases texts.len() - i,
    {
        let ghost before = chars@;
        assert(views.take(i + 1).drop_last() =~= views.take(i as int));
        assert(views.take(i + 1).last() == texts@[i as int]@);
        if i > 0 {
            chars.push(',');
        } else {
            assert(before =~= Seq::<char>::empty());
        }
        push_text(&mut chars, texts[i].as_str());
        proof {
            if i == 0 {
                assert(chars@ =~= views.take(1)[0]);
            }
        }
        i += 1;
    }
    assert(views.take(i as int) =~= views);
    text_of(chars.as_slice())
}

/// The name and the value of a label.
pub open spec fn label_of(l: Label) -> (Seq<char>, Seq<char>) {
    (l.name@, l.value@)
}

/// The names and the values of labels.
pub open spec fn labels_view(labels: Seq<Label>) -> Seq<(Seq<char>, Seq<char>)> {
    labels.map_values(|l: Label| label_of(l))
}

/// The labels of a group: the label that it is about, how it was reduced, and what it was made of.
pub open spec fn group_labels(
    name: Seq<char>,
    value: Seq<char>,
    reducer: Seq<char>,
    sources: Seq<Seq<char>>,
) -> Seq<(Seq<char>, Seq<char>)> {
    seq![(name, value), (REDUCER_KEY@, reducer), (SOURCE_KEY@, joined_texts(sources))]
}

/// The labels of a group.
pub fn build_mrange_grouped_labels(
    group_label_name: &str,
    group_label_value: &str,
    reducer_name: &str,
    source_identifiers: &Vec<String>,
) -> (r: Vec<Label>)
    ensures
        labels_view(r@) == group_labels(
            group_label_name@,
            group_label_value@,
            reducer_name@,
            texts_of(source_identifiers@),
        ),
{
    let sources = join_texts(source_identifiers);
    let mut out: Vec<Label> = Vec::new();
    out.push(Label::new(group_label_name, group_label_value));
    out.push(Label::new(REDUCER_KEY, reducer_name));
    out.push(Label::new(SOURCE_KEY, sources.as_str()));
    assert(labels_view(out@) =~= group_labels(
        group_label_name@,
        group_label_value@,
        reducer_name@,
        texts_of(source_identifiers@),
    ));
    out
}

/// Puts series with the same value of a label together, and labels each group where that is asked
/// for.
pub fn group_series_by_label<'a, A: Aggregation>(
    metas: Vec<MRangeSeriesMeta<'a, A>>,
    group_label: &str,
    reducer_name: &str,
    with_labels: bool,
) -> (r: Vec<GroupedSeriesData<'a, A>>)
    ensures
        are_groups(metas@, grouped(group_values(metas@)), r@),
        forall|g: int|
            0 <= g < r@.len() ==> labels_view((#[trigger] r@[g]).labels@) == if with_labels {
                group_labels(
                    group_label@,
                    r@[g].value@,
                    reducer_name@,
                    texts_of(r@[g].source_keys@),
                )
            } else {
                Seq::empty()
            },
{
    let ghost all = metas@;
    let groups = group_series(metas);
    let ghost data = groups@;
    let mut rest: Vec<GroupedSeriesData<'a, A>> = groups;
    let mut out: Vec<GroupedSeriesData<'a, A>> = Vec::new();
    let ghost mut n: int = 0;
    assert(data.skip(0) =~= data);
    while rest.len() > 0
        invariant
            0 <= n <= data.len(),
            rest@ == data.skip(n),
            out@.len() == n,
            are_groups(all, grouped(group_values(all)), data),
            forall|g: int| 0 <= g < data.len() ==> (#[trigger] data[g]).labels@.len() == 0,
            forall|g: int|
                0 <= g < n ==> is_group(all, grouped(group_values(all))[g], #[trigger] out@[g]),
            forall|g: int|
                0 <= g < n ==> labels_view((#[trigger] out@[g]).labels@) == if with_labels {
                    group_labels(
                        group_label@,
                        out@[g].value@,
                        reducer_name@,
                        texts_of(out@[g].source_keys@),
                    )
                } else {
                    Seq::empty()
                },
        decreases rest.len(),
    {
        let mut group = rest.remove(0);
        proof {
            assert(group == data[n]);
            assert(rest@ =~= data.skip(n + 1));
            assert(is_group(all, grouped(group_values(all))[n], data[n]));
            assert(labels_view(group.labels@) =~= Seq::<(Seq<char>, Seq<char>)>::empty());
        }
        if with_labels {
            group.labels = build_mrange_grouped_labels(
                group_label,
                group.value.as_str(),
                reducer_name,
                &group.source_keys,
            );
        }
        out.push(group);
        proof {
            n = n + 1;
        }
    }
    out
}

/// The labels that the answer tells of a series: none, all, or chosen ones, which are empty where
/// the series does not have them.
pub open spec fn told_labels(
    labels: Seq<Label>,
    with_labels: bool,
    selected: Seq<String>,
) -> Seq<(Seq<char>, Seq<char>)> {
    if selected.len() == 0 {
        if with_labels {
            labels_view(labels)
        } else {
            Seq::empty()
        }
    } else {
        selected.map_values(
            |name: String|
                (
                    name@,
                    match label_value(labels, name@) {
                        Some(v) => v,
                        None => Seq::empty(),
                    },
                ),
        )
    }
}

/// The labels that the answer tells of a series.
pub fn convert_labels(labels: &Vec<Label>, with_labels: bool, selected_labels: &Vec<String>) -> (r:
    Vec<Label>)
    ensures
        labels_view(r@) == told_labels(labels@, with_labels, selected_labels@),
{
    let mut out: Vec<Label> = Vec::new();
    if !with_labels && selected_labels.len() == 0 {
        assert(labels_view(out@) =~= Seq::<(Seq<char>, Seq<char>)>::empty());
        return out;
    }
    if selected_labels.len() == 0 {
        let mut i: usize = 0;
        while i < labels.len()
            invariant
                i <= labels@.len(),
                out@.len() == i,
                forall|k: int| 0 <= k < i ==> label_of(#[trigger] out@[k]) == label_of(labels@[k]),
            decreases labels.len() - i,
        {
            out.push(Label::new(labels[i].name.as_str(), labels[i].value.as_str()));
            i += 1;
        }
        assert(labels_view(out@) =~= labels_view(labels@));
        return out;
    }
    let mut i: usize = 0;
    while i < selected_labels.len()
        invariant
            i <= selected_labels@.len(),
            out@.len() == i,
            forall|k: int|
                0 <= k < i ==> label_of(#[trigger] out@[k]) == (
                    selected_labels@[k]@,
                    match label_value(labels@, selected_labels@[k]@) {
                        Some(v) => v,
                        None => Seq::empty(),
                    },
                ),
        decreases selected_labels.len() - i,
    {
        let name = &selected_labels[i];
        match get_label(labels, name.as_str()) {
            Some(label) => {
                out.push(Label::new(name.as_str(), label.value.as_str()));
            },
            None => {
                proof {
                    reveal_strlit("");
                }
                let empty = Label::new(name.as_str(), "");
                assert(empty.value@ =~= Seq::<char>::empty());
                out.push(empty);
            },
        }
        i += 1;
    }
    assert(labels_view(out@) =~= told_labels(labels@, with_labels, selected_labels@));
    out
}

} // verus!
