//! Label names and values of chosen series, and of all.
use crate::bytes::utf8;
use crate::error::TsdbError;
use crate::index::label_filter::FuzzyFilter;
use crate::index::label_scan::{
    collect_unscoped_label_values, get_label_cardinality, label_size, names_taken, values_taken,
};
use crate::index::label_search::{
    apply_search_hints, at_most, best_of, found, lemma_place_of_value, limit_of, place_of_value, scored,
    Found, LabelQueryResult, LabelSearchResult, SearchHints, SearchResultOrdering,
    SEARCH_RESULT_LIMIT_MAX,
};
use crate::index::label_top::collect_unscoped_label_names;
use crate::labels::Label;
use crate::postings::label_index::TermMap;
use crate::postings::Postings;
use crate::text::text_equal;
use crate::text_map::{empty_map, entries_of, number_under, put_number, TextMap};
use vstd::prelude::*;

verus! {

/// The label that holds the name of a metric.
pub const METRIC_NAME_LABEL: &'static str = "__name__";

/// The labels of all series, one series after another.
pub open spec fn labels_of(series: Seq<Vec<Label>>) -> Seq<Label>
    decreases series.len(),
{
    if series.len() == 0 {
        Seq::empty()
    } else {
        labels_of(series.drop_last()) + series.last()@
    }
}

/// The names of labels, each where it comes first.
pub open spec fn distinct_names(labels: Seq<Label>) -> Seq<Seq<char>>
    decreases labels.len(),
{
    if labels.len() == 0 {
        Seq::empty()
    } else {
        let done = distinct_names(labels.drop_last());
        if done.contains(labels.last().name@) {
            done
        } else {
            done.push(labels.last().name@)
        }
    }
}

/// The names that a filter takes, as results. Where cardinalities are asked for, a name that the
/// index has nothing under is left out.
pub open spec fn scoped_names<F: FuzzyFilter>(
    terms: TermMap,
    names: Seq<Seq<char>>,
    counts: bool,
    filter: F,
) -> Seq<Found>
    decreases names.len(),
{
    if names.len() == 0 {
        Seq::empty()
    } else {
        let done = scoped_names(terms, names.drop_last(), counts, filter);
        let name = names.last();
        let cardinality = if counts {
            label_size(terms, utf8(name))
        } else {
            0
        };
        if filter.verdict(name).0 && (counts ==> cardinality != 0) {
            done.push(Found { value: name, score: filter.verdict(name).1, cardinality })
        } else {
            done
        }
    }
}

/// The names that were seen are those of a list.
spec fn are_seen(m: Map<Seq<char>, usize>, names: Seq<Seq<char>>) -> bool {
    forall|t: Seq<char>| #[trigger] m.contains_key(t) == names.contains(t)
}

/// Looks at one label of a series.
fn see_label<F: FuzzyFilter>(
    postings: &Postings,
    label: &Label,
    counts: bool,
    filter: &F,
    seen: &mut TextMap,
    out: &mut Vec<LabelSearchResult>,
    Ghost(labels): Ghost<Seq<Label>>,
)
    requires
        postings.wf(),
        are_seen(entries_of(*old(seen)), distinct_names(labels)),
        found(old(out)@) == scoped_names(
            postings.live_terms(),
            distinct_names(labels),
            counts,
            *filter,
        ),
        scored(found(old(out)@)),
    ensures
        are_seen(entries_of(*final(seen)), distinct_names(labels.push(*label))),
        found(final(out)@) == scoped_names(
            postings.live_terms(),
            distinct_names(labels.push(*label)),
            counts,
            *filter,
        ),
        scored(found(final(out)@)),
{
    let ghost names = distinct_names(labels);
    let ghost more = labels.push(*label);
    proof {
        assert(more.drop_last() =~= labels);
    }
    if number_under(seen, label.name.as_str()).is_some() {
        return;
    }
    put_number(seen, label.name.as_str().to_owned(), 0);
    proof {
        let now = names.push(label.name@);
        assert(distinct_names(more) == now);
        assert(now.drop_last() =~= names);
        assert forall|t: Seq<char>| #[trigger] entries_of(*seen).contains_key(t) == now.contains(
            t,
        ) by {
            assert(entries_of(*old(seen)).contains_key(t) == names.contains(t));
            if names.contains(t) {
                let k = choose|k: int| 0 <= k < names.len() && names[k] == t;
                assert(now[k] == t);
            }
            if now.contains(t) {
                let k = choose|k: int| 0 <= k < now.len() && now[k] == t;
                if k < names.len() {
                    assert(names[k] == t);
                }
            }
            assert(now[names.len() as int] == label.name@);
        }
    }
    let (accepted, score) = filter.accept(label.name.as_str());
    if accepted {
        let cardinality: u64 = if counts {
            get_label_cardinality(postings, label.name.as_str())
        } else {
            0
        };
        if !counts || cardinality != 0 {
            let ghost was = out@;
            let item = LabelSearchResult {
                value: label.name.as_str().to_owned(),
                score,
                cardinality,
            };
            let ghost x = item@;
            out.push(item);
            assert(found(out@) =~= found(was).push(x));
        }
    }
}

/// The label names of some series that hints ask for.
pub fn collect_scoped_label_names<F: FuzzyFilter>(
    postings: &Postings,
    series: &Vec<Vec<Label>>,
    hints: &SearchHints,
    filter: &F,
) -> (r: LabelQueryResult)
    requires
        postings.wf(),
    ensures
        ({
            let all = scoped_names(
                postings.live_terms(),
                distinct_names(labels_of(series@)),
                hints.counts(),
                *filter,
            );
            &&& found(r.results@) == best_of(hints.order_by, all, limit_of(hints.limit) as nat)
            &&& r.has_more == (all.len() > limit_of(hints.limit))
        }),
{
    let counts: bool = hints.need_cardinality();
    let mut seen = empty_map();
    let mut out: Vec<LabelSearchResult> = Vec::new();
    let mut i: usize = 0;
    assert(series@.take(0) =~= Seq::<Vec<Label>>::empty());
    assert(found(out@) =~= Seq::<Found>::empty());
    while i < series.len()
        invariant
            i <= series@.len(),
            postings.wf(),
            are_seen(entries_of(seen), distinct_names(labels_of(series@.take(i as int)))),
            found(out@) == scoped_names(
                postings.live_terms(),
                distinct_names(labels_of(series@.take(i as int))),
                counts,
                *filter,
            ),
            scored(found(out@)),
        decreases series.len() - i,
    {
        let ghost before = labels_of(series@.take(i as int));
        let labels = &series[i];
        let mut j: usize = 0;
        assert(before + labels@.take(0) =~= before);
        while j < labels.len()
            invariant
                j <= labels@.len(),
                postings.wf(),
                are_seen(entries_of(seen), distinct_names(before + labels@.take(j as int))),
                found(out@) == scoped_names(
                    postings.live_terms(),
                    distinct_names(before + labels@.take(j as int)),
                    counts,
                    *filter,
                ),
                scored(found(out@)),
            decreases labels.len() - j,
        {
            see_label(
                postings,
                &labels[j],
                counts,
                filter,
                &mut seen,
                &mut out,
                Ghost(before + labels@.take(j as int)),
            );
            assert((before + labels@.take(j as int)).push(labels@[j as int]) =~= before
                + labels@.take(j + 1));
            j += 1;
        }
        proof {
            assert(labels@.take(j as int) =~= labels@);
            assert(series@.take(i + 1).drop_last() =~= series@.take(i as int));
        }
        i += 1;
    }
    assert(series@.take(i as int) =~= series@);
    assert(found(out@).len() == out@.len());
    apply_search_hints(out, hints)
}

/// The value of a label, where there is one with the name.
pub open spec fn label_value(labels: Seq<Label>, name: Seq<char>) -> Option<Seq<char>>
    decreases labels.len(),
{
    if labels.len() == 0 {
        None
    } else if labels[0].name@ == name {
        Some(labels[0].value@)
    } else {
        label_value(labels.skip(1), name)
    }
}

/// The value of a label, where there is one with the name.
pub fn get_label<'a>(labels: &'a Vec<Label>, name: &str) -> (r: Option<&'a Label>)
    ensures
        match r {
            Some(l) => label_value(labels@, name@) == Some(l.value@) && l.name@ == name@,
            None => label_value(labels@, name@) is None,
        },
{
    let mut i: usize = 0;
    assert(labels@.skip(0) =~= labels@);
    while i < labels.len()
        invariant
            i <= labels@.len(),
            label_value(labels@, name@) == label_value(labels@.skip(i as int), name@),
        decreases labels.len() - i,
    {
        if text_equal(labels[i].name.as_str(), name) {
            return Some(&labels[i]);
        }
        assert(labels@.skip(i as int).skip(1) =~= labels@.skip(i + 1));
        i += 1;
    }
    None
}

/// The values that some series have for a label, as results. Where cardinalities are asked for,
/// each tells how many of the series have it.
pub open spec fn scoped_values<F: FuzzyFilter>(
    series: Seq<Vec<Label>>,
    name: Seq<char>,
    counts: bool,
    filter: F,
) -> Seq<Found>
    decreases series.len(),
{
    if series.len() == 0 {
        Seq::empty()
    } else {
        let done = scoped_values(series.drop_last(), name, counts, filter);
        match label_value(series.last()@, name) {
            None => done,
            Some(value) => {
                let at = place_of_value(done, value);
                if !filter.verdict(value).0 {
                    done
                } else if 0 <= at < done.len() {
                    if counts {
                        done.update(
                            at,
                            Found { cardinality: (done[at].cardinality + 1) as u64, ..done[at] },
                        )
                    } else {
                        done
                    }
                } else {
                    done.push(
                        Found {
                            value,
                            score: filter.verdict(value).1,
                            cardinality: if counts {
                                1
                            } else {
                                0
                            },
                        },
                    )
                }
            },
        }
    }
}

/// The map tells where each value that was taken is.
spec fn are_places(m: Map<Seq<char>, usize>, items: Seq<Found>) -> bool {
    &&& forall|v: Seq<char>| #[trigger]
        m.contains_key(v) ==> m[v] < items.len() && items[m[v] as int].value == v
    &&& forall|i: int| 0 <= i < items.len() ==> m.contains_key((#[trigger] items[i]).value)
    &&& forall|i: int, j: int|
        0 <= i < j < items.len() ==> (#[trigger] items[i]).value != (#[trigger] items[j]).value
}

/// Looks at the labels of one series.
fn see_value<F: FuzzyFilter>(
    labels: &Vec<Label>,
    name: &str,
    counts: bool,
    filter: &F,
    places: &mut TextMap,
    out: &mut Vec<LabelSearchResult>,
    Ghost(series): Ghost<Seq<Vec<Label>>>,
)
    requires
        series.len() < u64::MAX,
        are_places(entries_of(*old(places)), found(old(out)@)),
        found(old(out)@) == scoped_values(series, name@, counts, *filter),
        scored(found(old(out)@)),
        forall|i: int| 0 <= i < old(out)@.len() ==> (#[trigger] old(out)@[i]).cardinality <= series.len(),
    ensures
        are_places(entries_of(*final(places)), found(final(out)@)),
        found(final(out)@) == scoped_values(series.push(*labels), name@, counts, *filter),
        scored(found(final(out)@)),
        forall|i: int|
            0 <= i < final(out)@.len() ==> (#[trigger] final(out)@[i]).cardinality <= series.len() + 1,
{
    let ghost was = found(out@);
    proof {
        assert(series.push(*labels).drop_last() =~= series);
    }
    match get_label(labels, name) {
        None => {},
        Some(label) => {
            let ghost v = label.value@;
            proof {
                lemma_place_of_value(was, v);
            }
            match number_under(places, label.value.as_str()) {
                Some(at) => {
                    assert(was[at as int].value == v);
                    assert(at == place_of_value(was, v)) by {
                        let p = place_of_value(was, v);
                        if p < at {
                            assert(was[p].value != was[at as int].value);
                        }
                    }
                    proof {
                        lemma_taken(series, name@, counts, *filter, at as int);
                    }
                    if counts {
                        assert(out@[at as int].cardinality <= series.len());
                        let item = LabelSearchResult {
                            value: label.value.as_str().to_owned(),
                            score: out[at].score,
                            cardinality: out[at].cardinality + 1,
                        };
                        let ghost x = item@;
                        out.set(at, item);
                        proof {
                            let now = found(out@);
                            assert(now =~= was.update(at as int, x));
                            assert forall|i: int, j: int| 0 <= i < j < now.len() implies (
                            #[trigger] now[i]).value != (#[trigger] now[j]).value by {
                                assert(now[i].value == was[i].value);
                                assert(now[j].value == was[j].value);
                            }
                            assert forall|i: int| 0 <= i < now.len() implies entries_of(
                                *places,
                            ).contains_key((#[trigger] now[i]).value) by {
                                assert(entries_of(*places).contains_key(was[i].value));
                            }
                            assert forall|t: Seq<char>| #[trigger] entries_of(
                                *places,
                            ).contains_key(t) implies entries_of(*places)[t] < now.len()
                                && now[entries_of(*places)[t] as int].value == t by {
                                assert(was[entries_of(*places)[t] as int].value == t);
                            }
                        }
                    }
                },
                None => {
                    proof {
                        let p = place_of_value(was, v);
                        if p < was.len() {
                            assert(entries_of(*places).contains_key(was[p].value));
                        }
                    }
                    let (accepted, score) = filter.accept(label.value.as_str());
                    if accepted {
                        let n: usize = out.len();
                        put_number(places, label.value.as_str().to_owned(), n);
                        let item = LabelSearchResult {
                            value: label.value.as_str().to_owned(),
                            score,
                            cardinality: if counts {
                                1
                            } else {
                                0
                            },
                        };
                        let ghost x = item@;
                        out.push(item);
                        proof {
                            let now = found(out@);
                            assert(now =~= was.push(x));
                            assert forall|i: int, j: int| 0 <= i < j < now.len() implies (
                            #[trigger] now[i]).value != (#[trigger] now[j]).value by {
                                assert(now[i] == was[i]);
                                assert(entries_of(*old(places)).contains_key(was[i].value));
                                if j < was.len() {
                                    assert(now[j] == was[j]);
                                }
                            }
                            assert forall|i: int| 0 <= i < now.len() implies entries_of(
                                *places,
                            ).contains_key((#[trigger] now[i]).value) by {
                                if i < was.len() {
                                    assert(entries_of(*old(places)).contains_key(was[i].value));
                                }
                            }
                            assert forall|t: Seq<char>| #[trigger] entries_of(
                                *places,
                            ).contains_key(t) implies entries_of(*places)[t] < now.len()
                                && now[entries_of(*places)[t] as int].value == t by {
                                if t != v {
                                    assert(entries_of(*old(places)).contains_key(t));
                                    assert(was[entries_of(*old(places))[t] as int].value == t);
                                }
                            }
                        }
                    }
                },
            }
        },
    }
}

/// Every value among the results is one that the filter takes.
proof fn lemma_taken<F: FuzzyFilter>(
    series: Seq<Vec<Label>>,
    name: Seq<char>,
    counts: bool,
    filter: F,
    at: int,
)
    requires
        0 <= at < scoped_values(series, name, counts, filter).len(),
    ensures
        filter.verdict(scoped_values(series, name, counts, filter)[at].value).0,
    decreases series.len(),
{
    if series.len() > 0 {
        let done = scoped_values(series.drop_last(), name, counts, filter);
        if at < done.len() {
            lemma_taken(series.drop_last(), name, counts, filter, at);
        }
    }
}

/// The values that some series have for a label, as far as hints ask for them.
pub fn collect_scoped_label_values<F: FuzzyFilter>(
    series: &Vec<Vec<Label>>,
    label_name: &str,
    hints: &SearchHints,
    filter: &F,
) -> (r: LabelQueryResult)
    ensures
        ({
            let all = scoped_values(series@, label_name@, hints.counts(), *filter);
            &&& found(r.results@) == best_of(hints.order_by, all, limit_of(hints.limit) as nat)
            &&& r.has_more == (all.len() > limit_of(hints.limit))
        }),
{
    let counts: bool = hints.need_cardinality();
    let mut places = empty_map();
    let mut out: Vec<LabelSearchResult> = Vec::new();
    let n: usize = series.len();
    let mut i: usize = 0;
    assert(series@.take(0) =~= Seq::<Vec<Label>>::empty());
    assert(found(out@) =~= Seq::<Found>::empty());
    while i < n
        invariant
            i <= n,
            n == series@.len(),
            are_places(entries_of(places), found(out@)),
            found(out@) == scoped_values(series@.take(i as int), label_name@, counts, *filter),
            scored(found(out@)),
            forall|k: int| 0 <= k < out@.len() ==> (#[trigger] out@[k]).cardinality <= i,
        decreases n - i,
    {
        see_value(
            &series[i],
            label_name,
            counts,
            filter,
            &mut places,
            &mut out,
            Ghost(series@.take(i as int)),
        );
        assert(series@.take(i as int).push(series@[i as int]) =~= series@.take(i + 1));
        i += 1;
    }
    assert(series@.take(i as int) =~= series@);
    assert(found(out@).len() == out@.len());
    apply_search_hints(out, hints)
}

/// The label names that hints ask for: of the series that were chosen, or of all where none were.
pub open spec fn is_names_answer<F: FuzzyFilter>(
    terms: TermMap,
    series: Option<Seq<Vec<Label>>>,
    hints: SearchHints,
    filter: F,
    r: LabelQueryResult,
) -> bool {
    match series {
        None => {
            let all = names_taken(terms, filter);
            &&& found(r.results@) == match hints.order_by {
                SearchResultOrdering::ValueAsc => at_most(all, hints.limit as nat),
                SearchResultOrdering::ValueDesc => at_most(all.reverse(), hints.limit as nat),
                _ => best_of(
                    hints.order_by,
                    at_most(all, SEARCH_RESULT_LIMIT_MAX as nat),
                    limit_of(hints.limit) as nat,
                ),
            }
            &&& r.has_more == (all.len() > found(r.results@).len())
        },
        Some(series) => {
            let all = scoped_names(
                terms,
                distinct_names(labels_of(series)),
                hints.counts(),
                filter,
            );
            &&& found(r.results@) == best_of(hints.order_by, all, limit_of(hints.limit) as nat)
            &&& r.has_more == (all.len() > limit_of(hints.limit))
        },
    }
}

/// The values of a label that hints ask for: of the series that were chosen, or of all where none
/// were.
pub open spec fn is_values_answer<F: FuzzyFilter>(
    terms: TermMap,
    name: Seq<char>,
    series: Option<Seq<Vec<Label>>>,
    hints: SearchHints,
    filter: F,
    r: LabelQueryResult,
) -> bool {
    if name.len() == 0 {
        r.results@.len() == 0 && !r.has_more
    } else {
        match series {
            None => {
                let all = values_taken(terms, utf8(name), filter);
                let most = limit_of(hints.limit) as nat;
                &&& found(r.results@) == match hints.order_by {
                    SearchResultOrdering::ValueAsc => at_most(all, most),
                    SearchResultOrdering::ValueDesc => at_most(all.reverse(), most),
                    _ => best_of(hints.order_by, all, most),
                }
                &&& r.has_more == (all.len() > most)
            },
            Some(series) => {
                let all = scoped_values(series, name, hints.counts(), filter);
                &&& found(r.results@) == best_of(hints.order_by, all, limit_of(hints.limit) as nat)
                &&& r.has_more == (all.len() > limit_of(hints.limit))
            },
        }
    }
}

/// The series that were chosen.
pub open spec fn chosen(series: Option<&Vec<Vec<Label>>>) -> Option<Seq<Vec<Label>>> {
    match series {
        Some(s) => Some(s@),
        None => None,
    }
}

/// The label names that hints ask for.
pub fn collect_label_names<F: FuzzyFilter>(
    postings: &Postings,
    series: Option<&Vec<Vec<Label>>>,
    hints: &SearchHints,
    filter: &F,
) -> (r: LabelQueryResult)
    requires
        postings.wf(),
    ensures
        is_names_answer(postings.live_terms(), chosen(series), *hints, *filter, r),
{
    match series {
        None => collect_unscoped_label_names(postings, hints, filter),
        Some(series) => collect_scoped_label_names(postings, series, hints, filter),
    }
}

/// The values of a label that hints ask for.
pub fn collect_label_values<F: FuzzyFilter>(
    postings: &Postings,
    label_name: &str,
    series: Option<&Vec<Vec<Label>>>,
    hints: &SearchHints,
    filter: &F,
) -> (r: LabelQueryResult)
    requires
        postings.wf(),
    ensures
        is_values_answer(postings.live_terms(), label_name@, chosen(series), *hints, *filter, r),
{
    if label_name.is_empty() {
        return LabelQueryResult::default();
    }
    match series {
        None => collect_unscoped_label_values(postings, label_name, hints, filter),
        Some(series) => collect_scoped_label_values(series, label_name, hints, filter),
    }
}

/// Answers searches for labels, where the caller may read them.
#[derive(Debug, Clone, Copy, PartialEq, Eq, Structural)]
pub struct DefaultLabelQuerier;

/// The hints that hold: the given ones, or the default ones.
pub open spec fn hints_of(hints: Option<&SearchHints>) -> SearchHints {
    match hints {
        Some(h) => *h,
        None => SearchHints {
            limit: 100,
            order_by: SearchResultOrdering::ValueAsc,
            include_meta: false,
        },
    }
}

impl DefaultLabelQuerier {
    /// The names of labels.
    pub fn get_label_names<F: FuzzyFilter>(
        &self,
        permitted: bool,
        postings: &Postings,
        series: Option<&Vec<Vec<Label>>>,
        search_hints: Option<&SearchHints>,
        filter: &F,
    ) -> (r: Result<LabelQueryResult, TsdbError>)
        requires
            postings.wf(),
        ensures
            r is Ok == permitted,
            match r {
                Ok(found) => is_names_answer(
                    postings.live_terms(),
                    chosen(series),
                    hints_of(search_hints),
                    *filter,
                    found,
                ),
                Err(e) => e is PermissionsError,
            },
    {
        if !permitted {
            return Err(TsdbError::PermissionsError);
        }
        let default_hints = SearchHints::default();
        let hints: &SearchHints = match search_hints {
            Some(h) => h,
            None => &default_hints,
        };
        Ok(collect_label_names(postings, series, hints, filter))
    }

    /// The values of a label.
    pub fn get_label_values<F: FuzzyFilter>(
        &self,
        permitted: bool,
        postings: &Postings,
        name: &str,
        series: Option<&Vec<Vec<Label>>>,
        search_hints: Option<&SearchHints>,
        filter: &F,
    ) -> (r: Result<LabelQueryResult, TsdbError>)
        requires
            postings.wf(),
        ensures
            r is Ok == permitted,
            match r {
                Ok(found) => is_values_answer(
                    postings.live_terms(),
                    name@,
                    chosen(series),
                    hints_of(search_hints),
                    *filter,
                    found,
                ),
                Err(e) => e is PermissionsError,
            },
    {
        if !permitted {
            return Err(TsdbError::PermissionsError);
        }
        let default_hints = SearchHints::default();
        let hints: &SearchHints = match search_hints {
            Some(h) => h,
            None => &default_hints,
        };
        Ok(collect_label_values(postings, name, series, hints, filter))
    }

    /// The names of metrics.
    pub fn get_metric_names<F: FuzzyFilter>(
        &self,
        permitted: bool,
        postings: &Postings,
        series: Option<&Vec<Vec<Label>>>,
        search_hints: Option<&SearchHints>,
        filter: &F,
    ) -> (r: Result<LabelQueryResult, TsdbError>)
        requires
            postings.wf(),
        ensures
            r is Ok == permitted,
            match r {
                Ok(found) => is_values_answer(
                    postings.live_terms(),
                    METRIC_NAME_LABEL@,
                    chosen(series),
                    hints_of(search_hints),
                    *filter,
                    found,
                ),
                Err(e) => e is PermissionsError,
            },
    {
        self.get_label_values(permitted, postings, METRIC_NAME_LABEL, series, search_hints, filter)
    }
}

} // verus!
