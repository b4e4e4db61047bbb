//! What a search for labels finds, said of the labels of the series.
use crate::bytes::{lemma_lex_irreflexive, lex_less, starts_with, utf8};
use crate::index::label_filter::FuzzyFilter;
use crate::index::label_querier::{
    distinct_names, is_names_answer, is_values_answer, label_value, labels_of, scoped_names,
    scoped_values,
};
use crate::index::label_scan::{
    is_value_key, label_size, lemma_names_are, lemma_scanned_names, lemma_value_keys_are,
    lists_names, lists_value_keys, results_ascend, scanned_name, scanned_names, scanned_values,
    texts_ascend, value_text,
};
use crate::index::label_search::{
    before, best_of, found, law_ranking, lemma_before, lemma_place_of_value, limit_of,
    place_of_value, ranking, text_before, values_differ, Found, LabelQueryResult, SearchHints,
    SearchResultOrdering,
};
use crate::labels::Label;
use crate::postings::key::{key_value, separator_at, term_prefix, SEPARATOR};
use crate::postings::label_index::TermMap;
use crate::sample::value_order;
use vstd::prelude::*;

verus! {

/// The first label with a name has a value.
pub open spec fn carries(labels: Seq<Label>, name: Seq<char>, value: Seq<char>) -> bool {
    exists|i: int|
        {
            &&& 0 <= i < labels.len()
            &&& (#[trigger] labels[i]).name@ == name
            &&& labels[i].value@ == value
            &&& forall|j: int| 0 <= j < i ==> (#[trigger] labels[j]).name@ != name
        }
}

/// The value of a label is that of the first with its name.
pub proof fn law_label_value(labels: Seq<Label>, name: Seq<char>)
    ensures
        forall|value: Seq<char>|
            label_value(labels, name) == Some(value) <==> #[trigger] carries(labels, name, value),
        label_value(labels, name) is None <==> forall|i: int|
            0 <= i < labels.len() ==> (#[trigger] labels[i]).name@ != name,
    decreases labels.len(),
{
    if labels.len() > 0 {
        let rest = labels.skip(1);
        law_label_value(rest, name);
        assert forall|value: Seq<char>|
            label_value(labels, name) == Some(value) <==> #[trigger] carries(
                labels,
                name,
                value,
            ) by {
            assert(label_value(rest, name) == Some(value) <==> carries(rest, name, value));
            if labels[0].name@ == name {
                if carries(labels, name, value) {
                    let i = choose|i: int|
                        {
                            &&& 0 <= i < labels.len()
                            &&& (#[trigger] labels[i]).name@ == name
                            &&& labels[i].value@ == value
                            &&& forall|j: int| 0 <= j < i ==> (#[trigger] labels[j]).name@ != name
                        };
                    if i > 0 {
                        assert(labels[0].name@ != name);
                    }
                }
            } else {
                if carries(labels, name, value) {
                    let i = choose|i: int|
                        {
                            &&& 0 <= i < labels.len()
                            &&& (#[trigger] labels[i]).name@ == name
                            &&& labels[i].value@ == value
                            &&& forall|j: int| 0 <= j < i ==> (#[trigger] labels[j]).name@ != name
                        };
                    assert(rest[i - 1] == labels[i]);
                    assert forall|j: int| 0 <= j < i - 1 implies (#[trigger] rest[j]).name@
                        != name by {
                        assert(labels[j + 1].name@ != name);
                    }
                }
                if carries(rest, name, value) {
                    let i = choose|i: int|
                        {
                            &&& 0 <= i < rest.len()
                            &&& (#[trigger] rest[i]).name@ == name
                            &&& rest[i].value@ == value
                            &&& forall|j: int| 0 <= j < i ==> (#[trigger] rest[j]).name@ != name
                        };
                    assert(labels[i + 1] == rest[i]);
                    assert forall|j: int| 0 <= j < i + 1 implies (#[trigger] labels[j]).name@
                        != name by {
                        if j > 0 {
                            assert(rest[j - 1].name@ != name);
                        }
                    }
                }
            }
        }
        if label_value(labels, name) is None {
            assert forall|i: int| 0 <= i < labels.len() implies (#[trigger] labels[i]).name@
                != name by {
                if i > 0 {
                    assert(rest[i - 1].name@ != name);
                }
            }
        }
        if forall|i: int| 0 <= i < labels.len() ==> (#[trigger] labels[i]).name@ != name {
            assert forall|i: int| 0 <= i < rest.len() implies (#[trigger] rest[i]).name@ != name by {
                assert(labels[i + 1].name@ != name);
            }
        }
    }
}

/// Whether a series has a value of a label.
pub open spec fn has_value(name: Seq<char>, value: Seq<char>) -> spec_fn(Vec<Label>) -> bool {
    |labels: Vec<Label>| carries(labels@, name, value)
}

/// How many series have a value of a label.
pub open spec fn count_of(series: Seq<Vec<Label>>, name: Seq<char>, value: Seq<char>) -> nat {
    series.filter(has_value(name, value)).len()
}

/// What is found of a value of a label among series: how well it matches and, where that is asked for,
/// how many of the series have it.
pub open spec fn is_value_of<F: FuzzyFilter>(
    series: Seq<Vec<Label>>,
    name: Seq<char>,
    counts: bool,
    filter: F,
    x: Found,
) -> bool {
    &&& filter.verdict(x.value).0
    &&& x.score == filter.verdict(x.value).1
    &&& x.cardinality == if counts {
        count_of(series, name, x.value)
    } else {
        0
    }
}

/// The values of a label that series have and a filter takes are found, each once, with the number of
/// the series that have it where that is asked for.
pub proof fn law_scoped_values<F: FuzzyFilter>(
    series: Seq<Vec<Label>>,
    name: Seq<char>,
    counts: bool,
    filter: F,
)
    requires
        series.len() <= u64::MAX,
    ensures
        ({
            let items = scoped_values(series, name, counts, filter);
            &&& values_differ(items)
            &&& items.len() <= series.len()
            &&& forall|i: int|
                0 <= i < items.len() ==> is_value_of(
                    series,
                    name,
                    counts,
                    filter,
                    #[trigger] items[i],
                ) && count_of(series, name, items[i].value) > 0
            &&& forall|value: Seq<char>|
                #[trigger] count_of(series, name, value) > 0 && filter.verdict(value).0
                    ==> is_found(items, value)
        }),
    decreases series.len(),
{
    reveal(Seq::filter);
    let items = scoped_values(series, name, counts, filter);
    if series.len() > 0 {
        let less = series.drop_last();
        law_scoped_values(less, name, counts, filter);
        let done = scoped_values(less, name, counts, filter);
        let last = series.last();
        law_label_value(last@, name);
        assert forall|value: Seq<char>| #[trigger] count_of(series, name, value) == count_of(
            less,
            name,
            value,
        ) + if label_value(last@, name) == Some(value) {
            1nat
        } else {
            0nat
        } by {
            assert(has_value(name, value)(last) == carries(last@, name, value));
        }
        assert forall|value: Seq<char>| #[trigger] count_of(less, name, value) <= less.len() by {
            lemma_filter_short(less, has_value(name, value));
        }
        match label_value(last@, name) {
            None => {
                assert forall|i: int| 0 <= i < items.len() implies is_value_of(
                    series,
                    name,
                    counts,
                    filter,
                    #[trigger] items[i],
                ) && count_of(series, name, items[i].value) > 0 by {
                    assert(is_value_of(less, name, counts, filter, done[i]));
                    assert(count_of(series, name, items[i].value) == count_of(
                        less,
                        name,
                        items[i].value,
                    ));
                }
                assert forall|value: Seq<char>|
                    #[trigger] count_of(series, name, value) > 0 && filter.verdict(
                        value,
                    ).0 implies is_found(items, value) by {
                    assert(count_of(less, name, value) > 0);
                }
            },
            Some(v) => {
                let at = place_of_value(done, v);
                lemma_place_of_value(done, v);
                assert forall|i: int| 0 <= i < items.len() implies is_value_of(
                    series,
                    name,
                    counts,
                    filter,
                    #[trigger] items[i],
                ) && count_of(series, name, items[i].value) > 0 by {
                    assert(count_of(series, name, items[i].value) >= count_of(
                        less,
                        name,
                        items[i].value,
                    ));
                    if i < done.len() {
                        assert(is_value_of(less, name, counts, filter, done[i]));
                        assert(count_of(less, name, done[i].value) > 0);
                        if filter.verdict(v).0 && done[i].value == v {
                            if at < i {
                                assert(done[at].value != done[i].value);
                            }
                            assert(i == at);
                        }
                    } else {
                        if count_of(less, name, v) > 0 {
                            assert(is_found(done, v));
                        }
                    }
                }
                assert forall|i: int, j: int| 0 <= i < j < items.len() implies (
                #[trigger] items[i]).value != (#[trigger] items[j]).value by {
                    if j < done.len() {
                        assert(done[i].value != done[j].value);
                        assert(items[i].value == done[i].value);
                        assert(items[j].value == done[j].value);
                    } else {
                        assert(items[i] == done[i]);
                    }
                }
                assert forall|value: Seq<char>|
                    #[trigger] count_of(series, name, value) > 0 && filter.verdict(
                        value,
                    ).0 implies is_found(items, value) by {
                    if count_of(less, name, value) > 0 {
                        let k = choose|k: int|
                            0 <= k < done.len() && (#[trigger] done[k]).value == value;
                        assert(items[k].value == value);
                    } else if at < done.len() {
                        assert(items[at].value == v);
                    } else {
                        assert(items[done.len() as int].value == v);
                    }
                }
            },
        }
    }
}

/// One of the results has a value.
pub open spec fn is_found(items: Seq<Found>, value: Seq<char>) -> bool {
    exists|i: int| 0 <= i < items.len() && (#[trigger] items[i]).value == value
}

proof fn lemma_filter_short<T>(s: Seq<T>, p: spec_fn(T) -> bool)
    ensures
        s.filter(p).len() <= s.len(),
    decreases s.len(),
{
    reveal(Seq::filter);
    if s.len() > 0 {
        lemma_filter_short(s.drop_last(), p);
    }
}

/// A result stands before another in an order: by value upwards or downwards, by score with the best
/// first, or by cardinality upwards or downwards; of two alike, the one with the smaller value.
pub open spec fn precedes(order: SearchResultOrdering, a: Found, b: Found) -> bool {
    let smaller = lex_less(utf8(a.value), utf8(b.value));
    match order {
        SearchResultOrdering::ValueAsc => smaller,
        SearchResultOrdering::ValueDesc => lex_less(utf8(b.value), utf8(a.value)),
        SearchResultOrdering::ScoreDesc => {
            ||| value_order(a.score) > value_order(b.score)
            ||| value_order(a.score) == value_order(b.score) && smaller
        },
        SearchResultOrdering::CardinalityAsc => {
            ||| a.cardinality < b.cardinality
            ||| a.cardinality == b.cardinality && smaller
        },
        SearchResultOrdering::CardinalityDesc => {
            ||| a.cardinality > b.cardinality
            ||| a.cardinality == b.cardinality && smaller
        },
    }
}

/// The first results of a search in an order: as many as the limit lets through, each before the next,
/// and all before those that are left out.
pub open spec fn are_first(
    order: SearchResultOrdering,
    items: Seq<Found>,
    limit: nat,
    out: Seq<Found>,
) -> bool {
    &&& out.len() == if items.len() > limit {
        limit
    } else {
        items.len()
    }
    &&& forall|i: int| 0 <= i < out.len() ==> items.contains(#[trigger] out[i])
    &&& forall|i: int, j: int|
        0 <= i < j < out.len() ==> precedes(order, #[trigger] out[i], #[trigger] out[j])
    &&& forall|k: int|
        #![trigger items[k]]
        0 <= k < items.len() && !out.contains(items[k]) ==> forall|i: int|
            0 <= i < out.len() ==> precedes(order, #[trigger] out[i], items[k])
}

proof fn lemma_before_is(order: SearchResultOrdering, a: Found, b: Found)
    ensures
        before(order, a, b) == precedes(order, a, b),
{
}

/// The best of results that differ in their values are the first in the order.
pub proof fn law_best_are_first(order: SearchResultOrdering, items: Seq<Found>, limit: nat)
    requires
        values_differ(items),
    ensures
        are_first(order, items, limit, best_of(order, items, limit)),
{
    let all = ranking(order, items);
    let out = best_of(order, items, limit);
    law_ranking(order, items);
    items.to_multiset_ensures();
    all.to_multiset_ensures();
    assert forall|i: int| 0 <= i < all.len() implies items.contains(#[trigger] all[i]) by {
        assert(all.contains(all[i]));
        assert(items.to_multiset().count(all[i]) > 0);
    }
    assert forall|i: int, j: int| 0 <= i < j < all.len() implies precedes(
        order,
        #[trigger] all[i],
        #[trigger] all[j],
    ) by {
        assert(!before(order, all[j], all[i]));
        lemma_before(order, all[i], all[j], all[j]);
        lemma_before_is(order, all[i], all[j]);
        if all[i].value == all[j].value {
            let a = choose|a: int| 0 <= a < items.len() && items[a] == all[i];
            let b = choose|b: int| 0 <= b < items.len() && items[b] == all[j];
            if a < b {
                assert(items[a].value != items[b].value);
            }
            if b < a {
                assert(items[b].value != items[a].value);
            }
            assert(all[i] == all[j]);
            lemma_twice(all, i, j);
            lemma_once(items, a);
        }
    }
    assert forall|k: int|
        #![trigger items[k]]
        0 <= k < items.len() && !out.contains(items[k]) implies forall|i: int|
        0 <= i < out.len() ==> precedes(order, #[trigger] out[i], items[k]) by {
        assert(items.contains(items[k]));
        assert(all.to_multiset().count(items[k]) > 0);
        assert(all.contains(items[k]));
        let m = choose|m: int| 0 <= m < all.len() && all[m] == items[k];
        if m < out.len() {
            assert(out[m] == items[k]);
        }
        assert forall|i: int| 0 <= i < out.len() implies precedes(
            order,
            #[trigger] out[i],
            items[k],
        ) by {
            assert(out[i] == all[i]);
            assert(precedes(order, all[i], all[m]));
        }
    }
    assert forall|i: int| 0 <= i < out.len() implies #[trigger] out[i] == all[i] by {}
}

/// What stands twice in a list counts twice.
proof fn lemma_twice(s: Seq<Found>, i: int, j: int)
    requires
        0 <= i < j < s.len(),
        s[i] == s[j],
    ensures
        s.to_multiset().count(s[i]) >= 2,
{
    let less = s.remove(i);
    s.to_multiset_ensures();
    less.to_multiset_ensures();
    assert(less[j - 1] == s[i]);
    assert(less.contains(s[i]));
    assert(less.to_multiset().count(s[i]) > 0);
}

/// What stands once in a list counts once.
proof fn lemma_once(s: Seq<Found>, i: int)
    requires
        0 <= i < s.len(),
        values_differ(s),
    ensures
        s.to_multiset().count(s[i]) == 1,
{
    let less = s.remove(i);
    s.to_multiset_ensures();
    less.to_multiset_ensures();
    assert(s.contains(s[i]));
    if less.contains(s[i]) {
        let k = choose|k: int| 0 <= k < less.len() && less[k] == s[i];
        if k < i {
            assert(s[k].value != s[i].value);
        } else {
            assert(s[i].value != s[k + 1].value);
        }
    }
    assert(less.to_multiset().count(s[i]) == 0);
}

/// The most that a search gives: what it is asked for, a hundred where it is not asked for anything,
/// and no more than a thousand.
pub open spec fn most_of(limit: usize) -> nat {
    if limit == 0 {
        100
    } else if limit > 1000 {
        1000
    } else {
        limit as nat
    }
}

/// Cardinalities are asked for: results are sorted by them, or are to tell them.
pub open spec fn asks_counts(hints: SearchHints) -> bool {
    hints.order_by == SearchResultOrdering::CardinalityAsc || hints.order_by
        == SearchResultOrdering::CardinalityDesc || hints.include_meta
}

/// The values of a label that a search gives for chosen series. Each is one that a chosen series has
/// and that the filter takes, with the number of the chosen series that have it where that is asked
/// for. They are in the order that is asked for, and none is left out that stands before one of them;
/// where there is no more, none is left out at all.
pub proof fn law_values_of_chosen<F: FuzzyFilter>(
    terms: TermMap,
    name: Seq<char>,
    series: Seq<Vec<Label>>,
    hints: SearchHints,
    filter: F,
    r: LabelQueryResult,
)
    requires
        is_values_answer(terms, name, Some(series), hints, filter, r),
        name.len() > 0,
        series.len() <= u64::MAX,
    ensures
        ({
            let out = found(r.results@);
            &&& out.len() <= most_of(hints.limit)
            &&& r.has_more ==> out.len() == most_of(hints.limit)
            &&& values_differ(out)
            &&& forall|i: int|
                0 <= i < out.len() ==> is_value_of(
                    series,
                    name,
                    asks_counts(hints),
                    filter,
                    #[trigger] out[i],
                ) && count_of(series, name, out[i].value) > 0
            &&& forall|i: int, j: int|
                0 <= i < j < out.len() ==> precedes(
                    hints.order_by,
                    #[trigger] out[i],
                    #[trigger] out[j],
                )
            &&& forall|value: Seq<char>|
                #[trigger] count_of(series, name, value) > 0 && filter.verdict(value).0
                    && !is_found(out, value) ==> r.has_more && is_left_behind(
                    series,
                    name,
                    hints,
                    filter,
                    out,
                    value,
                )
        }),
{
    let counts = asks_counts(hints);
    let items = scoped_values(series, name, counts, filter);
    let out = found(r.results@);
    law_scoped_values(series, name, counts, filter);
    law_best_are_first(hints.order_by, items, most_of(hints.limit));
    assert(limit_of(hints.limit) as nat == most_of(hints.limit));
    assert(out == best_of(hints.order_by, items, most_of(hints.limit)));
    lemma_part_differs(items, out, hints.order_by);
    assert forall|i: int| 0 <= i < out.len() implies is_value_of(
        series,
        name,
        counts,
        filter,
        #[trigger] out[i],
    ) && count_of(series, name, out[i].value) > 0 by {
        assert(items.contains(out[i]));
        let k = choose|k: int| 0 <= k < items.len() && items[k] == out[i];
        assert(is_value_of(series, name, counts, filter, items[k]));
    }
    assert forall|value: Seq<char>|
        #[trigger] count_of(series, name, value) > 0 && filter.verdict(value).0 && !is_found(
            out,
            value,
        ) implies r.has_more && is_left_behind(series, name, hints, filter, out, value) by {
        let k = choose|k: int| 0 <= k < items.len() && (#[trigger] items[k]).value == value;
        if out.contains(items[k]) {
            let i = choose|i: int| 0 <= i < out.len() && out[i] == items[k];
            assert(out[i].value == value);
        }
        assert(is_value_of(series, name, counts, filter, items[k]));
        if items.len() <= most_of(hints.limit) {
            lemma_all_first(hints.order_by, items, out, k);
        }
    }
}

/// A value that is left out comes behind all that are given.
pub open spec fn is_left_behind<F: FuzzyFilter>(
    series: Seq<Vec<Label>>,
    name: Seq<char>,
    hints: SearchHints,
    filter: F,
    out: Seq<Found>,
    value: Seq<char>,
) -> bool {
    exists|x: Found|
        {
            &&& x.value == value
            &&& #[trigger] is_value_of(series, name, asks_counts(hints), filter, x)
            &&& forall|i: int|
                0 <= i < out.len() ==> precedes(hints.order_by, #[trigger] out[i], x)
        }
}

proof fn lemma_part_differs(items: Seq<Found>, out: Seq<Found>, order: SearchResultOrdering)
    requires
        forall|i: int, j: int|
            0 <= i < j < out.len() ==> precedes(order, #[trigger] out[i], #[trigger] out[j]),
        forall|i: int| 0 <= i < out.len() ==> items.contains(#[trigger] out[i]),
        values_differ(items),
    ensures
        values_differ(out),
{
    assert forall|i: int, j: int| 0 <= i < j < out.len() implies (#[trigger] out[i]).value != (
    #[trigger] out[j]).value by {
        let a = choose|a: int| 0 <= a < items.len() && items[a] == out[i];
        let b = choose|b: int| 0 <= b < items.len() && items[b] == out[j];
        assert(precedes(order, out[i], out[j]));
        if a == b {
            lemma_before_is(order, out[i], out[j]);
            lemma_before(order, out[i], out[i], out[i]);
        }
        if a < b {
            assert(items[a].value != items[b].value);
        }
        if b < a {
            assert(items[b].value != items[a].value);
        }
    }
}

/// Where as many are given as there are, none is left out.
proof fn lemma_all_first(order: SearchResultOrdering, items: Seq<Found>, out: Seq<Found>, k: int)
    requires
        values_differ(items),
        values_differ(out),
        out.len() == items.len(),
        forall|i: int| 0 <= i < out.len() ==> items.contains(#[trigger] out[i]),
        0 <= k < items.len(),
    ensures
        out.contains(items[k]),
{
    assert(out.no_duplicates());
    assert(items.no_duplicates());
    out.unique_seq_to_set();
    items.unique_seq_to_set();
    assert(out.to_set().subset_of(items.to_set())) by {
        assert forall|x: Found| out.to_set().contains(x) implies items.to_set().contains(x) by {
            let i = choose|i: int| 0 <= i < out.len() && out[i] == x;
            assert(items.contains(out[i]));
        }
    }
    vstd::set_lib::lemma_subset_equality(out.to_set(), items.to_set());
    assert(items.to_set().contains(items[k]));
}

/// One of the series has a label with a name.
pub open spec fn is_name_of(series: Seq<Vec<Label>>, name: Seq<char>) -> bool {
    exists|i: int, j: int|
        0 <= i < series.len() && 0 <= j < series[i]@.len() && (#[trigger] series[i]@[j]).name@ == name
}

/// A list of labels has one with a name.
pub open spec fn is_named(labels: Seq<Label>, name: Seq<char>) -> bool {
    exists|i: int| 0 <= i < labels.len() && (#[trigger] labels[i]).name@ == name
}

proof fn lemma_labels_of(series: Seq<Vec<Label>>, name: Seq<char>)
    ensures
        is_named(labels_of(series), name) == is_name_of(series, name),
    decreases series.len(),
{
    let all = labels_of(series);
    if series.len() > 0 {
        let less = series.drop_last();
        let n = series.len() - 1;
        lemma_labels_of(less, name);
        let before = labels_of(less);
        let last = series[n]@;
        assert(all == before + last);
        if is_named(all, name) {
            let i = choose|i: int| 0 <= i < all.len() && (#[trigger] all[i]).name@ == name;
            if i < before.len() {
                assert(before[i].name@ == name);
                let (a, b) = choose|a: int, b: int|
                    0 <= a < less.len() && 0 <= b < less[a]@.len() && (
                    #[trigger] less[a]@[b]).name@ == name;
                assert(series[a]@[b].name@ == name);
            } else {
                assert(series[n]@[i - before.len()].name@ == name);
            }
        }
        if is_name_of(series, name) {
            let (a, b) = choose|a: int, b: int|
                0 <= a < series.len() && 0 <= b < series[a]@.len() && (
                #[trigger] series[a]@[b]).name@ == name;
            if a < n {
                assert(less[a]@[b].name@ == name);
                let i = choose|i: int|
                    0 <= i < before.len() && (#[trigger] before[i]).name@ == name;
                assert(all[i].name@ == name);
            } else {
                assert(all[before.len() + b].name@ == name);
            }
        }
    }
}

proof fn lemma_distinct_names(labels: Seq<Label>)
    ensures
        distinct_names(labels).no_duplicates(),
        forall|name: Seq<char>| #[trigger]
            distinct_names(labels).contains(name) <==> is_named(labels, name),
    decreases labels.len(),
{
    let out = distinct_names(labels);
    if labels.len() > 0 {
        let less = labels.drop_last();
        lemma_distinct_names(less);
        let done = distinct_names(less);
        let last = labels.last().name@;
        assert forall|name: Seq<char>| #[trigger] out.contains(name) <==> is_named(
            labels,
            name,
        ) by {
            assert(done.contains(name) <==> is_named(less, name));
            assert(labels[labels.len() - 1].name@ == last);
            if is_named(labels, name) {
                let i = choose|i: int| 0 <= i < labels.len() && (#[trigger] labels[i]).name@ == name;
                if i < less.len() {
                    assert(less[i].name@ == name);
                }
            }
            if is_named(less, name) {
                let i = choose|i: int| 0 <= i < less.len() && (#[trigger] less[i]).name@ == name;
                assert(labels[i].name@ == name);
            }
            if done.contains(name) {
                let i = choose|i: int| 0 <= i < done.len() && done[i] == name;
                assert(out[i] == name);
            }
            if out.contains(name) {
                let i = choose|i: int| 0 <= i < out.len() && out[i] == name;
                if i < done.len() {
                    assert(done[i] == name);
                }
            }
            if !done.contains(last) {
                assert(out[done.len() as int] == last);
            }
        }
        assert forall|i: int, j: int| 0 <= i < out.len() && 0 <= j < out.len() && i != j implies out[i]
            != out[j] by {
            if i < done.len() && j < done.len() {
                assert(done[i] != done[j]);
            } else if i < done.len() {
                assert(done.contains(done[i]));
            } else if j < done.len() {
                assert(done.contains(done[j]));
            }
        }
    }
}

/// What is found of the name of a label: how well it matches and, where that is asked for, how many
/// postings the index has under it, which are some.
pub open spec fn is_name_found<F: FuzzyFilter>(
    terms: TermMap,
    counts: bool,
    filter: F,
    x: Found,
) -> bool {
    &&& filter.verdict(x.value).0
    &&& x.score == filter.verdict(x.value).1
    &&& counts ==> x.cardinality == label_size(terms, utf8(x.value)) && x.cardinality > 0
    &&& !counts ==> x.cardinality == 0
}

proof fn lemma_scoped_names<F: FuzzyFilter>(
    terms: TermMap,
    names: Seq<Seq<char>>,
    counts: bool,
    filter: F,
)
    requires
        names.no_duplicates(),
    ensures
        ({
            let items = scoped_names(terms, names, counts, filter);
            &&& values_differ(items)
            &&& forall|i: int|
                0 <= i < items.len() ==> is_name_found(terms, counts, filter, #[trigger] items[i])
                    && names.contains(items[i].value)
            &&& forall|name: Seq<char>|
                #[trigger] names.contains(name) && filter.verdict(name).0 && (counts ==> label_size(
                    terms,
                    utf8(name),
                ) > 0) ==> is_found(items, name)
        }),
    decreases names.len(),
{
    let items = scoped_names(terms, names, counts, filter);
    if names.len() > 0 {
        let less = names.drop_last();
        lemma_scoped_names(terms, less, counts, filter);
        let done = scoped_names(terms, less, counts, filter);
        let last = names.last();
        assert(names[names.len() - 1] == last);
        assert forall|name: Seq<char>| #[trigger] less.contains(name) implies names.contains(name)
            && name != last by {
            let i = choose|i: int| 0 <= i < less.len() && less[i] == name;
            assert(names[i] == name);
        }
        assert forall|i: int| 0 <= i < items.len() implies is_name_found(
            terms,
            counts,
            filter,
            #[trigger] items[i],
        ) && names.contains(items[i].value) by {
            if i < done.len() {
                assert(less.contains(done[i].value));
            }
        }
        assert forall|i: int, j: int| 0 <= i < j < items.len() implies (#[trigger] items[i]).value
            != (#[trigger] items[j]).value by {
            assert(less.contains(done[i].value));
            if j < done.len() {
                assert(done[i].value != done[j].value);
            }
        }
        assert forall|name: Seq<char>|
            #[trigger] names.contains(name) && filter.verdict(name).0 && (counts ==> label_size(
                terms,
                utf8(name),
            ) > 0) implies is_found(items, name) by {
            if name == last {
                assert(items[done.len() as int].value == last);
            } else {
                let k = choose|k: int| 0 <= k < names.len() && names[k] == name;
                assert(less[k] == name);
                assert(less.contains(name));
                let i = choose|i: int| 0 <= i < done.len() && (#[trigger] done[i]).value == name;
                assert(items[i].value == name);
            }
        }
    }
}

/// The names of labels that a search gives for chosen series. Each is that of a label of a chosen
/// series and one that the filter takes. They are in the order that is asked for, and none is left out
/// that stands before one of them; where there is no more, none is left out at all.
pub proof fn law_names_of_chosen<F: FuzzyFilter>(
    terms: TermMap,
    series: Seq<Vec<Label>>,
    hints: SearchHints,
    filter: F,
    r: LabelQueryResult,
)
    requires
        is_names_answer(terms, Some(series), hints, filter, r),
    ensures
        ({
            let out = found(r.results@);
            let counts = asks_counts(hints);
            &&& out.len() <= most_of(hints.limit)
            &&& r.has_more ==> out.len() == most_of(hints.limit)
            &&& values_differ(out)
            &&& forall|i: int|
                0 <= i < out.len() ==> is_name_found(terms, counts, filter, #[trigger] out[i])
                    && is_name_of(series, out[i].value)
            &&& forall|i: int, j: int|
                0 <= i < j < out.len() ==> precedes(
                    hints.order_by,
                    #[trigger] out[i],
                    #[trigger] out[j],
                )
            &&& forall|x: Found| #[trigger]
                is_name_found(terms, counts, filter, x) && is_name_of(series, x.value) && !is_found(
                    out,
                    x.value,
                ) ==> r.has_more && forall|i: int|
                    0 <= i < out.len() ==> precedes(hints.order_by, #[trigger] out[i], x)
        }),
{
    let counts = asks_counts(hints);
    let labels = labels_of(series);
    let names = distinct_names(labels);
    lemma_distinct_names(labels);
    lemma_scoped_names(terms, names, counts, filter);
    let items = scoped_names(terms, names, counts, filter);
    let out = found(r.results@);
    law_best_are_first(hints.order_by, items, most_of(hints.limit));
    assert(out == best_of(hints.order_by, items, most_of(hints.limit)));
    lemma_part_differs(items, out, hints.order_by);
    assert forall|i: int| 0 <= i < out.len() implies is_name_found(
        terms,
        counts,
        filter,
        #[trigger] out[i],
    ) && is_name_of(series, out[i].value) by {
        assert(items.contains(out[i]));
        let k = choose|k: int| 0 <= k < items.len() && items[k] == out[i];
        assert(names.contains(items[k].value));
        lemma_labels_of(series, out[i].value);
    }
    assert forall|x: Found| #[trigger]
        is_name_found(terms, counts, filter, x) && is_name_of(series, x.value) && !is_found(
            out,
            x.value,
        ) implies r.has_more && forall|i: int|
        0 <= i < out.len() ==> precedes(hints.order_by, #[trigger] out[i], x) by {
        lemma_labels_of(series, x.value);
        assert(names.contains(x.value));
        let k = choose|k: int| 0 <= k < items.len() && (#[trigger] items[k]).value == x.value;
        assert(items[k] == x);
        if out.contains(items[k]) {
            let i = choose|i: int| 0 <= i < out.len() && out[i] == items[k];
            assert(out[i].value == x.value);
        }
        if items.len() <= most_of(hints.limit) {
            lemma_all_first(hints.order_by, items, out, k);
        }
    }
}

/// The names of a list that a filter takes are found, in the order of the list, each with the number
/// of postings under it.
pub proof fn law_scanned_names<F: FuzzyFilter>(terms: TermMap, names: Seq<Seq<char>>, filter: F)
    ensures
        forall|x: Found| #[trigger]
            scanned_names(terms, names, filter).contains(x) <==> {
                &&& names.contains(x.value)
                &&& filter.verdict(x.value) == (true, x.score)
                &&& x.cardinality == label_size(terms, utf8(x.value))
            },
        texts_ascend(names) ==> results_ascend(scanned_names(terms, names, filter)),
    decreases names.len(),
{
    let items = scanned_names(terms, names, filter);
    if texts_ascend(names) {
        lemma_scanned_names(terms, names, filter);
    }
    if names.len() > 0 {
        let less = names.drop_last();
        law_scanned_names(terms, less, filter);
        let done = scanned_names(terms, less, filter);
        let last = names.last();
        assert forall|x: Found| #[trigger] items.contains(x) <==> {
            &&& names.contains(x.value)
            &&& filter.verdict(x.value) == (true, x.score)
            &&& x.cardinality == label_size(terms, utf8(x.value))
        } by {
            assert(names[names.len() - 1] == last);
            assert(done.contains(x) <==> {
                &&& less.contains(x.value)
                &&& filter.verdict(x.value) == (true, x.score)
                &&& x.cardinality == label_size(terms, utf8(x.value))
            });
            if names.contains(x.value) {
                let i = choose|i: int| 0 <= i < names.len() && names[i] == x.value;
                if i < less.len() {
                    assert(less[i] == x.value);
                }
            }
            if less.contains(x.value) {
                let i = choose|i: int| 0 <= i < less.len() && less[i] == x.value;
                assert(names[i] == x.value);
            }
            if done.contains(x) {
                let i = choose|i: int| 0 <= i < done.len() && done[i] == x;
                assert(items[i] == x);
            }
            if items.contains(x) {
                let i = choose|i: int| 0 <= i < items.len() && items[i] == x;
                if i < done.len() {
                    assert(done[i] == x);
                }
            }
            if filter.verdict(last).0 {
                assert(items[done.len() as int] == scanned_name(terms, last, filter));
            }
        }
    }
}

/// The values in keys that a filter takes are found, each with the number of ids under its key.
pub proof fn law_scanned_values<F: FuzzyFilter>(terms: TermMap, keys: Seq<Seq<u8>>, filter: F)
    ensures
        forall|x: Found| #[trigger]
            scanned_values(terms, keys, filter).contains(x) <==> filter.verdict(x.value) == (
                true,
                x.score,
            ) && exists|i: int|
                {
                    &&& 0 <= i < keys.len()
                    &&& value_text(#[trigger] keys[i]) == Some(x.value)
                    &&& x.cardinality == if terms[keys[i]].len() > u64::MAX {
                        u64::MAX as int
                    } else {
                        terms[keys[i]].len() as int
                    }
                },
    decreases keys.len(),
{
    let items = scanned_values(terms, keys, filter);
    if keys.len() > 0 {
        let less = keys.drop_last();
        law_scanned_values(terms, less, filter);
        let done = scanned_values(terms, less, filter);
        let last = keys.last();
        let n = keys.len() - 1;
        assert forall|x: Found| #[trigger] items.contains(x) <==> filter.verdict(x.value) == (
            true,
            x.score,
        ) && exists|i: int|
            {
                &&& 0 <= i < keys.len()
                &&& value_text(#[trigger] keys[i]) == Some(x.value)
                &&& x.cardinality == if terms[keys[i]].len() > u64::MAX {
                    u64::MAX as int
                } else {
                    terms[keys[i]].len() as int
                }
            } by {
            if done.contains(x) {
                let i = choose|i: int|
                    {
                        &&& 0 <= i < less.len()
                        &&& value_text(#[trigger] less[i]) == Some(x.value)
                        &&& x.cardinality == if terms[less[i]].len() > u64::MAX {
                            u64::MAX as int
                        } else {
                            terms[less[i]].len() as int
                        }
                    };
                assert(keys[i] == less[i]);
                let k = choose|k: int| 0 <= k < done.len() && done[k] == x;
                assert(items[k] == x);
            }
            if items.contains(x) {
                let k = choose|k: int| 0 <= k < items.len() && items[k] == x;
                if k < done.len() {
                    assert(done[k] == x);
                } else {
                    assert(value_text(keys[n]) == Some(x.value));
                }
            }
            if filter.verdict(x.value) == (true, x.score) && exists|i: int|
                {
                    &&& 0 <= i < keys.len()
                    &&& value_text(#[trigger] keys[i]) == Some(x.value)
                    &&& x.cardinality == if terms[keys[i]].len() > u64::MAX {
                        u64::MAX as int
                    } else {
                        terms[keys[i]].len() as int
                    }
                } {
                let i = choose|i: int|
                    {
                        &&& 0 <= i < keys.len()
                        &&& value_text(#[trigger] keys[i]) == Some(x.value)
                        &&& x.cardinality == if terms[keys[i]].len() > u64::MAX {
                            u64::MAX as int
                        } else {
                            terms[keys[i]].len() as int
                        }
                    };
                if i < n {
                    assert(less[i] == keys[i]);
                    assert(done.contains(x));
                } else {
                    assert(items[done.len() as int] == x);
                }
            }
        }
    }
}

/// The results of a list from its start, or from its end, no more than a number and no fewer where
/// there are as many.
pub open spec fn is_stretch(all: Seq<Found>, out: Seq<Found>, most: nat, from_end: bool) -> bool {
    &&& out.len() == if all.len() > most {
        most
    } else {
        all.len()
    }
    &&& forall|i: int|
        0 <= i < out.len() ==> #[trigger] out[i] == if from_end {
            all[all.len() - 1 - i]
        } else {
            all[i]
        }
}

/// Results in strict order differ in their values.
proof fn lemma_ascending_differ(items: Seq<Found>)
    requires
        results_ascend(items),
    ensures
        values_differ(items),
{
    assert forall|i: int, j: int| 0 <= i < j < items.len() implies (#[trigger] items[i]).value != (
    #[trigger] items[j]).value by {
        assert(text_before(items[i].value, items[j].value));
        lemma_lex_irreflexive(utf8(items[i].value));
    }
}

/// The first separator of bytes that begin with a name and a separator stands in that beginning.
proof fn lemma_separator(k: Seq<u8>, prefix: Seq<u8>, at: int)
    requires
        starts_with(k, prefix),
        0 <= at < prefix.len(),
        prefix[at] == SEPARATOR,
    ensures
        0 <= separator_at(k) <= at,
        separator_at(k) == separator_at(prefix),
        k[separator_at(k)] == SEPARATOR,
    decreases k.len(),
{
    assert(k.subrange(0, prefix.len() as int)[0] == k[0]);
    assert(k.subrange(0, prefix.len() as int)[at] == k[at]);
    if k[0] != SEPARATOR {
        let less = k.drop_first();
        assert(less.subrange(0, prefix.len() - 1) =~= prefix.drop_first());
        lemma_separator(less, prefix.drop_first(), at - 1);
    }
}

/// Keys of one label with the same value are one.
proof fn lemma_same_value(name: Seq<u8>, a: Seq<u8>, b: Seq<u8>)
    requires
        starts_with(a, term_prefix(name)),
        starts_with(b, term_prefix(name)),
        value_text(a) is Some,
        value_text(a) == value_text(b),
    ensures
        a == b,
{
    let prefix = term_prefix(name);
    let n = name.len() as int;
    assert(prefix[n] == SEPARATOR);
    lemma_separator(a, prefix, n);
    lemma_separator(b, prefix, n);
    let at = separator_at(a);
    vstd::utf8::decode_utf8_encode_utf8(key_value(a));
    vstd::utf8::decode_utf8_encode_utf8(key_value(b));
    let va = key_value(a);
    let vb = key_value(b);
    assert(va == vb);
    assert(va.len() == a.len() - at - 2 && vb.len() == b.len() - at - 2);
    assert forall|i: int| 0 <= i < a.len() implies a[i] == b[i] by {
        if i <= at {
            assert(a.subrange(0, prefix.len() as int)[i] == a[i]);
            assert(b.subrange(0, prefix.len() as int)[i] == b[i]);
        } else if i < a.len() - 1 {
            assert(va[i - at - 1] == a[i]);
            assert(vb[i - at - 1] == b[i]);
        }
    }
    assert(a =~= b);
}

/// The values that are found under the keys of a label differ.
proof fn lemma_values_differ<F: FuzzyFilter>(
    terms: TermMap,
    name: Seq<u8>,
    keys: Seq<Seq<u8>>,
    filter: F,
)
    requires
        forall|i: int, j: int|
            0 <= i < j < keys.len() ==> lex_less(#[trigger] keys[i], #[trigger] keys[j]),
        forall|i: int| 0 <= i < keys.len() ==> is_value_key(terms, name, #[trigger] keys[i]),
    ensures
        values_differ(scanned_values(terms, keys, filter)),
    decreases keys.len(),
{
    let items = scanned_values(terms, keys, filter);
    if keys.len() > 0 {
        let less = keys.drop_last();
        let n = keys.len() - 1;
        assert forall|i: int, j: int| 0 <= i < j < less.len() implies lex_less(
            #[trigger] less[i],
            #[trigger] less[j],
        ) by {
            assert(lex_less(keys[i], keys[j]));
        }
        assert forall|i: int| 0 <= i < less.len() implies is_value_key(
            terms,
            name,
            #[trigger] less[i],
        ) by {
            assert(is_value_key(terms, name, keys[i]));
        }
        lemma_values_differ(terms, name, less, filter);
        law_scanned_values(terms, less, filter);
        let done = scanned_values(terms, less, filter);
        assert forall|i: int, j: int| 0 <= i < j < items.len() implies (#[trigger] items[i]).value
            != (#[trigger] items[j]).value by {
            if j < done.len() {
                assert(done[i].value != done[j].value);
            } else {
                assert(done.contains(done[i]));
                let x = done[i];
                let k = choose|k: int|
                    0 <= k < less.len() && value_text(#[trigger] less[k]) == Some(x.value);
                assert(is_value_key(terms, name, keys[k]) && is_value_key(terms, name, keys[n]));
                if x.value == items[j].value {
                    lemma_same_value(name, keys[k], keys[n]);
                    assert(lex_less(keys[k], keys[n]));
                    lemma_lex_irreflexive(keys[k]);
                }
            }
        }
    }
}

/// The names of labels that a search gives for all series: from the first upwards, from the last
/// downwards, or the first thousand names in another order. It tells whether there are more.
pub proof fn law_names_of_all<F: FuzzyFilter>(
    terms: TermMap,
    hints: SearchHints,
    filter: F,
    names: Seq<Seq<char>>,
    r: LabelQueryResult,
)
    requires
        is_names_answer(terms, None, hints, filter, r),
        lists_names(terms, names),
    ensures
        ({
            let all = scanned_names(terms, names, filter);
            let out = found(r.results@);
            let first = if all.len() > 1000 {
                all.take(1000)
            } else {
                all
            };
            &&& r.has_more <==> out.len() < all.len()
            &&& hints.order_by == SearchResultOrdering::ValueAsc ==> is_stretch(
                all,
                out,
                hints.limit as nat,
                false,
            )
            &&& hints.order_by == SearchResultOrdering::ValueDesc ==> is_stretch(
                all,
                out,
                hints.limit as nat,
                true,
            )
            &&& hints.order_by != SearchResultOrdering::ValueAsc && hints.order_by
                != SearchResultOrdering::ValueDesc ==> are_first(
                hints.order_by,
                first,
                most_of(hints.limit),
                out,
            )
        }),
{
    let all = scanned_names(terms, names, filter);
    lemma_names_are(terms, names);
    law_scanned_names(terms, names, filter);
    let first = if all.len() > 1000 {
        all.take(1000)
    } else {
        all
    };
    lemma_ascending_differ(all);
    assert(values_differ(first)) by {
        assert forall|i: int, j: int| 0 <= i < j < first.len() implies (#[trigger] first[i]).value
            != (#[trigger] first[j]).value by {
            assert(all[i].value != all[j].value);
        }
    }
    law_best_are_first(hints.order_by, first, most_of(hints.limit));
}

/// The values of a label that a search gives for all series: from the first upwards, from the last
/// downwards, or the best in another order. It tells whether there are more.
pub proof fn law_values_of_all<F: FuzzyFilter>(
    terms: TermMap,
    name: Seq<char>,
    hints: SearchHints,
    filter: F,
    keys: Seq<Seq<u8>>,
    r: LabelQueryResult,
)
    requires
        is_values_answer(terms, name, None, hints, filter, r),
        name.len() > 0,
        lists_value_keys(terms, utf8(name), keys),
    ensures
        ({
            let all = scanned_values(terms, keys, filter);
            let out = found(r.results@);
            let most = most_of(hints.limit);
            &&& r.has_more <==> out.len() < all.len()
            &&& hints.order_by == SearchResultOrdering::ValueAsc ==> is_stretch(
                all,
                out,
                most,
                false,
            )
            &&& hints.order_by == SearchResultOrdering::ValueDesc ==> is_stretch(
                all,
                out,
                most,
                true,
            )
            &&& hints.order_by != SearchResultOrdering::ValueAsc && hints.order_by
                != SearchResultOrdering::ValueDesc ==> are_first(hints.order_by, all, most, out)
        }),
{
    let all = scanned_values(terms, keys, filter);
    lemma_value_keys_are(terms, utf8(name), keys);
    lemma_values_differ(terms, utf8(name), keys, filter);
    law_best_are_first(hints.order_by, all, most_of(hints.limit));
}

/// A search for the values of a label without a name finds nothing.
pub proof fn law_no_name<F: FuzzyFilter>(
    terms: TermMap,
    series: Option<Seq<Vec<Label>>>,
    hints: SearchHints,
    filter: F,
    r: LabelQueryResult,
)
    requires
        is_values_answer(terms, Seq::<char>::empty(), series, hints, filter, r),
    ensures
        found(r.results@).len() == 0,
        !r.has_more,
{
}

} // verus!
