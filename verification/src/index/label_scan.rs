//! Label names and values, read off the index.
use crate::bytes::{
    lemma_lex_asymmetric, lemma_lex_irreflexive, lemma_utf8_injective, lex_less, starts_with, utf8,
    utf8_text,
};
use crate::index::label_filter::FuzzyFilter;
use crate::index::label_search::{
    at_most, best_of, collect_limited, collect_limited_with_heap, found, keep_first, limit_of,
    normalize_limit, scored, text_before, Found, LabelQueryResult, LabelSearchResult, SearchHints,
    SearchResultOrdering, SEARCH_RESULT_DEFAULT_LIMIT, SEARCH_RESULT_LIMIT_MAX,
};
use crate::postings::bitmap::{capped, lemma_ids_finite};
use crate::postings::key::{
    is_sealed, is_term_key, key_value, prefix_for, split_key, term_prefix,
};
use crate::postings::label_index::TermMap;
use crate::postings::mutation::Posting;
use crate::postings::terms::{is_counted, is_name_in, texts_increase};
use crate::postings::Postings;
use crate::sample::is_nan;
use vstd::prelude::*;

verus! {

/// The postings under a label.
pub open spec fn label_postings(terms: TermMap, name: Seq<u8>) -> Set<Posting> {
    Set::new(
        |p: Posting|
            terms.contains_key(p.0) && starts_with(p.0, term_prefix(name)) && terms[p.0].contains(
                p.1,
            ),
    )
}

/// How many postings there are under a label.
pub open spec fn label_size(terms: TermMap, name: Seq<u8>) -> u64 {
    capped(label_postings(terms, name).len())
}

/// The postings under the first keys of a list.
spec fn postings_of_first(terms: TermMap, entries: Seq<(&Vec<u8>, u64)>, n: int) -> Set<
    Posting,
> {
    Set::new(
        |p: Posting|
            (exists|i: int| 0 <= i < n && (#[trigger] entries[i]).0@ == p.0) && terms[p.0].contains(
                p.1,
            ),
    )
}

/// How many postings of live ids there are under a label.
pub fn get_label_cardinality(postings: &Postings, label_name: &str) -> (r: u64)
    requires
        postings.wf(),
    ensures
        r == label_size(postings.live_terms(), utf8(label_name@)),
{
    let ghost terms = postings.live_terms();
    let prefix = prefix_for(label_name);
    let entries = postings.live_entries(prefix.as_slice());
    let mut total: u64 = 0;
    let mut i: usize = 0;
    proof {
        assert(postings_of_first(terms, entries@, 0) =~= Set::<Posting>::empty());
    }
    while i < entries.len()
        invariant
            i <= entries@.len(),
            forall|j: int|
                0 <= j < entries@.len() ==> {
                    &&& starts_with((#[trigger] entries@[j]).0@, prefix@)
                    &&& is_counted(terms, entries@[j])
                },
            forall|a: int, b: int|
                0 <= a < b < entries@.len() ==> lex_less(
                    (#[trigger] entries@[a]).0@,
                    (#[trigger] entries@[b]).0@,
                ),
            postings_of_first(terms, entries@, i as int).finite(),
            total == capped(postings_of_first(terms, entries@, i as int).len()),
        decreases entries.len() - i,
    {
        let n: u64 = entries[i].1;
        proof {
            let k = entries@[i as int].0@;
            assert(is_counted(terms, entries@[i as int]));
            let done = postings_of_first(terms, entries@, i as int);
            let more = postings_of_first(terms, entries@, i + 1);
            let f = |id: u64| (k, id);
            let here = terms[k].map(f);
            lemma_ids_finite(terms[k]);
            assert(vstd::relations::injective_on(f, terms[k]));
            vstd::set_lib::lemma_map_size(terms[k], here, f);
            assert(done.disjoint(here)) by {
                assert forall|p: Posting| done.contains(p) implies !here.contains(p) by {
                    let j = choose|j: int| 0 <= j < i && (#[trigger] entries@[j]).0@ == p.0;
                    if p.0 == k {
                        assert(lex_less(entries@[j].0@, entries@[i as int].0@));
                        lemma_lex_irreflexive(k);
                    }
                }
            }
            assert(more =~= done.union(here)) by {
                assert forall|p: Posting| more.contains(p) == done.union(here).contains(p) by {
                    if more.contains(p) {
                        let j = choose|j: int| 0 <= j < i + 1 && (#[trigger] entries@[j]).0@ == p.0;
                        if j == i {
                            assert(f(p.1) == p);
                        }
                    }
                    if here.contains(p) {
                        let id = choose|id: u64| terms[k].contains(id) && f(id) == p;
                        assert(entries@[i as int].0@ == p.0);
                    }
                    if done.contains(p) {
                        let j = choose|j: int| 0 <= j < i && (#[trigger] entries@[j]).0@ == p.0;
                        assert(0 <= j < i + 1);
                    }
                }
            }
            vstd::set_lib::lemma_set_disjoint_lens(done, here);
        }
        total = total.saturating_add(n);
        i += 1;
    }
    proof {
        let name = utf8(label_name@);
        assert(postings_of_first(terms, entries@, i as int) =~= label_postings(terms, name)) by {
            assert forall|p: Posting| postings_of_first(terms, entries@, i as int).contains(p)
                == label_postings(terms, name).contains(p) by {
                if postings_of_first(terms, entries@, i as int).contains(p) {
                    let j = choose|j: int| 0 <= j < i && (#[trigger] entries@[j]).0@ == p.0;
                    assert(is_counted(terms, entries@[j]));
                }
                if label_postings(terms, name).contains(p) {
                    let j = choose|j: int| 0 <= j < entries@.len() && #[trigger] entries@[j].0@ == p.0;
                    assert(entries@[j].0@ == p.0);
                }
            }
        }
    }
    total
}

/// Each text comes before the next.
pub open spec fn texts_ascend(texts: Seq<Seq<char>>) -> bool {
    forall|i: int, j: int|
        0 <= i < j < texts.len() ==> text_before(#[trigger] texts[i], #[trigger] texts[j])
}

/// The names of the labels in a dictionary, in order.
pub open spec fn lists_names(terms: TermMap, names: Seq<Seq<char>>) -> bool {
    &&& texts_ascend(names)
    &&& forall|i: int|
        0 <= i < names.len() ==> is_name_in(terms, utf8(#[trigger] names[i])) && names[i].len() > 0
    &&& forall|name: Seq<char>| #[trigger]
        is_name_in(terms, utf8(name)) && name.len() > 0 ==> names.contains(name)
}

/// The names of the labels in a dictionary, in order.
pub open spec fn label_names(terms: TermMap) -> Seq<Seq<char>> {
    choose|names: Seq<Seq<char>>| lists_names(terms, names)
}

/// Two lists that are each in a strict order and hold the same items are one.
pub proof fn lemma_ascending_unique<T>(a: Seq<T>, b: Seq<T>, less: spec_fn(T, T) -> bool)
    requires
        forall|i: int, j: int| 0 <= i < j < a.len() ==> less(#[trigger] a[i], #[trigger] a[j]),
        forall|i: int, j: int| 0 <= i < j < b.len() ==> less(#[trigger] b[i], #[trigger] b[j]),
        forall|x: T, y: T| #[trigger] less(x, y) ==> !less(y, x),
        forall|t: T| #[trigger] a.contains(t) == b.contains(t),
    ensures
        a == b,
    decreases a.len(),
{
    if a.len() == 0 {
        if b.len() > 0 {
            assert(b.contains(b[0]));
            assert(a.contains(b[0]));
        }
        assert(a =~= b);
    } else {
        assert(a.contains(a.last()));
        assert(b.contains(a.last()));
        let j = choose|j: int| 0 <= j < b.len() && b[j] == a.last();
        assert(b.contains(b.last()));
        assert(a.contains(b.last()));
        let i = choose|i: int| 0 <= i < a.len() && a[i] == b.last();
        if j < b.len() - 1 && i < a.len() - 1 {
            assert(less(b[j], b[b.len() - 1]));
            assert(less(a[i], a[a.len() - 1]));
        }
        assert(a.last() == b.last());
        let (x, y) = (a.drop_last(), b.drop_last());
        assert forall|t: T| #[trigger] x.contains(t) == y.contains(t) by {
            if x.contains(t) {
                let k = choose|k: int| 0 <= k < x.len() && x[k] == t;
                assert(a[k] == t);
                assert(less(a[k], a[a.len() - 1]));
                assert(a.contains(t));
                let m = choose|m: int| 0 <= m < b.len() && b[m] == t;
                assert(m < b.len() - 1);
                assert(y[m] == t);
            }
            if y.contains(t) {
                let k = choose|k: int| 0 <= k < y.len() && y[k] == t;
                assert(b[k] == t);
                assert(less(b[k], b[b.len() - 1]));
                assert(b.contains(t));
                assert(a.contains(t));
                let m = choose|m: int| 0 <= m < a.len() && a[m] == t;
                assert(m < a.len() - 1);
                assert(x[m] == t);
            }
        }
        lemma_ascending_unique(x, y, less);
        assert(a =~= x.push(a.last()));
        assert(b =~= y.push(b.last()));
    }
}

/// A name that a filter takes, as a result.
pub open spec fn scanned_name<F: FuzzyFilter>(terms: TermMap, name: Seq<char>, filter: F) -> Found {
    Found {
        value: name,
        score: filter.verdict(name).1,
        cardinality: label_size(terms, utf8(name)),
    }
}

/// The names of a list that a filter takes, as results.
pub open spec fn scanned_names<F: FuzzyFilter>(
    terms: TermMap,
    names: Seq<Seq<char>>,
    filter: F,
) -> Seq<Found>
    decreases names.len(),
{
    if names.len() == 0 {
        Seq::empty()
    } else {
        let done = scanned_names(terms, names.drop_last(), filter);
        let name = names.last();
        if filter.verdict(name).0 {
            done.push(scanned_name(terms, name, filter))
        } else {
            done
        }
    }
}

/// The names in a dictionary that a filter takes, in order.
pub open spec fn names_taken<F: FuzzyFilter>(terms: TermMap, filter: F) -> Seq<Found> {
    scanned_names(terms, label_names(terms), filter)
}

/// The values of results are among those of a list, in its order.
pub proof fn lemma_scanned_names<F: FuzzyFilter>(terms: TermMap, names: Seq<Seq<char>>, filter: F)
    requires
        texts_ascend(names),
    ensures
        results_ascend(scanned_names(terms, names, filter)),
        forall|i: int|
            0 <= i < scanned_names(terms, names, filter).len() ==> names.contains(
                (#[trigger] scanned_names(terms, names, filter)[i]).value,
            ),
    decreases names.len(),
{
    if names.len() > 0 {
        let less = names.drop_last();
        assert(texts_ascend(less)) by {
            assert forall|i: int, j: int| 0 <= i < j < less.len() implies text_before(
                #[trigger] less[i],
                #[trigger] less[j],
            ) by {
                assert(less[i] == names[i] && less[j] == names[j]);
            }
        }
        lemma_scanned_names(terms, less, filter);
        let done = scanned_names(terms, less, filter);
        let out = scanned_names(terms, names, filter);
        assert forall|i: int| 0 <= i < out.len() implies names.contains(
            (#[trigger] out[i]).value,
        ) by {
            if i < done.len() {
                assert(less.contains(done[i].value));
                let k = choose|k: int| 0 <= k < less.len() && less[k] == done[i].value;
                assert(names[k] == done[i].value);
            } else {
                assert(names[names.len() - 1] == out[i].value);
            }
        }
        assert forall|i: int, j: int| 0 <= i < j < out.len() implies text_before(
            (#[trigger] out[i]).value,
            (#[trigger] out[j]).value,
        ) by {
            if j < done.len() {
                assert(out[i] == done[i] && out[j] == done[j]);
            } else {
                assert(less.contains(done[i].value));
                let k = choose|k: int| 0 <= k < less.len() && less[k] == done[i].value;
                assert(names[k] == done[i].value);
                assert(text_before(names[k], names[names.len() - 1]));
            }
        }
    }
}

/// The value of each result comes before that of the next.
pub open spec fn results_ascend(items: Seq<Found>) -> bool {
    forall|i: int, j: int|
        0 <= i < j < items.len() ==> text_before(
            (#[trigger] items[i]).value,
            (#[trigger] items[j]).value,
        )
}

/// The names in the index that a filter takes, in order.
pub(crate) fn scan_label_names<F: FuzzyFilter>(postings: &Postings, filter: &F) -> (r: Vec<LabelSearchResult>)
    requires
        postings.wf(),
    ensures
        found(r@) == names_taken(postings.live_terms(), *filter),
        results_ascend(found(r@)),
        scored(found(r@)),
{
    let ghost terms = postings.live_terms();
    let names = postings.get_label_names();
    let mut out: Vec<LabelSearchResult> = Vec::new();
    let ghost mut listed: Seq<Seq<char>> = Seq::empty();
    let mut i: usize = 0;
    assert(found(out@) =~= Seq::<Found>::empty());
    while i < names.len()
        invariant
            i <= names@.len(),
            postings.wf(),
            terms == postings.live_terms(),
            listed == nonempty_views(names@.take(i as int)),
            found(out@) == scanned_names(terms, listed, *filter),
            scored(found(out@)),
        decreases names.len() - i,
    {
        let name = &names[i];
        let ghost was = out@;
        proof {
            assert(names@.take(i + 1).drop_last() =~= names@.take(i as int));
            assert(names@.take(i + 1).last() == names@[i as int]);
        }
        if !name.as_str().is_empty() {
            proof {
                let more = listed.push(name@);
                assert(more.drop_last() =~= listed);
                listed = more;
            }
            let (accepted, score) = filter.accept(name.as_str());
            if accepted {
                let cardinality: u64 = get_label_cardinality(postings, name.as_str());
                let item = LabelSearchResult {
                    value: name.as_str().to_owned(),
                    score,
                    cardinality,
                };
                let ghost x = item@;
                out.push(item);
                assert(found(out@) =~= found(was).push(x));
            }
        }
        i += 1;
    }
    proof {
        assert(names@.take(i as int) =~= names@);
        lemma_nonempty_lists(terms, names@);
        lemma_names_are(terms, listed);
        lemma_scanned_names(terms, listed, *filter);
    }
    out
}

/// The texts of a list that are not empty.
spec fn nonempty_views(names: Seq<String>) -> Seq<Seq<char>>
    decreases names.len(),
{
    if names.len() == 0 {
        Seq::empty()
    } else if names.last()@.len() == 0 {
        nonempty_views(names.drop_last())
    } else {
        nonempty_views(names.drop_last()).push(names.last()@)
    }
}

proof fn lemma_nonempty_views(names: Seq<String>)
    requires
        texts_increase(names),
    ensures
        texts_ascend(nonempty_views(names)),
        forall|t: Seq<char>| #[trigger]
            nonempty_views(names).contains(t) == (t.len() > 0 && exists|i: int|
                0 <= i < names.len() && (#[trigger] names[i])@ == t),
    decreases names.len(),
{
    let out = nonempty_views(names);
    if names.len() > 0 {
        let less = names.drop_last();
        assert(texts_increase(less)) by {
            assert forall|i: int, j: int| 0 <= i < j < less.len() implies lex_less(
                utf8((#[trigger] less[i])@),
                utf8((#[trigger] less[j])@),
            ) by {
                assert(less[i] == names[i] && less[j] == names[j]);
            }
        }
        lemma_nonempty_views(less);
        let done = nonempty_views(less);
        assert forall|t: Seq<char>| #[trigger] out.contains(t) == (t.len() > 0 && exists|i: int|
            0 <= i < names.len() && (#[trigger] names[i])@ == t) by {
            if out.contains(t) {
                let k = choose|k: int| 0 <= k < out.len() && out[k] == t;
                if k < done.len() {
                    assert(done[k] == t);
                    assert(done.contains(t));
                    let i = choose|i: int| 0 <= i < less.len() && (#[trigger] less[i])@ == t;
                    assert(names[i]@ == t);
                } else {
                    assert(names[names.len() - 1]@ == t);
                }
            }
            if t.len() > 0 && exists|i: int| 0 <= i < names.len() && (#[trigger] names[i])@ == t {
                let i = choose|i: int| 0 <= i < names.len() && (#[trigger] names[i])@ == t;
                if i < less.len() {
                    assert(less[i]@ == t);
                    assert(done.contains(t));
                    let k = choose|k: int| 0 <= k < done.len() && done[k] == t;
                    assert(out[k] == t);
                } else {
                    assert(out[out.len() - 1] == t);
                }
            }
        }
        assert forall|i: int, j: int| 0 <= i < j < out.len() implies text_before(
            #[trigger] out[i],
            #[trigger] out[j],
        ) by {
            if j < done.len() {
                assert(out[i] == done[i] && out[j] == done[j]);
            } else {
                assert(done[i] == out[i]);
                assert(done.contains(out[i]));
                let k = choose|k: int| 0 <= k < less.len() && (#[trigger] less[k])@ == out[i];
                assert(names[k]@ == out[i]);
                assert(lex_less(
                    utf8(names[k]@),
                    utf8(names[names.len() - 1]@),
                ));
            }
        }
    } else {
        assert forall|t: Seq<char>| #[trigger] out.contains(t) == (t.len() > 0 && exists|i: int|
            0 <= i < names.len() && (#[trigger] names[i])@ == t) by {}
    }
}

proof fn lemma_nonempty_lists(terms: TermMap, names: Seq<String>)
    requires
        texts_increase(names),
        forall|i: int| 0 <= i < names.len() ==> is_name_in(terms, utf8((#[trigger] names[i])@)),
        forall|name: Seq<u8>| #[trigger]
            is_name_in(terms, name) && vstd::utf8::valid_utf8(name) ==> exists|i: int|
                0 <= i < names.len() && utf8((#[trigger] names[i])@) == name,
    ensures
        lists_names(terms, nonempty_views(names)),
{
    lemma_nonempty_views(names);
    let out = nonempty_views(names);
    assert forall|i: int| 0 <= i < out.len() implies is_name_in(terms, utf8(#[trigger] out[i]))
        && out[i].len() > 0 by {
        assert(out.contains(out[i]));
        let k = choose|k: int| 0 <= k < names.len() && (#[trigger] names[k])@ == out[i];
        assert(is_name_in(terms, utf8(names[k]@)));
    }
    assert forall|name: Seq<char>| #[trigger]
        is_name_in(terms, utf8(name)) && name.len() > 0 implies out.contains(name) by {
        vstd::utf8::encode_utf8_valid_utf8(name);
        let k = choose|k: int| 0 <= k < names.len() && utf8((#[trigger] names[k])@) == utf8(name);
        lemma_utf8_injective(names[k]@, name);
    }
}

pub proof fn lemma_names_are(terms: TermMap, names: Seq<Seq<char>>)
    requires
        lists_names(terms, names),
    ensures
        label_names(terms) == names,
{
    let chosen = label_names(terms);
    assert(lists_names(terms, chosen));
    assert forall|t: Seq<char>| #[trigger] chosen.contains(t) == names.contains(t) by {
        if chosen.contains(t) {
            let k = choose|k: int| 0 <= k < chosen.len() && chosen[k] == t;
            assert(is_name_in(terms, utf8(chosen[k])));
        }
        if names.contains(t) {
            let k = choose|k: int| 0 <= k < names.len() && names[k] == t;
            assert(is_name_in(terms, utf8(names[k])));
        }
    }
    let less = |a: Seq<char>, b: Seq<char>| text_before(a, b);
    assert forall|x: Seq<char>, y: Seq<char>| #[trigger] less(x, y) implies !less(y, x) by {
        lemma_lex_asymmetric(utf8(x), utf8(y));
    }
    lemma_ascending_unique(chosen, names, less);
}

/// The first names that a filter takes, in order.
pub fn get_label_names_asc<F: FuzzyFilter>(
    postings: &Postings,
    filter: &F,
    limit: Option<usize>,
) -> (r: LabelQueryResult)
    requires
        postings.wf(),
    ensures
        ({
            let all = names_taken(postings.live_terms(), *filter);
            let most = match limit {
                Some(n) => n as nat,
                None => SEARCH_RESULT_LIMIT_MAX as nat,
            };
            &&& found(r.results@) == at_most(all, most)
            &&& r.has_more == (all.len() > most)
        }),
{
    let most: usize = match limit {
        Some(n) => n,
        None => SEARCH_RESULT_LIMIT_MAX,
    };
    let items = scan_label_names(postings, filter);
    assert(found(items@).len() == items@.len());
    keep_first(items, most)
}

/// Turns a list around.
fn reversed(items: Vec<LabelSearchResult>) -> (r: Vec<LabelSearchResult>)
    ensures
        found(r@) == found(items@).reverse(),
        r@.len() == items@.len(),
{
    let ghost all = items@;
    let mut rest: Vec<LabelSearchResult> = items;
    let mut out: Vec<LabelSearchResult> = Vec::new();
    proof {
        assert(all.take(all.len() as int) =~= all);
    }
    while rest.len() > 0
        invariant
            rest@ == all.take(rest@.len() as int),
            rest@.len() <= all.len(),
            out@.len() == all.len() - rest@.len(),
            forall|k: int| 0 <= k < out@.len() ==> #[trigger] out@[k] == all[all.len() - 1 - k],
        decreases rest.len(),
    {
        let ghost n = rest@.len() as int;
        match rest.pop() {
            Some(item) => {
                assert(item == all[n - 1]);
                out.push(item);
            },
            None => {},
        }
        assert(rest@ =~= all.take(n - 1));
    }
    assert(found(out@) =~= found(all).reverse());
    out
}

/// The last names that a filter takes, the last one first.
pub fn get_label_names_desc<F: FuzzyFilter>(
    postings: &Postings,
    filter: &F,
    limit: Option<usize>,
) -> (r: LabelQueryResult)
    requires
        postings.wf(),
    ensures
        ({
            let all = names_taken(postings.live_terms(), *filter).reverse();
            let most = match limit {
                Some(n) => n as nat,
                None => SEARCH_RESULT_DEFAULT_LIMIT as nat,
            };
            &&& found(r.results@) == at_most(all, most)
            &&& r.has_more == (all.len() > most)
        }),
{
    let most: usize = match limit {
        Some(n) => n,
        None => SEARCH_RESULT_DEFAULT_LIMIT,
    };
    let items = reversed(scan_label_names(postings, filter));
    assert(found(items@).len() == items@.len());
    keep_first(items, most)
}

/// The keys of a label that have ids under them, in order.
pub open spec fn lists_value_keys(terms: TermMap, name: Seq<u8>, keys: Seq<Seq<u8>>) -> bool {
    &&& forall|i: int, j: int|
        0 <= i < j < keys.len() ==> lex_less(#[trigger] keys[i], #[trigger] keys[j])
    &&& forall|i: int| 0 <= i < keys.len() ==> is_value_key(terms, name, #[trigger] keys[i])
    &&& forall|k: Seq<u8>| #[trigger] is_value_key(terms, name, k) ==> keys.contains(k)
}

/// A key of a label that has ids under it.
pub open spec fn is_value_key(terms: TermMap, name: Seq<u8>, k: Seq<u8>) -> bool {
    terms.contains_key(k) && starts_with(k, term_prefix(name)) && terms[k] != Set::<u64>::empty()
}

/// The keys of a label that have ids under them, in order.
pub open spec fn value_keys(terms: TermMap, name: Seq<u8>) -> Seq<Seq<u8>> {
    choose|keys: Seq<Seq<u8>>| lists_value_keys(terms, name, keys)
}

/// The value in a key, where it is a text.
pub open spec fn value_text(k: Seq<u8>) -> Option<Seq<char>> {
    if is_term_key(k) && vstd::utf8::valid_utf8(key_value(k)) {
        Some(vstd::utf8::decode_utf8(key_value(k)))
    } else {
        None
    }
}

/// The values under keys that a filter takes, as results.
pub open spec fn scanned_values<F: FuzzyFilter>(
    terms: TermMap,
    keys: Seq<Seq<u8>>,
    filter: F,
) -> Seq<Found>
    decreases keys.len(),
{
    if keys.len() == 0 {
        Seq::empty()
    } else {
        let done = scanned_values(terms, keys.drop_last(), filter);
        match value_text(keys.last()) {
            Some(value) => if filter.verdict(value).0 {
                done.push(
                    Found {
                        value,
                        score: filter.verdict(value).1,
                        cardinality: capped(terms[keys.last()].len()),
                    },
                )
            } else {
                done
            },
            None => done,
        }
    }
}

/// The values of a label that a filter takes, in the order of their keys.
pub open spec fn values_taken<F: FuzzyFilter>(terms: TermMap, name: Seq<u8>, filter: F) -> Seq<
    Found,
> {
    scanned_values(terms, value_keys(terms, name), filter)
}

pub proof fn lemma_value_keys_are(terms: TermMap, name: Seq<u8>, keys: Seq<Seq<u8>>)
    requires
        lists_value_keys(terms, name, keys),
    ensures
        value_keys(terms, name) == keys,
{
    let chosen = value_keys(terms, name);
    assert(lists_value_keys(terms, name, chosen));
    assert forall|k: Seq<u8>| #[trigger] chosen.contains(k) == keys.contains(k) by {
        if chosen.contains(k) {
            let i = choose|i: int| 0 <= i < chosen.len() && chosen[i] == k;
            assert(is_value_key(terms, name, chosen[i]));
        }
        if keys.contains(k) {
            let i = choose|i: int| 0 <= i < keys.len() && keys[i] == k;
            assert(is_value_key(terms, name, keys[i]));
        }
    }
    let less = |a: Seq<u8>, b: Seq<u8>| lex_less(a, b);
    assert forall|x: Seq<u8>, y: Seq<u8>| #[trigger] less(x, y) implies !less(y, x) by {
        lemma_lex_asymmetric(x, y);
    }
    lemma_ascending_unique(chosen, keys, less);
}

/// What an entry of the index gives, where a filter takes its value.
fn check_entry<F: FuzzyFilter>(key: &Vec<u8>, cardinality: u64, filter: &F) -> (r: Option<
    LabelSearchResult,
>)
    requires
        is_sealed(key@),
    ensures
        match value_text(key@) {
            Some(value) => if filter.verdict(value).0 {
                r is Some && r->0@ == (Found {
                    value,
                    score: filter.verdict(value).1,
                    cardinality,
                }) && !is_nan(r->0@.score)
            } else {
                r is None
            },
            None => r is None,
        },
{
    match split_key(key.as_slice()) {
        Some((_, value)) => match utf8_text(value) {
            Some(text) => {
                proof {
                    vstd::utf8::encode_utf8_decode_utf8(text@);
                    vstd::utf8::encode_utf8_valid_utf8(text@);
                }
                let (accepted, score) = filter.accept(text);
                if accepted {
                    Some(
                        LabelSearchResult {
                            value: text.to_owned(),
                            score,
                            cardinality,
                        },
                    )
                } else {
                    None
                }
            },
            None => None,
        },
        None => None,
    }
}

/// The values of a label that a filter takes, in the order of their keys.
fn scan_label_values<F: FuzzyFilter>(postings: &Postings, label_name: &str, filter: &F) -> (r: Vec<
    LabelSearchResult,
>)
    requires
        postings.wf(),
    ensures
        found(r@) == values_taken(postings.live_terms(), utf8(label_name@), *filter),
        scored(found(r@)),
{
    let ghost terms = postings.live_terms();
    let ghost name = utf8(label_name@);
    let prefix = prefix_for(label_name);
    let entries = postings.live_entries(prefix.as_slice());
    let mut out: Vec<LabelSearchResult> = Vec::new();
    let ghost mut keys: Seq<Seq<u8>> = Seq::empty();
    let mut i: usize = 0;
    assert(found(out@) =~= Seq::<Found>::empty());
    while i < entries.len()
        invariant
            i <= entries@.len(),
            postings.wf(),
            terms == postings.live_terms(),
            prefix@ == term_prefix(name),
            forall|j: int|
                0 <= j < entries@.len() ==> {
                    &&& starts_with((#[trigger] entries@[j]).0@, prefix@)
                    &&& is_counted(terms, entries@[j])
                },
            forall|a: int, b: int|
                0 <= a < b < entries@.len() ==> lex_less(
                    (#[trigger] entries@[a]).0@,
                    (#[trigger] entries@[b]).0@,
                ),
            forall|a: int, b: int|
                0 <= a < b < keys.len() ==> lex_less(#[trigger] keys[a], #[trigger] keys[b]),
            forall|a: int|
                0 <= a < keys.len() ==> is_value_key(terms, name, #[trigger] keys[a]) && exists|
                    j: int,
                |
                    0 <= j < i && (#[trigger] entries@[j]).0@ == keys[a],
            forall|j: int|
                0 <= j < i && terms[(#[trigger] entries@[j]).0@] != Set::<u64>::empty()
                    ==> keys.contains(entries@[j].0@),
            found(out@) == scanned_values(terms, keys, *filter),
            scored(found(out@)),
        decreases entries.len() - i,
    {
        let (key, n) = entries[i];
        let ghost k = entries@[i as int].0@;
        let ghost was = out@;
        let ghost keys0 = keys;
        assert(is_counted(terms, entries@[i as int]));
        proof {
            keys = keys0.push(k);
            assert(keys.drop_last() =~= keys0);
            assert forall|a: int, b: int| 0 <= a < b < keys.len() implies lex_less(
                #[trigger] keys[a],
                #[trigger] keys[b],
            ) by {
                if b == keys0.len() {
                    assert(keys0[a] == keys[a]);
                    let j = choose|j: int| 0 <= j < i && (#[trigger] entries@[j]).0@ == keys0[a];
                    assert(lex_less(entries@[j].0@, entries@[i as int].0@));
                } else {
                    assert(keys0[a] == keys[a] && keys0[b] == keys[b]);
                }
            }
            assert(keys[keys0.len() as int] == k);
        }
        if let Some(item) = check_entry(key, n, filter) {
            let ghost x = item@;
            out.push(item);
            assert(found(out@) =~= found(was).push(x));
        }
        proof {
            assert forall|a: int| 0 <= a < keys.len() implies is_value_key(
                terms,
                name,
                #[trigger] keys[a],
            ) && exists|j: int| 0 <= j < i + 1 && (#[trigger] entries@[j]).0@ == keys[a] by {
                if a < keys0.len() {
                    assert(keys0[a] == keys[a]);
                    let j = choose|j: int| 0 <= j < i && (#[trigger] entries@[j]).0@ == keys0[a];
                    assert(0 <= j < i + 1);
                } else {
                    assert(entries@[i as int].0@ == keys[a]);
                }
            }
            assert forall|j: int|
                0 <= j < i + 1 && terms[(#[trigger] entries@[j]).0@] != Set::<
                    u64,
                >::empty() implies keys.contains(entries@[j].0@) by {
                if j < i {
                    assert(keys0.contains(entries@[j].0@));
                    let a = choose|a: int| 0 <= a < keys0.len() && keys0[a] == entries@[j].0@;
                    assert(keys[a] == entries@[j].0@);
                } else {
                    assert(keys[keys.len() - 1] == k);
                }
            }
        }
        i += 1;
    }
    proof {
        assert forall|k: Seq<u8>| #[trigger] is_value_key(terms, name, k) implies keys.contains(
            k,
        ) by {
            let j = choose|j: int| 0 <= j < entries@.len() && #[trigger] entries@[j].0@ == k;
            assert(keys.contains(entries@[j].0@));
        }
        lemma_value_keys_are(terms, name, keys);
    }
    out
}

/// The values of a label, read off the index.
pub fn collect_unscoped_label_values<F: FuzzyFilter>(
    postings: &Postings,
    label_name: &str,
    hints: &SearchHints,
    filter: &F,
) -> (r: LabelQueryResult)
    requires
        postings.wf(),
    ensures
        ({
            let all = values_taken(postings.live_terms(), utf8(label_name@), *filter);
            let most = limit_of(hints.limit) as nat;
            &&& found(r.results@) == match hints.order_by {
                SearchResultOrdering::ValueAsc => at_most(all, most),
                SearchResultOrdering::ValueDesc => at_most(all.reverse(), most),
                _ => best_of(hints.order_by, all, most),
            }
            &&& r.has_more == (all.len() > most)
        }),
{
    let limit: usize = normalize_limit(hints.limit);
    let items = scan_label_values(postings, label_name, filter);
    assert(found(items@).len() == items@.len());
    match hints.order_by {
        SearchResultOrdering::ValueAsc => collect_limited(items, limit),
        SearchResultOrdering::ValueDesc => {
            let items = reversed(items);
            assert(found(items@).len() == items@.len());
            collect_limited(items, limit)
        },
        _ => collect_limited_with_heap(items, hints.order_by, limit),
    }
}

} // verus!
