//! What the figures on labels say, and how results of a search are put together and judged.
use crate::bytes::{lemma_lex_irreflexive, lex_less};
use crate::index::label_filter::{best_score, reaches};
use crate::index::label_laws::{are_first, law_best_are_first};
use crate::index::label_search::{
    best_of, coalesced, joined, law_coalesced, lemma_place_of_value,
    place_of_value, scored, values_differ, Found, SearchResultOrdering,
};
use crate::index::state_laws::total;
use crate::index::stats::{
    all_keys, counted, is_stats, lemma_all_keys, lists_keys, name_items, pair_items, pair_of,
    pair_text, pairs_of, stats_view, top, value_items, Pair, PostingsStats,
};
use crate::postings::bitmap::capped;
use crate::postings::key::{
    is_term_key, key_name, key_value, lemma_separator_at, term_key,
};
use crate::postings::label_index::TermMap;
use crate::sample::{is_nan, value_order};
use vstd::prelude::*;

verus! {

/// The best score is none of the smaller ones: no score that is a number is above it, and it is one
/// of them, or 0.
pub proof fn law_best_score(scores: Seq<u64>)
    ensures
        best_score(scores) == 0 || scores.contains(best_score(scores)),
        !is_nan(best_score(scores)),
        value_order(best_score(scores)) >= 0,
        forall|i: int|
            0 <= i < scores.len() && !is_nan(#[trigger] scores[i]) ==> value_order(scores[i])
                <= value_order(best_score(scores)),
    decreases scores.len(),
{
    if scores.len() > 0 {
        let less = scores.drop_last();
        law_best_score(less);
        assert(scores[scores.len() - 1] == scores.last());
        assert forall|i: int| 0 <= i < scores.len() && !is_nan(#[trigger] scores[i]) implies
            value_order(scores[i]) <= value_order(best_score(scores)) by {
            if i < less.len() {
                assert(less[i] == scores[i]);
            }
        }
        if less.contains(best_score(less)) {
            let i = choose|i: int| 0 <= i < less.len() && less[i] == best_score(less);
            assert(scores[i] == best_score(less));
        }
    }
}

/// A score is taken where it is a number that is not below the threshold.
pub proof fn law_threshold(score: u64, threshold: u64)
    ensures
        is_nan(score) ==> !reaches(score, threshold),
        !is_nan(score) && !is_nan(threshold) ==> (reaches(score, threshold) <==> !(value_order(score)
            < value_order(threshold))),
{
}

/// The results with a value.
pub open spec fn with_value(items: Seq<Found>, value: Seq<char>) -> Seq<Found> {
    items.filter(|x: Found| x.value == value)
}

/// The cardinalities of results added up.
pub open spec fn cardinality_of(items: Seq<Found>) -> nat {
    total(items.map_values(|x: Found| x.cardinality as nat))
}

/// Results with the same value are put together: the cardinality is the sum of theirs, the score is
/// one of theirs and, where all are numbers, none of theirs is above it.
pub open spec fn is_joined(items: Seq<Found>, x: Found) -> bool {
    let parts = with_value(items, x.value);
    &&& parts.len() > 0
    &&& x.cardinality == if cardinality_of(parts) > u64::MAX {
        u64::MAX as nat
    } else {
        cardinality_of(parts)
    }
    &&& exists|i: int| 0 <= i < parts.len() && (#[trigger] parts[i]).score == x.score
    &&& scored(parts) ==> !is_nan(x.score) && forall|i: int|
        0 <= i < parts.len() ==> value_order((#[trigger] parts[i]).score) <= value_order(x.score)
}

/// Each value that results have is left once, with what they have of it together.
#[verifier::rlimit(40)]
pub proof fn law_joined(items: Seq<Found>)
    ensures
        values_differ(coalesced(items)),
        forall|j: int|
            0 <= j < coalesced(items).len() ==> is_joined(items, #[trigger] coalesced(items)[j]),
    decreases items.len(),
{
    law_coalesced(items);
    if items.len() > 0 {
        let less = items.drop_last();
        let x = items.last();
        law_joined(less);
        law_coalesced(less);
        let done = coalesced(less);
        let out = coalesced(items);
        let at = place_of_value(done, x.value);
        lemma_place_of_value(done, x.value);
        assert forall|j: int| 0 <= j < out.len() implies is_joined(items, #[trigger] out[j]) by {
            let y = out[j];
            lemma_parts(items, y.value);
            if j < done.len() && j != at {
                assert(done[j] == y);
                assert(is_joined(less, done[j]));
                if x.value == y.value {
                    if at < done.len() {
                        if j < at {
                            assert(done[j].value != done[at].value);
                        } else {
                            assert(done[at].value != done[j].value);
                        }
                    } else {
                        assert(done[j].value != x.value);
                    }
                }
            } else if at < done.len() {
                assert(is_joined(less, done[at]));
                assert(y == joined(done[at], x));
                let old = with_value(less, x.value);
                let now = with_value(items, x.value);
                assert(now =~= old.push(x));
                lemma_cardinality_pushed(old, x);
                let i = choose|i: int|
                    0 <= i < old.len() && (#[trigger] old[i]).score == done[at].score;
                assert(now[i] == old[i]);
                assert(now[old.len() as int] == x);
                if scored(now) {
                    assert forall|k: int| 0 <= k < old.len() implies !is_nan(
                        (#[trigger] old[k]).score,
                    ) by {
                        assert(now[k] == old[k]);
                    }
                    assert(!is_nan(now[old.len() as int].score));
                    assert forall|k: int| 0 <= k < now.len() implies value_order(
                        (#[trigger] now[k]).score,
                    ) <= value_order(y.score) by {
                        if k < old.len() {
                            assert(old[k] == now[k]);
                        }
                    }
                }
            } else {
                assert(y == x);
                let old = with_value(less, x.value);
                let now = with_value(items, x.value);
                assert(now =~= old.push(x));
                lemma_no_part(less, x.value);
                assert(now =~= seq![x]);
                lemma_cardinality_pushed(old, x);
                assert(cardinality_of(old) == 0);
                assert(now[0] == x);
                if scored(now) {
                    assert(!is_nan(now[0].score));
                }
            }
        }
    }
}

/// One more result is one more part of its value.
proof fn lemma_parts(items: Seq<Found>, value: Seq<char>)
    requires
        items.len() > 0,
    ensures
        with_value(items, value) == if items.last().value == value {
            with_value(items.drop_last(), value).push(items.last())
        } else {
            with_value(items.drop_last(), value)
        },
{
    reveal(Seq::filter);
}

/// Where no value of what was put together is a value, no result has it.
proof fn lemma_no_part(items: Seq<Found>, value: Seq<char>)
    requires
        forall|j: int|
            0 <= j < coalesced(items).len() ==> (#[trigger] coalesced(items)[j]).value != value,
    ensures
        with_value(items, value).len() == 0,
{
    broadcast use vstd::seq_lib::group_filter_ensures;

    law_coalesced(items);
    let has = |x: Found| x.value == value;
    let parts = items.filter(has);
    if parts.len() > 0 {
        lemma_filter_member(items, has, 0);
        let i = choose|i: int| 0 <= i < items.len() && items[i] == parts[0];
        assert(items[i].value == value);
        let j = choose|j: int|
            0 <= j < coalesced(items).len() && (#[trigger] coalesced(items)[j]).value
                == items[i].value;
        assert(coalesced(items)[j].value != value);
    }
}

proof fn lemma_filter_member(items: Seq<Found>, p: spec_fn(Found) -> bool, i: int)
    requires
        0 <= i < items.filter(p).len(),
    ensures
        items.contains(items.filter(p)[i]),
        p(items.filter(p)[i]),
    decreases items.len(),
{
    reveal(Seq::filter);
    if items.len() > 0 {
        let less = items.drop_last();
        if i < less.filter(p).len() {
            lemma_filter_member(less, p, i);
            let x = less.filter(p)[i];
            let k = choose|k: int| 0 <= k < less.len() && less[k] == x;
            assert(items[k] == x);
        } else {
            assert(items[items.len() - 1] == items.filter(p)[i]);
        }
    }
}

proof fn lemma_cardinality_pushed(items: Seq<Found>, x: Found)
    ensures
        cardinality_of(items.push(x)) == cardinality_of(items) + x.cardinality,
{
    let numbers = items.push(x).map_values(|x: Found| x.cardinality as nat);
    assert(numbers.drop_last() =~= items.map_values(|x: Found| x.cardinality as nat));
    assert(numbers.last() == x.cardinality as nat);
}

/// An index key is told as a label and a value where it is one of the two, both are texts, and some
/// of the series have it; with the number of these.
pub proof fn law_pair(terms: TermMap, series: Set<u64>, k: Seq<u8>)
    ensures
        pair_of(terms, series, k) is Some <==> {
            &&& is_term_key(k)
            &&& vstd::utf8::valid_utf8(key_name(k))
            &&& vstd::utf8::valid_utf8(key_value(k))
            &&& terms[k].intersect(series).len() > 0
        },
        pair_of(terms, series, k) matches Some(p) ==> {
            &&& vstd::utf8::encode_utf8(p.name) == key_name(k)
            &&& vstd::utf8::encode_utf8(p.value) == key_value(k)
            &&& p.count == capped(terms[k].intersect(series).len())
        },
{
    if pair_of(terms, series, k) is Some {
        vstd::utf8::decode_utf8_encode_utf8(key_name(k));
        vstd::utf8::decode_utf8_encode_utf8(key_value(k));
    }
}

/// Every index key that tells of a label and a value tells of one pair, in the order of the keys.
pub proof fn law_pairs(terms: TermMap, series: Set<u64>, keys: Seq<Seq<u8>>)
    ensures
        pairs_of(terms, series, keys) == keys.filter(
            |k: Seq<u8>| pair_of(terms, series, k) is Some,
        ).map_values(|k: Seq<u8>| pair_of(terms, series, k)->0),
    decreases keys.len(),
{
    reveal(Seq::filter);
    let told = |k: Seq<u8>| pair_of(terms, series, k) is Some;
    let of = |k: Seq<u8>| pair_of(terms, series, k)->0;
    if keys.len() > 0 {
        let less = keys.drop_last();
        law_pairs(terms, series, less);
        assert(keys.filter(told).map_values(of) =~= if told(keys.last()) {
            less.filter(told).map_values(of).push(of(keys.last()))
        } else {
            less.filter(told).map_values(of)
        });
    } else {
        assert(keys.filter(told).map_values(of) =~= Seq::<Pair>::empty());
    }
}

/// The values of a label are those of its pairs, with their counts.
pub proof fn law_value_items(pairs: Seq<Pair>, name: Seq<char>)
    ensures
        value_items(pairs, name).len() == pairs.filter(|p: Pair| p.name == name).len(),
        forall|i: int|
            0 <= i < value_items(pairs, name).len() ==> is_item_of(
                #[trigger] value_items(pairs, name)[i],
                pairs.filter(|p: Pair| p.name == name)[i],
            ),
    decreases pairs.len(),
{
    reveal(Seq::filter);
    if pairs.len() > 0 {
        let less = pairs.drop_last();
        law_value_items(less, name);
        let has = |p: Pair| p.name == name;
        assert forall|i: int| 0 <= i < value_items(pairs, name).len() implies is_item_of(
            #[trigger] value_items(pairs, name)[i],
            pairs.filter(has)[i],
        ) by {
            if i < value_items(less, name).len() {
                assert(value_items(pairs, name)[i] == value_items(less, name)[i]);
                assert(pairs.filter(has)[i] == less.filter(has)[i]);
            }
        }
    }
}

/// A value with the count of a pair.
pub open spec fn is_item_of(x: Found, p: Pair) -> bool {
    x.value == p.value && x.cardinality == p.count
}

/// A list of figures holds the most frequent of some items: as many as are asked for, each with its
/// count, those with a larger count first and those with the same count in the order of the texts.
pub open spec fn are_most_frequent(
    items: Seq<Found>,
    limit: nat,
    out: Seq<(Seq<char>, u64)>,
) -> bool {
    exists|best: Seq<Found>|
        {
            &&& #[trigger] are_first(SearchResultOrdering::CardinalityDesc, items, limit, best)
            &&& out.len() == best.len()
            &&& forall|i: int|
                0 <= i < out.len() ==> (#[trigger] out[i]).0 == best[i].value && out[i].1
                    == best[i].cardinality
        }
}

/// The top of items that differ in their texts are the most frequent of them.
pub proof fn law_top(items: Seq<Found>, limit: nat)
    requires
        values_differ(items),
    ensures
        are_most_frequent(items, limit, top(items, limit)),
{
    let order = SearchResultOrdering::CardinalityDesc;
    law_best_are_first(order, items, limit);
    assert(are_first(order, items, limit, best_of(order, items, limit)));
}

/// The figures tell the number of the series, that of the labels that they have, that of the pairs of
/// a label and a value that they have, and the most frequent labels.
pub proof fn law_stats(
    terms: TermMap,
    series: Set<u64>,
    label: Seq<char>,
    limit: nat,
    r: PostingsStats,
)
    requires
        is_stats(terms, series, label, limit, r),
    ensures
        ({
            let pairs = pairs_of(terms, series, all_keys(terms));
            &&& r.series_count == capped(series.len())
            &&& r.total_label_value_pairs == pairs.len()
            &&& exists|names: Seq<Found>|
                {
                    &&& #[trigger] are_names_of(pairs, names)
                    &&& r.label_count == names.len()
                    &&& are_most_frequent(
                        names,
                        limit,
                        stats_view(r.series_count_by_label_name@),
                    )
                }
        }),
{
    let pairs = pairs_of(terms, series, all_keys(terms));
    let items = name_items(pairs);
    let names = coalesced(items);
    law_joined(items);
    law_coalesced(items);
    law_top(names, limit);
    assert(are_names_of(pairs, names)) by {
        assert forall|i: int| 0 <= i < pairs.len() implies exists|j: int|
            0 <= j < names.len() && (#[trigger] names[j]).value == (#[trigger] pairs[i]).name by {
            assert(items[i].value == pairs[i].name);
        }
        assert forall|j: int| 0 <= j < names.len() implies is_name_total(
            pairs,
            #[trigger] names[j],
        ) by {
            assert(is_joined(items, names[j]));
            lemma_name_parts(pairs, names[j].value);
        }
    }
}

/// The figures tell the most frequent names of metrics, the most frequent values of the label that is
/// asked for, or of the names of metrics where none is, and the most frequent pairs.
pub proof fn law_stats_values(
    terms: TermMap,
    series: Set<u64>,
    label: Seq<char>,
    limit: nat,
    r: PostingsStats,
    keys: Seq<Seq<u8>>,
)
    requires
        is_stats(terms, series, label, limit, r),
        lists_keys(terms, keys),
    ensures
        ({
            let pairs = pairs_of(terms, series, keys);
            let focus = if label.len() == 0 {
                "__name__"@
            } else {
                label
            };
            &&& are_most_frequent(
                value_items(pairs, "__name__"@),
                limit,
                stats_view(r.series_count_by_metric_name@),
            )
            &&& r.series_count_by_focus_label_value is Some
            &&& are_most_frequent(
                value_items(pairs, focus),
                limit,
                stats_view(r.series_count_by_focus_label_value->0@),
            )
            &&& stats_view(r.series_count_by_label_value_pairs@) == top(pair_items(pairs), limit)
            &&& forall|i: int|
                0 <= i < pairs.len() ==> (#[trigger] pair_items(pairs)[i]).value == pairs[i].name
                    + seq!['='] + pairs[i].value && pair_items(pairs)[i].cardinality
                    == pairs[i].count
        }),
{
    lemma_all_keys(terms, keys);
    let pairs = pairs_of(terms, series, keys);
    let focus = if label.len() == 0 {
        "__name__"@
    } else {
        label
    };
    assert forall|i: int, j: int| 0 <= i < j < keys.len() implies #[trigger] keys[i]
        != #[trigger] keys[j] by {
        assert(lex_less(keys[i], keys[j]));
        lemma_lex_irreflexive(keys[i]);
    }
    lemma_values_differ(terms, series, keys, "__name__"@);
    lemma_values_differ(terms, series, keys, focus);
    law_top(value_items(pairs, "__name__"@), limit);
    law_top(value_items(pairs, focus), limit);
    assert forall|i: int| 0 <= i < pairs.len() implies (#[trigger] pair_items(pairs)[i]).value
        == pairs[i].name + seq!['='] + pairs[i].value by {
        assert(pair_text(pairs[i]) =~= pairs[i].name + seq!['='] + pairs[i].value);
    }
}

/// An item tells of one of some keys.
spec fn is_from(keys: Seq<Seq<u8>>, name: Seq<char>, x: Found) -> bool {
    exists|i: int|
        {
            &&& 0 <= i < keys.len()
            &&& is_term_key(#[trigger] keys[i])
            &&& key_name(keys[i]) == vstd::utf8::encode_utf8(name)
            &&& key_value(keys[i]) == vstd::utf8::encode_utf8(x.value)
        }
}

/// Keys that differ have different values of a label.
#[verifier::rlimit(40)]
proof fn lemma_values_differ(
    terms: TermMap,
    series: Set<u64>,
    keys: Seq<Seq<u8>>,
    name: Seq<char>,
)
    requires
        forall|i: int, j: int|
            0 <= i < j < keys.len() ==> #[trigger] keys[i] != #[trigger] keys[j],
    ensures
        values_differ(value_items(pairs_of(terms, series, keys), name)),
        forall|i: int|
            0 <= i < value_items(pairs_of(terms, series, keys), name).len() ==> is_from(
                keys,
                name,
                #[trigger] value_items(pairs_of(terms, series, keys), name)[i],
            ),
    decreases keys.len(),
{
    if keys.len() > 0 {
        let less = keys.drop_last();
        let last = keys.last();
        assert forall|i: int, j: int| 0 <= i < j < less.len() implies #[trigger] less[i]
            != #[trigger] less[j] by {
            assert(less[i] == keys[i] && less[j] == keys[j]);
        }
        lemma_values_differ(terms, series, less, name);
        let before = value_items(pairs_of(terms, series, less), name);
        let now = value_items(pairs_of(terms, series, keys), name);
        law_pair(terms, series, last);
        assert forall|i: int| 0 <= i < before.len() implies is_from(keys, name, #[trigger] before[i]) by {
            assert(is_from(less, name, before[i]));
            let k = choose|k: int|
                {
                    &&& 0 <= k < less.len()
                    &&& is_term_key(#[trigger] less[k])
                    &&& key_name(less[k]) == vstd::utf8::encode_utf8(name)
                    &&& key_value(less[k]) == vstd::utf8::encode_utf8(before[i].value)
                };
            assert(keys[k] == less[k]);
        }
        if let Some(p) = pair_of(terms, series, last) {
            assert(pairs_of(terms, series, keys).drop_last() =~= pairs_of(terms, series, less));
            if p.name == name {
                let x = counted(p.value, p.count);
                assert(now == before.push(x));
                assert(keys[keys.len() - 1] == last);
                assert(is_from(keys, name, x));
                assert forall|i: int| 0 <= i < before.len() implies (#[trigger] before[i]).value
                    != x.value by {
                    assert(is_from(less, name, before[i]));
                    let k = choose|k: int|
                        {
                            &&& 0 <= k < less.len()
                            &&& is_term_key(#[trigger] less[k])
                            &&& key_name(less[k]) == vstd::utf8::encode_utf8(name)
                            &&& key_value(less[k]) == vstd::utf8::encode_utf8(before[i].value)
                        };
                    assert(keys[k] == less[k]);
                    if before[i].value == x.value {
                        lemma_key_made(keys[k]);
                        lemma_key_made(last);
                        assert(keys[k] != keys[keys.len() - 1]);
                    }
                }
            } else {
                assert(now == before);
            }
        } else {
            assert(now == before);
        }
    }
}

/// A key is made of its name and its value.
proof fn lemma_key_made(k: Seq<u8>)
    requires
        is_term_key(k),
    ensures
        k == term_key(key_name(k), key_value(k)),
{
    lemma_separator_at(k);
    assert(k =~= term_key(key_name(k), key_value(k)));
}

/// The pairs of a label.
pub open spec fn pairs_named(pairs: Seq<Pair>, name: Seq<char>) -> Seq<Pair> {
    pairs.filter(|p: Pair| p.name == name)
}

/// The counts of pairs added up.
pub open spec fn counts_total(pairs: Seq<Pair>) -> nat {
    total(pairs.map_values(|p: Pair| p.count as nat))
}

/// A label with the sum of the counts of its pairs, of which there are some.
pub open spec fn is_name_total(pairs: Seq<Pair>, x: Found) -> bool {
    let own = pairs_named(pairs, x.value);
    &&& own.len() > 0
    &&& x.cardinality == if counts_total(own) > u64::MAX {
        u64::MAX as nat
    } else {
        counts_total(own)
    }
}

/// The labels of pairs, each once.
pub open spec fn are_names_of(pairs: Seq<Pair>, names: Seq<Found>) -> bool {
    &&& values_differ(names)
    &&& forall|i: int|
        0 <= i < pairs.len() ==> exists|j: int|
            0 <= j < names.len() && (#[trigger] names[j]).value == (#[trigger] pairs[i]).name
    &&& forall|j: int| 0 <= j < names.len() ==> is_name_total(pairs, #[trigger] names[j])
}

proof fn lemma_name_parts(pairs: Seq<Pair>, name: Seq<char>)
    ensures
        with_value(name_items(pairs), name).len() == pairs_named(pairs, name).len(),
        cardinality_of(with_value(name_items(pairs), name)) == counts_total(
            pairs_named(pairs, name),
        ),
    decreases pairs.len(),
{
    reveal(Seq::filter);
    let items = name_items(pairs);
    if pairs.len() > 0 {
        let less = pairs.drop_last();
        lemma_name_parts(less, name);
        lemma_parts(items, name);
        assert(items.drop_last() =~= name_items(less));
        assert(items.last() == counted(pairs.last().name, pairs.last().count));
        let own = pairs_named(less, name);
        if pairs.last().name == name {
            lemma_cardinality_pushed(with_value(name_items(less), name), items.last());
            let numbers = own.push(pairs.last()).map_values(|p: Pair| p.count as nat);
            assert(numbers.drop_last() =~= own.map_values(|p: Pair| p.count as nat));
            assert(numbers.last() == pairs.last().count as nat);
            assert(pairs_named(pairs, name) == own.push(pairs.last()));
        }
    } else {
        assert(items =~= Seq::<Found>::empty());
        assert(with_value(items, name) =~= Seq::<Found>::empty());
        assert(with_value(items, name).map_values(|x: Found| x.cardinality as nat)
            =~= pairs_named(pairs, name).map_values(|p: Pair| p.count as nat));
    }
}

} // verus!
