//! How many series have which labels.
use crate::bytes::{lemma_lex_asymmetric, lex_less, utf8_text};
use crate::index::label_querier::METRIC_NAME_LABEL;
use crate::index::label_scan::lemma_ascending_unique;
use crate::postings::bitmap::{capped, list_size};
use crate::index::label_search::{
    best_of, coalesce, coalesced, collect_limited_with_heap, found, law_coalesced, scored, Found,
    LabelSearchResult, SearchResultOrdering,
};
use crate::postings::bitmap::ids_of;
use crate::postings::key::{is_sealed, is_term_key, key_name, key_value, split_key};
use crate::postings::label_index::{is_entry, TermMap};
use crate::postings::{Postings, PostingsBitmap};
use crate::sample::is_nan;
use crate::text::{push_text, text_equal, text_of};
use vstd::prelude::*;

verus! {

/// A name, and how many series have it.
#[derive(Debug, Clone, PartialEq, Eq)]
pub struct PostingStat {
    pub name: String,
    pub count: u64,
}

/// How many series have which labels. Each list holds the names that most series have.
#[derive(Debug, Clone, PartialEq, Eq)]
pub struct PostingsStats {
    pub series_count: u64,
    /// How many labels there are.
    pub label_count: u64,
    /// How many values all labels have together.
    pub total_label_value_pairs: u64,
    pub series_count_by_metric_name: Vec<PostingStat>,
    pub series_count_by_label_name: Vec<PostingStat>,
    pub series_count_by_label_value_pairs: Vec<PostingStat>,
    pub series_count_by_focus_label_value: Option<Vec<PostingStat>>,
}

/// The keys of a dictionary, in order.
pub open spec fn lists_keys(terms: TermMap, keys: Seq<Seq<u8>>) -> bool {
    &&& forall|i: int, j: int|
        0 <= i < j < keys.len() ==> lex_less(#[trigger] keys[i], #[trigger] keys[j])
    &&& forall|i: int| 0 <= i < keys.len() ==> terms.contains_key(#[trigger] keys[i])
    &&& forall|k: Seq<u8>| #[trigger] terms.contains_key(k) ==> keys.contains(k)
}

/// The keys of a dictionary, in order.
pub open spec fn all_keys(terms: TermMap) -> Seq<Seq<u8>> {
    choose|keys: Seq<Seq<u8>>| lists_keys(terms, keys)
}

/// There is one list of the keys of a dictionary.
pub proof fn lemma_all_keys(terms: TermMap, keys: Seq<Seq<u8>>)
    requires
        lists_keys(terms, keys),
    ensures
        all_keys(terms) == keys,
{
    let chosen = all_keys(terms);
    assert(lists_keys(terms, chosen));
    assert forall|k: Seq<u8>| #[trigger] chosen.contains(k) == keys.contains(k) by {
        if chosen.contains(k) {
            let i = choose|i: int| 0 <= i < chosen.len() && chosen[i] == k;
            assert(terms.contains_key(chosen[i]));
        }
        if keys.contains(k) {
            let i = choose|i: int| 0 <= i < keys.len() && keys[i] == k;
            assert(terms.contains_key(keys[i]));
        }
    }
    let less = |a: Seq<u8>, b: Seq<u8>| lex_less(a, b);
    assert forall|x: Seq<u8>, y: Seq<u8>| #[trigger] less(x, y) implies !less(y, x) by {
        lemma_lex_asymmetric(x, y);
    }
    lemma_ascending_unique(chosen, keys, less);
}

/// A label and a value, and how many of some series have them.
pub ghost struct Pair {
    pub name: Seq<char>,
    pub value: Seq<char>,
    pub count: u64,
}

/// The label and the value of a key, where both are texts and some series has them.
pub open spec fn pair_of(terms: TermMap, series: Set<u64>, k: Seq<u8>) -> Option<Pair> {
    let count = capped(terms[k].intersect(series).len());
    if count > 0 && is_term_key(k) && vstd::utf8::valid_utf8(key_name(k)) && vstd::utf8::valid_utf8(
        key_value(k),
    ) {
        Some(
            Pair {
                name: vstd::utf8::decode_utf8(key_name(k)),
                value: vstd::utf8::decode_utf8(key_value(k)),
                count,
            },
        )
    } else {
        None
    }
}

/// The labels and values that some series have.
pub open spec fn pairs_of(terms: TermMap, series: Set<u64>, keys: Seq<Seq<u8>>) -> Seq<Pair>
    decreases keys.len(),
{
    if keys.len() == 0 {
        Seq::empty()
    } else {
        let done = pairs_of(terms, series, keys.drop_last());
        match pair_of(terms, series, keys.last()) {
            Some(p) => done.push(p),
            None => done,
        }
    }
}

/// A label with its value.
pub open spec fn pair_text(p: Pair) -> Seq<char> {
    p.name.push('=') + p.value
}

/// A text with a count.
pub open spec fn counted(value: Seq<char>, count: u64) -> Found {
    Found { value, score: 0, cardinality: count }
}

/// The pairs as texts with their counts.
pub open spec fn pair_items(pairs: Seq<Pair>) -> Seq<Found> {
    pairs.map_values(|p: Pair| counted(pair_text(p), p.count))
}

/// The labels with their counts, one for each value.
pub open spec fn name_items(pairs: Seq<Pair>) -> Seq<Found> {
    pairs.map_values(|p: Pair| counted(p.name, p.count))
}

/// The values of a label with their counts.
pub open spec fn value_items(pairs: Seq<Pair>, name: Seq<char>) -> Seq<Found>
    decreases pairs.len(),
{
    if pairs.len() == 0 {
        Seq::empty()
    } else {
        let done = value_items(pairs.drop_last(), name);
        if pairs.last().name == name {
            done.push(counted(pairs.last().value, pairs.last().count))
        } else {
            done
        }
    }
}

/// The names that most series have, those with the same count in order.
pub open spec fn top(items: Seq<Found>, limit: nat) -> Seq<(Seq<char>, u64)> {
    best_of(SearchResultOrdering::CardinalityDesc, items, limit).map_values(
        |f: Found| (f.value, f.cardinality),
    )
}

/// The names and the counts of a list.
pub open spec fn stats_view(stats: Seq<PostingStat>) -> Seq<(Seq<char>, u64)> {
    stats.map_values(|s: PostingStat| (s.name@, s.count))
}

/// How many of some series have which labels. Where no label is asked for, the label that holds
/// the name of a metric is.
pub open spec fn is_stats(
    terms: TermMap,
    series: Set<u64>,
    label: Seq<char>,
    limit: nat,
    r: PostingsStats,
) -> bool {
    let pairs = pairs_of(terms, series, all_keys(terms));
    let names = coalesced(name_items(pairs));
    let focus = if label.len() == 0 {
        METRIC_NAME_LABEL@
    } else {
        label
    };
    &&& r.series_count == capped(series.len())
    &&& r.label_count == names.len()
    &&& r.total_label_value_pairs == pairs.len()
    &&& stats_view(r.series_count_by_metric_name@) == top(
        value_items(pairs, METRIC_NAME_LABEL@),
        limit,
    )
    &&& stats_view(r.series_count_by_label_name@) == top(names, limit)
    &&& stats_view(r.series_count_by_label_value_pairs@) == top(pair_items(pairs), limit)
    &&& r.series_count_by_focus_label_value is Some
    &&& stats_view(r.series_count_by_focus_label_value->0@) == top(
        value_items(pairs, focus),
        limit,
    )
}

/// A label and a value with a count.
struct CountedPair {
    name: String,
    value: String,
    count: u64,
}

spec fn pair_view(p: CountedPair) -> Pair {
    Pair { name: p.name@, value: p.value@, count: p.count }
}

spec fn pair_views(pairs: Seq<CountedPair>) -> Seq<Pair> {
    pairs.map_values(|p: CountedPair| pair_view(p))
}

/// Reads one entry of the index.
fn read_pair(key: &Vec<u8>, list: &PostingsBitmap, series: &PostingsBitmap, Ghost(terms): Ghost<
    TermMap,
>) -> (r: Option<CountedPair>)
    requires
        is_sealed(key@),
        is_entry(terms, key@, *list),
    ensures
        match pair_of(terms, ids_of(*series), key@) {
            Some(p) => r is Some && pair_view(r->0) == p,
            None => r is None,
        },
{
    let mut both = list.clone();
    both.and_inplace(series);
    let count: u64 = list_size(&both);
    if count == 0 {
        return None;
    }
    match split_key(key.as_slice()) {
        None => None,
        Some((name, value)) => match (utf8_text(name), utf8_text(value)) {
            (Some(n), Some(v)) => {
                proof {
                    vstd::utf8::encode_utf8_decode_utf8(n@);
                    vstd::utf8::encode_utf8_valid_utf8(n@);
                    vstd::utf8::encode_utf8_decode_utf8(v@);
                    vstd::utf8::encode_utf8_valid_utf8(v@);
                }
                Some(CountedPair { name: n.to_owned(), value: v.to_owned(), count })
            },
            _ => None,
        },
    }
}

/// Reads the labels and values that some series have.
fn read_pairs(postings: &Postings, series: &PostingsBitmap) -> (r: Vec<CountedPair>)
    requires
        postings.wf(),
    ensures
        pair_views(r@) == pairs_of(postings.terms(), ids_of(*series), all_keys(postings.terms())),
{
    let ghost terms = postings.terms();
    let ghost ids = ids_of(*series);
    let entries = postings.label_index.entries();
    let ghost keys = entries@.map_values(|e: (&Vec<u8>, &PostingsBitmap)| e.0@);
    let mut out: Vec<CountedPair> = Vec::new();
    let mut i: usize = 0;
    proof {
        assert(keys.take(0) =~= Seq::<Seq<u8>>::empty());
        assert(pair_views(out@) =~= Seq::<Pair>::empty());
    }
    while i < entries.len()
        invariant
            i <= entries@.len(),
            postings.wf(),
            terms == postings.terms(),
            ids == ids_of(*series),
            keys == entries@.map_values(|e: (&Vec<u8>, &PostingsBitmap)| e.0@),
            forall|j: int|
                0 <= j < entries@.len() ==> is_entry(
                    terms,
                    (#[trigger] entries@[j]).0@,
                    *entries@[j].1,
                ),
            pair_views(out@) == pairs_of(terms, ids, keys.take(i as int)),
        decreases entries.len() - i,
    {
        let (key, list) = entries[i];
        proof {
            assert(is_entry(terms, entries@[i as int].0@, *entries@[i as int].1));
            assert(keys.take(i + 1).drop_last() =~= keys.take(i as int));
            assert(keys.take(i + 1).last() == key@);
            assert(terms.contains_key(key@));
        }
        let ghost was = out@;
        if let Some(p) = read_pair(key, list, series, Ghost(terms)) {
            let ghost v = pair_view(p);
            out.push(p);
            assert(pair_views(out@) =~= pair_views(was).push(v));
        }
        i += 1;
    }
    proof {
        assert(keys.take(i as int) =~= keys);
        assert forall|j: int| 0 <= j < keys.len() implies terms.contains_key(#[trigger] keys[j]) by {
            assert(is_entry(terms, entries@[j].0@, *entries@[j].1));
        }
        assert forall|k: Seq<u8>| #[trigger] terms.contains_key(k) implies keys.contains(k) by {
            let j = choose|j: int| 0 <= j < entries@.len() && #[trigger] entries@[j].0@ == k;
            assert(keys[j] == k);
        }
        assert forall|a: int, b: int| 0 <= a < b < keys.len() implies lex_less(
            #[trigger] keys[a],
            #[trigger] keys[b],
        ) by {
            assert(lex_less(entries@[a].0@, entries@[b].0@));
        }
        lemma_all_keys(terms, keys);
    }
    out
}

/// The names that most series have.
fn top_stats(items: Vec<LabelSearchResult>, limit: usize) -> (r: Vec<PostingStat>)
    requires
        scored(found(items@)),
    ensures
        stats_view(r@) == top(found(items@), limit as nat),
{
    let best = collect_limited_with_heap(items, SearchResultOrdering::CardinalityDesc, limit);
    let ghost views = found(best.results@);
    let mut out: Vec<PostingStat> = Vec::new();
    let mut i: usize = 0;
    while i < best.results.len()
        invariant
            i <= best.results@.len(),
            views == found(best.results@),
            out@.len() == i,
            forall|k: int|
                0 <= k < i ==> ((#[trigger] out@[k]).name@, out@[k].count) == (
                    views[k].value,
                    views[k].cardinality,
                ),
        decreases best.results.len() - i,
    {
        let item = &best.results[i];
        out.push(PostingStat { name: item.value.as_str().to_owned(), count: item.cardinality });
        i += 1;
    }
    assert(stats_view(out@) =~= top(found(items@), limit as nat));
    out
}

proof fn lemma_zero_scored(items: Seq<Found>)
    requires
        forall|i: int| 0 <= i < items.len() ==> (#[trigger] items[i]).score == 0,
    ensures
        scored(items),
{
    assert(!is_nan(0u64));
}

/// The pairs as texts with their counts.
fn list_pairs(pairs: &Vec<CountedPair>) -> (r: Vec<LabelSearchResult>)
    ensures
        found(r@) == pair_items(pair_views(pairs@)),
        scored(found(r@)),
{
    let mut out: Vec<LabelSearchResult> = Vec::new();
    let mut i: usize = 0;
    while i < pairs.len()
        invariant
            i <= pairs@.len(),
            out@.len() == i,
            forall|k: int|
                0 <= k < i ==> (#[trigger] out@[k])@ == counted(
                    pair_text(pair_view(pairs@[k])),
                    pairs@[k].count,
                ),
        decreases pairs.len() - i,
    {
        let p = &pairs[i];
        let mut text: Vec<char> = Vec::new();
        push_text(&mut text, p.name.as_str());
        text.push('=');
        push_text(&mut text, p.value.as_str());
        assert(text@ =~= pair_text(pair_view(*p)));
        out.push(
            LabelSearchResult { value: text_of(text.as_slice()), score: 0, cardinality: p.count },
        );
        i += 1;
    }
    proof {
        assert(found(out@) =~= pair_items(pair_views(pairs@)));
        lemma_zero_scored(found(out@));
    }
    out
}

/// The labels with their counts, one for each value.
fn list_names(pairs: &Vec<CountedPair>) -> (r: Vec<LabelSearchResult>)
    ensures
        found(r@) == name_items(pair_views(pairs@)),
        scored(found(r@)),
{
    let mut out: Vec<LabelSearchResult> = Vec::new();
    let mut i: usize = 0;
    while i < pairs.len()
        invariant
            i <= pairs@.len(),
            out@.len() == i,
            forall|k: int|
                0 <= k < i ==> (#[trigger] out@[k])@ == counted(pairs@[k].name@, pairs@[k].count),
        decreases pairs.len() - i,
    {
        out.push(
            LabelSearchResult {
                value: pairs[i].name.as_str().to_owned(),
                score: 0,
                cardinality: pairs[i].count,
            },
        );
        i += 1;
    }
    proof {
        assert(found(out@) =~= name_items(pair_views(pairs@)));
        lemma_zero_scored(found(out@));
    }
    out
}

/// The values of a label with their counts.
fn list_values(pairs: &Vec<CountedPair>, name: &str) -> (r: Vec<LabelSearchResult>)
    ensures
        found(r@) == value_items(pair_views(pairs@), name@),
        scored(found(r@)),
{
    let ghost views = pair_views(pairs@);
    let mut out: Vec<LabelSearchResult> = Vec::new();
    let mut i: usize = 0;
    proof {
        assert(views.take(0) =~= Seq::<Pair>::empty());
        assert(found(out@) =~= Seq::<Found>::empty());
    }
    while i < pairs.len()
        invariant
            i <= pairs@.len(),
            views == pair_views(pairs@),
            found(out@) == value_items(views.take(i as int), name@),
            forall|k: int| 0 <= k < out@.len() ==> (#[trigger] out@[k]).score == 0,
        decreases pairs.len() - i,
    {
        let ghost was = out@;
        assert(views.take(i + 1).drop_last() =~= views.take(i as int));
        assert(views.take(i + 1).last() == pair_view(pairs@[i as int]));
        if text_equal(pairs[i].name.as_str(), name) {
            let item = LabelSearchResult {
                value: pairs[i].value.as_str().to_owned(),
                score: 0,
                cardinality: pairs[i].count,
            };
            let ghost x = item@;
            out.push(item);
            assert(found(out@) =~= found(was).push(x));
        }
        i += 1;
    }
    proof {
        assert(views.take(i as int) =~= views);
        lemma_zero_scored(found(out@));
    }
    out
}

impl Postings {
    /// How many of some series have which labels.
    pub fn stats_for(&self, series: &PostingsBitmap, label: &str, limit: usize) -> (r: PostingsStats)
        requires
            self.wf(),
        ensures
            is_stats(self.terms(), ids_of(*series), label@, limit as nat, r),
    {
        let pairs = read_pairs(self, series);
        assert(pair_views(pairs@).len() == pairs@.len());
        let focus: &str = if label.is_empty() {
            METRIC_NAME_LABEL
        } else {
            label
        };
        let series_count: u64 = list_size(series);
        let metric_items = list_values(&pairs, METRIC_NAME_LABEL);
        let focus_items = list_values(&pairs, focus);
        let pair_list = list_pairs(&pairs);
        let all_names = list_names(&pairs);
        proof {
            law_coalesced(found(all_names@));
        }
        let names = coalesce(all_names);
        assert(found(names@).len() == names@.len());
        let label_count: u64 = names.len() as u64;
        PostingsStats {
            series_count,
            label_count,
            total_label_value_pairs: pairs.len() as u64,
            series_count_by_metric_name: top_stats(metric_items, limit),
            series_count_by_label_name: top_stats(names, limit),
            series_count_by_label_value_pairs: top_stats(pair_list, limit),
            series_count_by_focus_label_value: Some(top_stats(focus_items, limit)),
        }
    }
}

} // verus!
