//! What a search for label names or values finds, and in which order.
use crate::bytes::{
    bytes_less, lemma_lex_asymmetric, lemma_lex_irreflexive, lemma_lex_total, lemma_lex_transitive,
    lex_less, utf8,
};
use crate::index::best::keep_best;
use crate::labels::SeriesSelector;
use crate::querier::MetaDateRangeFilter;
use crate::sample::{is_nan, order_value, value_is_nan, value_order};
use crate::text::{chars_equal, chars_of, chars_small, small_text};
use crate::text_map::{empty_map, entries_of, number_under, put_number};
use vstd::prelude::*;

verus! {

/// How many results there are where nothing else is asked for.
pub const SEARCH_RESULT_DEFAULT_LIMIT: usize = 100;

/// How many results there are at most.
pub const SEARCH_RESULT_LIMIT_MAX: usize = 1000;

/// What results can be sorted by.
#[derive(Debug, Clone, Copy, PartialEq, Eq, Structural)]
pub enum SortBy {
    Value,
    Score,
    Cardinality,
}

/// The name of a sort key.
pub open spec fn sort_name(s: SortBy) -> Seq<char> {
    match s {
        SortBy::Value => "value"@,
        SortBy::Score => "score"@,
        SortBy::Cardinality => "cardinality"@,
    }
}

impl SortBy {
    /// The name of a sort key.
    pub fn name(&self) -> (r: &'static str)
        ensures
            r@ == sort_name(*self),
    {
        match self {
            SortBy::Value => "value",
            SortBy::Score => "score",
            SortBy::Cardinality => "cardinality",
        }
    }

    /// The sort key with a name, whatever the case of its letters.
    pub fn from_name(value: &str) -> (r: Option<SortBy>)
        ensures
            match r {
                Some(s) => small_text(value@) == sort_name(s),
                None => forall|s: SortBy| #[trigger] sort_name(s) != small_text(value@),
            },
    {
        let chars = chars_of(value);
        let wanted = chars_small(chars.as_slice());
        let names: [SortBy; 3] = [SortBy::Value, SortBy::Score, SortBy::Cardinality];
        let mut i: usize = 0;
        while i < 3
            invariant
                i <= 3,
                wanted@ == small_text(value@),
                names@ == seq![SortBy::Value, SortBy::Score, SortBy::Cardinality],
                forall|j: int| 0 <= j < i ==> sort_name(#[trigger] names@[j]) != wanted@,
            decreases 3 - i,
        {
            let name = chars_of(names[i].name());
            if chars_equal(name.as_slice(), wanted.as_slice()) {
                return Some(names[i]);
            }
            i += 1;
        }
        proof {
            assert forall|s: SortBy| #[trigger] sort_name(s) != small_text(value@) by {
                match s {
                    SortBy::Value => {
                        assert(names@[0] == s);
                    },
                    SortBy::Score => {
                        assert(names@[1] == s);
                    },
                    SortBy::Cardinality => {
                        assert(names@[2] == s);
                    },
                }
            }
        }
        None
    }
}

impl Default for SortBy {
    fn default() -> (r: Self)
        ensures
            r == SortBy::Value,
    {
        SortBy::Value
    }
}

/// The order of results.
#[derive(Debug, Clone, Copy, PartialEq, Eq, Structural)]
pub enum SearchResultOrdering {
    /// By value, the smallest first.
    ValueAsc,
    /// By value, the largest first.
    ValueDesc,
    /// By score, the best first; then by value, the smallest first.
    ScoreDesc,
    /// By cardinality, the smallest first; then by value, the smallest first.
    CardinalityAsc,
    /// By cardinality, the largest first; then by value, the smallest first.
    CardinalityDesc,
}

impl SearchResultOrdering {
    /// Whether what is small comes first.
    pub fn is_ascending(&self) -> (r: bool)
        ensures
            r == (*self == SearchResultOrdering::ValueAsc || *self
                == SearchResultOrdering::CardinalityAsc),
    {
        matches!(self, SearchResultOrdering::ValueAsc | SearchResultOrdering::CardinalityAsc)
    }

    /// Whether what is large comes first.
    pub fn is_descending(&self) -> (r: bool)
        ensures
            r == !(*self == SearchResultOrdering::ValueAsc || *self
                == SearchResultOrdering::CardinalityAsc),
    {
        matches!(
            self,
            SearchResultOrdering::ValueDesc
            | SearchResultOrdering::ScoreDesc
            | SearchResultOrdering::CardinalityDesc
        )
    }

    /// What the order goes by.
    pub fn sort_field(&self) -> (r: SortBy)
        ensures
            r == match *self {
                SearchResultOrdering::ValueAsc => SortBy::Value,
                SearchResultOrdering::ValueDesc => SortBy::Value,
                SearchResultOrdering::ScoreDesc => SortBy::Score,
                SearchResultOrdering::CardinalityAsc => SortBy::Cardinality,
                SearchResultOrdering::CardinalityDesc => SortBy::Cardinality,
            },
    {
        match self {
            SearchResultOrdering::ValueAsc => SortBy::Value,
            SearchResultOrdering::ValueDesc => SortBy::Value,
            SearchResultOrdering::ScoreDesc => SortBy::Score,
            SearchResultOrdering::CardinalityAsc => SortBy::Cardinality,
            SearchResultOrdering::CardinalityDesc => SortBy::Cardinality,
        }
    }
}

impl Default for SearchResultOrdering {
    fn default() -> (r: Self)
        ensures
            r == SearchResultOrdering::ValueAsc,
    {
        SearchResultOrdering::ValueAsc
    }
}

/// Which series a search is about.
pub struct SelectHints {
    /// What the labels of the series have to be like.
    pub selectors: Vec<SeriesSelector>,
    /// When the series have to have samples.
    pub date_range: Option<MetaDateRangeFilter>,
}

impl SelectHints {
    /// Hints of their parts.
    pub fn new(selectors: Vec<SeriesSelector>, date_range: Option<MetaDateRangeFilter>) -> (r: Self)
        ensures
            r.selectors == selectors,
            r.date_range == date_range,
    {
        SelectHints { selectors, date_range }
    }

    /// Whether a search is about all series.
    pub fn is_empty(&self) -> (r: bool)
        ensures
            r == (self.selectors@.len() == 0 && self.date_range is None),
    {
        self.selectors.len() == 0 && self.date_range.is_none()
    }
}

/// Whether a search is about all series, so that the index alone can answer it.
pub fn can_use_unscoped_scan(select_hints: Option<&SelectHints>) -> (r: bool)
    ensures
        r == match select_hints {
            Some(h) => h.selectors@.len() == 0 && h.date_range is None,
            None => true,
        },
{
    match select_hints {
        Some(h) => h.is_empty(),
        None => true,
    }
}

/// What a search is to give back.
#[derive(Debug, Clone, Copy, PartialEq, Eq, Structural)]
pub struct SearchHints {
    /// How many results there are at most.
    pub limit: usize,
    /// The order of the results.
    pub order_by: SearchResultOrdering,
    /// Whether the results tell their cardinality.
    pub include_meta: bool,
}

impl Default for SearchHints {
    fn default() -> (r: Self)
        ensures
            r.limit == SEARCH_RESULT_DEFAULT_LIMIT,
            r.order_by == SearchResultOrdering::ValueAsc,
            !r.include_meta,
    {
        SearchHints {
            limit: SEARCH_RESULT_DEFAULT_LIMIT,
            order_by: SearchResultOrdering::ValueAsc,
            include_meta: false,
        }
    }
}

impl SearchHints {
    /// Whether the cardinalities of the results are asked for.
    pub open spec fn counts(&self) -> bool {
        self.order_by == SearchResultOrdering::CardinalityAsc || self.order_by
            == SearchResultOrdering::CardinalityDesc || self.include_meta
    }

    /// Whether the cardinalities of the results are asked for.
    pub fn need_cardinality(&self) -> (r: bool)
        ensures
            r == self.counts(),
    {
        matches!(
            self.order_by,
            SearchResultOrdering::CardinalityAsc | SearchResultOrdering::CardinalityDesc
        ) || self.include_meta
    }
}

/// The limit that holds: the default one where there is none, and no more than the largest one.
pub open spec fn limit_of(limit: usize) -> usize {
    if limit == 0 {
        SEARCH_RESULT_DEFAULT_LIMIT
    } else if limit > SEARCH_RESULT_LIMIT_MAX {
        SEARCH_RESULT_LIMIT_MAX
    } else {
        limit
    }
}

/// The limit that holds.
pub fn normalize_limit(limit: usize) -> (r: usize)
    ensures
        r == limit_of(limit),
{
    let wanted: usize = if limit == 0 {
        SEARCH_RESULT_DEFAULT_LIMIT
    } else {
        limit
    };
    if wanted > SEARCH_RESULT_LIMIT_MAX {
        SEARCH_RESULT_LIMIT_MAX
    } else {
        wanted
    }
}

/// One result. The score is held as the bits of its IEEE 754 representation.
#[derive(Debug, Clone, PartialEq, Eq)]
pub struct LabelSearchResult {
    /// The name or the value that was found.
    pub value: String,
    /// How well it matches.
    pub score: u64,
    /// How many series have it, where that is known.
    pub cardinality: u64,
}

/// The bits of the score of a perfect match.
pub const PERFECT_SCORE: u64 = 0x3FF0_0000_0000_0000;

/// One result, with its text as characters.
pub ghost struct Found {
    pub value: Seq<char>,
    pub score: u64,
    pub cardinality: u64,
}

impl View for LabelSearchResult {
    type V = Found;

    open spec fn view(&self) -> Found {
        Found { value: self.value@, score: self.score, cardinality: self.cardinality }
    }
}

impl LabelSearchResult {
    /// A result that one series has.
    pub fn new(value: String, score: u64) -> (r: Self)
        ensures
            r@ == (Found { value: value@, score, cardinality: 1 }),
    {
        LabelSearchResult { value, score, cardinality: 1 }
    }
}

/// Results, with their texts as characters.
pub open spec fn found(results: Seq<LabelSearchResult>) -> Seq<Found> {
    results.map_values(|r: LabelSearchResult| r@)
}

/// All scores are numbers.
pub open spec fn scored(results: Seq<Found>) -> bool {
    forall|i: int| 0 <= i < results.len() ==> !is_nan((#[trigger] results[i]).score)
}

/// A text comes before another, byte by byte.
pub open spec fn text_before(a: Seq<char>, b: Seq<char>) -> bool {
    lex_less(utf8(a), utf8(b))
}

/// What an order other than by value goes by: the smallest first.
pub open spec fn rank(order: SearchResultOrdering, f: Found) -> int {
    match order {
        SearchResultOrdering::ScoreDesc => -value_order(f.score),
        SearchResultOrdering::CardinalityAsc => f.cardinality as int,
        SearchResultOrdering::CardinalityDesc => -(f.cardinality as int),
        _ => 0,
    }
}

/// A result comes before another.
pub open spec fn before(order: SearchResultOrdering, a: Found, b: Found) -> bool {
    if order == SearchResultOrdering::ValueDesc {
        text_before(b.value, a.value)
    } else {
        rank(order, a) < rank(order, b) || (rank(order, a) == rank(order, b) && text_before(
            a.value,
            b.value,
        ))
    }
}

/// The integer that an order other than by value goes by.
pub fn rank_of(order: SearchResultOrdering, score: u64, cardinality: u64) -> (r: i128)
    ensures
        forall|v: Seq<char>| r == #[trigger] rank(order, (Found { value: v, score, cardinality })),
{
    match order {
        SearchResultOrdering::ScoreDesc => -(order_value(score) as i128),
        SearchResultOrdering::CardinalityAsc => cardinality as i128,
        SearchResultOrdering::CardinalityDesc => -(cardinality as i128),
        _ => 0,
    }
}

/// Whether a result comes before another.
pub fn comes_before(
    order: SearchResultOrdering,
    a: &LabelSearchResult,
    b: &LabelSearchResult,
) -> (r: bool)
    ensures
        r == before(order, a@, b@),
{
    if let SearchResultOrdering::ValueDesc = order {
        return bytes_less(b.value.as_str().as_bytes(), a.value.as_str().as_bytes());
    }
    let ra: i128 = rank_of(order, a.score, a.cardinality);
    let rb: i128 = rank_of(order, b.score, b.cardinality);
    assert(ra == rank(order, a@));
    assert(rb == rank(order, b@));
    ra < rb || (ra == rb && bytes_less(a.value.as_str().as_bytes(), b.value.as_str().as_bytes()))
}

/// A result put among others that are in order: behind all that it does not come before.
pub open spec fn insert_ranked(order: SearchResultOrdering, s: Seq<Found>, x: Found) -> Seq<Found>
    decreases s.len(),
{
    if s.len() == 0 || !before(order, x, s.last()) {
        s.push(x)
    } else {
        insert_ranked(order, s.drop_last(), x).push(s.last())
    }
}

/// Results in order. Of two that neither comes before the other, the one that was first stays
/// first.
pub open spec fn ranking(order: SearchResultOrdering, items: Seq<Found>) -> Seq<Found>
    decreases items.len(),
{
    if items.len() == 0 {
        items
    } else {
        insert_ranked(order, ranking(order, items.drop_last()), items.last())
    }
}

/// The first results in order.
pub open spec fn best_of(order: SearchResultOrdering, items: Seq<Found>, limit: nat) -> Seq<Found> {
    let all = ranking(order, items);
    if all.len() > limit {
        all.take(limit as int)
    } else {
        all
    }
}

/// No result comes before one that stands before it.
pub open spec fn is_ranked(order: SearchResultOrdering, s: Seq<Found>) -> bool {
    forall|i: int, j: int| 0 <= i < j < s.len() ==> !before(order, #[trigger] s[j], #[trigger] s[i])
}

/// The order is one: what comes before something comes before all that this comes before.
pub proof fn lemma_before(order: SearchResultOrdering, a: Found, b: Found, c: Found)
    ensures
        !before(order, a, a),
        before(order, a, b) ==> !before(order, b, a),
        before(order, a, b) && before(order, b, c) ==> before(order, a, c),
        before(order, a, b) && !before(order, c, b) ==> before(order, a, c),
        !before(order, b, a) && !before(order, c, b) ==> !before(order, c, a),
        before(order, a, b) || before(order, b, a) || a.value == b.value,
{
    let (x, y, z) = (utf8(a.value), utf8(b.value), utf8(c.value));
    lemma_lex_irreflexive(x);
    lemma_lex_total(x, y);
    lemma_lex_total(y, z);
    lemma_lex_total(x, z);
    if x == y {
        crate::bytes::lemma_utf8_injective(a.value, b.value);
    }
    if lex_less(x, y) {
        lemma_lex_asymmetric(x, y);
        if lex_less(y, z) {
            lemma_lex_transitive(x, y, z);
        }
    }
    if lex_less(y, x) {
        lemma_lex_asymmetric(y, x);
        if lex_less(z, y) {
            lemma_lex_transitive(z, y, x);
        }
        if lex_less(x, z) {
            lemma_lex_transitive(y, x, z);
        }
    }
    if lex_less(y, z) {
        lemma_lex_asymmetric(y, z);
        if lex_less(z, x) {
            lemma_lex_transitive(y, z, x);
        }
    }
    if lex_less(z, y) {
        lemma_lex_asymmetric(z, y);
        if lex_less(x, z) {
            lemma_lex_transitive(x, z, y);
        }
    }
    if lex_less(x, z) {
        lemma_lex_asymmetric(x, z);
    }
    if lex_less(z, x) {
        lemma_lex_asymmetric(z, x);
        if lex_less(x, y) {
            lemma_lex_transitive(z, x, y);
        }
    }
}

proof fn lemma_insert_ranked(order: SearchResultOrdering, s: Seq<Found>, x: Found)
    requires
        is_ranked(order, s),
    ensures
        is_ranked(order, insert_ranked(order, s, x)),
        insert_ranked(order, s, x).to_multiset() == s.to_multiset().insert(x),
        insert_ranked(order, s, x).len() == s.len() + 1,
    decreases s.len(),
{
    broadcast use vstd::seq_lib::group_to_multiset_ensures;

    let out = insert_ranked(order, s, x);
    if s.len() == 0 || !before(order, x, s.last()) {
        assert forall|i: int, j: int| 0 <= i < j < out.len() implies !before(
            order,
            #[trigger] out[j],
            #[trigger] out[i],
        ) by {
            if j == s.len() {
                if i < s.len() - 1 {
                    assert(!before(order, s[s.len() - 1], s[i]));
                }
                lemma_before(order, s[i], s.last(), x);
            }
        }
    } else {
        let less = s.drop_last();
        assert(is_ranked(order, less)) by {
            assert forall|i: int, j: int| 0 <= i < j < less.len() implies !before(
                order,
                #[trigger] less[j],
                #[trigger] less[i],
            ) by {
                assert(less[i] == s[i] && less[j] == s[j]);
            }
        }
        lemma_insert_ranked(order, less, x);
        let inner = insert_ranked(order, less, x);
        assert(s =~= less.push(s.last()));
        assert(s.to_multiset() =~= less.to_multiset().insert(s.last()));
        assert(out.to_multiset() =~= inner.to_multiset().insert(s.last()));
        assert(out.to_multiset() =~= s.to_multiset().insert(x));
        assert forall|i: int, j: int| 0 <= i < j < out.len() implies !before(
            order,
            #[trigger] out[j],
            #[trigger] out[i],
        ) by {
            if j == out.len() - 1 {
                assert(inner.contains(inner[i]));
                assert(inner.to_multiset().count(inner[i]) > 0);
                if inner[i] == x {
                    lemma_before(order, x, s.last(), x);
                } else {
                    assert(less.to_multiset().count(inner[i]) > 0);
                    assert(less.contains(inner[i]));
                    let k = choose|k: int| 0 <= k < less.len() && less[k] == inner[i];
                    assert(s[k] == less[k]);
                    assert(!before(order, s[s.len() - 1], s[k]));
                }
            } else {
                assert(out[i] == inner[i] && out[j] == inner[j]);
            }
        }
    }
}

/// The ranking holds the same results, and none comes before one that stands before it.
pub proof fn law_ranking(order: SearchResultOrdering, items: Seq<Found>)
    ensures
        is_ranked(order, ranking(order, items)),
        ranking(order, items).to_multiset() == items.to_multiset(),
        ranking(order, items).len() == items.len(),
    decreases items.len(),
{
    broadcast use vstd::seq_lib::group_to_multiset_ensures;

    if items.len() > 0 {
        law_ranking(order, items.drop_last());
        lemma_insert_ranked(order, ranking(order, items.drop_last()), items.last());
        assert(items =~= items.drop_last().push(items.last()));
    }
}

/// What a limit leaves is the best: no result that it leaves out comes before one that it leaves.
pub proof fn law_best(order: SearchResultOrdering, items: Seq<Found>, limit: nat, out: Found)
    requires
        best_of(order, items, limit).to_multiset().count(out) < items.to_multiset().count(out),
    ensures
        forall|i: int|
            0 <= i < best_of(order, items, limit).len() ==> !before(
                order,
                out,
                #[trigger] best_of(order, items, limit)[i],
            ),
{
    broadcast use vstd::seq_lib::group_to_multiset_ensures;

    law_ranking(order, items);
    let all = ranking(order, items);
    let kept = best_of(order, items, limit);
    assert(all.len() > limit) by {
        if all.len() <= limit {
            assert(kept == all);
        }
    }
    let rest = all.skip(limit as int);
    assert(all =~= kept + rest);
    vstd::seq_lib::lemma_multiset_commutative(kept, rest);
    assert(rest.to_multiset().count(out) > 0);
    assert(rest.contains(out));
    let k = choose|k: int| 0 <= k < rest.len() && rest[k] == out;
    assert forall|i: int| 0 <= i < kept.len() implies !before(order, out, #[trigger] kept[i]) by {
        assert(all[i] == kept[i]);
        assert(all[limit + k] == out);
    }
}

/// What a search has found, as far as the limit goes.
#[derive(Debug, Clone, PartialEq, Eq)]
pub struct LabelQueryResult {
    /// The results, in order.
    pub results: Vec<LabelSearchResult>,
    /// Whether there is more than the limit let through.
    pub has_more: bool,
}

impl Default for LabelQueryResult {
    fn default() -> (r: Self)
        ensures
            r.results@.len() == 0,
            !r.has_more,
    {
        LabelQueryResult { results: Vec::new(), has_more: false }
    }
}

/// The first items of a list.
pub open spec fn at_most(items: Seq<Found>, limit: nat) -> Seq<Found> {
    if items.len() > limit {
        items.take(limit as int)
    } else {
        items
    }
}

/// The first results of a list, and whether there are more. A limit of 0 is none: all results
/// are kept.
pub fn collect_limited(items: Vec<LabelSearchResult>, limit: usize) -> (r: LabelQueryResult)
    ensures
        limit == 0 ==> found(r.results@) == found(items@) && !r.has_more,
        limit > 0 ==> found(r.results@) == at_most(found(items@), limit as nat),
        limit > 0 ==> r.has_more == (items@.len() > limit),
{
    if limit == 0 {
        return LabelQueryResult { results: items, has_more: false };
    }
    keep_first(items, limit)
}

/// The first results of a list, as many as are asked for, and whether there are more.
pub fn keep_first(items: Vec<LabelSearchResult>, limit: usize) -> (r: LabelQueryResult)
    ensures
        found(r.results@) == at_most(found(items@), limit as nat),
        r.has_more == (items@.len() > limit),
{
    let mut items: Vec<LabelSearchResult> = items;
    let ghost all = items@;
    let has_more: bool = items.len() > limit;
    if has_more {
        items.truncate(limit);
        assert(found(items@) =~= found(all).take(limit as int));
    }
    LabelQueryResult { results: items, has_more }
}

/// The best results of a list in an order, and whether there are more.
pub fn collect_limited_with_heap(
    items: Vec<LabelSearchResult>,
    order: SearchResultOrdering,
    limit: usize,
) -> (r: LabelQueryResult)
    requires
        scored(found(items@)),
    ensures
        found(r.results@) == best_of(order, found(items@), limit as nat),
        r.has_more == (items@.len() > limit),
{
    let has_more: bool = items.len() > limit;
    LabelQueryResult { results: keep_best(order, &items, limit), has_more }
}

/// The results that hints ask for, out of all that match.
pub fn apply_search_hints(values: Vec<LabelSearchResult>, hints: &SearchHints) -> (r:
    LabelQueryResult)
    requires
        scored(found(values@)),
    ensures
        found(r.results@) == best_of(
            hints.order_by,
            found(values@),
            limit_of(hints.limit) as nat,
        ),
        r.has_more == (values@.len() > limit_of(hints.limit)),
{
    let limit: usize = normalize_limit(hints.limit);
    collect_limited_with_heap(values, hints.order_by, limit)
}

/// The first place of a value, or the end.
pub open spec fn place_of_value(items: Seq<Found>, value: Seq<char>) -> int
    decreases items.len(),
{
    if items.len() == 0 {
        0
    } else {
        let before = place_of_value(items.drop_last(), value);
        if before < items.len() - 1 || items.last().value == value {
            before
        } else {
            items.len() as int
        }
    }
}

/// A sum that stops at the largest number.
pub open spec fn capped_sum(a: u64, b: u64) -> u64 {
    if a + b > u64::MAX {
        u64::MAX
    } else {
        (a + b) as u64
    }
}

/// The better of two scores; the first one where they cannot be compared.
pub open spec fn better_score(a: u64, b: u64) -> u64 {
    if !is_nan(a) && !is_nan(b) && value_order(b) > value_order(a) {
        b
    } else {
        a
    }
}

/// Two results with the same value as one: the better score, and the sum of the cardinalities.
pub open spec fn joined(a: Found, b: Found) -> Found {
    Found {
        value: a.value,
        score: better_score(a.score, b.score),
        cardinality: capped_sum(a.cardinality, b.cardinality),
    }
}

/// Results with those of the same value put together.
pub open spec fn coalesced(items: Seq<Found>) -> Seq<Found>
    decreases items.len(),
{
    if items.len() == 0 {
        items
    } else {
        let done = coalesced(items.drop_last());
        let x = items.last();
        let at = place_of_value(done, x.value);
        if 0 <= at < done.len() {
            done.update(at, joined(done[at], x))
        } else {
            done.push(x)
        }
    }
}

/// Where the results have a value first.
pub proof fn lemma_place_of_value(items: Seq<Found>, value: Seq<char>)
    ensures
        0 <= place_of_value(items, value) <= items.len(),
        place_of_value(items, value) < items.len() ==> items[place_of_value(items, value)].value
            == value,
        forall|k: int| 0 <= k < place_of_value(items, value) ==> (#[trigger] items[k]).value != value,
    decreases items.len(),
{
    if items.len() > 0 {
        lemma_place_of_value(items.drop_last(), value);
        let less = items.drop_last();
        assert forall|k: int| 0 <= k < place_of_value(items, value) implies (
        #[trigger] items[k]).value != value by {
            if k < less.len() {
                assert(less[k] == items[k]);
            }
        }
    }
}

/// No value comes twice.
pub open spec fn values_differ(items: Seq<Found>) -> bool {
    forall|i: int, j: int|
        0 <= i < j < items.len() ==> (#[trigger] items[i]).value != (#[trigger] items[j]).value
}

/// Once results of the same value are put together, no value comes twice, and every value is still
/// there.
pub proof fn law_coalesced(items: Seq<Found>)
    ensures
        values_differ(coalesced(items)),
        scored(items) ==> scored(coalesced(items)),
        forall|i: int|
            0 <= i < items.len() ==> exists|j: int|
                0 <= j < coalesced(items).len() && (#[trigger] coalesced(items)[j]).value == (
                #[trigger] items[i]).value,
    decreases items.len(),
{
    if items.len() > 0 {
        let less = items.drop_last();
        law_coalesced(less);
        let done = coalesced(less);
        let x = items.last();
        let at = place_of_value(done, x.value);
        lemma_place_of_value(done, x.value);
        let out = coalesced(items);
        assert forall|i: int, j: int| 0 <= i < j < out.len() implies (#[trigger] out[i]).value != (
        #[trigger] out[j]).value by {
            if j < done.len() {
                assert(out[i].value == done[i].value);
                assert(out[j].value == done[j].value);
            } else {
                assert(out[i] == done[i]);
            }
        }
        assert forall|i: int| 0 <= i < items.len() implies exists|j: int|
            0 <= j < out.len() && (#[trigger] out[j]).value == (#[trigger] items[i]).value by {
            if i == items.len() - 1 {
                if at < done.len() {
                    assert(out[at].value == x.value);
                } else {
                    assert(out[done.len() as int].value == x.value);
                }
            } else {
                assert(less[i] == items[i]);
                let j = choose|j: int|
                    0 <= j < done.len() && (#[trigger] done[j]).value == less[i].value;
                assert(out[j].value == done[j].value);
            }
        }
        if scored(items) {
            assert(scored(less)) by {
                assert forall|i: int| 0 <= i < less.len() implies !is_nan(
                    (#[trigger] less[i]).score,
                ) by {
                    assert(less[i] == items[i]);
                }
            }
            assert(!is_nan(items[items.len() - 1].score));
            assert forall|i: int| 0 <= i < out.len() implies !is_nan((#[trigger] out[i]).score) by {
                if i < done.len() {
                    assert(!is_nan(done[i].score));
                }
            }
        }
    }
}

/// Adds a result to others, putting it together with one of the same value.
fn coalesce_one(
    done: &mut Vec<LabelSearchResult>,
    places: &mut crate::text_map::TextMap,
    item: LabelSearchResult,
)
    requires
        values_differ(found(old(done)@)),
        is_place_map(entries_of(*old(places)), found(old(done)@)),
    ensures
        is_place_map(entries_of(*final(places)), found(final(done)@)),
        values_differ(found(final(done)@)),
        found(final(done)@) == ({
            let at = place_of_value(found(old(done)@), item@.value);
            if 0 <= at < found(old(done)@).len() {
                found(old(done)@).update(at, joined(found(old(done)@)[at], item@))
            } else {
                found(old(done)@).push(item@)
            }
        }),
{
    let ghost was = found(done@);
    let ghost x = item@;
    proof {
        lemma_place_of_value(was, x.value);
    }
    match number_under(places, item.value.as_str()) {
        Some(at) => {
            assert(was[at as int].value == x.value);
            assert(at == place_of_value(was, x.value)) by {
                let p = place_of_value(was, x.value);
                if p < at {
                    assert(was[p].value != was[at as int].value);
                }
            }
            let score: u64 = if !value_is_nan(item.score) && !value_is_nan(done[at].score)
                && order_value(item.score) > order_value(done[at].score) {
                item.score
            } else {
                done[at].score
            };
            let cardinality: u64 = done[at].cardinality.saturating_add(item.cardinality);
            let ghost old_at = done@[at as int]@;
            let merged = LabelSearchResult { value: item.value, score, cardinality };
            assert(merged@ == joined(old_at, x));
            done.set(at, merged);
            proof {
                assert(found(done@) =~= was.update(at as int, joined(was[at as int], x)));
                let now = found(done@);
                assert forall|i: int, j: int| 0 <= i < j < now.len() implies (
                #[trigger] now[i]).value != (#[trigger] now[j]).value by {
                    assert(now[i].value == was[i].value && now[j].value == was[j].value);
                }
                assert forall|v: Seq<char>| #[trigger] entries_of(*places).contains_key(
                    v,
                ) implies entries_of(*places)[v] < now.len() && now[entries_of(
                    *places,
                )[v] as int].value == v by {
                    assert(was[entries_of(*places)[v] as int].value == v);
                }
                assert forall|i: int| 0 <= i < now.len() implies entries_of(*places).contains_key(
                    (#[trigger] now[i]).value,
                ) by {
                    assert(entries_of(*places).contains_key(was[i].value));
                }
            }
        },
        None => {
            proof {
                let p = place_of_value(was, x.value);
                if p < was.len() {
                    assert(entries_of(*places).contains_key(was[p].value));
                }
            }
            let n: usize = done.len();
            let key: String = item.value.as_str().to_owned();
            put_number(places, key, n);
            done.push(item);
            proof {
                let now = found(done@);
                assert(now =~= was.push(x));
                assert forall|i: int, j: int| 0 <= i < j < now.len() implies (
                #[trigger] now[i]).value != (#[trigger] now[j]).value by {
                    assert(now[i] == was[i]);
                    if j < was.len() {
                        assert(now[j] == was[j]);
                    }
                }
                assert forall|v: Seq<char>| #[trigger] entries_of(*places).contains_key(
                    v,
                ) implies entries_of(*places)[v] < now.len() && now[entries_of(
                    *places,
                )[v] as int].value == v by {
                    if v != x.value {
                        assert(was[entries_of(*old(places))[v] as int].value == v);
                    }
                }
                assert forall|i: int| 0 <= i < now.len() implies entries_of(*places).contains_key(
                    (#[trigger] now[i]).value,
                ) by {
                    if i < was.len() {
                        assert(entries_of(*old(places)).contains_key(was[i].value));
                    }
                }
            }
        },
    }
}

/// The map tells where each value is.
spec fn is_place_map(m: Map<Seq<char>, usize>, items: Seq<Found>) -> bool {
    &&& forall|v: Seq<char>| #[trigger]
        m.contains_key(v) ==> m[v] < items.len() && items[m[v] as int].value == v
    &&& forall|i: int| 0 <= i < items.len() ==> m.contains_key((#[trigger] items[i]).value)
}

/// Puts results of the same value together.
pub fn coalesce(items: Vec<LabelSearchResult>) -> (r: Vec<LabelSearchResult>)
    ensures
        found(r@) == coalesced(found(items@)),
{
    let ghost all = items@;
    let mut rest: Vec<LabelSearchResult> = items;
    let mut done: Vec<LabelSearchResult> = Vec::new();
    let mut places = empty_map();
    let ghost mut n: int = 0;
    proof {
        assert(all.skip(0) =~= all);
        assert(found(all).take(0) =~= Seq::<Found>::empty());
        assert(found(done@) =~= Seq::<Found>::empty());
    }
    while rest.len() > 0
        invariant
            0 <= n <= all.len(),
            rest@ == all.skip(n),
            values_differ(found(done@)),
            is_place_map(entries_of(places), found(done@)),
            found(done@) == coalesced(found(all).take(n)),
        decreases rest.len(),
    {
        let item: LabelSearchResult = rest.remove(0);
        proof {
            assert(item == all[n]);
            assert(rest@ =~= all.skip(n + 1));
            assert(found(all).take(n + 1).drop_last() =~= found(all).take(n));
            assert(found(all).take(n + 1).last() == item@);
        }
        coalesce_one(&mut done, &mut places, item);
        proof {
            n = n + 1;
        }
    }
    proof {
        assert(found(all).take(n) =~= found(all));
    }
    done
}

impl LabelQueryResult {
    /// A result of its parts.
    pub fn new(results: Vec<LabelSearchResult>, has_more: bool) -> (r: Self)
        ensures
            r.results == results,
            r.has_more == has_more,
    {
        LabelQueryResult { results, has_more }
    }

    /// Takes in what another search has found. Results of the same value are put together; then
    /// all are put in order and limited.
    pub fn merge_from(
        &mut self,
        other: LabelQueryResult,
        order_by: SearchResultOrdering,
        limit: usize,
    )
        requires
            scored(found(old(self).results@)),
            scored(found(other.results@)),
        ensures
            found(final(self).results@) == best_of(
                order_by,
                coalesced(found(old(self).results@) + found(other.results@)),
                limit as nat,
            ),
            final(self).has_more == (old(self).has_more || other.has_more || coalesced(
                found(old(self).results@) + found(other.results@),
            ).len() > limit),
    {
        let ghost mine = self.results@;
        let ghost theirs = other.results@;
        let mut all: Vec<LabelSearchResult> = Vec::new();
        std::mem::swap(&mut all, &mut self.results);
        let mut more: Vec<LabelSearchResult> = other.results;
        all.append(&mut more);
        proof {
            assert(found(all@) =~= found(mine) + found(theirs));
            law_coalesced(found(all@));
        }
        let merged = coalesce(all);
        assert(found(merged@).len() == merged@.len());
        let best = collect_limited_with_heap(merged, order_by, limit);
        self.has_more = self.has_more || other.has_more || best.has_more;
        self.results = best.results;
    }
}

} // verus!
