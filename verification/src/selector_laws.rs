//! What the tests of selectors hold of, and how selectors come together.
use crate::bytes::{contains_bytes, occurs_at, starts_with, utf8};
use crate::index::label_filter::{compared, holds_term, lower_text};
use crate::index::label_scan::{is_value_key, label_postings, label_size};
use crate::labels::{
    created_for, matcher_accepts, refusal, value_contains, value_equals, value_starts_with,
    FilterError, LabelFilter, MatchOp, PredicateMatch, PredicateValue, SeriesSelector,
};
use crate::postings::bitmap::capped;
use crate::postings::key::term_prefix;
use crate::postings::label_index::TermMap;
use crate::postings::maintenance::{batch_lists, compacted};
use crate::postings::stale::in_batch;
use crate::postings::Postings;
use crate::regexp::regex_found;
use vstd::prelude::*;

verus! {

/// Bytes come first in others.
pub open spec fn comes_first(text: Seq<u8>, v: Seq<u8>) -> bool {
    exists|rest: Seq<u8>| v == #[trigger] (text + rest)
}

/// Bytes come somewhere in others.
pub open spec fn comes_in(text: Seq<u8>, v: Seq<u8>) -> bool {
    exists|before: Seq<u8>, after: Seq<u8>| v == #[trigger] (before + text + after)
}

proof fn lemma_comes(text: Seq<u8>, v: Seq<u8>)
    ensures
        starts_with(v, text) == comes_first(text, v),
        contains_bytes(v, text) == comes_in(text, v),
{
    let n = text.len() as int;
    if starts_with(v, text) {
        assert(v =~= text + v.skip(n));
        assert(comes_first(text, v));
    }
    if comes_first(text, v) {
        let rest = choose|rest: Seq<u8>| v == #[trigger] (text + rest);
        assert(v.subrange(0, n) =~= text);
    }
    if contains_bytes(v, text) {
        let at = choose|at: int| occurs_at(v, text, at);
        assert(v =~= v.take(at) + text + v.skip(at + n));
        assert(comes_in(text, v));
    }
    if comes_in(text, v) {
        let (before, after) = choose|before: Seq<u8>, after: Seq<u8>|
            v == #[trigger] (before + text + after);
        let at = before.len() as int;
        assert(v.subrange(at, at + n) =~= text);
        assert(occurs_at(v, text, at));
    }
}

/// A test that was created for a text holds of a value that is the text, that begins with it, that has
/// it somewhere, or that is itself a text in which the regular expression is found; the negative
/// tests hold where these do not.
pub proof fn law_test_holds(op: MatchOp, text: Seq<char>, m: PredicateMatch, v: Seq<u8>)
    requires
        created_for(op, text, m),
    ensures
        matcher_accepts(m, v) <==> match op {
            MatchOp::Equal => v == utf8(text),
            MatchOp::NotEqual => v != utf8(text),
            MatchOp::StartsWith => comes_first(utf8(text), v),
            MatchOp::NotStartsWith => !comes_first(utf8(text), v),
            MatchOp::Contains => comes_in(utf8(text), v),
            MatchOp::NotContains => !comes_in(utf8(text), v),
            MatchOp::RegexEqual => vstd::utf8::valid_utf8(v) && regex_found(
                text,
                vstd::utf8::decode_utf8(v),
            ),
            MatchOp::RegexNotEqual => !(vstd::utf8::valid_utf8(v) && regex_found(
                text,
                vstd::utf8::decode_utf8(v),
            )),
        },
{
    lemma_comes(utf8(text), v);
}

/// A text is refused where it is empty and the test asks what a value begins with or has somewhere.
pub proof fn law_test_refused(op: MatchOp, text: Seq<char>)
    ensures
        refusal(op, text) == Some(FilterError::EmptyPrefix) <==> text.len() == 0 && (op
            == MatchOp::StartsWith || op == MatchOp::NotStartsWith),
        refusal(op, text) == Some(FilterError::EmptyNeedle) <==> text.len() == 0 && (op
            == MatchOp::Contains || op == MatchOp::NotContains),
        refusal(op, text) != Some(FilterError::InvalidRegex),
{
}

/// Nothing is asked where there is no filter, or where the only one is on no label and was created for
/// an empty text. Any other filter asks something.
pub proof fn law_nothing_asked(f: LabelFilter, op: MatchOp, text: Seq<char>)
    requires
        created_for(op, text, f.matcher),
    ensures
        Postings::asks_nothing(Seq::empty()),
        Postings::asks_nothing(seq![f]) <==> f.label@.len() == 0 && text.len() == 0,
{
}

/// A list of texts holds of a value where one of them does; an empty list stands for no value.
pub proof fn law_list_holds(l: Vec<String>, v: Seq<u8>)
    ensures
        l@.len() > 0 ==> (value_equals(PredicateValue::List(l), v) <==> exists|i: int|
            0 <= i < l@.len() && value_equals(PredicateValue::String(#[trigger] l@[i]), v)),
        l@.len() == 0 ==> (value_equals(PredicateValue::List(l), v) <==> v.len() == 0),
        value_starts_with(PredicateValue::List(l), v) <==> exists|i: int|
            0 <= i < l@.len() && value_starts_with(PredicateValue::String(#[trigger] l@[i]), v),
        value_contains(PredicateValue::List(l), v) <==> exists|i: int|
            0 <= i < l@.len() && value_contains(PredicateValue::String(#[trigger] l@[i]), v),
{
    if exists|i: int| 0 <= i < l@.len() && value_equals(PredicateValue::String(#[trigger] l@[i]), v) {
        let i = choose|i: int|
            0 <= i < l@.len() && value_equals(PredicateValue::String(#[trigger] l@[i]), v);
        assert(utf8(l@[i]@) == v);
    }
    if exists|i: int|
        0 <= i < l@.len() && value_starts_with(PredicateValue::String(#[trigger] l@[i]), v) {
        let i = choose|i: int|
            0 <= i < l@.len() && value_starts_with(PredicateValue::String(#[trigger] l@[i]), v);
        assert(starts_with(v, utf8(l@[i]@)));
    }
    if exists|i: int|
        0 <= i < l@.len() && value_contains(PredicateValue::String(#[trigger] l@[i]), v) {
        let i = choose|i: int|
            0 <= i < l@.len() && value_contains(PredicateValue::String(#[trigger] l@[i]), v);
        assert(contains_bytes(v, utf8(l@[i]@)));
    }
    if value_equals(PredicateValue::List(l), v) && l@.len() > 0 {
        let i = choose|i: int| 0 <= i < l@.len() && utf8(#[trigger] l@[i]@) == v;
        assert(value_equals(PredicateValue::String(l@[i]), v));
    }
    if value_starts_with(PredicateValue::List(l), v) {
        let i = choose|i: int| 0 <= i < l@.len() && starts_with(v, utf8(#[trigger] l@[i]@));
        assert(value_starts_with(PredicateValue::String(l@[i]), v));
    }
    if value_contains(PredicateValue::List(l), v) {
        let i = choose|i: int| 0 <= i < l@.len() && contains_bytes(v, utf8(#[trigger] l@[i]@));
        assert(value_contains(PredicateValue::String(l@[i]), v));
    }
}

/// A text holds one of some terms where one of them comes in it. Where capitals count, texts are
/// compared as they are.
pub proof fn law_terms_held(text: Seq<char>, terms: Seq<String>)
    ensures
        holds_term(text, terms) <==> exists|i: int|
            0 <= i < terms.len() && comes_in(utf8((#[trigger] terms[i])@), utf8(text)),
        compared(text, true) == text,
        compared(text, false) == lower_text(text),
{
    assert forall|i: int| 0 <= i < terms.len() implies contains_bytes(
        utf8(text),
        utf8((#[trigger] terms[i])@),
    ) == comes_in(utf8(terms[i]@), utf8(text)) by {
        lemma_comes(utf8(terms[i]@), utf8(text));
    }
    if holds_term(text, terms) {
        let i = choose|i: int|
            0 <= i < terms.len() && contains_bytes(utf8(text), utf8((#[trigger] terms[i])@));
        assert(comes_in(utf8(terms[i]@), utf8(text)));
    }
    if exists|i: int|
        0 <= i < terms.len() && comes_in(utf8((#[trigger] terms[i])@), utf8(text)) {
        let i = choose|i: int|
            0 <= i < terms.len() && comes_in(utf8((#[trigger] terms[i])@), utf8(text));
        assert(contains_bytes(utf8(text), utf8(terms[i]@)));
    }
}

/// The size of a label counts the ids in all lists whose keys begin with its name and a sign of
/// equality; the keys of its values are those of these lists that have an id.
pub proof fn law_label_counted(terms: TermMap, name: Seq<u8>, k: Seq<u8>, id: u64)
    ensures
        label_size(terms, name) == capped(label_postings(terms, name).len()),
        label_postings(terms, name).contains((k, id)) <==> terms.contains_key(k)
            && terms[k].contains(id) && comes_first(name + seq![0x3du8], k),
        is_value_key(terms, name, k) <==> exists|x: u64| #[trigger]
            label_postings(terms, name).contains((k, x)),
{
    let front = name + seq![0x3du8];
    assert(term_prefix(name) =~= front);
    lemma_comes(front, k);
    if terms.contains_key(k) && terms[k] != Set::<u64>::empty() {
        assert(exists|x: u64| #[trigger] terms[k].contains(x)) by {
            if forall|x: u64| !#[trigger] terms[k].contains(x) {
                assert(terms[k] =~= Set::<u64>::empty());
            }
        }
        let x = choose|x: u64| #[trigger] terms[k].contains(x);
        if is_value_key(terms, name, k) {
            assert(label_postings(terms, name).contains((k, x)));
        }
    }
}

/// Selectors together select what each of them selects, as far as it is not marked for removal. A
/// selector of filters selects what these select, and no selector selects nothing.
pub proof fn law_selectors_join(p: &Postings, a: Seq<SeriesSelector>, b: Seq<SeriesSelector>)
    requires
        a.len() > 0,
        b.len() > 0,
    ensures
        p.selectors_ids(a + b) == p.selectors_ids(a).intersect(p.selectors_ids(b)),
        p.selectors_ids(Seq::empty()) == Set::<u64>::empty(),
        a.len() == 1 && a[0] is And ==> p.selectors_ids(a) == p.plan_ids(a[0]->And_0@).difference(
            p.stale(),
        ),
{
    let all = a + b;
    assert forall|id: u64| p.selectors_ids(all).contains(id) <==> p.selectors_ids(a).contains(id)
        && p.selectors_ids(b).contains(id) by {
        if p.selectors_ids(all).contains(id) {
            assert forall|i: int| 0 <= i < a.len() implies p.selector_ids(
                #[trigger] a[i],
            ).contains(id) by {
                assert(all[i] == a[i]);
            }
            assert forall|i: int| 0 <= i < b.len() implies p.selector_ids(
                #[trigger] b[i],
            ).contains(id) by {
                assert(all[i + a.len()] == b[i]);
            }
        }
        if p.selectors_ids(a).contains(id) && p.selectors_ids(b).contains(id) {
            assert forall|i: int| 0 <= i < all.len() implies p.selector_ids(
                #[trigger] all[i],
            ).contains(id) by {
                if i < a.len() {
                    assert(all[i] == a[i]);
                } else {
                    assert(all[i] == b[i - a.len()]);
                }
            }
        }
    }
    assert(p.selectors_ids(all) =~= p.selectors_ids(a).intersect(p.selectors_ids(b)));
    assert(p.selectors_ids(Seq::empty()) =~= Set::<u64>::empty());
    if a.len() == 1 && a[0] is And {
        let own = p.plan_ids(a[0]->And_0@);
        assert forall|id: u64| p.selectors_ids(a).contains(id) <==> own.difference(
            p.stale(),
        ).contains(id) by {
            assert(p.selector_ids(a[0]) == own);
        }
        assert(p.selectors_ids(a) =~= own.difference(p.stale()));
    }
}

/// A selector of several lists of filters selects what one of them selects.
pub proof fn law_selector_lists(p: &Postings, s: SeriesSelector, id: u64)
    requires
        s is Or,
        s->Or_0@.len() > 0,
    ensures
        forall|i: int|
            0 <= i < s->Or_0@.len() && p.plan_ids((#[trigger] s->Or_0@[i])@).contains(id)
                ==> p.selector_ids(s).contains(id),
        (forall|i: int|
            0 <= i < s->Or_0@.len() ==> !p.plan_ids((#[trigger] s->Or_0@[i])@).contains(id))
            ==> !p.selector_ids(s).contains(id),
{
}

/// A pass that compacts lists drops those of its batch that are empty, and changes nothing else.
pub proof fn law_compacted(
    terms: TermMap,
    start: Option<Seq<u8>>,
    next: Option<Seq<u8>>,
    k: Seq<u8>,
)
    ensures
        compacted(terms, start, next).contains_key(k) ==> terms.contains_key(k) && compacted(
            terms,
            start,
            next,
        )[k] == terms[k],
        terms.contains_key(k) && terms[k] != Set::<u64>::empty() ==> compacted(
            terms,
            start,
            next,
        ).contains_key(k),
        in_batch(start, next, k) && compacted(terms, start, next).contains_key(k) ==> terms[k]
            != Set::<u64>::empty(),
        !in_batch(start, next, k) && terms.contains_key(k) ==> compacted(
            terms,
            start,
            next,
        ).contains_key(k),
        batch_lists(terms, start, next).contains(k) <==> in_batch(start, next, k) && compacted(
            terms,
            start,
            next,
        ).contains_key(k),
{
}

} // verus!
