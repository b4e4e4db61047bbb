//! What holds of the index as a whole.
use crate::bytes::{lemma_utf8_empty, starts_with, utf8};
use crate::labels::{
    is_negative, matcher_accepts, matcher_regex_text, value_contains, value_equals,
    value_starts_with, Label, LabelFilter, PredicateMatch, PredicateValue, RegexMatcher,
    SeriesSelector,
};
use crate::postings::key::{nul_free, term_key, SENTINEL};
use crate::postings::mutation::{
    entry_ids, entry_postings, keys_after, label_key, label_keys, lemma_with_postings_twice,
    series_postings, with_postings, without_postings, BulkIndexEntry, Posting,
};
use crate::postings::planner::{
    accepts_absent, is_missing, is_subtracting, keeps, role_of, Role,
};
use crate::postings::predicate::{inverse_filter, value_has_any_prefix};
use crate::postings::stale::{batch_keys, drained, in_batch, is_batch, pass_without, Drain};
use crate::postings::label_index::TermMap;
use crate::postings::terms::{lemma_value_has_prefix, value_has_prefix, with_label, with_value};
use crate::postings::{list_of, Postings};
use crate::regexp::regex_accepts;
use vstd::prelude::*;

verus! {

impl Postings {
    /// The index agrees with a set of series: a live id stands under at most one value of each
    /// label, and every id in a list is live or marked for removal.
    pub open spec fn consistent(&self) -> bool {
        &&& self.wf()
        &&& forall|name: Seq<u8>, v: Seq<u8>, id: u64|
            (#[trigger] list_of(self.terms(), term_key(name, v)).contains(id)
                && !self.stale().contains(id)) ==> self.all().contains(id)
        &&& forall|name: Seq<u8>, v: Seq<u8>, w: Seq<u8>, id: u64|
            (#[trigger] list_of(self.terms(), term_key(name, v)).contains(id)
                && #[trigger] list_of(self.terms(), term_key(name, w)).contains(id)
                && !self.stale().contains(id)) ==> v == w
    }

    /// The series carries the label with an empty value.
    pub open spec fn carries_empty(&self, name: Seq<u8>, id: u64) -> bool {
        list_of(self.terms(), term_key(name, Seq::empty())).contains(id)
    }

    /// The value of a label of a series; empty where the series does not carry the label.
    pub open spec fn value_of(&self, name: Seq<u8>, id: u64) -> Seq<u8> {
        if with_label(self.terms(), name).contains(id) {
            choose|v: Seq<u8>| #[trigger] list_of(self.terms(), term_key(name, v)).contains(id)
        } else {
            Seq::empty()
        }
    }
}

/// What a pattern is taken to match by its form alone, and any other pattern by matching.
pub open spec fn form_accepts(pattern: Seq<char>, v: Seq<u8>) -> bool {
    if pattern == ".*"@ {
        true
    } else if pattern == ".+"@ {
        v.len() > 0
    } else if pattern == ""@ {
        v.len() == 0
    } else {
        regex_accepts(pattern, v)
    }
}

/// The value starts with what every match of the pattern is said to start with.
pub open spec fn has_hint(re: RegexMatcher, v: Seq<u8>) -> bool {
    re.prefix matches Some(p) ==> value_has_prefix(v, utf8(p@))
}

/// What the lookup of a filter says of a value, for a filter among others. A prefix is searched for
/// in the value closed by a NUL, and some patterns are known by their form.
pub open spec fn lookup_accepts(f: LabelFilter, v: Seq<u8>) -> bool {
    match f.matcher {
        PredicateMatch::StartsWith(p) => prefix_found(p, v),
        PredicateMatch::NotStartsWith(p) => !prefix_found(p, v),
        PredicateMatch::RegexEqual(re) => if role_of(f) == Role::Keep {
            matcher_accepts(f.matcher, v) && has_hint(re, v)
        } else {
            form_accepts(re.regex.source(), v)
        },
        PredicateMatch::RegexNotEqual(re) => if role_of(f) == Role::DropInverse {
            matcher_accepts(f.matcher, v)
        } else {
            !form_accepts(re.regex.source(), v)
        },
        _ => matcher_accepts(f.matcher, v),
    }
}

/// One of the prefixes is found in a value, which is closed by a NUL unless it is empty.
pub open spec fn prefix_found(p: PredicateValue, v: Seq<u8>) -> bool {
    if v.len() == 0 {
        value_starts_with(p, v)
    } else {
        value_has_any_prefix(p, v)
    }
}

/// What the lookup of filters says of a value for one of them. A pattern on its own is matched.
pub open spec fn plan_accepts(filters: Seq<LabelFilter>, i: int, v: Seq<u8>) -> bool {
    match filters[i].matcher {
        PredicateMatch::RegexEqual(re) if Postings::is_simple(filters) => matcher_accepts(
            filters[i].matcher,
            v,
        ) && has_hint(re, v),
        _ => lookup_accepts(filters[i], v),
    }
}

/// What the lookup of filters says for one of them of a series that carries its label with an empty
/// value. Where it goes by which series carry the label, such a series does.
pub open spec fn carried_accepts(filters: Seq<LabelFilter>, i: int) -> bool {
    let none = Seq::<u8>::empty();
    let m = filters[i].matcher;
    match m {
        PredicateMatch::Equal(PredicateValue::String(s)) if s@.len() == 0 => false,
        PredicateMatch::NotEqual(PredicateValue::String(s)) if s@.len() == 0 => true,
        PredicateMatch::StartsWith(p) => value_has_any_prefix(p, none),
        PredicateMatch::NotStartsWith(p) => !value_has_any_prefix(p, none),
        PredicateMatch::RegexEqual(re) => if Postings::is_simple(filters) {
            false
        } else {
            match role_of(filters[i]) {
                Role::Keep => false,
                Role::DropInverse => re.regex.source() != ""@,
                _ => true,
            }
        },
        PredicateMatch::RegexNotEqual(re) => match role_of(filters[i]) {
            Role::KeepInverse => re.regex.source() == ""@,
            Role::DropInverse => true,
            _ => false,
        },
        _ => matcher_accepts(m, none),
    }
}

/// What the lookup of filters says of a live series for one of them.
pub open spec fn answers(p: &Postings, filters: Seq<LabelFilter>, i: int, id: u64) -> bool {
    let name = utf8(filters[i].label@);
    if p.carries_empty(name, id) {
        carried_accepts(filters, i)
    } else {
        plan_accepts(filters, i, p.value_of(name, id))
    }
}

/// A value of which a lookup says what the filter says. The exceptions are the value that a prefix
/// goes beyond by a NUL, the value that a pattern known by its form does not match as its form has
/// it, and the value that a pattern matches and that does not start as a match is said to.
pub open spec fn is_told(filters: Seq<LabelFilter>, i: int, v: Seq<u8>) -> bool {
    match filters[i].matcher {
        PredicateMatch::StartsWith(p) => prefix_found(p, v) ==> value_starts_with(p, v),
        PredicateMatch::NotStartsWith(p) => prefix_found(p, v) ==> value_starts_with(p, v),
        PredicateMatch::RegexEqual(re) => if Postings::is_simple(filters) || role_of(filters[i])
            == Role::Keep {
            regex_accepts(re.regex.source(), v) ==> has_hint(re, v)
        } else {
            form_accepts(re.regex.source(), v) == regex_accepts(re.regex.source(), v)
        },
        PredicateMatch::RegexNotEqual(re) => role_of(filters[i]) == Role::DropInverse
            || form_accepts(re.regex.source(), v) == regex_accepts(re.regex.source(), v),
        _ => true,
    }
}

/// A filter that a lookup tells of a series that carries its label with an empty value. The
/// exceptions are those for which it matters that the label is carried: a test on the empty value,
/// and the patterns that are known by their form to match it or not.
pub open spec fn is_carried_told(filters: Seq<LabelFilter>, i: int) -> bool {
    let none = Seq::<u8>::empty();
    match filters[i].matcher {
        PredicateMatch::Equal(PredicateValue::String(s)) => s@.len() > 0,
        PredicateMatch::NotEqual(PredicateValue::String(s)) => s@.len() > 0,
        PredicateMatch::StartsWith(p) => value_has_any_prefix(p, none) ==> value_starts_with(
            p,
            none,
        ),
        PredicateMatch::NotStartsWith(p) => value_has_any_prefix(p, none) ==> value_starts_with(
            p,
            none,
        ),
        PredicateMatch::RegexEqual(re) => Postings::is_simple(filters) || role_of(filters[i])
            == Role::Keep || is_carried_form(re.regex.source()),
        PredicateMatch::RegexNotEqual(re) => role_of(filters[i]) == Role::DropInverse
            || is_carried_form(re.regex.source()),
        _ => true,
    }
}

/// A pattern for which it does not matter whether a label with an empty value is carried.
pub open spec fn is_carried_form(pattern: Seq<char>) -> bool {
    let none = Seq::<u8>::empty();
    pattern != ".+"@ && pattern != ""@ && form_accepts(pattern, none) == regex_accepts(
        pattern,
        none,
    )
}

/// A lookup says of a series what the filter says of its value.
pub open spec fn is_answered(p: &Postings, filters: Seq<LabelFilter>, i: int, id: u64) -> bool {
    let name = utf8(filters[i].label@);
    if p.carries_empty(name, id) {
        is_carried_told(filters, i)
    } else {
        is_told(filters, i, p.value_of(name, id))
    }
}

/// The prefixes that are asked for hold no NUL bytes.
pub open spec fn prefixes_nul_free(p: PredicateValue) -> bool {
    match p {
        PredicateValue::Empty => true,
        PredicateValue::String(s) => nul_free(utf8(s@)),
        PredicateValue::List(l) => forall|i: int|
            0 <= i < l@.len() ==> nul_free(utf8(#[trigger] l@[i]@)),
    }
}

/// A pattern that is not known by its form.
pub open spec fn is_matched(pattern: Seq<char>) -> bool {
    pattern != ".*"@ && pattern != ".+"@ && pattern != ""@
}

/// A filter that a lookup tells of every value: its prefixes hold no NUL bytes, and its pattern is
/// matched in full.
pub open spec fn is_plain(f: LabelFilter) -> bool {
    match f.matcher {
        PredicateMatch::StartsWith(p) => prefixes_nul_free(p),
        PredicateMatch::NotStartsWith(p) => prefixes_nul_free(p),
        PredicateMatch::RegexEqual(re) => is_matched(re.regex.source()) && re.prefix is None,
        PredicateMatch::RegexNotEqual(re) => is_matched(re.regex.source()),
        _ => true,
    }
}

/// A plain filter says the same of every value as its lookup does.
pub proof fn law_plain_filters_are_told(filters: Seq<LabelFilter>, i: int, v: Seq<u8>)
    requires
        0 <= i < filters.len(),
        is_plain(filters[i]),
    ensures
        is_told(filters, i, v),
{
    match filters[i].matcher {
        PredicateMatch::StartsWith(p) => {
            lemma_nul_free_found(p, v);
        },
        PredicateMatch::NotStartsWith(p) => {
            lemma_nul_free_found(p, v);
        },
        _ => {},
    }
}

proof fn lemma_nul_free_found(p: PredicateValue, v: Seq<u8>)
    requires
        prefixes_nul_free(p),
    ensures
        prefix_found(p, v) ==> value_starts_with(p, v),
{
    match p {
        PredicateValue::Empty => {},
        PredicateValue::String(s) => {
            lemma_value_has_prefix(v, utf8(s@));
        },
        PredicateValue::List(l) => {
            if value_has_any_prefix(p, v) {
                let i = choose|i: int|
                    0 <= i < l@.len() && value_has_prefix(v, utf8(#[trigger] l@[i]@));
                lemma_value_has_prefix(v, utf8(l@[i]@));
                assert(starts_with(v, utf8(l@[i]@)));
            }
        },
    }
}

proof fn lemma_value_of(p: &Postings, name: Seq<u8>, id: u64, cond: spec_fn(Seq<u8>) -> bool)
    requires
        p.consistent(),
        p.all().contains(id),
        !p.carries_empty(name, id),
    ensures
        p.labelled_ids(name).contains(id) == (p.value_of(name, id).len() > 0),
        with_value(p.terms(), name, cond).contains(id) == (p.value_of(name, id).len() > 0 && cond(
            p.value_of(name, id),
        )),
        p.live_with(name, cond).contains(id) == (p.value_of(name, id).len() > 0 && cond(
            p.value_of(name, id),
        )),
{
    let terms = p.terms();
    assert(!p.stale().contains(id));
    if with_label(terms, name).contains(id) {
        let w = choose|v: Seq<u8>| #[trigger] list_of(terms, term_key(name, v)).contains(id);
        assert(exists|v: Seq<u8>| #[trigger] list_of(terms, term_key(name, v)).contains(id));
        assert(list_of(terms, term_key(name, w)).contains(id));
        assert(w == p.value_of(name, id));
        if w.len() == 0 {
            assert(w =~= Seq::<u8>::empty());
        }
        if with_value(terms, name, cond).contains(id) {
            let v = choose|v: Seq<u8>|
                cond(v) && #[trigger] list_of(terms, term_key(name, v)).contains(id);
            assert(v == w);
        }
        if cond(w) {
            assert(cond(w) && list_of(terms, term_key(name, w)).contains(id));
        }
    } else {
        if with_value(terms, name, cond).contains(id) {
            let v = choose|v: Seq<u8>|
                cond(v) && #[trigger] list_of(terms, term_key(name, v)).contains(id);
            assert((|v: Seq<u8>| true)(v));
            assert(with_label(terms, name).contains(id));
        }
    }
}

/// A prefix that a value starts with is found in it, and so is the empty prefix.
proof fn lemma_prefix_found(p: PredicateValue, v: Seq<u8>)
    ensures
        value_starts_with(p, v) ==> value_has_any_prefix(p, v),
        value_starts_with(p, Seq::<u8>::empty()) ==> value_starts_with(p, v),
{
    let none = Seq::<u8>::empty();
    let closed = v.push(SENTINEL);
    match p {
        PredicateValue::Empty => {},
        PredicateValue::String(s) => {
            let t = utf8(s@);
            if starts_with(v, t) {
                assert(v.subrange(0, t.len() as int) =~= closed.subrange(0, t.len() as int));
            }
            if starts_with(none, t) {
                assert(v.subrange(0, 0) =~= t);
            }
        },
        PredicateValue::List(l) => {
            if value_starts_with(p, v) {
                let i = choose|i: int| 0 <= i < l@.len() && starts_with(v, utf8(#[trigger] l@[i]@));
                let t = utf8(l@[i]@);
                assert(v.subrange(0, t.len() as int) =~= closed.subrange(0, t.len() as int));
                assert(value_has_prefix(v, utf8(l@[i]@)));
            }
            if value_starts_with(p, none) {
                let i = choose|i: int|
                    0 <= i < l@.len() && starts_with(none, utf8(#[trigger] l@[i]@));
                assert(v.subrange(0, 0) =~= utf8(l@[i]@));
                assert(starts_with(v, utf8(l@[i]@)));
            }
        },
    }
}

proof fn lemma_equal_ids(p: &Postings, name: Seq<u8>, value: PredicateValue, id: u64)
    requires
        p.consistent(),
        p.all().contains(id),
        !p.carries_empty(name, id),
    ensures
        p.equal_ids(name, value).contains(id) == value_equals(value, p.value_of(name, id)),
{
    let cond = |v: Seq<u8>| v.len() > 0 && value_equals(value, v);
    lemma_value_of(p, name, id, cond);
    if p.value_of(name, id).len() == 0 {
        assert(p.value_of(name, id) =~= Seq::<u8>::empty());
    }
}

proof fn lemma_filter_ids(p: &Postings, f: LabelFilter, id: u64)
    requires
        p.consistent(),
        p.all().contains(id),
        !p.carries_empty(utf8(f.label@), id),
        !is_negative(f.matcher),
        !accepts_absent(f),
    ensures
        p.filter_ids(f).contains(id) == match f.matcher {
            PredicateMatch::RegexEqual(re) => matcher_accepts(
                f.matcher,
                p.value_of(utf8(f.label@), id),
            ) && has_hint(re, p.value_of(utf8(f.label@), id)),
            _ => lookup_accepts(f, p.value_of(utf8(f.label@), id)),
        },
{
    let name = utf8(f.label@);
    let v = p.value_of(name, id);
    if v.len() == 0 {
        assert(v =~= Seq::<u8>::empty());
    }
    match f.matcher {
        PredicateMatch::Equal(value) => {
            lemma_equal_ids(p, name, value, id);
        },
        PredicateMatch::RegexEqual(re) => {
            let cond = |v: Seq<u8>|
                (re.prefix matches Some(p) ==> value_has_prefix(v, utf8(p@))) && matcher_accepts(
                    f.matcher,
                    v,
                );
            lemma_value_of(p, name, id, cond);
        },
        PredicateMatch::StartsWith(value) => {
            lemma_value_of(p, name, id, |v: Seq<u8>| value_has_any_prefix(value, v));
        },
        PredicateMatch::Contains(value) => {
            lemma_value_of(p, name, id, |v: Seq<u8>| value_contains(value, v));
        },
        _ => {},
    }
}

/// What is kept or dropped by the inverse of a filter.
proof fn lemma_inverse_ids(p: &Postings, f: LabelFilter, id: u64)
    requires
        p.consistent(),
        p.all().contains(id),
        !p.carries_empty(utf8(f.label@), id),
        !(f.matcher is MatchNone),
        matcher_regex_text(f.matcher) != Some(".*"@),
        matcher_regex_text(f.matcher) != Some(".+"@),
    ensures
        ({
            let v = p.value_of(utf8(f.label@), id);
            p.inverse_ids(f).contains(id) == match f.matcher {
                PredicateMatch::StartsWith(value) => v.len() > 0 && !value_has_any_prefix(value, v),
                PredicateMatch::NotStartsWith(value) => v.len() > 0 && value_has_any_prefix(
                    value,
                    v,
                ),
                PredicateMatch::RegexEqual(re) => v.len() > 0 && !form_accepts(
                    re.regex.source(),
                    v,
                ),
                PredicateMatch::NotEqual(value) => !matcher_accepts(f.matcher, v),
                _ => v.len() > 0 && !matcher_accepts(f.matcher, v),
            }
        }),
{
    let name = utf8(f.label@);
    let v = p.value_of(name, id);
    lemma_value_of(p, name, id, |v: Seq<u8>| !matcher_accepts(f.matcher, v));
    if v.len() == 0 {
        assert(v =~= Seq::<u8>::empty());
    }
    match f.matcher {
        PredicateMatch::NotEqual(value) => {
            lemma_equal_ids(p, name, value, id);
        },
        PredicateMatch::Equal(PredicateValue::String(s)) => {
            lemma_utf8_empty(s@);
            if s@.len() == 0 {
                assert(utf8(s@) =~= Seq::<u8>::empty());
            }
        },
        PredicateMatch::StartsWith(value) => {
            lemma_value_of(p, name, id, |v: Seq<u8>| value_has_any_prefix(value, v));
        },
        PredicateMatch::NotStartsWith(value) => {
            lemma_value_of(p, name, id, |v: Seq<u8>| value_has_any_prefix(value, v));
        },
        PredicateMatch::Contains(value) => {
            lemma_value_of(p, name, id, |v: Seq<u8>| value_contains(value, v));
        },
        PredicateMatch::NotContains(value) => {
            lemma_value_of(p, name, id, |v: Seq<u8>| value_contains(value, v));
        },
        _ => {},
    }
}

proof fn lemma_passes(p: &Postings, f: LabelFilter, id: u64)
    requires
        p.consistent(),
        p.all().contains(id),
        !p.carries_empty(utf8(f.label@), id),
    ensures
        p.passes(f, id) == lookup_accepts(f, p.value_of(utf8(f.label@), id)),
{
    let name = utf8(f.label@);
    let v = p.value_of(name, id);
    lemma_forms_apart();
    if v.len() == 0 {
        assert(v =~= Seq::<u8>::empty());
    }
    lemma_value_of(p, name, id, |v: Seq<u8>| true);
    match f.matcher {
        PredicateMatch::StartsWith(value) => {
            lemma_prefix_found(value, v);
        },
        PredicateMatch::NotStartsWith(value) => {
            lemma_prefix_found(value, v);
        },
        _ => {},
    }
    match role_of(f) {
        Role::Skip => {},
        Role::Empty => {},
        Role::KeepLabelled => {},
        Role::DropLabelled => {},
        Role::Keep => {
            lemma_filter_ids(p, f, id);
        },
        Role::KeepInverse => {
            lemma_inverse_ids(p, inverse_filter(f), id);
        },
        Role::DropInverse => {
            lemma_inverse_ids(p, f, id);
        },
    }
}

/// The patterns that are known by their form differ.
proof fn lemma_forms_apart()
    ensures
        ".*"@ != ".+"@,
        ".*"@ != ""@,
        ".+"@ != ""@,
{
    reveal_strlit(".*");
    reveal_strlit(".+");
    reveal_strlit("");
    assert(".*"@[1] == '*' && ".+"@[1] == '+');
    assert(".*"@.len() == 2 && ".+"@.len() == 2 && ""@.len() == 0);
}

/// What the lookups of a label say of a live series that carries it with an empty value.
proof fn lemma_carried(p: &Postings, name: Seq<u8>, id: u64, cond: spec_fn(Seq<u8>) -> bool)
    requires
        p.consistent(),
        p.all().contains(id),
        p.carries_empty(name, id),
    ensures
        p.value_of(name, id) == Seq::<u8>::empty(),
        p.labelled_ids(name).contains(id),
        !p.unlabelled_ids(name).contains(id),
        with_value(p.terms(), name, cond).contains(id) == cond(Seq::<u8>::empty()),
        p.live_with(name, cond).contains(id) == cond(Seq::<u8>::empty()),
{
    let terms = p.terms();
    let none = Seq::<u8>::empty();
    assert(!p.stale().contains(id));
    assert(list_of(terms, term_key(name, none)).contains(id));
    assert((|v: Seq<u8>| true)(none));
    assert(with_label(terms, name).contains(id));
    if with_value(terms, name, cond).contains(id) {
        let v = choose|v: Seq<u8>|
            cond(v) && #[trigger] list_of(terms, term_key(name, v)).contains(id);
        assert(v == none);
    }
    let w = choose|v: Seq<u8>| #[trigger] list_of(terms, term_key(name, v)).contains(id);
    assert(w == none);
}

proof fn lemma_carried_filter_ids(p: &Postings, f: LabelFilter, id: u64)
    requires
        p.consistent(),
        p.all().contains(id),
        p.carries_empty(utf8(f.label@), id),
        !is_negative(f.matcher),
        !accepts_absent(f),
    ensures
        p.filter_ids(f).contains(id) == match f.matcher {
            PredicateMatch::StartsWith(value) => value_has_any_prefix(value, Seq::<u8>::empty()),
            _ => false,
        },
{
    let name = utf8(f.label@);
    match f.matcher {
        PredicateMatch::Equal(value) => {
            lemma_carried(p, name, id, |v: Seq<u8>| v.len() > 0 && value_equals(value, v));
        },
        PredicateMatch::RegexEqual(re) => {
            let cond = |v: Seq<u8>|
                (re.prefix matches Some(p) ==> value_has_prefix(v, utf8(p@))) && matcher_accepts(
                    f.matcher,
                    v,
                );
            lemma_carried(p, name, id, cond);
        },
        PredicateMatch::StartsWith(value) => {
            lemma_carried(p, name, id, |v: Seq<u8>| value_has_any_prefix(value, v));
        },
        PredicateMatch::Contains(value) => {
            lemma_carried(p, name, id, |v: Seq<u8>| value_contains(value, v));
        },
        _ => {},
    }
}

proof fn lemma_carried_inverse_ids(p: &Postings, f: LabelFilter, id: u64)
    requires
        p.consistent(),
        p.all().contains(id),
        p.carries_empty(utf8(f.label@), id),
        !(f.matcher is MatchNone),
        !(f.matcher is NotEqual) || accepts_absent(f),
        matcher_regex_text(f.matcher) != Some(".*"@),
    ensures
        ({
            let none = Seq::<u8>::empty();
            p.inverse_ids(f).contains(id) == match f.matcher {
                PredicateMatch::Equal(PredicateValue::String(s)) if s@.len() == 0 => true,
                PredicateMatch::StartsWith(value) => !value_has_any_prefix(value, none),
                PredicateMatch::NotStartsWith(value) => value_has_any_prefix(value, none),
                PredicateMatch::RegexEqual(re) if re.regex.source() == ""@ => true,
                _ => !matcher_accepts(f.matcher, none),
            }
        }),
{
    let name = utf8(f.label@);
    lemma_carried(p, name, id, |v: Seq<u8>| !matcher_accepts(f.matcher, v));
    match f.matcher {
        PredicateMatch::NotEqual(value) => {
            lemma_carried(p, name, id, |v: Seq<u8>| v.len() > 0 && value_equals(value, v));
        },
        PredicateMatch::StartsWith(value) => {
            lemma_carried(p, name, id, |v: Seq<u8>| value_has_any_prefix(value, v));
        },
        PredicateMatch::NotStartsWith(value) => {
            lemma_carried(p, name, id, |v: Seq<u8>| value_has_any_prefix(value, v));
        },
        PredicateMatch::Contains(value) => {
            lemma_carried(p, name, id, |v: Seq<u8>| value_contains(value, v));
        },
        PredicateMatch::NotContains(value) => {
            lemma_carried(p, name, id, |v: Seq<u8>| value_contains(value, v));
        },
        _ => {},
    }
}

proof fn lemma_carried_passes(p: &Postings, filters: Seq<LabelFilter>, i: int, id: u64)
    requires
        p.consistent(),
        p.all().contains(id),
        0 <= i < filters.len(),
        !Postings::is_simple(filters),
        p.carries_empty(utf8(filters[i].label@), id),
    ensures
        p.passes(filters[i], id) == carried_accepts(filters, i),
{
    let f = filters[i];
    let name = utf8(f.label@);
    lemma_forms_apart();
    lemma_carried(p, name, id, |v: Seq<u8>| true);
    match f.matcher {
        PredicateMatch::Equal(PredicateValue::String(s)) => {
            lemma_utf8_empty(s@);
            if s@.len() == 0 {
                assert(utf8(s@) =~= Seq::<u8>::empty());
            }
        },
        PredicateMatch::NotEqual(PredicateValue::String(s)) => {
            lemma_utf8_empty(s@);
            if s@.len() == 0 {
                assert(utf8(s@) =~= Seq::<u8>::empty());
            }
        },
        _ => {},
    }
    match role_of(f) {
        Role::Skip => {},
        Role::Empty => {},
        Role::KeepLabelled => {},
        Role::DropLabelled => {},
        Role::Keep => {
            lemma_carried_filter_ids(p, f, id);
        },
        Role::KeepInverse => {
            lemma_carried_inverse_ids(p, inverse_filter(f), id);
        },
        Role::DropInverse => {
            lemma_carried_inverse_ids(p, f, id);
        },
    }
}

/// Filters select exactly the live series of which the lookup says so for each filter. Filters that
/// ask nothing select all.
pub proof fn law_plan_selects_answered(p: &Postings, filters: Seq<LabelFilter>)
    requires
        p.consistent(),
    ensures
        Postings::asks_nothing(filters) ==> p.plan_ids(filters) == p.all(),
        !Postings::asks_nothing(filters) ==> forall|id: u64| #[trigger]
            p.plan_ids(filters).contains(id) <==> p.all().contains(id) && forall|i: int|
                0 <= i < filters.len() ==> #[trigger] answers(p, filters, i, id),
{
    if !Postings::asks_nothing(filters) {
        assert forall|id: u64| #[trigger]
            p.plan_ids(filters).contains(id) <==> p.all().contains(id) && forall|i: int|
                0 <= i < filters.len() ==> #[trigger] answers(p, filters, i, id) by {
            if p.all().contains(id) {
                lemma_plan_live(p, filters, id);
            } else if p.plan_ids(filters).contains(id) {
                if Postings::is_simple(filters) {
                    lemma_kept_live(p, filters[0], id);
                } else {
                    let i = choose|i: int| 0 <= i < filters.len() && keeps(#[trigger] filters[i]);
                    assert(p.passes(filters[i], id));
                    lemma_kept_live(p, filters[i], id);
                }
            }
        }
    }
}

/// Whether filters select a live series.
proof fn lemma_plan_live(p: &Postings, filters: Seq<LabelFilter>, id: u64)
    requires
        p.consistent(),
        !Postings::asks_nothing(filters),
        p.all().contains(id),
    ensures
        p.plan_ids(filters).contains(id) <==> forall|i: int|
            0 <= i < filters.len() ==> #[trigger] answers(p, filters, i, id),
{
    if Postings::is_simple(filters) {
        let f = filters[0];
        if p.carries_empty(utf8(f.label@), id) {
            lemma_carried_filter_ids(p, f, id);
        } else {
            lemma_filter_ids(p, f, id);
        }
        assert(p.plan_ids(filters).contains(id) == answers(p, filters, 0, id));
        if answers(p, filters, 0, id) {
            assert forall|i: int| 0 <= i < filters.len() implies #[trigger] answers(
                p,
                filters,
                i,
                id,
            ) by {
                assert(i == 0);
            }
        }
    } else {
        assert forall|i: int| 0 <= i < filters.len() implies p.passes(filters[i], id)
            == #[trigger] answers(p, filters, i, id) by {
            if p.carries_empty(utf8(filters[i].label@), id) {
                lemma_carried_passes(p, filters, i, id);
            } else {
                lemma_passes(p, filters[i], id);
            }
        }
        if p.plan_ids(filters).contains(id) {
            assert forall|i: int| 0 <= i < filters.len() implies #[trigger] answers(
                p,
                filters,
                i,
                id,
            ) by {
                assert(p.passes(filters[i], id));
            }
        } else {
            let i = choose|i: int| 0 <= i < filters.len() && !p.passes(#[trigger] filters[i], id);
            assert(!answers(p, filters, i, id));
        }
    }
}

/// A lookup says of a series, for each filter, what the filter says of its value.
pub open spec fn are_answered(p: &Postings, filters: Seq<LabelFilter>, id: u64) -> bool {
    forall|i: int| 0 <= i < filters.len() ==> #[trigger] is_answered(p, filters, i, id)
}

/// Each filter holds of the value of its label.
pub open spec fn are_matched(p: &Postings, filters: Seq<LabelFilter>, id: u64) -> bool {
    forall|i: int|
        0 <= i < filters.len() ==> matcher_accepts(
            (#[trigger] filters[i]).matcher,
            p.value_of(utf8(filters[i].label@), id),
        )
}

/// Filters that each have a label can be looked up, and they select exactly the live series for
/// whose value of each filter's label (empty where the series does not carry it) the filter holds.
/// Without a filter these are all. Left out are series of which a lookup does not say what the
/// filters say of the values.
pub proof fn law_plan_selects_matches(p: &Postings, filters: Seq<LabelFilter>)
    requires
        p.consistent(),
        forall|i: int| 0 <= i < filters.len() ==> (#[trigger] filters[i]).label@.len() > 0,
    ensures
        !p.plan_fails(filters),
        filters.len() == 0 ==> p.plan_ids(filters) == p.all(),
        forall|id: u64| #[trigger] p.plan_ids(filters).contains(id) ==> p.all().contains(id),
        forall|id: u64|
            are_answered(p, filters, id) ==> (#[trigger] p.plan_ids(filters).contains(id)
                <==> p.all().contains(id) && are_matched(p, filters, id)),
{
    law_plan_selects_answered(p, filters);
    assert forall|id: u64| p.all().contains(id) && are_answered(p, filters, id) implies (
    #[trigger] p.plan_ids(filters).contains(id) <==> are_matched(p, filters, id)) by {
        assert forall|i: int| 0 <= i < filters.len() implies matcher_accepts(
            (#[trigger] filters[i]).matcher,
            p.value_of(utf8(filters[i].label@), id),
        ) == answers(p, filters, i, id) by {
            let name = utf8(filters[i].label@);
            assert(is_answered(p, filters, i, id));
            if p.carries_empty(name, id) {
                lemma_carried(p, name, id, |v: Seq<u8>| true);
                lemma_carried_told(filters, i);
            } else {
                lemma_told(filters, i, p.value_of(name, id));
            }
        }
        if p.plan_ids(filters).contains(id) {
            assert forall|i: int| 0 <= i < filters.len() implies matcher_accepts(
                (#[trigger] filters[i]).matcher,
                p.value_of(utf8(filters[i].label@), id),
            ) by {
                assert(answers(p, filters, i, id));
            }
        } else if filters.len() > 0 {
            let i = choose|i: int|
                0 <= i < filters.len() && !(#[trigger] answers(p, filters, i, id));
            assert(!matcher_accepts(filters[i].matcher, p.value_of(utf8(filters[i].label@), id)));
        }
    }
}

proof fn lemma_carried_told(filters: Seq<LabelFilter>, i: int)
    requires
        0 <= i < filters.len(),
        is_carried_told(filters, i),
    ensures
        matcher_accepts(filters[i].matcher, Seq::<u8>::empty()) == carried_accepts(filters, i),
{
    lemma_forms_apart();
    match filters[i].matcher {
        PredicateMatch::StartsWith(p) => {
            lemma_prefix_found(p, Seq::<u8>::empty());
        },
        PredicateMatch::NotStartsWith(p) => {
            lemma_prefix_found(p, Seq::<u8>::empty());
        },
        _ => {},
    }
}

proof fn lemma_told(filters: Seq<LabelFilter>, i: int, v: Seq<u8>)
    requires
        0 <= i < filters.len(),
        is_told(filters, i, v),
    ensures
        matcher_accepts(filters[i].matcher, v) == plan_accepts(filters, i, v),
{
    match filters[i].matcher {
        PredicateMatch::StartsWith(p) => {
            lemma_prefix_found(p, v);
        },
        PredicateMatch::NotStartsWith(p) => {
            lemma_prefix_found(p, v);
        },
        _ => {},
    }
}

/// The order of filters does not change what they select. Where each has a label, they can be
/// looked up in any order.
pub proof fn law_filter_order(p: &Postings, a: Seq<LabelFilter>, b: Seq<LabelFilter>)
    requires
        a.to_multiset() == b.to_multiset(),
    ensures
        p.plan_ids(a) == p.plan_ids(b),
        (forall|i: int| 0 <= i < a.len() ==> (#[trigger] a[i]).label@.len() > 0)
            ==> !p.plan_fails(a) && !p.plan_fails(b),
{
    a.to_multiset_ensures();
    b.to_multiset_ensures();
    assert forall|i: int| 0 <= i < a.len() implies b.contains(#[trigger] a[i]) by {
        assert(a.contains(a[i]));
        assert(b.to_multiset().count(a[i]) > 0);
    }
    assert forall|i: int| 0 <= i < b.len() implies a.contains(#[trigger] b[i]) by {
        assert(b.contains(b[i]));
        assert(a.to_multiset().count(b[i]) > 0);
    }
    if a.len() == 1 {
        assert(b.contains(a[0]));
        assert(a[0] == b[0]);
    }
    lemma_same_filters(p, a, b);
    lemma_same_filters(p, b, a);
    assert(p.plan_ids(a) =~= p.plan_ids(b));
}

/// The same filters in another order select no less.
proof fn lemma_same_filters(p: &Postings, a: Seq<LabelFilter>, b: Seq<LabelFilter>)
    requires
        a.len() == b.len(),
        a.len() == 1 ==> a[0] == b[0],
        forall|i: int| 0 <= i < a.len() ==> b.contains(#[trigger] a[i]),
        forall|i: int| 0 <= i < b.len() ==> a.contains(#[trigger] b[i]),
    ensures
        forall|id: u64| #[trigger] p.plan_ids(a).contains(id) ==> p.plan_ids(b).contains(id),
        (forall|i: int| 0 <= i < a.len() ==> (#[trigger] a[i]).label@.len() > 0)
            ==> !p.plan_fails(b),
{
    assert forall|id: u64| #[trigger] p.plan_ids(a).contains(id) implies p.plan_ids(b).contains(
        id,
    ) by {
        if a.len() > 1 {
            assert forall|i: int| 0 <= i < b.len() implies p.passes(#[trigger] b[i], id) by {
                let j = a.index_of(b[i]);
                assert(p.passes(a[j], id));
            }
            if Postings::from_all(b) {
                assert(Postings::from_all(a)) by {
                    if forall|i: int| 0 <= i < b.len() ==> is_subtracting(#[trigger] b[i]) {
                        assert forall|i: int| 0 <= i < a.len() implies is_subtracting(
                            #[trigger] a[i],
                        ) by {
                            let j = b.index_of(a[i]);
                            assert(is_subtracting(b[j]));
                        }
                    } else if exists|i: int| 0 <= i < a.len() && keeps(#[trigger] a[i]) {
                        let i = choose|i: int| 0 <= i < a.len() && keeps(#[trigger] a[i]);
                        let j = b.index_of(a[i]);
                        assert(keeps(b[j]));
                    }
                }
            }
        }
    }
    if forall|i: int| 0 <= i < a.len() ==> (#[trigger] a[i]).label@.len() > 0 {
        assert forall|i: int| 0 <= i < b.len() implies !is_missing(#[trigger] b[i]) by {
            let j = a.index_of(b[i]);
            assert(a[j].label@.len() > 0);
        }
    }
}

/// What a filter keeps is live.
proof fn lemma_kept_live(p: &Postings, f: LabelFilter, id: u64)
    requires
        p.consistent(),
        keeps(f) ==> p.passes(f, id),
        !keeps(f) ==> !is_negative(f.matcher) && !accepts_absent(f) && p.filter_ids(f).contains(id),
    ensures
        p.all().contains(id),
{
    let terms = p.terms();
    let name = utf8(f.label@);
    if !p.all().contains(id) {
        assert forall|v: Seq<u8>|
            !p.stale().contains(id) implies !#[trigger] list_of(terms, term_key(name, v)).contains(
            id,
        ) by {}
        // So no lookup of the label finds the id.
        assert forall|cond: spec_fn(Seq<u8>) -> bool| !#[trigger] p.live_with(name, cond).contains(
            id,
        ) by {}
        assert(!p.labelled_ids(name).contains(id));
        assert(!p.unlabelled_ids(name).contains(id));
        assert(false);
    }
}

/// Reads never return an id that is marked for removal.
pub proof fn law_selection_hides_stale(p: &Postings, selectors: Seq<SeriesSelector>, id: u64)
    requires
        p.stale().contains(id),
    ensures
        !p.selectors_ids(selectors).contains(id),
{
}

/// Indexing a series and then removing it leaves the dictionary as it was, where the id stood
/// under none of the labels before and no list was empty.
pub proof fn law_remove_undoes_index(terms: TermMap, id: u64, labels: Seq<Label>)
    requires
        forall|k: Seq<u8>| #[trigger] terms.contains_key(k) ==> terms[k] != Set::<u64>::empty(),
        forall|k: Seq<u8>| #[trigger] label_keys(labels).contains(k) ==> !list_of(terms, k).contains(
            id,
        ),
    ensures
        without_postings(
            with_postings(terms, series_postings(id, labels)),
            label_keys(labels),
            id,
        ) == terms,
{
    let added = series_postings(id, labels);
    let mid = with_postings(terms, added);
    let end = without_postings(mid, label_keys(labels), id);
    assert forall|k: Seq<u8>| mid.contains_key(k) implies (if label_keys(labels).contains(k) {
        mid[k] == list_of(terms, k).insert(id)
    } else {
        mid[k] == terms[k] && terms.contains_key(k)
    }) by {
        if label_keys(labels).contains(k) {
            assert(mid[k] =~= list_of(terms, k).insert(id));
        } else {
            assert forall|x: u64| !added.contains((k, x)) by {}
            assert(mid[k] =~= list_of(terms, k));
        }
    }
    assert forall|k: Seq<u8>| label_keys(labels).contains(k) implies mid.contains_key(k) by {
        assert(added.contains((k, id)));
    }
    assert forall|k: Seq<u8>| end.contains_key(k) == terms.contains_key(k) by {
        if label_keys(labels).contains(k) {
            assert(mid[k].remove(id) =~= list_of(terms, k));
        } else if terms.contains_key(k) {
            assert(mid.contains_key(k));
        }
    }
    assert forall|k: Seq<u8>| terms.contains_key(k) implies end[k] == terms[k] by {
        assert(end.contains_key(k));
        if label_keys(labels).contains(k) {
            assert(mid[k].remove(id) =~= list_of(terms, k));
        }
    }
    assert(end =~= terms);
}

/// Indexing a series twice is indexing it once.
pub proof fn law_index_idempotent(terms: TermMap, id: u64, labels: Seq<Label>)
    ensures
        with_postings(with_postings(terms, series_postings(id, labels)), series_postings(id, labels))
            == with_postings(terms, series_postings(id, labels)),
{
    let added = series_postings(id, labels);
    lemma_with_postings_twice(terms, added, added);
    assert(added.union(added) =~= added);
}

/// The dictionary, the directory, the live ids and the marked ids of an index, and what a running
/// pass may retire.
pub ghost struct IndexState {
    pub terms: TermMap,
    pub keys: Map<u64, Seq<u8>>,
    pub all: Set<u64>,
    pub stale: Set<u64>,
    /// What a running pass may retire.
    pub pass: Option<Set<u64>>,
}

/// The state after one series was indexed.
pub open spec fn index_one(s: IndexState, e: BulkIndexEntry) -> IndexState {
    IndexState {
        terms: with_postings(s.terms, entry_postings(seq![e])),
        keys: s.keys.insert(e.id, e.key@),
        all: s.all.insert(e.id),
        stale: s.stale.remove(e.id),
        pass: s.pass,
    }
}

/// The state after series were indexed one by one.
pub open spec fn index_each(s: IndexState, entries: Seq<BulkIndexEntry>) -> IndexState
    decreases entries.len(),
{
    if entries.len() == 0 {
        s
    } else {
        index_one(index_each(s, entries.drop_last()), entries.last())
    }
}

/// The state after series were indexed in bulk.
pub open spec fn index_bulk(s: IndexState, entries: Seq<BulkIndexEntry>) -> IndexState {
    IndexState {
        terms: with_postings(s.terms, entry_postings(entries)),
        keys: keys_after(s.keys, entries),
        all: s.all.union(entry_ids(entries)),
        stale: s.stale.difference(entry_ids(entries)),
        pass: s.pass,
    }
}

/// The postings of one entry are those of a series with these labels.
pub proof fn law_entry_is_series(e: BulkIndexEntry, labels: Seq<Label>)
    requires
        e.label_keys@.len() == labels.len(),
        forall|i: int| 0 <= i < labels.len() ==> (#[trigger] e.label_keys@[i])@ == label_key(labels[i]),
    ensures
        entry_postings(seq![e]) == series_postings(e.id, labels),
{
    let one = seq![e];
    assert forall|p: Posting| entry_postings(one).contains(p) == series_postings(
        e.id,
        labels,
    ).contains(p) by {
        if entry_postings(one).contains(p) {
            let (i, j) = choose|i: int, j: int|
                0 <= i < one.len() && 0 <= j < one[i].label_keys@.len() && one[i].id == p.1 && (
                #[trigger] one[i].label_keys@[j])@ == p.0;
            assert(label_key(labels[j]) == p.0);
        }
        if series_postings(e.id, labels).contains(p) {
            let j = choose|j: int| 0 <= j < labels.len() && label_key(#[trigger] labels[j]) == p.0;
            assert(one[0].label_keys@[j]@ == p.0);
        }
    }
    assert(entry_postings(one) =~= series_postings(e.id, labels));
}

proof fn lemma_entries_split(entries: Seq<BulkIndexEntry>)
    requires
        entries.len() > 0,
    ensures
        entry_postings(entries) == entry_postings(entries.drop_last()).union(
            entry_postings(seq![entries.last()]),
        ),
        entry_ids(entries) == entry_ids(entries.drop_last()).insert(entries.last().id),
{
    let done = entries.drop_last();
    let one = seq![entries.last()];
    let n = entries.len() - 1;
    assert forall|p: Posting| entry_postings(entries).contains(p) == (entry_postings(
        done,
    ).contains(p) || entry_postings(one).contains(p)) by {
        if entry_postings(entries).contains(p) {
            let (i, j) = choose|i: int, j: int|
                0 <= i < entries.len() && 0 <= j < entries[i].label_keys@.len() && entries[i].id
                    == p.1 && (#[trigger] entries[i].label_keys@[j])@ == p.0;
            if i < n {
                assert(done[i].label_keys@[j]@ == p.0);
            } else {
                assert(one[0].label_keys@[j]@ == p.0);
            }
        }
        if entry_postings(done).contains(p) {
            let (i, j) = choose|i: int, j: int|
                0 <= i < done.len() && 0 <= j < done[i].label_keys@.len() && done[i].id == p.1 && (
                #[trigger] done[i].label_keys@[j])@ == p.0;
            assert(entries[i].label_keys@[j]@ == p.0);
        }
        if entry_postings(one).contains(p) {
            let (i, j) = choose|i: int, j: int|
                0 <= i < one.len() && 0 <= j < one[i].label_keys@.len() && one[i].id == p.1 && (
                #[trigger] one[i].label_keys@[j])@ == p.0;
            assert(entries[n].label_keys@[j]@ == p.0);
        }
    }
    assert(entry_postings(entries) =~= entry_postings(done).union(entry_postings(one)));
    assert forall|id: u64| entry_ids(entries).contains(id) == entry_ids(done).insert(
        entries.last().id,
    ).contains(id) by {
        if entry_ids(entries).contains(id) {
            let i = choose|i: int| 0 <= i < entries.len() && (#[trigger] entries[i]).id == id;
            if i < n {
                assert(done[i].id == id);
            }
        }
        if entry_ids(done).contains(id) {
            let i = choose|i: int| 0 <= i < done.len() && (#[trigger] done[i]).id == id;
            assert(entries[i].id == id);
        }
        if id == entries.last().id {
            assert(entries[n].id == id);
        }
    }
    assert(entry_ids(entries) =~= entry_ids(done).insert(entries.last().id));
}

/// Indexing in bulk is indexing one by one.
pub proof fn law_bulk_is_one_by_one(s: IndexState, entries: Seq<BulkIndexEntry>)
    ensures
        index_bulk(s, entries) == index_each(s, entries),
    decreases entries.len(),
{
    if entries.len() == 0 {
        let none = Set::<Posting>::empty();
        assert(entry_postings(entries) =~= none);
        assert(entry_ids(entries) =~= Set::<u64>::empty());
        assert(with_postings(s.terms, none) =~= s.terms) by {
            assert forall|k: Seq<u8>| s.terms.contains_key(k) implies with_postings(
                s.terms,
                none,
            )[k] == s.terms[k] by {
                assert(with_postings(s.terms, none)[k] =~= s.terms[k]);
            }
        }
        assert(s.all.union(entry_ids(entries)) =~= s.all);
        assert(s.stale.difference(entry_ids(entries)) =~= s.stale);
    } else {
        let done = entries.drop_last();
        law_bulk_is_one_by_one(s, done);
        lemma_entries_split(entries);
        lemma_with_postings_twice(
            s.terms,
            entry_postings(done),
            entry_postings(seq![entries.last()]),
        );
        assert(s.all.union(entry_ids(entries)) =~= s.all.union(entry_ids(done)).insert(
            entries.last().id,
        ));
        assert(s.stale.difference(entry_ids(entries)) =~= s.stale.difference(
            entry_ids(done),
        ).remove(entries.last().id));
    }
}

/// Every id that a pass may retire and that is still marked has left the lists of the keys before
/// a point.
pub open spec fn cleared_before(
    terms: TermMap,
    stale: Set<u64>,
    pass: Set<u64>,
    next: Option<Seq<u8>>,
) -> bool {
    forall|k: Seq<u8>, id: u64|
        #![trigger terms[k].contains(id)]
        terms.contains_key(k) && in_batch(None, next, k) && pass.contains(id) && stale.contains(id)
            ==> !terms[k].contains(id)
}

/// A batch carries a pass forward: what was cleared before it starts and what it visits is cleared
/// after it, so that when a pass has visited every key, no id that it retires stands in a list.
pub proof fn law_pass_clears(
    terms: TermMap,
    stale: Set<u64>,
    pass: Set<u64>,
    start: Option<Seq<u8>>,
    next: Option<Seq<u8>>,
)
    requires
        start is Some ==> cleared_before(terms, stale, pass, start),
    ensures
        cleared_before(drained(terms, stale, start, next), stale, pass, next),
{
    let after = drained(terms, stale, start, next);
    assert forall|k: Seq<u8>, id: u64|
        #![trigger after[k].contains(id)]
        after.contains_key(k) && in_batch(None, next, k) && pass.contains(id) && stale.contains(
            id,
        ) implies !after[k].contains(id) by {
        if !in_batch(start, next, k) {
            crate::bytes::lemma_lex_total(start->0, k);
            assert(in_batch(None, start, k));
            assert(after[k] == terms[k]);
            assert(!terms[k].contains(id));
        }
    }
}

/// With more ids marked for removal, which the running pass may then not retire.
pub open spec fn marked_more(d: Drain, ids: Set<u64>) -> Drain {
    Drain {
        terms: d.terms,
        stale: d.stale.union(ids),
        pass: pass_without(d.pass, ids),
    }
}

/// A pass from the first key to the last: batches, each from where the one before it stopped, with
/// ids marked in between. `before[i]` and `after[i]` are what a batch starts and ends with,
/// `cursors` where each starts, and `marks[i]` what is marked after a batch.
pub open spec fn is_pass(
    before: Seq<Drain>,
    after: Seq<Drain>,
    cursors: Seq<Option<Seq<u8>>>,
    marks: Seq<Set<u64>>,
    count: nat,
) -> bool {
    let n = before.len() as int;
    &&& n > 0
    &&& after.len() == n
    &&& cursors.len() == n + 1
    &&& marks.len() == n - 1
    &&& cursors[0] is None
    &&& cursors[n] is None
    &&& forall|i: int| 0 < i < n ==> (#[trigger] cursors[i]) is Some
    &&& forall|i: int|
        0 <= i < n ==> is_batch(#[trigger] before[i], cursors[i], count, after[i], cursors[i + 1])
    &&& forall|i: int| 0 <= i < n - 1 ==> before[i + 1] == marked_more(after[i], #[trigger] marks[i])
}

/// The ids that were marked after one of the first batches.
pub open spec fn marked_since(marks: Seq<Set<u64>>, n: int) -> Set<u64> {
    Set::new(|id: u64| exists|i: int| 0 <= i < n && (#[trigger] marks[i]).contains(id))
}

/// What holds when a batch of a pass starts.
spec fn is_under_way(
    first: Drain,
    d: Drain,
    cursor: Option<Seq<u8>>,
    since: Set<u64>,
    started: bool,
) -> bool {
    &&& d.stale == first.stale.union(since)
    &&& started ==> d.pass == Some(first.stale.difference(since))
    &&& started ==> cursor is Some && d.terms.contains_key(cursor->0)
    &&& forall|k: Seq<u8>| #[trigger] d.terms.contains_key(k) ==> first.terms.contains_key(k)
    &&& started ==> forall|k: Seq<u8>| #[trigger]
        d.terms.contains_key(k) && in_batch(None, cursor, k) ==> d.terms[k].disjoint(first.stale)
            && d.terms[k] != Set::<u64>::empty()
    &&& forall|k: Seq<u8>, id: u64|
        first.terms.contains_key(k) && !first.stale.contains(id) && !since.contains(id) ==> (
        list_of(d.terms, k).contains(id) <==> #[trigger] first.terms[k].contains(id))
}

proof fn lemma_under_way(
    before: Seq<Drain>,
    after: Seq<Drain>,
    cursors: Seq<Option<Seq<u8>>>,
    marks: Seq<Set<u64>>,
    count: nat,
    i: int,
)
    requires
        is_pass(before, after, cursors, marks, count),
        0 <= i < before.len(),
    ensures
        is_under_way(before[0], before[i], cursors[i], marked_since(marks, i), i > 0),
    decreases i,
{
    let first = before[0];
    if i == 0 {
        assert(marked_since(marks, 0) =~= Set::<u64>::empty());
        assert(first.stale =~= first.stale.union(Set::<u64>::empty()));
    } else {
        lemma_under_way(before, after, cursors, marks, count, i - 1);
        let (a, b, c) = (before[i - 1], after[i - 1], before[i]);
        let since = marked_since(marks, i - 1);
        let more = marked_since(marks, i);
        let (from, to) = (cursors[i - 1], cursors[i]);
        assert(is_batch(a, from, count, b, to));
        assert(c == marked_more(b, marks[i - 1]));
        assert(cursors[i] is Some);
        assert(more =~= since.union(marks[i - 1])) by {
            assert forall|id: u64| more.contains(id) == since.union(marks[i - 1]).contains(id) by {
                if more.contains(id) {
                    let j = choose|j: int| 0 <= j < i && (#[trigger] marks[j]).contains(id);
                    if j < i - 1 {
                        assert(marks[j].contains(id));
                    }
                }
                if since.contains(id) {
                    let j = choose|j: int| 0 <= j < i - 1 && (#[trigger] marks[j]).contains(id);
                    assert(marks[j].contains(id));
                }
            }
        }
        assert(c.stale =~= first.stale.union(more));
        assert(first.stale.difference(since).difference(marks[i - 1]) =~= first.stale.difference(
            more,
        ));
        if i == 1 {
            assert(first.stale.difference(since) =~= first.stale);
        }
        crate::bytes::lemma_lex_irreflexive(to->0);
        assert(b.terms.contains_key(to->0));
        assert forall|k: Seq<u8>| #[trigger]
            c.terms.contains_key(k) && in_batch(None, to, k) implies c.terms[k].disjoint(
            first.stale,
        ) && c.terms[k] != Set::<u64>::empty() by {
            assert(a.terms.contains_key(k));
            if in_batch(from, to, k) {
                assert(c.terms[k] == a.terms[k].difference(a.stale));
            } else {
                crate::bytes::lemma_lex_total(from->0, k);
                assert(in_batch(None, from, k));
            }
        }
        assert forall|k: Seq<u8>, id: u64|
            first.terms.contains_key(k) && !first.stale.contains(id) && !more.contains(id) implies (
        list_of(c.terms, k).contains(id) <==> #[trigger] first.terms[k].contains(id)) by {
            assert(list_of(a.terms, k).contains(id) <==> first.terms[k].contains(id));
            if a.terms.contains_key(k) && a.terms[k].contains(id) {
                assert(a.terms[k].difference(a.stale).contains(id));
            }
        }
    }
}

/// A whole pass over a dictionary that is not empty: it ends; the ids that were marked when it
/// started and not since are no longer marked and stand in no list; those marked since are still
/// marked; all others stand in the lists that they stood in; and no list is empty.
pub proof fn law_pass_retires(
    before: Seq<Drain>,
    after: Seq<Drain>,
    cursors: Seq<Option<Seq<u8>>>,
    marks: Seq<Set<u64>>,
    count: nat,
)
    requires
        is_pass(before, after, cursors, marks, count),
        before[0].terms.dom() != Set::<Seq<u8>>::empty(),
    ensures
        ({
            let (first, last) = (before[0], after.last());
            let since = marked_since(marks, marks.len() as int);
            &&& last.pass is None
            &&& last.stale == since
            &&& forall|k: Seq<u8>, id: u64|
                last.terms.contains_key(k) && first.stale.contains(id)
                    ==> !(#[trigger] last.terms[k].contains(id))
            &&& forall|k: Seq<u8>, id: u64|
                first.terms.contains_key(k) && !first.stale.contains(id) && !since.contains(id) ==> (
                list_of(last.terms, k).contains(id) <==> #[trigger] first.terms[k].contains(id))
            &&& forall|k: Seq<u8>| #[trigger]
                last.terms.contains_key(k) ==> first.terms.contains_key(k) && last.terms[k]
                    != Set::<u64>::empty()
        }),
{
    let n = before.len() as int;
    let (first, a, b) = (before[0], before[n - 1], after[n - 1]);
    let since = marked_since(marks, n - 1);
    let from = cursors[n - 1];
    lemma_under_way(before, after, cursors, marks, count, n - 1);
    assert(is_batch(a, from, count, b, cursors[n - 1 + 1]));
    let visited = batch_keys(a.terms, from, None);
    assert(visited.len() > 0) by {
        let k = if n == 1 {
            assert(exists|k: Seq<u8>| first.terms.dom().contains(k)) by {
                if forall|k: Seq<u8>| !first.terms.dom().contains(k) {
                    assert(first.terms.dom() =~= Set::<Seq<u8>>::empty());
                }
            }
            choose|k: Seq<u8>| first.terms.dom().contains(k)
        } else {
            from->0
        };
        assert(visited.contains(k));
        if visited.len() == 0 {
            visited.lemma_len0_is_empty();
        }
    }
    let pass = if from is None || a.pass is None {
        a.stale
    } else {
        a.pass->0
    };
    assert(a.stale.difference(pass) =~= since) by {
        if n == 1 {
            assert(since =~= Set::<u64>::empty());
        } else {
            assert forall|id: u64| a.stale.difference(pass).contains(id) == since.contains(id) by {}
        }
    }
    assert forall|k: Seq<u8>, id: u64|
        b.terms.contains_key(k) && first.stale.contains(id) implies !(#[trigger] b.terms[k].contains(
        id,
    )) by {
        if !in_batch(from, None, k) {
            crate::bytes::lemma_lex_total(from->0, k);
            assert(in_batch(None, from, k));
            assert(a.terms.contains_key(k));
        }
    }
    assert forall|k: Seq<u8>, id: u64|
        first.terms.contains_key(k) && !first.stale.contains(id) && !since.contains(id) implies (
    list_of(b.terms, k).contains(id) <==> #[trigger] first.terms[k].contains(id)) by {
        assert(list_of(a.terms, k).contains(id) <==> first.terms[k].contains(id));
        if a.terms.contains_key(k) && a.terms[k].contains(id) {
            assert(a.terms[k].difference(a.stale).contains(id));
        }
    }
    assert forall|k: Seq<u8>| #[trigger] b.terms.contains_key(k) implies first.terms.contains_key(k)
        && b.terms[k] != Set::<u64>::empty() by {
        assert(a.terms.contains_key(k));
        if !in_batch(from, None, k) {
            crate::bytes::lemma_lex_total(from->0, k);
            assert(in_batch(None, from, k));
        }
    }
}

} // verus!
