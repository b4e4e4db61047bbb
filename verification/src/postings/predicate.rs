//! From one filter to the ids that it selects.
//!
//! Each kind of test is answered by the cheapest lookup that serves it: one key, the keys under a
//! prefix, or a scan of a label's values.
use crate::bytes::{lemma_utf8_empty, utf8};
use crate::error::TsdbError;
use crate::labels::{
    inverse_matcher, is_negative, law_inverse_negates, list_has, matcher_accepts, value_contains, value_equals, value_is_empty, LabelFilter,
    PredicateMatch, PredicateValue,
};
use crate::postings::bitmap::{cow_ids, cow_ref, ids_of};
use crate::postings::key::term_key;
use crate::postings::terms::{lemma_with_value_same, value_has_prefix, with_label, with_value};
use crate::postings::{list_of, Postings, PostingsBitmap};
use croaring::Bitmap64;
use std::borrow::Cow;
use vstd::prelude::*;

verus! {

/// The value starts with one of the prefixes.
pub open spec fn value_has_any_prefix(p: PredicateValue, v: Seq<u8>) -> bool {
    match p {
        PredicateValue::Empty => false,
        PredicateValue::String(s) => value_has_prefix(v, utf8(s@)),
        PredicateValue::List(l) => exists|i: int|
            0 <= i < l@.len() && value_has_prefix(v, utf8(#[trigger] l@[i]@)),
    }
}

/// The pattern matches everything by its form: it is empty or `.*`.
pub open spec fn is_trivial_pattern(p: Seq<char>) -> bool {
    p == ""@ || p == ".*"@
}

/// The inverse of a filter.
pub open spec fn inverse_filter(f: LabelFilter) -> LabelFilter {
    LabelFilter { label: f.label, matcher: inverse_matcher(f.matcher) }
}

impl Postings {
    /// The live ids that carry the label with a value that satisfies a condition.
    pub open spec fn live_with(&self, label: Seq<u8>, p: spec_fn(Seq<u8>) -> bool) -> Set<u64> {
        with_value(self.terms(), label, p).difference(self.stale())
    }

    /// The live ids that carry the label.
    pub open spec fn labelled_ids(&self, label: Seq<u8>) -> Set<u64> {
        with_label(self.terms(), label).difference(self.stale())
    }

    /// The live ids that do not carry the label.
    pub open spec fn unlabelled_ids(&self, label: Seq<u8>) -> Set<u64> {
        self.all().difference(with_label(self.terms(), label))
    }

    /// The ids whose value is one of those asked for; where the empty value is, also the ids
    /// without the label.
    pub open spec fn equal_ids(&self, label: Seq<u8>, p: PredicateValue) -> Set<u64> {
        self.live_with(label, |v: Seq<u8>| v.len() > 0 && value_equals(p, v)).union(
            if value_equals(p, Seq::<u8>::empty()) {
                self.unlabelled_ids(label)
            } else {
                Set::empty()
            },
        )
    }

    /// All ids but those whose value is one of those asked for; where nothing is asked for, the
    /// ids that carry the label.
    pub open spec fn not_equal_ids(&self, label: Seq<u8>, p: PredicateValue) -> Set<u64> {
        if value_is_empty(p) {
            self.labelled_ids(label)
        } else {
            self.all().difference(with_value(self.terms(), label, |v: Seq<u8>| value_equals(p, v)))
        }
    }

    /// The ids whose value starts with one of the prefixes.
    pub open spec fn prefix_ids(&self, label: Seq<u8>, p: PredicateValue) -> Set<u64> {
        self.live_with(label, |v: Seq<u8>| value_has_any_prefix(p, v))
    }

    /// The ids whose value contains one of the texts.
    pub open spec fn containing_ids(&self, label: Seq<u8>, p: PredicateValue) -> Set<u64> {
        self.live_with(label, |v: Seq<u8>| value_contains(p, v))
    }

    /// The ids that a filter selects on its own.
    pub open spec fn filter_ids(&self, f: LabelFilter) -> Set<u64> {
        let label = utf8(f.label@);
        match f.matcher {
            PredicateMatch::Equal(p) => self.equal_ids(label, p),
            PredicateMatch::NotEqual(p) => self.not_equal_ids(label, p),
            PredicateMatch::MatchAll => self.all(),
            PredicateMatch::MatchNone => Set::empty(),
            PredicateMatch::RegexEqual(re) => if matcher_accepts(f.matcher, Seq::empty()) {
                self.unlabelled_ids(label)
            } else {
                self.live_with(
                    label,
                    |v: Seq<u8>|
                        (re.prefix matches Some(p) ==> value_has_prefix(v, utf8(p@)))
                            && matcher_accepts(f.matcher, v),
                )
            },
            PredicateMatch::RegexNotEqual(re) => if matcher_accepts(f.matcher, Seq::empty()) {
                self.labelled_ids(label)
            } else {
                self.live_with(label, |v: Seq<u8>| matcher_accepts(f.matcher, v))
            },
            PredicateMatch::StartsWith(p) => self.prefix_ids(label, p),
            PredicateMatch::NotStartsWith(p) => self.all().difference(self.prefix_ids(label, p)),
            PredicateMatch::Contains(p) => self.containing_ids(label, p),
            PredicateMatch::NotContains(p) => self.all().difference(self.containing_ids(label, p)),
        }
    }

    /// The ids that carry a filter's label with a value that the filter rejects.
    pub open spec fn inverse_ids(&self, f: LabelFilter) -> Set<u64> {
        let label = utf8(f.label@);
        match f.matcher {
            PredicateMatch::NotEqual(p) => self.equal_ids(label, p),
            PredicateMatch::Equal(PredicateValue::String(s)) if s@.len() == 0 => self.labelled_ids(
                label,
            ),
            PredicateMatch::MatchAll => Set::empty(),
            PredicateMatch::MatchNone => self.all(),
            PredicateMatch::RegexEqual(re) if is_trivial_pattern(
                re.regex.source(),
            ) => self.labelled_ids(label),
            PredicateMatch::StartsWith(p) => self.labelled_ids(label).difference(
                self.prefix_ids(label, p),
            ),
            PredicateMatch::NotStartsWith(p) => self.prefix_ids(label, p),
            PredicateMatch::Contains(p) => self.labelled_ids(label).difference(
                self.containing_ids(label, p),
            ),
            PredicateMatch::NotContains(p) => self.containing_ids(label, p),
            _ => self.live_with(label, |v: Seq<u8>| !matcher_accepts(f.matcher, v)),
        }
    }

    /// The ids that a filter selects on its own.
    pub fn postings_for_filter<'a>(&'a self, filter: &LabelFilter) -> (r: Result<
        Cow<'a, PostingsBitmap>,
        TsdbError,
    >)
        requires
            self.wf(),
        ensures
            r matches Ok(ids) && cow_ids(ids) == self.filter_ids(*filter),
    {
        let result = match &filter.matcher {
            PredicateMatch::Equal(value) => self.handle_equal_match(filter.label.as_str(), value),
            PredicateMatch::NotEqual(value) => self.handle_not_equal_match(
                filter.label.as_str(),
                value,
            ),
            PredicateMatch::MatchAll => Cow::Borrowed(&self.all_postings),
            PredicateMatch::MatchNone => Cow::Owned(Bitmap64::new()),
            PredicateMatch::RegexEqual(_) => self.handle_regex_equal_match(filter),
            PredicateMatch::RegexNotEqual(_) => self.handle_regex_not_equal_match(filter),
            PredicateMatch::StartsWith(prefix) => Cow::Owned(
                self.postings_by_prefix_value(filter.label.as_str(), prefix),
            ),
            PredicateMatch::NotStartsWith(prefix) => {
                let matching = self.postings_by_prefix_value(filter.label.as_str(), prefix);
                Cow::Owned(self.all_postings.andnot(&matching))
            },
            PredicateMatch::Contains(_) => Cow::Owned(self.handle_contains(filter, true)),
            PredicateMatch::NotContains(_) => {
                let matching = self.handle_contains(filter, false);
                Cow::Owned(self.all_postings.andnot(&matching))
            },
        };
        Ok(result)
    }

    /// The ids that carry a filter's label with a value that the filter rejects.
    pub fn inverse_postings_for_filter<'a>(&'a self, filter: &LabelFilter) -> (r: Cow<
        'a,
        PostingsBitmap,
    >)
        requires
            self.wf(),
        ensures
            cow_ids(r) == self.inverse_ids(*filter),
    {
        let label = filter.label.as_str();
        match &filter.matcher {
            PredicateMatch::NotEqual(value) => self.handle_equal_match(label, value),
            PredicateMatch::MatchAll => Cow::Owned(Bitmap64::new()),
            PredicateMatch::MatchNone => Cow::Borrowed(&self.all_postings),
            PredicateMatch::StartsWith(prefix) => {
                let all = self.postings_for_all_label_values(label);
                let matching = self.postings_by_prefix_value(label, prefix);
                Cow::Owned(all.andnot(&matching))
            },
            PredicateMatch::NotStartsWith(prefix) => Cow::Owned(
                self.postings_by_prefix_value(label, prefix),
            ),
            PredicateMatch::Contains(_) => {
                let all = self.postings_for_all_label_values(label);
                let matching = self.handle_contains(filter, true);
                Cow::Owned(all.andnot(&matching))
            },
            PredicateMatch::NotContains(_) => Cow::Owned(self.handle_contains(filter, false)),
            PredicateMatch::Equal(value) => {
                let wants_empty: bool = match value {
                    PredicateValue::String(s) => s.as_str().is_empty(),
                    _ => false,
                };
                if wants_empty {
                    Cow::Owned(self.postings_for_all_label_values(label))
                } else {
                    self.postings_rejected(filter)
                }
            },
            PredicateMatch::RegexEqual(re) => {
                if is_trivial_text(re.regex.as_str()) {
                    Cow::Owned(self.postings_for_all_label_values(label))
                } else {
                    self.postings_rejected(filter)
                }
            },
            PredicateMatch::RegexNotEqual(_) => self.postings_rejected(filter),
        }
    }

    /// The ids that carry a negative filter's label with a value that the filter's inverse
    /// rejects.
    pub fn postings_for_negative<'a>(&'a self, filter: &LabelFilter) -> (r: Cow<'a, PostingsBitmap>)
        requires
            self.wf(),
            is_negative(filter.matcher),
        ensures
            cow_ids(r) == self.inverse_ids(inverse_filter(*filter)),
    {
        let label = filter.label.as_str();
        match &filter.matcher {
            PredicateMatch::NotStartsWith(prefix) => {
                let all = self.postings_for_all_label_values(label);
                let matching = self.postings_by_prefix_value(label, prefix);
                Cow::Owned(all.andnot(&matching))
            },
            PredicateMatch::NotContains(_) => {
                let all = self.postings_for_all_label_values(label);
                let matching = self.handle_contains(filter, false);
                Cow::Owned(all.andnot(&matching))
            },
            PredicateMatch::NotEqual(value) => {
                let wants_empty: bool = match value {
                    PredicateValue::String(s) => s.as_str().is_empty(),
                    _ => false,
                };
                if wants_empty {
                    Cow::Owned(self.postings_for_all_label_values(label))
                } else {
                    self.postings_accepted(filter)
                }
            },
            PredicateMatch::RegexNotEqual(re) => {
                if is_trivial_text(re.regex.as_str()) {
                    Cow::Owned(self.postings_for_all_label_values(label))
                } else {
                    self.postings_accepted(filter)
                }
            },
            _ => self.postings_accepted(filter),
        }
    }

    /// The ids that carry a filter's label with a value that its inverse rejects.
    fn postings_accepted<'a>(&'a self, filter: &LabelFilter) -> (r: Cow<'a, PostingsBitmap>)
        requires
            self.wf(),
        ensures
            cow_ids(r) == self.live_with(
                utf8(filter.label@),
                |v: Seq<u8>| !matcher_accepts(inverse_matcher(filter.matcher), v),
            ),
    {
        let ids = self.postings_for_label_matching(filter.label.as_str(), &filter.matcher, true);
        proof {
            let p = |v: Seq<u8>| !matcher_accepts(inverse_matcher(filter.matcher), v);
            let q = |v: Seq<u8>| matcher_accepts(filter.matcher, v) == true;
            assert forall|v: Seq<u8>| #[trigger] p(v) == q(v) by {
                law_inverse_negates(filter.matcher, v);
            }
            lemma_with_value_same(self.terms(), utf8(filter.label@), p, q);
        }
        Cow::Owned(ids)
    }

    /// The ids that carry a filter's label with a value that its test rejects.
    fn postings_rejected<'a>(&'a self, filter: &LabelFilter) -> (r: Cow<'a, PostingsBitmap>)
        requires
            self.wf(),
        ensures
            cow_ids(r) == self.live_with(
                utf8(filter.label@),
                |v: Seq<u8>| !matcher_accepts(filter.matcher, v),
            ),
    {
        let ids = self.postings_for_label_matching(filter.label.as_str(), &filter.matcher, false);
        proof {
            let p = |v: Seq<u8>| !matcher_accepts(filter.matcher, v);
            let q = |v: Seq<u8>| matcher_accepts(filter.matcher, v) == false;
            lemma_with_value_same(self.terms(), utf8(filter.label@), p, q);
        }
        Cow::Owned(ids)
    }

    /// The ids whose value is one of those asked for.
    fn handle_equal_match<'a>(&'a self, label: &str, value: &PredicateValue) -> (r: Cow<
        'a,
        PostingsBitmap,
    >)
        requires
            self.wf(),
        ensures
            cow_ids(r) == self.equal_ids(utf8(label@), *value),
    {
        let ghost name = utf8(label@);
        let ghost cond = |v: Seq<u8>| v.len() > 0 && value_equals(*value, v);
        match value {
            PredicateValue::Empty => {
                proof {
                    lemma_none_selected(self, name, cond);
                }
                let r = self.postings_without_label(label);
                assert(cow_ids(r) =~= self.equal_ids(name, *value));
                r
            },
            PredicateValue::String(s) => self.handle_equal_text(label, value, s),
            PredicateValue::List(values) => {
                if values.len() == 0 {
                    proof {
                        lemma_none_selected(self, name, cond);
                    }
                    let r = self.postings_without_label(label);
                    assert(cow_ids(r) =~= self.equal_ids(name, *value));
                    return r;
                }
                if values.len() == 1 {
                    assert(forall|v: Seq<u8>|
                        value_equals(*value, v) == (utf8(values@[0]@) == v)) by {
                        assert forall|v: Seq<u8>| value_equals(*value, v) == (utf8(values@[0]@)
                            == v) by {
                            if utf8(values@[0]@) == v {
                                assert(list_has(values@, v));
                            }
                        }
                    }
                    return self.handle_equal_text(label, value, &values[0]);
                }
                let mut contains_empty: bool = false;
                let mut non_empty: Vec<String> = Vec::new();
                let mut i: usize = 0;
                while i < values.len()
                    invariant
                        i <= values.len(),
                        contains_empty == list_has(
                            values@.subrange(0, i as int),
                            Seq::<u8>::empty(),
                        ),
                        forall|v: Seq<u8>| #[trigger]
                            list_has(non_empty@, v) <==> v.len() > 0 && list_has(
                                values@.subrange(0, i as int),
                                v,
                            ),
                    decreases values.len() - i,
                {
                    let s = &values[i];
                    let ghost before = non_empty@;
                    let ghost done = values@.subrange(0, i as int);
                    let ghost more = values@.subrange(0, i + 1);
                    proof {
                        lemma_utf8_empty(s@);
                        assert(more =~= done.push(*s));
                        assert forall|v: Seq<u8>| #[trigger] list_has(more, v) <==> list_has(done, v)
                            || utf8(s@) == v by {
                            lemma_list_has_push(done, *s, v);
                        }
                    }
                    if s.as_str().is_empty() {
                        contains_empty = true;
                        assert(utf8(s@) =~= Seq::<u8>::empty());
                    } else {
                        non_empty.push(s.clone());
                        proof {
                            assert forall|v: Seq<u8>| #[trigger] list_has(non_empty@, v)
                                <==> v.len() > 0 && list_has(more, v) by {
                                lemma_list_has_push(before, *s, v);
                                assert(list_has(more, v) <==> list_has(done, v) || utf8(s@) == v);
                            }
                        }
                    }
                    i += 1;
                }
                assert(values@.subrange(0, i as int) =~= values@);
                if non_empty.len() == 0 {
                    proof {
                        assert(list_has(values@, Seq::<u8>::empty())) by {
                            assert(list_has(values@, utf8(values@[0]@)));
                            if utf8(values@[0]@).len() > 0 {
                                assert(list_has(non_empty@, utf8(values@[0]@)));
                            } else {
                                assert(utf8(values@[0]@) =~= Seq::<u8>::empty());
                            }
                        }
                        assert forall|v: Seq<u8>| !#[trigger] cond(v) by {
                            if cond(v) {
                                assert(list_has(non_empty@, v));
                            }
                        }
                        lemma_none_selected(self, name, cond);
                    }
                    let r = self.postings_without_label(label);
                    assert(cow_ids(r) =~= self.equal_ids(name, *value));
                    return r;
                }
                let mut result = self.postings_for_label_values(label, &non_empty);
                proof {
                    let q = |v: Seq<u8>| list_has(non_empty@, v);
                    assert forall|v: Seq<u8>| #[trigger] cond(v) == q(v) by {
                        assert(list_has(non_empty@, v) <==> v.len() > 0 && list_has(values@, v));
                    }
                    lemma_with_value_same(self.terms(), name, cond, q);
                }
                if contains_empty {
                    let without = self.postings_without_label(label);
                    result.or_inplace(cow_ref(&without));
                } else {
                    assert(ids_of(result) =~= self.equal_ids(name, *value));
                }
                Cow::Owned(result)
            },
        }
    }

    /// The ids whose value is the one text that is asked for.
    fn handle_equal_text<'a>(&'a self, label: &str, value: &PredicateValue, s: &String) -> (r: Cow<
        'a,
        PostingsBitmap,
    >)
        requires
            self.wf(),
            forall|v: Seq<u8>| #[trigger] value_equals(*value, v) == (utf8(s@) == v),
        ensures
            cow_ids(r) == self.equal_ids(utf8(label@), *value),
    {
        let ghost name = utf8(label@);
        let ghost cond = |v: Seq<u8>| v.len() > 0 && value_equals(*value, v);
        proof {
            lemma_utf8_empty(s@);
        }
        if s.as_str().is_empty() {
            assert(utf8(s@) =~= Seq::<u8>::empty());
            proof {
                lemma_none_selected(self, name, cond);
            }
            let r = self.postings_without_label(label);
            assert(cow_ids(r) =~= self.equal_ids(name, *value));
            r
        } else {
            let r = self.postings_for_label_value(label, s.as_str());
            proof {
                let v0 = utf8(s@);
                let found = with_value(self.terms(), name, cond);
                assert forall|id: u64| found.contains(id) == list_of(
                    self.terms(),
                    term_key(name, v0),
                ).contains(id) by {
                    if list_of(self.terms(), term_key(name, v0)).contains(id) {
                        assert(cond(v0));
                    }
                }
                assert(found =~= list_of(self.terms(), term_key(name, v0)));
                assert(!value_equals(*value, Seq::<u8>::empty()));
                assert(cow_ids(r) =~= self.equal_ids(name, *value));
            }
            r
        }
    }

    /// All ids but those whose value is one of those asked for.
    fn handle_not_equal_match<'a>(&'a self, label: &str, value: &PredicateValue) -> (r: Cow<
        'a,
        PostingsBitmap,
    >)
        requires
            self.wf(),
        ensures
            cow_ids(r) == self.not_equal_ids(utf8(label@), *value),
    {
        if value.is_empty() {
            return Cow::Owned(self.postings_for_all_label_values(label));
        }
        let ghost name = utf8(label@);
        let ghost cond = |v: Seq<u8>| value_equals(*value, v);
        let ghost goal = with_value(self.terms(), name, cond);
        match value {
            PredicateValue::Empty => Cow::Owned(self.postings_for_all_label_values(label)),
            PredicateValue::String(s) => {
                let ids = self.postings_for_label_value(label, s.as_str());
                proof {
                    let v0 = utf8(s@);
                    assert forall|id: u64| goal.contains(id) == list_of(
                        self.terms(),
                        term_key(name, v0),
                    ).contains(id) by {
                        if list_of(self.terms(), term_key(name, v0)).contains(id) {
                            assert(cond(v0));
                        }
                    }
                    assert(self.all().difference(cow_ids(ids)) =~= self.all().difference(goal));
                }
                if cow_ref(&ids).is_empty() {
                    assert(self.all() =~= self.all().difference(cow_ids(ids)));
                    Cow::Borrowed(&self.all_postings)
                } else {
                    Cow::Owned(self.all_postings.andnot(cow_ref(&ids)))
                }
            },
            PredicateValue::List(values) => {
                let to_remove = self.postings_for_label_values(label, values);
                proof {
                    let q = |v: Seq<u8>| list_has(values@, v);
                    lemma_with_value_same(self.terms(), name, cond, q);
                    assert(self.all().difference(ids_of(to_remove)) =~= self.all().difference(goal));
                }
                if to_remove.is_empty() {
                    assert(self.all() =~= self.all().difference(ids_of(to_remove)));
                    Cow::Borrowed(&self.all_postings)
                } else {
                    Cow::Owned(self.all_postings.andnot(&to_remove))
                }
            },
        }
    }

    /// The ids whose value a regular expression matches.
    fn handle_regex_equal_match<'a>(&'a self, filter: &LabelFilter) -> (r: Cow<'a, PostingsBitmap>)
        requires
            self.wf(),
            filter.matcher is RegexEqual,
        ensures
            cow_ids(r) == self.filter_ids(*filter),
    {
        let label = filter.label.as_str();
        let ghost name = utf8(filter.label@);
        if filter.matches_empty() {
            return self.postings_without_label(label);
        }
        let prefix: Option<&String> = match &filter.matcher {
            PredicateMatch::RegexEqual(re) => re.prefix.as_ref(),
            _ => None,
        };
        match prefix {
            Some(p) => {
                let ids = self.postings_by_prefix_and_predicate(
                    label,
                    p.as_str(),
                    &filter.matcher,
                );
                proof {
                    let re = filter.matcher->RegexEqual_0;
                    let cond = |v: Seq<u8>|
                        (re.prefix matches Some(p) ==> value_has_prefix(v, utf8(p@)))
                            && matcher_accepts(filter.matcher, v);
                    let q = |v: Seq<u8>|
                        value_has_prefix(v, utf8(p@)) && matcher_accepts(filter.matcher, v);
                    lemma_with_value_same(self.terms(), name, cond, q);
                }
                Cow::Owned(ids)
            },
            None => {
                let ids = self.postings_for_label_matching(label, &filter.matcher, true);
                proof {
                    let re = filter.matcher->RegexEqual_0;
                    let cond = |v: Seq<u8>|
                        (re.prefix matches Some(p) ==> value_has_prefix(v, utf8(p@)))
                            && matcher_accepts(filter.matcher, v);
                    let q = |v: Seq<u8>| matcher_accepts(filter.matcher, v) == true;
                    lemma_with_value_same(self.terms(), name, cond, q);
                }
                Cow::Owned(ids)
            },
        }
    }

    /// The ids that carry the label with a value that a regular expression does not match.
    fn handle_regex_not_equal_match<'a>(&'a self, filter: &LabelFilter) -> (r: Cow<
        'a,
        PostingsBitmap,
    >)
        requires
            self.wf(),
            filter.matcher is RegexNotEqual,
        ensures
            cow_ids(r) == self.filter_ids(*filter),
    {
        let label = filter.label.as_str();
        if filter.matches_empty() {
            return Cow::Owned(self.postings_for_all_label_values(label));
        }
        let ids = self.postings_for_label_matching(label, &filter.matcher, true);
        proof {
            let cond = |v: Seq<u8>| matcher_accepts(filter.matcher, v);
            let q = |v: Seq<u8>| matcher_accepts(filter.matcher, v) == true;
            lemma_with_value_same(self.terms(), utf8(filter.label@), cond, q);
        }
        Cow::Owned(ids)
    }

    /// The ids whose value starts with one of the prefixes.
    fn postings_by_prefix_value(&self, label: &str, value: &PredicateValue) -> (r: PostingsBitmap)
        requires
            self.wf(),
        ensures
            ids_of(r) == self.prefix_ids(utf8(label@), *value),
    {
        let ghost name = utf8(label@);
        let ghost cond = |v: Seq<u8>| value_has_any_prefix(*value, v);
        match value {
            PredicateValue::Empty => {
                proof {
                    lemma_none_selected(self, name, cond);
                }
                Bitmap64::new()
            },
            PredicateValue::String(prefix) => {
                let r = self.postings_by_prefix(label, prefix.as_str());
                proof {
                    let q = |v: Seq<u8>| value_has_prefix(v, utf8(prefix@));
                    lemma_with_value_same(self.terms(), name, cond, q);
                }
                r
            },
            PredicateValue::List(prefixes) => {
                let mut result = Bitmap64::new();
                let mut i: usize = 0;
                while i < prefixes.len()
                    invariant
                        i <= prefixes.len(),
                        self.wf(),
                        name == utf8(label@),
                        forall|id: u64| #[trigger]
                            ids_of(result).contains(id) <==> exists|a: int|
                                0 <= a < i && self.under_prefix(
                                    name,
                                    utf8(#[trigger] prefixes@[a]@),
                                    id,
                                ),
                    decreases prefixes.len() - i,
                {
                    let ghost before = ids_of(result);
                    let ids = self.postings_by_prefix(label, prefixes[i].as_str());
                    result.or_inplace(&ids);
                    proof {
                        assert forall|id: u64| #[trigger] ids_of(result).contains(id) <==> exists|
                            a: int,
                        |
                            0 <= a < i + 1 && self.under_prefix(
                                name,
                                utf8(#[trigger] prefixes@[a]@),
                                id,
                            ) by {
                            assert(ids_of(ids).contains(id) == self.under_prefix(
                                name,
                                utf8(prefixes@[i as int]@),
                                id,
                            ));
                            if before.contains(id) {
                                let a = choose|a: int|
                                    0 <= a < i && self.under_prefix(
                                        name,
                                        utf8(#[trigger] prefixes@[a]@),
                                        id,
                                    );
                                assert(self.under_prefix(name, utf8(prefixes@[a]@), id));
                            }
                        }
                    }
                    i += 1;
                }
                proof {
                    let goal = self.prefix_ids(name, *value);
                    assert forall|id: u64| ids_of(result).contains(id) == goal.contains(id) by {
                        if ids_of(result).contains(id) {
                            let a = choose|a: int|
                                0 <= a < i && self.under_prefix(
                                    name,
                                    utf8(#[trigger] prefixes@[a]@),
                                    id,
                                );
                            let v = choose|v: Seq<u8>|
                                value_has_prefix(v, utf8(prefixes@[a]@)) && #[trigger] list_of(
                                    self.terms(),
                                    term_key(name, v),
                                ).contains(id);
                            assert(cond(v));
                        }
                        if goal.contains(id) {
                            let v = choose|v: Seq<u8>|
                                cond(v) && #[trigger] list_of(
                                    self.terms(),
                                    term_key(name, v),
                                ).contains(id);
                            let a = choose|a: int|
                                0 <= a < prefixes@.len() && value_has_prefix(
                                    v,
                                    utf8(#[trigger] prefixes@[a]@),
                                );
                            assert(self.under_prefix(name, utf8(prefixes@[a]@), id));
                        }
                    }
                    assert(ids_of(result) =~= goal);
                }
                result
            },
        }
    }

    /// An id carries the label with a value that starts with the prefix.
    spec fn under_prefix(&self, name: Seq<u8>, prefix: Seq<u8>, id: u64) -> bool {
        with_value(
            self.terms(),
            name,
            |v: Seq<u8>| value_has_prefix(v, prefix),
        ).difference(self.stale()).contains(id)
    }

    /// The ids whose value contains one of the texts of a containment test (which the test wants)
    /// or of the negation of one (which it does not).
    fn handle_contains(&self, filter: &LabelFilter, wanted: bool) -> (r: PostingsBitmap)
        requires
            self.wf(),
            wanted ==> filter.matcher is Contains,
            !wanted ==> filter.matcher is NotContains,
        ensures
            ids_of(r) == self.containing_ids(
                utf8(filter.label@),
                if wanted {
                    filter.matcher->Contains_0
                } else {
                    filter.matcher->NotContains_0
                },
            ),
    {
        let ids = self.postings_for_label_matching(filter.label.as_str(), &filter.matcher, wanted);
        proof {
            let value = if wanted {
                filter.matcher->Contains_0
            } else {
                filter.matcher->NotContains_0
            };
            let cond = |v: Seq<u8>| value_contains(value, v);
            let q = |v: Seq<u8>| matcher_accepts(filter.matcher, v) == wanted;
            lemma_with_value_same(self.terms(), utf8(filter.label@), cond, q);
        }
        ids
    }
}

/// Whether a pattern is empty or `.*`.
fn is_trivial_text(pattern: &str) -> (r: bool)
    ensures
        r == is_trivial_pattern(pattern@),
{
    crate::text::text_equal(pattern, "") || crate::text::text_equal(pattern, ".*")
}

/// A condition that no value satisfies selects nothing.
proof fn lemma_none_selected(postings: &Postings, name: Seq<u8>, cond: spec_fn(Seq<u8>) -> bool)
    requires
        forall|v: Seq<u8>| !#[trigger] cond(v),
    ensures
        postings.live_with(name, cond) == Set::<u64>::empty(),
{
    assert(postings.live_with(name, cond) =~= Set::<u64>::empty());
}

proof fn lemma_list_has_push(list: Seq<String>, s: String, v: Seq<u8>)
    ensures
        list_has(list.push(s), v) <==> list_has(list, v) || utf8(s@) == v,
{
    let more = list.push(s);
    if list_has(more, v) {
        let i = choose|i: int| 0 <= i < more.len() && utf8(#[trigger] more[i]@) == v;
        if i < list.len() {
            assert(utf8(list[i]@) == v);
        }
    }
    if list_has(list, v) {
        let i = choose|i: int| 0 <= i < list.len() && utf8(#[trigger] list[i]@) == v;
        assert(utf8(more[i]@) == v);
    }
    if utf8(s@) == v {
        assert(utf8(more[list.len() as int]@) == v);
    }
}

} // verus!
