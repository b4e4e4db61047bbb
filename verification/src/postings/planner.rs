//! From filters and selectors to the ids that they select together.
//!
//! Filters are split into those that keep ids and those that take ids away. The filters that keep
//! ids come first, and among equals the cheap ones. Regular expressions that match everything, or
//! everything but the empty value, are answered without looking at values.
use crate::bytes::utf8;
use crate::error::TsdbError;
use crate::labels::{
    is_negative, matcher_accepts, matcher_cost, matcher_is_empty, matcher_regex_text, FilterList,
    LabelFilter, PredicateMatch, SeriesSelector,
};
use crate::postings::bitmap::{cow_ids, cow_into_owned, cow_ref, ids_of};
use crate::postings::predicate::inverse_filter;
use crate::postings::{Postings, PostingsBitmap};
use crate::text::text_equal;
use croaring::Bitmap64;
use std::borrow::Cow;
use vstd::prelude::*;

verus! {

/// What a filter does to the ids that other filters leave.
#[derive(Clone, Copy, PartialEq, Eq, Structural)]
pub enum Role {
    /// Nothing: it accepts every series.
    Skip,
    /// It accepts no series.
    Empty,
    /// It keeps the ids that carry the label.
    KeepLabelled,
    /// It takes away the ids that carry the label.
    DropLabelled,
    /// It keeps the ids that it selects.
    Keep,
    /// It keeps the ids that its inverse rejects.
    KeepInverse,
    /// It takes away the ids that it rejects.
    DropInverse,
}

/// A filter accepts a series without the label.
pub open spec fn accepts_absent(f: LabelFilter) -> bool {
    matcher_accepts(f.matcher, Seq::<u8>::empty())
}

/// A filter that takes ids away: it is negative or accepts series without the label.
pub open spec fn is_subtracting(f: LabelFilter) -> bool {
    accepts_absent(f) || is_negative(f.matcher)
}

/// The role of a filter.
pub open spec fn role_of(f: LabelFilter) -> Role {
    let dot_star = matcher_regex_text(f.matcher) == Some(".*"@);
    let dot_plus = matcher_regex_text(f.matcher) == Some(".+"@);
    if f.matcher is MatchAll || (f.matcher is RegexEqual && dot_star) {
        Role::Skip
    } else if f.matcher is MatchNone || (f.matcher is RegexNotEqual && dot_star) {
        Role::Empty
    } else if f.matcher is RegexEqual && dot_plus {
        Role::KeepLabelled
    } else if f.matcher is RegexNotEqual && dot_plus {
        Role::DropLabelled
    } else if accepts_absent(f) {
        Role::DropInverse
    } else if is_negative(f.matcher) {
        Role::KeepInverse
    } else {
        Role::Keep
    }
}

/// The place of a filter in the order of evaluation: filters that keep ids first, then by cost.
pub open spec fn rank_of(f: LabelFilter) -> int {
    matcher_cost(f.matcher) + if is_subtracting(f) {
        5int
    } else {
        0int
    }
}

/// Filter `i` is evaluated before filter `j`.
pub open spec fn evaluated_before(filters: Seq<LabelFilter>, i: int, j: int) -> bool {
    rank_of(filters[i]) < rank_of(filters[j]) || (rank_of(filters[i]) == rank_of(filters[j]) && i
        < j)
}

/// A filter on no label that accepts everything.
pub open spec fn is_missing(f: LabelFilter) -> bool {
    f.label@.len() == 0 && accepts_absent(f)
}

impl Postings {
    /// The ids that a filter keeps or takes away.
    pub open spec fn role_ids(&self, f: LabelFilter) -> Set<u64> {
        match role_of(f) {
            Role::Skip => Set::empty(),
            Role::Empty => Set::empty(),
            Role::KeepLabelled => self.labelled_ids(utf8(f.label@)),
            Role::DropLabelled => self.labelled_ids(utf8(f.label@)),
            Role::Keep => self.filter_ids(f),
            Role::KeepInverse => self.inverse_ids(inverse_filter(f)),
            Role::DropInverse => self.inverse_ids(f),
        }
    }

    /// An id passes a filter.
    pub open spec fn passes(&self, f: LabelFilter, id: u64) -> bool {
        match role_of(f) {
            Role::Skip => true,
            Role::Empty => false,
            Role::KeepLabelled => self.role_ids(f).contains(id),
            Role::Keep => self.role_ids(f).contains(id),
            Role::KeepInverse => self.role_ids(f).contains(id),
            Role::DropLabelled => !self.role_ids(f).contains(id),
            Role::DropInverse => !self.role_ids(f).contains(id),
        }
    }

    /// A filter ends the evaluation with no ids: it accepts nothing, or what it keeps is empty.
    pub open spec fn ends_empty(&self, f: LabelFilter) -> bool {
        role_of(f) == Role::Empty || ((role_of(f) == Role::Keep || role_of(f) == Role::KeepInverse)
            && self.role_ids(f) == Set::<u64>::empty())
    }

    /// Live ids are what the filters choose from: all of them only take ids away, or none of them
    /// keeps any.
    pub open spec fn from_all(filters: Seq<LabelFilter>) -> bool {
        ||| forall|i: int| 0 <= i < filters.len() ==> is_subtracting(#[trigger] filters[i])
        ||| !exists|i: int| 0 <= i < filters.len() && keeps(#[trigger] filters[i])
    }

    /// One filter on its own that keeps what it selects.
    pub open spec fn is_simple(filters: Seq<LabelFilter>) -> bool {
        filters.len() == 1 && !is_negative(filters[0].matcher) && !accepts_absent(filters[0])
    }

    /// Nothing is asked: no filter, or one filter on no label with nothing to hold against.
    pub open spec fn asks_nothing(filters: Seq<LabelFilter>) -> bool {
        filters.len() == 0 || (filters.len() == 1 && filters[0].label@.len() == 0
            && matcher_is_empty(filters[0].matcher))
    }

    /// The evaluation meets a filter on no label that accepts everything before any filter that
    /// would end it with no ids.
    pub open spec fn plan_fails(&self, filters: Seq<LabelFilter>) -> bool {
        &&& !Self::asks_nothing(filters)
        &&& !Self::is_simple(filters)
        &&& exists|i: int|
            0 <= i < filters.len() && is_missing(#[trigger] filters[i]) && forall|j: int|
                0 <= j < filters.len() && self.ends_empty(#[trigger] filters[j]) && !is_missing(
                    filters[j],
                ) ==> evaluated_before(filters, i, j)
    }

    /// The ids that filters select together.
    pub open spec fn plan_ids(&self, filters: Seq<LabelFilter>) -> Set<u64> {
        if Self::asks_nothing(filters) {
            self.all()
        } else if Self::is_simple(filters) {
            self.filter_ids(filters[0])
        } else {
            Set::new(
                |id: u64|
                    (Self::from_all(filters) ==> self.all().contains(id)) && forall|i: int|
                        0 <= i < filters.len() ==> self.passes(#[trigger] filters[i], id),
            )
        }
    }

    /// A selector cannot be evaluated.
    pub open spec fn selector_fails(&self, s: SeriesSelector) -> bool {
        match s {
            SeriesSelector::And(filters) => self.plan_fails(filters@),
            SeriesSelector::Or(lists) => self.some_list_fails(lists@),
        }
    }

    /// One of the lists of filters cannot be evaluated.
    pub open spec fn some_list_fails(&self, lists: Seq<FilterList>) -> bool {
        exists|i: int| 0 <= i < lists.len() && self.plan_fails((#[trigger] lists[i])@)
    }

    /// The ids that a selector selects.
    pub open spec fn selector_ids(&self, s: SeriesSelector) -> Set<u64> {
        match s {
            SeriesSelector::And(filters) => self.plan_ids(filters@),
            SeriesSelector::Or(lists) => if lists@.len() == 0 {
                self.all()
            } else {
                Set::new(
                    |id: u64|
                        exists|i: int|
                            0 <= i < lists@.len() && self.plan_ids(
                                (#[trigger] lists@[i])@,
                            ).contains(id),
                )
            },
        }
    }

    /// The live ids that all selectors select; none where there is no selector.
    pub open spec fn selectors_ids(&self, selectors: Seq<SeriesSelector>) -> Set<u64> {
        Set::new(
            |id: u64|
                selectors.len() > 0 && !self.stale().contains(id) && forall|i: int|
                    0 <= i < selectors.len() ==> self.selector_ids(
                        #[trigger] selectors[i],
                    ).contains(id),
        )
    }
}

/// A filter keeps ids.
pub open spec fn keeps(f: LabelFilter) -> bool {
    role_of(f) == Role::KeepLabelled || role_of(f) == Role::Keep || role_of(f) == Role::KeepInverse
}

/// Every list holds the id.
spec fn all_hold(lists: Seq<Cow<'_, Bitmap64>>, id: u64) -> bool {
    forall|a: int| 0 <= a < lists.len() ==> cow_ids(#[trigger] lists[a]).contains(id)
}

/// No list holds the id.
spec fn none_holds(lists: Seq<Cow<'_, Bitmap64>>, id: u64) -> bool {
    forall|a: int| 0 <= a < lists.len() ==> !cow_ids(#[trigger] lists[a]).contains(id)
}

/// Filter `j` has been evaluated when the evaluation stands at filter `i` of a rank.
spec fn is_done(filters: Seq<LabelFilter>, rank: int, i: int, j: int) -> bool {
    rank_of(filters[j]) < rank || (rank_of(filters[j]) == rank && j < i)
}

proof fn lemma_all_hold_push(lists: Seq<Cow<'_, Bitmap64>>, c: Cow<'_, Bitmap64>, id: u64)
    ensures
        all_hold(lists.push(c), id) == (all_hold(lists, id) && cow_ids(c).contains(id)),
        none_holds(lists.push(c), id) == (none_holds(lists, id) && !cow_ids(c).contains(id)),
{
    let more = lists.push(c);
    assert(more[lists.len() as int] == c);
    if all_hold(more, id) {
        assert forall|a: int| 0 <= a < lists.len() implies cow_ids(#[trigger] lists[a]).contains(
            id,
        ) by {
            assert(more[a] == lists[a]);
        }
    }
    if none_holds(more, id) {
        assert forall|a: int| 0 <= a < lists.len() implies !cow_ids(#[trigger] lists[a]).contains(
            id,
        ) by {
            assert(more[a] == lists[a]);
        }
    }
    if all_hold(lists, id) && cow_ids(c).contains(id) {
        assert forall|a: int| 0 <= a < more.len() implies cow_ids(#[trigger] more[a]).contains(
            id,
        ) by {
            if a < lists.len() {
                assert(more[a] == lists[a]);
            }
        }
    }
    if none_holds(lists, id) && !cow_ids(c).contains(id) {
        assert forall|a: int| 0 <= a < more.len() implies !cow_ids(#[trigger] more[a]).contains(
            id,
        ) by {
            if a < lists.len() {
                assert(more[a] == lists[a]);
            }
        }
    }
}

/// The role of a filter.
fn role(f: &LabelFilter, matches_empty: bool) -> (r: Role)
    requires
        matches_empty == accepts_absent(*f),
    ensures
        r == role_of(*f),
{
    proof {
        reveal_strlit(".*");
        reveal_strlit(".+");
        assert(".*"@[1] == '*' && ".+"@[1] == '+');
    }
    match &f.matcher {
        PredicateMatch::MatchAll => {
            return Role::Skip;
        },
        PredicateMatch::MatchNone => {
            return Role::Empty;
        },
        PredicateMatch::RegexEqual(re) => {
            if text_equal(re.regex.as_str(), ".*") {
                return Role::Skip;
            }
            if text_equal(re.regex.as_str(), ".+") {
                return Role::KeepLabelled;
            }
        },
        PredicateMatch::RegexNotEqual(re) => {
            if text_equal(re.regex.as_str(), ".*") {
                return Role::Empty;
            }
            if text_equal(re.regex.as_str(), ".+") {
                return Role::DropLabelled;
            }
        },
        _ => {},
    }
    if matches_empty {
        Role::DropInverse
    } else if f.is_negative_matcher() {
        Role::KeepInverse
    } else {
        Role::Keep
    }
}

/// The ids that all lists hold; none where there is no list.
fn intersection(its: Vec<Cow<'_, Bitmap64>>) -> (r: PostingsBitmap)
    ensures
        forall|id: u64| #[trigger]
            ids_of(r).contains(id) <==> its@.len() > 0 && all_hold(its@, id),
{
    if its.len() == 0 {
        return Bitmap64::new();
    }
    let mut result = cow_ref(&its[0]).clone();
    let mut i: usize = 1;
    proof {
        assert forall|id: u64| #[trigger] ids_of(result).contains(id) <==> all_hold(
            its@.subrange(0, 1),
            id,
        ) by {
            assert(its@.subrange(0, 1)[0] == its@[0]);
            if ids_of(result).contains(id) {
                assert forall|a: int| 0 <= a < 1 implies cow_ids(
                    #[trigger] its@.subrange(0, 1)[a],
                ).contains(id) by {}
            }
        }
    }
    while i < its.len()
        invariant
            1 <= i <= its.len(),
            forall|id: u64| #[trigger]
                ids_of(result).contains(id) <==> all_hold(its@.subrange(0, i as int), id),
        decreases its.len() - i,
    {
        let ghost before = ids_of(result);
        let next = cow_ref(&its[i]);
        if next.is_empty() {
            result.clear();
            proof {
                assert forall|id: u64| !all_hold(its@, id) by {
                    assert(!cow_ids(its@[i as int]).contains(id));
                }
            }
            return result;
        }
        result.and_inplace(next);
        proof {
            let done = its@.subrange(0, i as int);
            let more = its@.subrange(0, i + 1);
            assert(more =~= done.push(its@[i as int]));
            assert forall|id: u64| #[trigger] ids_of(result).contains(id) <==> all_hold(
                more,
                id,
            ) by {
                lemma_all_hold_push(done, its@[i as int], id);
                assert(before.contains(id) <==> all_hold(done, id));
            }
        }
        i += 1;
    }
    assert(its@.subrange(0, i as int) =~= its@);
    result
}

impl Postings {
    /// The ids that filters select together.
    pub fn postings_for_label_filters<'a>(&'a self, filters: &Vec<LabelFilter>) -> (r: Result<
        Cow<'a, PostingsBitmap>,
        TsdbError,
    >)
        requires
            self.wf(),
        ensures
            match r {
                Ok(ids) => !self.plan_fails(filters@) && cow_ids(ids) == self.plan_ids(filters@),
                Err(e) => self.plan_fails(filters@) && e == TsdbError::MissingFilter,
            },
    {
        if filters.len() == 0 {
            return Ok(Cow::Borrowed(&self.all_postings));
        }
        if filters.len() == 1 {
            let filter = &filters[0];
            if filter.label.as_str().is_empty() && filter.matcher.is_empty() {
                return Ok(Cow::Borrowed(&self.all_postings));
            }
            if !filter.is_negative_matcher() && !filter.matches_empty() {
                return self.postings_for_filter(filter);
            }
        }
        self.plan_many(filters)
    }

    /// Evaluates filters in the order of their ranks.
    fn plan_many<'a>(&'a self, filters: &Vec<LabelFilter>) -> (r: Result<
        Cow<'a, PostingsBitmap>,
        TsdbError,
    >)
        requires
            self.wf(),
            filters@.len() > 0,
            !Self::asks_nothing(filters@),
            !Self::is_simple(filters@),
        ensures
            match r {
                Ok(ids) => !self.plan_fails(filters@) && cow_ids(ids) == self.plan_ids(filters@),
                Err(e) => self.plan_fails(filters@) && e == TsdbError::MissingFilter,
            },
    {
        let ghost fs = filters@;
        let mut ranks: Vec<u8> = Vec::new();
        let mut empties: Vec<bool> = Vec::new();
        let mut has_intersecting: bool = false;
        let mut n: usize = 0;
        while n < filters.len()
            invariant
                n <= filters.len(),
                fs == filters@,
                ranks@.len() == n,
                empties@.len() == n,
                forall|j: int| 0 <= j < n ==> ranks@[j] == rank_of(#[trigger] fs[j]),
                forall|j: int| 0 <= j < n ==> empties@[j] == accepts_absent(#[trigger] fs[j]),
                has_intersecting == exists|j: int| 0 <= j < n && !is_subtracting(#[trigger] fs[j]),
            decreases filters.len() - n,
        {
            let m = &filters[n];
            let matches_empty: bool = m.matches_empty();
            let subtracting: bool = matches_empty || m.is_negative_matcher();
            if !subtracting {
                has_intersecting = true;
                assert(!is_subtracting(fs[n as int]));
            }
            let cost: u8 = m.matcher.cost();
            ranks.push(
                if subtracting {
                    cost + 5
                } else {
                    cost
                },
            );
            empties.push(matches_empty);
            n += 1;
        }
        let mut its: Vec<Cow<'a, Bitmap64>> = Vec::new();
        let mut not_its: Vec<Cow<'a, Bitmap64>> = Vec::new();
        let ghost only_subtracting = !has_intersecting;
        if !has_intersecting {
            its.push(Cow::Borrowed(&self.all_postings));
        }
        let mut rank: u8 = 0;
        proof {
            assert forall|id: u64| all_hold(its@, id) == (only_subtracting ==> self.all().contains(
                id,
            )) by {
                if only_subtracting {
                    assert(cow_ids(its@[0]) == self.all());
                }
            }
        }
        while rank < 10
            invariant
                rank <= 10,
                fs == filters@,
                self.wf(),
                filters@.len() > 0,
                !Self::asks_nothing(filters@),
                !Self::is_simple(filters@),
                n == filters.len(),
                ranks@.len() == n,
                empties@.len() == n,
                forall|j: int| 0 <= j < n ==> ranks@[j] == rank_of(#[trigger] fs[j]),
                forall|j: int| 0 <= j < n ==> empties@[j] == accepts_absent(#[trigger] fs[j]),
                only_subtracting == forall|j: int|
                    0 <= j < fs.len() ==> is_subtracting(#[trigger] fs[j]),
                self.progress(fs, rank as int, 0, its@, not_its@, only_subtracting),
            decreases 10 - rank,
        {
            let mut i: usize = 0;
            while i < filters.len()
                invariant
                    rank < 10,
                    i <= filters.len(),
                    fs == filters@,
                    self.wf(),
                    filters@.len() > 0,
                    !Self::asks_nothing(filters@),
                    !Self::is_simple(filters@),
                    n == filters.len(),
                    ranks@.len() == n,
                    empties@.len() == n,
                    forall|j: int| 0 <= j < n ==> ranks@[j] == rank_of(#[trigger] fs[j]),
                    forall|j: int| 0 <= j < n ==> empties@[j] == accepts_absent(#[trigger] fs[j]),
                    only_subtracting == forall|j: int|
                        0 <= j < fs.len() ==> is_subtracting(#[trigger] fs[j]),
                    self.progress(fs, rank as int, i as int, its@, not_its@, only_subtracting),
                decreases filters.len() - i,
            {
                assert(rank_of(fs[i as int]) == ranks@[i as int]);
                if ranks[i] != rank {
                    proof {
                        self.lemma_not_due(fs, rank as int, i as int, its@, not_its@, only_subtracting);
                    }
                    i += 1;
                    continue;
                }
                let filter = &filters[i];
                let matches_empty: bool = empties[i];
                if filter.label.as_str().is_empty() && matches_empty {
                    proof {
                        self.lemma_fails_at(fs, rank as int, i as int, its@, not_its@, only_subtracting);
                    }
                    return Err(TsdbError::MissingFilter);
                }
                let ghost its0 = its@;
                let ghost not0 = not_its@;
                match role(filter, matches_empty) {
                    Role::Skip => {},
                    Role::Empty => {
                        proof {
                            self.lemma_empty_at(fs, rank as int, i as int, its@, not_its@, only_subtracting);
                        }
                        return Ok(Cow::Owned(Bitmap64::new()));
                    },
                    Role::KeepLabelled => {
                        let it = self.postings_for_all_label_values(filter.label.as_str());
                        its.push(Cow::Owned(it));
                    },
                    Role::DropLabelled => {
                        let it = self.postings_for_all_label_values(filter.label.as_str());
                        not_its.push(Cow::Owned(it));
                    },
                    Role::KeepInverse => {
                        let it = self.postings_for_negative(filter);
                        if cow_ref(&it).is_empty() {
                            proof {
                                self.lemma_empty_at(fs, rank as int, i as int, its@, not_its@, only_subtracting);
                            }
                            return Ok(Cow::Owned(Bitmap64::new()));
                        }
                        its.push(it);
                    },
                    Role::Keep => {
                        match self.postings_for_filter(filter) {
                            Ok(it) => {
                                if cow_ref(&it).is_empty() {
                                    proof {
                                        self.lemma_empty_at(fs, rank as int, i as int, its@, not_its@, only_subtracting);
                                    }
                                    return Ok(Cow::Owned(Bitmap64::new()));
                                }
                                its.push(it);
                            },
                            Err(e) => {
                                return Err(e);
                            },
                        }
                    },
                    Role::DropInverse => {
                        let it = self.inverse_postings_for_filter(filter);
                        not_its.push(it);
                    },
                }
                proof {
                    if its@.len() > its0.len() {
                        assert(its@.drop_last() =~= its0);
                    }
                    if not_its@.len() > not0.len() {
                        assert(not_its@.drop_last() =~= not0);
                    }
                    self.lemma_progress(
                        fs,
                        rank as int,
                        i as int,
                        its0,
                        not0,
                        its@,
                        not_its@,
                        only_subtracting,
                    );
                }
                i += 1;
            }
            proof {
                self.lemma_next_rank(fs, rank as int, its@, not_its@, only_subtracting);
            }
            rank += 1;
        }
        proof {
            self.lemma_finished(fs, its@, not_its@, only_subtracting);
        }
        let mut result = if its.len() == 0 {
            self.all_postings.clone()
        } else {
            intersection(its)
        };
        let ghost base = ids_of(result);
        let mut a: usize = 0;
        while a < not_its.len()
            invariant
                a <= not_its.len(),
                forall|id: u64| #[trigger]
                    ids_of(result).contains(id) <==> base.contains(id) && none_holds(
                        not_its@.subrange(0, a as int),
                        id,
                    ),
            decreases not_its.len() - a,
        {
            let ghost before = ids_of(result);
            result.andnot_inplace(cow_ref(&not_its[a]));
            proof {
                let done = not_its@.subrange(0, a as int);
                let more = not_its@.subrange(0, a + 1);
                assert(more =~= done.push(not_its@[a as int]));
                assert forall|id: u64| #[trigger] ids_of(result).contains(id) <==> base.contains(id)
                    && none_holds(more, id) by {
                    lemma_all_hold_push(done, not_its@[a as int], id);
                    assert(before.contains(id) <==> base.contains(id) && none_holds(done, id));
                }
            }
            a += 1;
        }
        assert(not_its@.subrange(0, a as int) =~= not_its@);
        assert(ids_of(result) =~= self.plan_ids(fs));
        Ok(Cow::Owned(result))
    }

    /// What holds while filters are evaluated: the lists so far say which ids pass the filters so
    /// far, and none of those filters ended the evaluation.
    spec fn progress(
        &self,
        fs: Seq<LabelFilter>,
        rank: int,
        i: int,
        its: Seq<Cow<'_, Bitmap64>>,
        not_its: Seq<Cow<'_, Bitmap64>>,
        only_subtracting: bool,
    ) -> bool {
        &&& forall|id: u64|
            (#[trigger] all_hold(its, id) && none_holds(not_its, id)) <==> (only_subtracting
                ==> self.all().contains(id)) && forall|j: int|
                0 <= j < fs.len() && is_done(fs, rank, i, j) ==> self.passes(#[trigger] fs[j], id)
        &&& its.len() > 0 <==> only_subtracting || exists|j: int|
            0 <= j < fs.len() && is_done(fs, rank, i, j) && keeps(#[trigger] fs[j])
        &&& forall|j: int|
            0 <= j < fs.len() && is_done(fs, rank, i, j) ==> !is_missing(#[trigger] fs[j])
                && !self.ends_empty(fs[j])
    }

    /// A filter of another rank changes nothing.
    proof fn lemma_not_due(
        &self,
        fs: Seq<LabelFilter>,
        rank: int,
        i: int,
        its: Seq<Cow<'_, Bitmap64>>,
        not_its: Seq<Cow<'_, Bitmap64>>,
        only_subtracting: bool,
    )
        requires
            0 <= i < fs.len(),
            rank_of(fs[i]) != rank,
            self.progress(fs, rank, i, its, not_its, only_subtracting),
        ensures
            self.progress(fs, rank, i + 1, its, not_its, only_subtracting),
    {
        assert forall|j: int| 0 <= j < fs.len() implies is_done(fs, rank, i, j) == is_done(
            fs,
            rank,
            i + 1,
            j,
        ) by {}
        assert forall|id: u64|
            (#[trigger] all_hold(its, id) && none_holds(not_its, id)) <==> (only_subtracting
                ==> self.all().contains(id)) && forall|j: int|
                0 <= j < fs.len() && is_done(fs, rank, i + 1, j) ==> self.passes(
                    #[trigger] fs[j],
                    id,
                ) by {}
    }

    /// A rank that is done with is the next rank's beginning.
    proof fn lemma_next_rank(
        &self,
        fs: Seq<LabelFilter>,
        rank: int,
        its: Seq<Cow<'_, Bitmap64>>,
        not_its: Seq<Cow<'_, Bitmap64>>,
        only_subtracting: bool,
    )
        requires
            self.progress(fs, rank, fs.len() as int, its, not_its, only_subtracting),
        ensures
            self.progress(fs, rank + 1, 0, its, not_its, only_subtracting),
    {
        assert forall|j: int| 0 <= j < fs.len() implies is_done(fs, rank, fs.len() as int, j)
            == is_done(fs, rank + 1, 0, j) by {}
        assert forall|id: u64|
            (#[trigger] all_hold(its, id) && none_holds(not_its, id)) <==> (only_subtracting
                ==> self.all().contains(id)) && forall|j: int|
                0 <= j < fs.len() && is_done(fs, rank + 1, 0, j) ==> self.passes(
                    #[trigger] fs[j],
                    id,
                ) by {}
    }

    /// A filter on no label that accepts everything ends the evaluation with an error.
    proof fn lemma_fails_at(
        &self,
        fs: Seq<LabelFilter>,
        rank: int,
        i: int,
        its: Seq<Cow<'_, Bitmap64>>,
        not_its: Seq<Cow<'_, Bitmap64>>,
        only_subtracting: bool,
    )
        requires
            0 <= i < fs.len(),
            rank_of(fs[i]) == rank,
            is_missing(fs[i]),
            !Self::asks_nothing(fs),
            !Self::is_simple(fs),
            self.progress(fs, rank, i, its, not_its, only_subtracting),
        ensures
            self.plan_fails(fs),
    {
        assert forall|j: int|
            0 <= j < fs.len() && self.ends_empty(#[trigger] fs[j]) && !is_missing(
                fs[j],
            ) implies evaluated_before(fs, i, j) by {
            assert(!is_done(fs, rank, i, j));
        }
    }

    /// A filter that leaves nothing ends the evaluation.
    proof fn lemma_empty_at(
        &self,
        fs: Seq<LabelFilter>,
        rank: int,
        i: int,
        its: Seq<Cow<'_, Bitmap64>>,
        not_its: Seq<Cow<'_, Bitmap64>>,
        only_subtracting: bool,
    )
        requires
            0 <= i < fs.len(),
            rank_of(fs[i]) == rank,
            !is_missing(fs[i]),
            self.ends_empty(fs[i]),
            !Self::asks_nothing(fs),
            !Self::is_simple(fs),
            self.progress(fs, rank, i, its, not_its, only_subtracting),
        ensures
            !self.plan_fails(fs),
            self.plan_ids(fs) == Set::<u64>::empty(),
    {
        assert forall|k: int| 0 <= k < fs.len() && is_missing(#[trigger] fs[k]) implies !(forall|
            j: int,
        |
            0 <= j < fs.len() && self.ends_empty(#[trigger] fs[j]) && !is_missing(fs[j])
                ==> evaluated_before(fs, k, j)) by {
            assert(!is_done(fs, rank, i, k));
            assert(self.ends_empty(fs[i]) && !is_missing(fs[i]));
            assert(!evaluated_before(fs, k, i));
        }
        assert forall|id: u64| !self.plan_ids(fs).contains(id) by {
            assert(!self.passes(fs[i], id));
        }
        assert(self.plan_ids(fs) =~= Set::<u64>::empty());
    }

    /// One more filter has been evaluated.
    proof fn lemma_progress(
        &self,
        fs: Seq<LabelFilter>,
        rank: int,
        i: int,
        its0: Seq<Cow<'_, Bitmap64>>,
        not0: Seq<Cow<'_, Bitmap64>>,
        its1: Seq<Cow<'_, Bitmap64>>,
        not1: Seq<Cow<'_, Bitmap64>>,
        only_subtracting: bool,
    )
        requires
            0 <= i < fs.len(),
            rank_of(fs[i]) == rank,
            !is_missing(fs[i]),
            !self.ends_empty(fs[i]),
            self.progress(fs, rank, i, its0, not0, only_subtracting),
            keeps(fs[i]) ==> its1.len() == its0.len() + 1 && its1.drop_last() == its0 && cow_ids(
                its1.last(),
            ) == self.role_ids(fs[i]) && not1 == not0,
            !keeps(fs[i]) && role_of(fs[i]) != Role::Skip ==> not1.len() == not0.len() + 1
                && not1.drop_last() == not0 && cow_ids(not1.last()) == self.role_ids(fs[i]) && its1
                == its0,
            role_of(fs[i]) == Role::Skip ==> its1 == its0 && not1 == not0,
        ensures
            self.progress(fs, rank, i + 1, its1, not1, only_subtracting),
    {
        assert forall|j: int| 0 <= j < fs.len() implies is_done(fs, rank, i + 1, j) == (is_done(
            fs,
            rank,
            i,
            j,
        ) || j == i) by {}
        assert forall|id: u64|
            (#[trigger] all_hold(its1, id) && none_holds(not1, id)) <==> (only_subtracting
                ==> self.all().contains(id)) && forall|j: int|
                0 <= j < fs.len() && is_done(fs, rank, i + 1, j) ==> self.passes(
                    #[trigger] fs[j],
                    id,
                ) by {
            if keeps(fs[i]) {
                assert(its1 =~= its0.push(its1.last()));
                lemma_all_hold_push(its0, its1.last(), id);
            } else if role_of(fs[i]) != Role::Skip {
                assert(not1 =~= not0.push(not1.last()));
                lemma_all_hold_push(not0, not1.last(), id);
            }
            assert((all_hold(its0, id) && none_holds(not0, id)) <==> (only_subtracting
                ==> self.all().contains(id)) && forall|j: int|
                0 <= j < fs.len() && is_done(fs, rank, i, j) ==> self.passes(#[trigger] fs[j], id));
            assert((all_hold(its1, id) && none_holds(not1, id)) <==> (all_hold(its0, id)
                && none_holds(not0, id) && self.passes(fs[i], id)));
            if (forall|j: int|
                0 <= j < fs.len() && is_done(fs, rank, i + 1, j) ==> self.passes(
                    #[trigger] fs[j],
                    id,
                )) {
                assert(self.passes(fs[i], id));
            }
        }
        assert forall|j: int| 0 <= j < fs.len() && is_done(fs, rank, i + 1, j) implies !is_missing(
            #[trigger] fs[j],
        ) && !self.ends_empty(fs[j]) by {
            if j != i {
                assert(is_done(fs, rank, i, j));
            }
        }
        if keeps(fs[i]) {
            assert(is_done(fs, rank, i + 1, i));
        } else {
            assert(its1 == its0);
            if exists|j: int|
                0 <= j < fs.len() && is_done(fs, rank, i + 1, j) && keeps(#[trigger] fs[j]) {
                let j = choose|j: int|
                    0 <= j < fs.len() && is_done(fs, rank, i + 1, j) && keeps(#[trigger] fs[j]);
                assert(is_done(fs, rank, i, j));
            }
            if exists|j: int|
                0 <= j < fs.len() && is_done(fs, rank, i, j) && keeps(#[trigger] fs[j]) {
                let j = choose|j: int|
                    0 <= j < fs.len() && is_done(fs, rank, i, j) && keeps(#[trigger] fs[j]);
                assert(is_done(fs, rank, i + 1, j));
            }
        }
    }

    /// When every rank is done with, the lists say what the filters select.
    proof fn lemma_finished(
        &self,
        fs: Seq<LabelFilter>,
        its: Seq<Cow<'_, Bitmap64>>,
        not_its: Seq<Cow<'_, Bitmap64>>,
        only_subtracting: bool,
    )
        requires
            !Self::asks_nothing(fs),
            !Self::is_simple(fs),
            only_subtracting == forall|j: int|
                0 <= j < fs.len() ==> is_subtracting(#[trigger] fs[j]),
            self.progress(fs, 10, 0, its, not_its, only_subtracting),
        ensures
            !self.plan_fails(fs),
            forall|id: u64| #[trigger]
                self.plan_ids(fs).contains(id) <==> (if its.len() == 0 {
                    self.all().contains(id)
                } else {
                    all_hold(its, id)
                }) && none_holds(not_its, id),
    {
        assert forall|j: int| 0 <= j < fs.len() implies is_done(fs, 10, 0, j) by {}
        if self.plan_fails(fs) {
            let i = choose|i: int|
                0 <= i < fs.len() && is_missing(#[trigger] fs[i]) && forall|j: int|
                    0 <= j < fs.len() && self.ends_empty(#[trigger] fs[j]) && !is_missing(fs[j])
                        ==> evaluated_before(fs, i, j);
            assert(is_done(fs, 10, 0, i));
        }
        let kept = exists|j: int| 0 <= j < fs.len() && keeps(#[trigger] fs[j]);
        if kept {
            let j = choose|j: int| 0 <= j < fs.len() && keeps(#[trigger] fs[j]);
            assert(is_done(fs, 10, 0, j));
        }
        assert(its.len() > 0 <==> only_subtracting || kept);
        assert forall|id: u64| #[trigger]
            self.plan_ids(fs).contains(id) <==> (if its.len() == 0 {
                self.all().contains(id)
            } else {
                all_hold(its, id)
            }) && none_holds(not_its, id) by {
            assert((all_hold(its, id) && none_holds(not_its, id)) <==> (only_subtracting
                ==> self.all().contains(id)) && forall|j: int|
                0 <= j < fs.len() && is_done(fs, 10, 0, j) ==> self.passes(#[trigger] fs[j], id));
            let every = forall|j: int| 0 <= j < fs.len() ==> self.passes(#[trigger] fs[j], id);
            assert(every == forall|j: int|
                0 <= j < fs.len() && is_done(fs, 10, 0, j) ==> self.passes(#[trigger] fs[j], id));
            if its.len() == 0 {
                assert(all_hold(its, id));
            }
        }
    }

    /// The ids that a selector selects.
    pub fn postings_for_selector<'a>(&'a self, selector: &SeriesSelector) -> (r: Result<
        Cow<'a, PostingsBitmap>,
        TsdbError,
    >)
        requires
            self.wf(),
        ensures
            match r {
                Ok(ids) => !self.selector_fails(*selector) && cow_ids(ids) == self.selector_ids(
                    *selector,
                ),
                Err(e) => self.selector_fails(*selector) && e == TsdbError::MissingFilter,
            },
    {
        match selector {
            SeriesSelector::And(filters) => self.postings_for_label_filters(filters),
            SeriesSelector::Or(lists) => self.process_or_matchers(selector, lists),
        }
    }

    /// The ids that at least one of the lists of filters selects.
    fn process_or_matchers<'a>(
        &'a self,
        selector: &SeriesSelector,
        lists: &Vec<FilterList>,
    ) -> (r: Result<Cow<'a, PostingsBitmap>, TsdbError>)
        requires
            self.wf(),
            *selector == SeriesSelector::Or(*lists),
        ensures
            match r {
                Ok(ids) => !self.selector_fails(*selector) && cow_ids(ids) == self.selector_ids(
                    *selector,
                ),
                Err(e) => self.selector_fails(*selector) && e == TsdbError::MissingFilter,
            },
    {
        if lists.len() == 0 {
            return Ok(Cow::Borrowed(&self.all_postings));
        }
        if lists.len() == 1 {
            match self.postings_for_label_filters(&lists[0]) {
                Ok(ids) => {
                    proof {
                        assert forall|id: u64| self.selector_ids(*selector).contains(id) == cow_ids(
                            ids,
                        ).contains(id) by {
                            if cow_ids(ids).contains(id) {
                                assert(self.plan_ids(lists@[0]@).contains(id));
                            }
                        }
                        assert(cow_ids(ids) =~= self.selector_ids(*selector));
                    }
                    return Ok(ids);
                },
                Err(e) => {
                    assert(self.plan_fails(lists@[0]@));
                    return Err(e);
                },
            }
        }
        let mut result = Bitmap64::new();
        let mut i: usize = 0;
        while i < lists.len()
            invariant
                i <= lists.len(),
                self.wf(),
                *selector == SeriesSelector::Or(*lists),
                forall|j: int| 0 <= j < i ==> !self.plan_fails((#[trigger] lists@[j])@),
                forall|id: u64| #[trigger]
                    ids_of(result).contains(id) <==> exists|j: int|
                        0 <= j < i && self.plan_ids((#[trigger] lists@[j])@).contains(id),
            decreases lists.len() - i,
        {
            let ghost before = ids_of(result);
            match self.postings_for_label_filters(&lists[i]) {
                Ok(ids) => {
                    result.or_inplace(cow_ref(&ids));
                    proof {
                        assert forall|id: u64| #[trigger] ids_of(result).contains(id) <==> exists|
                            j: int,
                        |
                            0 <= j < i + 1 && self.plan_ids((#[trigger] lists@[j])@).contains(id) by {
                            if before.contains(id) {
                                let j = choose|j: int|
                                    0 <= j < i && self.plan_ids((#[trigger] lists@[j])@).contains(
                                        id,
                                    );
                                assert(self.plan_ids(lists@[j]@).contains(id));
                            }
                            if cow_ids(ids).contains(id) {
                                assert(self.plan_ids(lists@[i as int]@).contains(id));
                            }
                        }
                    }
                },
                Err(e) => {
                    assert(self.plan_fails(lists@[i as int]@));
                    assert(self.some_list_fails(lists@));
                    return Err(e);
                },
            }
            i += 1;
        }
        assert(ids_of(result) =~= self.selector_ids(*selector));
        Ok(Cow::Owned(result))
    }

    /// The live ids that all selectors select.
    pub fn postings_for_selectors<'a>(&'a self, selectors: &Vec<SeriesSelector>) -> (r: Result<
        Cow<'a, PostingsBitmap>,
        TsdbError,
    >)
        requires
            self.wf(),
        ensures
            match r {
                Ok(ids) => {
                    &&& forall|i: int|
                        0 <= i < selectors@.len() ==> !self.selector_fails(#[trigger] selectors@[i])
                    &&& cow_ids(ids) == self.selectors_ids(selectors@)
                },
                Err(e) => {
                    &&& exists|i: int|
                        0 <= i < selectors@.len() && self.selector_fails(#[trigger] selectors@[i])
                    &&& e == TsdbError::MissingFilter
                },
            },
    {
        if selectors.len() == 0 {
            let none = Bitmap64::new();
            assert(ids_of(none) =~= self.selectors_ids(selectors@));
            return Ok(Cow::Owned(none));
        }
        if selectors.len() == 1 {
            match self.postings_for_selector(&selectors[0]) {
                Ok(ids) => {
                    let masked = self.stale_ids.mask_cow(ids);
                    proof {
                        assert forall|id: u64| cow_ids(masked).contains(id) == self.selectors_ids(
                            selectors@,
                        ).contains(id) by {
                            if self.selectors_ids(selectors@).contains(id) {
                                assert(self.selector_ids(selectors@[0]).contains(id));
                            }
                        }
                        assert(cow_ids(masked) =~= self.selectors_ids(selectors@));
                    }
                    return Ok(masked);
                },
                Err(e) => {
                    assert(self.selector_fails(selectors@[0]));
                    return Err(e);
                },
            }
        }
        let mut result = match self.postings_for_selector(&selectors[0]) {
            Ok(ids) => cow_into_owned(ids),
            Err(e) => {
                assert(self.selector_fails(selectors@[0]));
                return Err(e);
            },
        };
        let mut i: usize = 1;
        while i < selectors.len()
            invariant
                1 <= i <= selectors.len(),
                self.wf(),
                forall|j: int| 0 <= j < i ==> !self.selector_fails(#[trigger] selectors@[j]),
                forall|id: u64| #[trigger]
                    ids_of(result).contains(id) <==> forall|j: int|
                        0 <= j < i ==> self.selector_ids(#[trigger] selectors@[j]).contains(id),
            decreases selectors.len() - i,
        {
            let ghost before = ids_of(result);
            match self.postings_for_selector(&selectors[i]) {
                Ok(ids) => {
                    result.and_inplace(cow_ref(&ids));
                    proof {
                        assert forall|id: u64| #[trigger] ids_of(result).contains(id) <==> forall|
                            j: int,
                        |
                            0 <= j < i + 1 ==> self.selector_ids(
                                #[trigger] selectors@[j],
                            ).contains(id) by {
                            assert(before.contains(id) <==> forall|j: int|
                                0 <= j < i ==> self.selector_ids(#[trigger] selectors@[j]).contains(
                                    id,
                                ));
                            if (forall|j: int|
                                0 <= j < i + 1 ==> self.selector_ids(
                                    #[trigger] selectors@[j],
                                ).contains(id)) {
                                assert(self.selector_ids(selectors@[i as int]).contains(id));
                            }
                        }
                    }
                },
                Err(e) => {
                    assert(self.selector_fails(selectors@[i as int]));
                    return Err(e);
                },
            }
            i += 1;
        }
        self.stale_ids.mask(&mut result);
        assert(ids_of(result) =~= self.selectors_ids(selectors@));
        Ok(Cow::Owned(result))
    }
}

} // verus!
