//! From selectors to series.
//!
//! The index names the series that selectors select. Whether a key is still there, and what stands
//! under it, the caller finds out; what follows is decided here.
use crate::aggregation::Aggregation;
use crate::bytes::{bytes_copy, utf8};
use crate::error::TsdbError;
use crate::index::label_querier::{get_label, label_value};
use crate::postings::bitmap::{capped, list_size};
use crate::labels::{Label, SeriesSelector};
use crate::multi_del::{ids_of_keys, keyed, keyless, missing_ids, KeyOutcome};
use crate::postings::bitmap::{bitmap_values, cow_ref};
use crate::postings::terms::{has_text, insert_text, texts_increase};
use crate::postings::{Postings, SeriesRef};
use crate::range::rows::in_range;
use crate::sample::Timestamp;
use crate::series::store::TimeSeries;
use vstd::prelude::*;

verus! {

/// When series have to have samples, or have to have none.
#[derive(Debug, Clone, Copy, PartialEq, Eq, Structural)]
pub struct MetaDateRangeFilter {
    pub start: Timestamp,
    pub end: Timestamp,
    /// Whether the series must not have samples then.
    pub exclude: bool,
}

impl MetaDateRangeFilter {
    /// The two ends of the range.
    pub fn range(&self) -> (r: (Timestamp, Timestamp))
        ensures
            r == (self.start, self.end),
    {
        (self.start, self.end)
    }

    /// Whether the series must not have samples in the range.
    pub fn is_exclude(&self) -> (r: bool)
        ensures
            r == self.exclude,
    {
        self.exclude
    }
}

/// Whether a series has samples in a range, as is asked for.
pub open spec fn date_matches<A: Aggregation>(series: &TimeSeries<A>, f: MetaDateRangeFilter) -> bool {
    (in_range(series, f.start, f.end).len() > 0) != f.exclude
}

/// Whether a series has samples in a range, as is asked for.
pub fn matches_date_range<A: Aggregation>(
    series: &TimeSeries<A>,
    date_range: &MetaDateRangeFilter,
) -> (r: bool)
    requires
        series.wf(),
    ensures
        r == date_matches(series, *date_range),
{
    let (start, end) = date_range.range();
    let samples = series.range_iter(start, end);
    (samples.len() > 0) != date_range.is_exclude()
}

/// The numbers of the series that have samples in a range, as is asked for.
pub open spec fn matching<'a, A: Aggregation>(
    series: Seq<&'a TimeSeries<A>>,
    f: MetaDateRangeFilter,
) -> Seq<usize>
    decreases series.len(),
{
    if series.len() == 0 {
        Seq::empty()
    } else {
        let before = matching(series.drop_last(), f);
        if date_matches(series.last(), f) {
            before.push((series.len() - 1) as usize)
        } else {
            before
        }
    }
}

/// The numbers of the series that have samples in a range, as is asked for, in order.
pub fn filter_series_by_date_range<'a, A: Aggregation>(
    series: &Vec<&'a TimeSeries<A>>,
    date_range: &MetaDateRangeFilter,
) -> (r: Vec<usize>)
    requires
        forall|i: int| 0 <= i < series@.len() ==> (#[trigger] series@[i]).wf(),
    ensures
        r@ == matching(series@, *date_range),
{
    let mut out: Vec<usize> = Vec::new();
    let mut i: usize = 0;
    assert(series@.take(0) =~= Seq::<&'a TimeSeries<A>>::empty());
    while i < series.len()
        invariant
            i <= series@.len(),
            forall|i: int| 0 <= i < series@.len() ==> (#[trigger] series@[i]).wf(),
            out@ == matching(series@.take(i as int), *date_range),
        decreases series.len() - i,
    {
        assert(series@.take(i + 1).drop_last() =~= series@.take(i as int));
        assert(series@[i as int].wf());
        if matches_date_range(series[i], date_range) {
            out.push(i);
        }
        i += 1;
    }
    assert(series@.take(i as int) =~= series@);
    out
}

/// How many series have samples in a range, as is asked for. Where no range is asked for, all of
/// them count.
pub fn count_series_in_range<'a, A: Aggregation>(
    series: &Vec<&'a TimeSeries<A>>,
    date_range: Option<&MetaDateRangeFilter>,
) -> (r: usize)
    requires
        forall|i: int| 0 <= i < series@.len() ==> (#[trigger] series@[i]).wf(),
    ensures
        r == match date_range {
            Some(f) => matching(series@, *f).len(),
            None => series@.len(),
        },
{
    match date_range {
        Some(f) => filter_series_by_date_range(series, f).len(),
        None => series.len(),
    }
}

/// The ids that selectors select, in increasing order.
pub open spec fn lists_selected(ids: Set<u64>, list: Seq<u64>) -> bool {
    list.to_set() == ids && forall|i: int, j: int| 0 <= i < j < list.len() ==> list[i] < list[j]
}

/// The ids that selectors select.
pub fn ids_by_selectors(postings: &Postings, selectors: &Vec<SeriesSelector>) -> (r: Result<
    Vec<SeriesRef>,
    TsdbError,
>)
    requires
        postings.wf(),
    ensures
        match r {
            Ok(ids) => {
                &&& forall|i: int|
                    0 <= i < selectors@.len() ==> !postings.selector_fails(#[trigger] selectors@[i])
                &&& lists_selected(postings.selectors_ids(selectors@), ids@)
            },
            Err(e) => {
                &&& exists|i: int|
                    0 <= i < selectors@.len() && postings.selector_fails(#[trigger] selectors@[i])
                &&& e == TsdbError::MissingFilter
            },
        },
{
    match postings.postings_for_selectors(selectors) {
        Ok(bitmap) => Ok(bitmap_values(cow_ref(&bitmap))),
        Err(e) => Err(e),
    }
}

/// The keys of ids, as far as they have one, and the ids that have none.
pub fn resolve_series_keys(postings: &Postings, ids: &Vec<SeriesRef>) -> (r: (
    Vec<(SeriesRef, Vec<u8>)>,
    Vec<SeriesRef>,
))
    ensures
        ids_of_keys(r.0@) == keyed(ids@, postings.keys()),
        forall|i: int|
            0 <= i < r.0@.len() ==> postings.keys().contains_key((#[trigger] r.0@[i]).0)
                && r.0@[i].1@ == postings.keys()[r.0@[i].0],
        r.1@ == keyless(ids@, postings.keys()),
{
    let ghost names = postings.keys();
    let mut out: Vec<(SeriesRef, Vec<u8>)> = Vec::new();
    let mut stale: Vec<SeriesRef> = Vec::new();
    let mut i: usize = 0;
    proof {
        assert(ids@.take(0) =~= Seq::<u64>::empty());
        assert(ids_of_keys(out@) =~= Seq::<u64>::empty());
    }
    while i < ids.len()
        invariant
            i <= ids@.len(),
            names == postings.keys(),
            ids_of_keys(out@) == keyed(ids@.take(i as int), names),
            forall|k: int|
                0 <= k < out@.len() ==> names.contains_key((#[trigger] out@[k]).0) && out@[k].1@
                    == names[out@[k].0],
            stale@ == keyless(ids@.take(i as int), names),
        decreases ids.len() - i,
    {
        let id: u64 = ids[i];
        let ghost was = out@;
        assert(ids@.take(i + 1).drop_last() =~= ids@.take(i as int));
        match postings.get_key_by_id(id) {
            Some(key) => {
                out.push((id, bytes_copy(key.as_slice())));
                assert(ids_of_keys(out@) =~= ids_of_keys(was).push(id));
            },
            None => {
                stale.push(id);
            },
        }
        i += 1;
    }
    assert(ids@.take(i as int) =~= ids@);
    (out, stale)
}

/// The ids whose keys turned out to have a series that the caller may read.
pub open spec fn readable(ids: Seq<u64>, openings: Seq<KeyOutcome>) -> Seq<u64>
    decreases ids.len(),
{
    if ids.len() == 0 {
        Seq::empty()
    } else {
        let before = readable(ids.drop_last(), openings);
        if openings[ids.len() - 1] == KeyOutcome::Opened {
            before.push(ids.last())
        } else {
            before
        }
    }
}

/// The keys of the series that selectors select, as far as they have one, and the ids that have
/// none. No selectors select no series. What the caller may read does not count here: this tells
/// what is in the index.
pub fn series_keys_by_selectors(postings: &Postings, selectors: &Vec<SeriesSelector>) -> (r: Result<
    (Vec<(SeriesRef, Vec<u8>)>, Vec<SeriesRef>),
    TsdbError,
>)
    requires
        postings.wf(),
    ensures
        match r {
            Ok((keys, stale)) => {
                &&& forall|i: int|
                    0 <= i < selectors@.len() ==> !postings.selector_fails(#[trigger] selectors@[i])
                &&& forall|i: int|
                    0 <= i < keys@.len() ==> postings.keys().contains_key((#[trigger] keys@[i]).0)
                        && keys@[i].1@ == postings.keys()[keys@[i].0]
                &&& if selectors@.len() == 0 {
                    keys@.len() == 0 && stale@.len() == 0
                } else {
                    exists|ids: Seq<u64>|
                        {
                            &&& #[trigger] lists_selected(postings.selectors_ids(selectors@), ids)
                            &&& ids_of_keys(keys@) == keyed(ids, postings.keys())
                            &&& stale@ == keyless(ids, postings.keys())
                        }
                }
            },
            Err(e) => {
                &&& exists|i: int|
                    0 <= i < selectors@.len() && postings.selector_fails(#[trigger] selectors@[i])
                &&& e == TsdbError::MissingFilter
            },
        },
{
    if selectors.len() == 0 {
        return Ok((Vec::new(), Vec::new()));
    }
    match ids_by_selectors(postings, selectors) {
        Ok(ids) => {
            let (keys, stale) = resolve_series_keys(postings, &ids);
            assert(lists_selected(postings.selectors_ids(selectors@), ids@));
            Ok((keys, stale))
        },
        Err(e) => Err(e),
    }
}

/// Parts what came of opening keys: the ids of the series that can be read, and those whose series
/// is gone. A series that the caller may not read is in neither.
pub fn part_openings(keys: &Vec<(SeriesRef, Vec<u8>)>, openings: &Vec<KeyOutcome>) -> (r: (
    Vec<SeriesRef>,
    Vec<SeriesRef>,
))
    requires
        keys@.len() == openings@.len(),
    ensures
        r.0@ == readable(ids_of_keys(keys@), openings@),
        r.1@ == missing_ids(ids_of_keys(keys@), openings@),
{
    let ghost ids = ids_of_keys(keys@);
    let mut found: Vec<SeriesRef> = Vec::new();
    let mut gone: Vec<SeriesRef> = Vec::new();
    let mut i: usize = 0;
    assert(ids.take(0) =~= Seq::<u64>::empty());
    while i < keys.len()
        invariant
            i <= keys@.len(),
            keys@.len() == openings@.len(),
            ids == ids_of_keys(keys@),
            found@ == readable(ids.take(i as int), openings@),
            gone@ == missing_ids(ids.take(i as int), openings@),
        decreases keys.len() - i,
    {
        proof {
            assert(ids.take(i + 1).drop_last() =~= ids.take(i as int));
            assert(ids.take(i + 1).last() == keys@[i as int].0);
        }
        match openings[i] {
            KeyOutcome::Denied => {},
            KeyOutcome::Missing => {
                gone.push(keys[i].0);
            },
            KeyOutcome::Opened => {
                found.push(keys[i].0);
            },
        }
        i += 1;
    }
    assert(ids.take(i as int) =~= ids);
    (found, gone)
}

/// Some series has a text: the name of one of its labels, or the value of the label that is asked
/// for.
pub open spec fn is_told(series: Seq<Vec<Label>>, label: Option<Seq<char>>, text: Seq<u8>) -> bool {
    exists|i: int| 0 <= i < series.len() && has_told((#[trigger] series[i])@, label, text)
}

/// A series has a text.
pub open spec fn has_told(labels: Seq<Label>, label: Option<Seq<char>>, text: Seq<u8>) -> bool {
    match label {
        None => exists|k: int| 0 <= k < labels.len() && utf8((#[trigger] labels[k]).name@) == text,
        Some(name) => match label_value(labels, name) {
            Some(v) => utf8(v) == text,
            None => false,
        },
    }
}

/// The text of an optional name.
pub open spec fn name_of(label: Option<&str>) -> Option<Seq<char>> {
    match label {
        Some(name) => Some(name@),
        None => None,
    }
}

/// The names of the labels of series, or the values of a label, each once and in order.
pub fn query_labels_distinct(series: &Vec<Vec<Label>>, label: Option<&str>) -> (r: Vec<String>)
    ensures
        texts_increase(r@),
        forall|text: Seq<u8>| #[trigger]
            has_text(r@, text) == is_told(series@, name_of(label), text),
{
    let mut out: Vec<String> = Vec::new();
    let mut i: usize = 0;
    while i < series.len()
        invariant
            i <= series@.len(),
            texts_increase(out@),
            forall|text: Seq<u8>| #[trigger]
                has_text(out@, text) == exists|k: int|
                    0 <= k < i && has_told((#[trigger] series@[k])@, name_of(label), text),
        decreases series.len() - i,
    {
        let ghost before = out@;
        let labels = &series[i];
        match label {
            None => {
                let mut k: usize = 0;
                while k < labels.len()
                    invariant
                        k <= labels@.len(),
                        texts_increase(out@),
                        forall|text: Seq<u8>| #[trigger]
                            has_text(out@, text) == (has_text(before, text) || exists|j: int|
                                0 <= j < k && utf8((#[trigger] labels@[j]).name@) == text),
                    decreases labels.len() - k,
                {
                    let ghost was = out@;
                    insert_text(&mut out, labels[k].name.as_str());
                    proof {
                        assert forall|text: Seq<u8>| #[trigger] has_text(out@, text) == (has_text(
                            before,
                            text,
                        ) || exists|j: int|
                            0 <= j < k + 1 && utf8((#[trigger] labels@[j]).name@) == text) by {
                            assert(has_text(out@, text) <==> has_text(was, text) || text == utf8(
                                labels@[k as int].name@,
                            ));
                        }
                    }
                    k += 1;
                }
            },
            Some(name) => {
                match get_label(labels, name) {
                    Some(l) => {
                        insert_text(&mut out, l.value.as_str());
                    },
                    None => {},
                }
            },
        }
        proof {
            assert forall|text: Seq<u8>| #[trigger] has_text(out@, text) == (exists|k: int|
                0 <= k < i + 1 && has_told((#[trigger] series@[k])@, name_of(label), text)) by {
                assert(has_text(out@, text) == (has_text(before, text) || has_told(
                    series@[i as int]@,
                    name_of(label),
                    text,
                )));
                assert(has_text(before, text) == exists|k: int|
                    0 <= k < i && has_told((#[trigger] series@[k])@, name_of(label), text));
            }
        }
        i += 1;
    }
    out
}

/// How the series that match are counted.
#[derive(Debug, Clone, Copy, PartialEq, Eq, Structural)]
pub enum CountPlan {
    /// All series of the index.
    Index,
    /// The ids that selectors select.
    Postings,
    /// The series that selectors select and that have samples in a range.
    Series,
}

/// What a request for a count fails with.
#[derive(Debug, Clone, Copy, PartialEq, Eq, Structural)]
pub enum CountError {
    /// The caller may not read all keys.
    AllKeysPermission,
    /// A range was given, but no selector.
    MissingMatcher,
}

/// How the series that match are counted. All series are only counted for a caller who may read
/// them all; with a range there has to be a selector, as all series would have to be looked at
/// otherwise.
pub fn count_plan(has_date_range: bool, has_matchers: bool, may_read_all: bool) -> (r: Result<
    CountPlan,
    CountError,
>)
    ensures
        r == if !has_date_range && !has_matchers {
            if may_read_all {
                Ok::<CountPlan, CountError>(CountPlan::Index)
            } else {
                Err(CountError::AllKeysPermission)
            }
        } else if !has_date_range {
            Ok(CountPlan::Postings)
        } else if has_matchers {
            Ok(CountPlan::Series)
        } else {
            Err(CountError::MissingMatcher)
        },
{
    match (has_date_range, has_matchers) {
        (false, false) => {
            if may_read_all {
                Ok(CountPlan::Index)
            } else {
                Err(CountError::AllKeysPermission)
            }
        },
        (false, true) => Ok(CountPlan::Postings),
        (true, true) => Ok(CountPlan::Series),
        (true, false) => Err(CountError::MissingMatcher),
    }
}

/// How many ids selectors select.
pub fn get_cardinality_by_selectors(postings: &Postings, selectors: &Vec<SeriesSelector>) -> (r:
    Result<u64, TsdbError>)
    requires
        postings.wf(),
    ensures
        match r {
            Ok(n) => {
                &&& forall|i: int|
                    0 <= i < selectors@.len() ==> !postings.selector_fails(#[trigger] selectors@[i])
                &&& n == capped(postings.selectors_ids(selectors@).len())
            },
            Err(e) => {
                &&& exists|i: int|
                    0 <= i < selectors@.len() && postings.selector_fails(#[trigger] selectors@[i])
                &&& e == TsdbError::MissingFilter
            },
        },
{
    match postings.postings_for_selectors(selectors) {
        Ok(bitmap) => Ok(list_size(cow_ref(&bitmap))),
        Err(e) => Err(e),
    }
}

/// The answer to a request for a count.
#[derive(Debug, Clone, Copy, PartialEq, Eq, Structural)]
pub enum CountOutcome {
    /// The count.
    Counted(u64),
    /// The series have to be opened to be counted.
    NeedsSeries,
    /// The request is refused.
    Refused(CountError),
    /// A selector cannot be evaluated.
    Failed(TsdbError),
}

/// Counts the series that match, as far as the index can tell.
pub fn count_matched_series(
    postings: &Postings,
    has_date_range: bool,
    matchers: &Vec<SeriesSelector>,
    may_read_all: bool,
) -> (r: CountOutcome)
    requires
        postings.wf(),
    ensures
        if has_date_range {
            r == if matchers@.len() > 0 {
                CountOutcome::NeedsSeries
            } else {
                CountOutcome::Refused(CountError::MissingMatcher)
            }
        } else if matchers@.len() == 0 {
            r == if may_read_all {
                CountOutcome::Counted(postings.keys().dom().len() as u64)
            } else {
                CountOutcome::Refused(CountError::AllKeysPermission)
            }
        } else if exists|i: int|
            0 <= i < matchers@.len() && postings.selector_fails(#[trigger] matchers@[i]) {
            r == CountOutcome::Failed(TsdbError::MissingFilter)
        } else {
            r == CountOutcome::Counted(capped(postings.selectors_ids(matchers@).len()))
        },
{
    match count_plan(has_date_range, matchers.len() > 0, may_read_all) {
        Err(e) => CountOutcome::Refused(e),
        Ok(CountPlan::Index) => CountOutcome::Counted(postings.count() as u64),
        Ok(CountPlan::Series) => CountOutcome::NeedsSeries,
        Ok(CountPlan::Postings) => match get_cardinality_by_selectors(postings, matchers) {
            Ok(n) => CountOutcome::Counted(n),
            Err(e) => CountOutcome::Failed(e),
        },
    }
}

} // verus!
