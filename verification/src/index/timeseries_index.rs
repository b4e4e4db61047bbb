//! The index of one database.
use crate::aggregation::Aggregation;
use crate::error::TsdbError;
use crate::postings::bitmap::capped;
use crate::index::label_search::coalesced;
use crate::index::memory::{is_part, IndexMemory};
use crate::index::stats::{all_keys, is_stats, name_items, pairs_of, PostingsStats};
use crate::labels::{Label, LabelFilter, SeriesSelector};
use crate::postings::bitmap::cow_ref;
use crate::postings::label_index::no_terms;
use crate::postings::mutation::{
    label_keys, labels_nul_free, series_postings, with_postings, without_postings,
};
use crate::postings::terms::in_all_lists;
use crate::postings::{Postings, SeriesRef};
use crate::querier::get_cardinality_by_selectors;
use crate::series::store::TimeSeries;
use vstd::prelude::*;

verus! {

impl Postings {
    /// Indexes a series under its labels, and puts it into the directory.
    pub fn index_timeseries<A: Aggregation>(&mut self, ts: &TimeSeries<A>, key: &[u8])
        requires
            old(self).wf(),
            labels_nul_free(ts.labels@),
        ensures
            final(self).wf(),
            final(self).terms() == with_postings(
                old(self).terms(),
                series_postings(ts.id, ts.labels@),
            ),
            final(self).keys() == old(self).keys().insert(ts.id, key@),
            final(self).all() == old(self).all().insert(ts.id),
            final(self).stale() == old(self).stale().remove(ts.id),
            final(self).stale_ids.retiring() == old(self).stale_ids.retiring(),
    {
        self.index_labels(ts.id, &ts.labels, key);
    }

    /// Takes a series out of the posting lists of its labels and indexes it anew.
    pub fn reindex_timeseries<A: Aggregation>(&mut self, ts: &TimeSeries<A>, key: &[u8])
        requires
            old(self).wf(),
            labels_nul_free(ts.labels@),
        ensures
            final(self).wf(),
            final(self).terms() == with_postings(
                without_postings(old(self).terms(), label_keys(ts.labels@), ts.id),
                series_postings(ts.id, ts.labels@),
            ),
            final(self).keys() == old(self).keys().insert(ts.id, key@),
            final(self).all() == old(self).all().insert(ts.id),
            final(self).stale() == old(self).stale().remove(ts.id),
            final(self).stale_ids.retiring() == old(self).stale_ids.retiring(),
    {
        let _ = self.remove_timeseries(ts);
        self.index_timeseries(ts, key);
        proof {
            assert(self.keys() =~= old(self).keys().insert(ts.id, key@));
            assert(self.all() =~= old(self).all().insert(ts.id));
        }
    }

    /// Takes a series out of the posting lists of its labels, and out of the directory. Tells
    /// whether it was live.
    pub fn remove_timeseries<A: Aggregation>(&mut self, series: &TimeSeries<A>) -> (r: bool)
        requires
            old(self).wf(),
        ensures
            final(self).wf(),
            r == old(self).all().contains(series.id),
            final(self).terms() == without_postings(
                old(self).terms(),
                label_keys(series.labels@),
                series.id,
            ),
            final(self).keys() == old(self).keys().remove(series.id),
            final(self).all() == old(self).all().remove(series.id),
            final(self).stale_ids == old(self).stale_ids,
    {
        self.remove_labels(series.id, &series.labels)
    }
}

/// The index of one database.
pub struct TimeSeriesIndex {
    postings: Postings,
}

impl TimeSeriesIndex {
    /// What the index holds.
    pub closed spec fn inner(&self) -> Postings {
        self.postings
    }

    /// The index is well formed.
    pub open spec fn wf(&self) -> bool {
        self.inner().wf()
    }

    /// An index that holds nothing.
    pub fn new() -> (r: Self)
        ensures
            r.wf(),
            r.inner().terms() == no_terms(),
            r.inner().keys() == Map::<u64, Seq<u8>>::empty(),
            r.inner().all() == Set::<u64>::empty(),
            r.inner().stale() == Set::<u64>::empty(),
    {
        TimeSeriesIndex { postings: Postings::new() }
    }

    /// What the index holds.
    pub fn postings(&self) -> (r: &Postings)
        ensures
            *r == self.inner(),
    {
        &self.postings
    }

    /// How many series are in the directory.
    pub fn count(&self) -> (r: usize)
        ensures
            r == self.inner().keys().dom().len(),
    {
        self.postings.count()
    }

    /// How many labels live series have.
    pub fn label_count(&self) -> (r: u64)
        requires
            self.wf(),
        ensures
            r == coalesced(
                name_items(
                    pairs_of(
                        self.inner().terms(),
                        self.inner().all(),
                        all_keys(self.inner().terms()),
                    ),
                ),
            ).len(),
    {
        let stats = self.postings.stats_for(&self.postings.all_postings, "", 0);
        stats.label_count
    }

    /// Indexes a series under its labels, and puts it into the directory.
    pub fn index_timeseries<A: Aggregation>(&mut self, ts: &TimeSeries<A>, key: &[u8])
        requires
            old(self).wf(),
            labels_nul_free(ts.labels@),
        ensures
            final(self).wf(),
            final(self).inner().terms() == with_postings(
                old(self).inner().terms(),
                series_postings(ts.id, ts.labels@),
            ),
            final(self).inner().keys() == old(self).inner().keys().insert(ts.id, key@),
            final(self).inner().all() == old(self).inner().all().insert(ts.id),
            final(self).inner().stale() == old(self).inner().stale().remove(ts.id),
            final(self).inner().stale_ids.retiring() == old(self).inner().stale_ids.retiring(),
    {
        self.postings.index_timeseries(ts, key);
    }

    /// Takes a series out of the posting lists of its labels and indexes it anew.
    pub fn reindex_timeseries<A: Aggregation>(&mut self, ts: &TimeSeries<A>, key: &[u8])
        requires
            old(self).wf(),
            labels_nul_free(ts.labels@),
        ensures
            final(self).wf(),
            final(self).inner().terms() == with_postings(
                without_postings(old(self).inner().terms(), label_keys(ts.labels@), ts.id),
                series_postings(ts.id, ts.labels@),
            ),
            final(self).inner().keys() == old(self).inner().keys().insert(ts.id, key@),
            final(self).inner().all() == old(self).inner().all().insert(ts.id),
            final(self).inner().stale() == old(self).inner().stale().remove(ts.id),
            final(self).inner().stale_ids.retiring() == old(self).inner().stale_ids.retiring(),
    {
        self.postings.reindex_timeseries(ts, key);
    }

    /// Takes a series out of the index. Tells whether it was live.
    pub fn remove_timeseries<A: Aggregation>(&mut self, series: &TimeSeries<A>) -> (r: bool)
        requires
            old(self).wf(),
        ensures
            final(self).wf(),
            r == old(self).inner().all().contains(series.id),
            final(self).inner().terms() == without_postings(
                old(self).inner().terms(),
                label_keys(series.labels@),
                series.id,
            ),
            final(self).inner().keys() == old(self).inner().keys().remove(series.id),
            final(self).inner().all() == old(self).inner().all().remove(series.id),
            final(self).inner().stale() == old(self).inner().stale(),
            final(self).inner().stale_ids.retiring() == old(self).inner().stale_ids.retiring(),
    {
        self.postings.remove_timeseries(series)
    }

    /// The one series that has all of the labels.
    pub fn posting_by_labels(&self, labels: &Vec<Label>) -> (r: Option<SeriesRef>)
        ensures
            r matches Some(id) ==> labels@.len() > 0 && in_all_lists(
                self.inner().terms(),
                labels@,
            ).difference(self.inner().stale()) == set![id],
            r is None ==> labels@.len() == 0 || forall|id: u64|
                in_all_lists(self.inner().terms(), labels@).difference(self.inner().stale())
                    != set![id],
    {
        self.postings.posting_id_by_labels(labels)
    }

    /// How many series all of the selectors select.
    pub fn get_cardinality_by_selectors(&self, selectors: &Vec<SeriesSelector>) -> (r: Result<
        u64,
        TsdbError,
    >)
        requires
            self.wf(),
        ensures
            match r {
                Ok(n) => {
                    &&& forall|i: int|
                        0 <= i < selectors@.len() ==> !self.inner().selector_fails(
                            #[trigger] selectors@[i],
                        )
                    &&& n == capped(self.inner().selectors_ids(selectors@).len())
                },
                Err(e) => {
                    &&& exists|i: int|
                        0 <= i < selectors@.len() && self.inner().selector_fails(
                            #[trigger] selectors@[i],
                        )
                    &&& e == TsdbError::MissingFilter
                },
            },
    {
        get_cardinality_by_selectors(&self.postings, selectors)
    }

    /// How many series have which labels.
    pub fn stats(&self, label: &str, limit: usize) -> (r: PostingsStats)
        requires
            self.wf(),
        ensures
            is_stats(self.inner().terms(), self.inner().all(), label@, limit as nat, r),
    {
        self.postings.stats_for(&self.postings.all_postings, label, limit)
    }

    /// How many of the series that all of the filters select have which labels.
    pub fn stats_filtered(&self, filters: &Vec<LabelFilter>, label: &str, limit: usize) -> (r: Result<
        PostingsStats,
        TsdbError,
    >)
        requires
            self.wf(),
        ensures
            match r {
                Ok(stats) => {
                    &&& !self.inner().plan_fails(filters@)
                    &&& is_stats(
                        self.inner().terms(),
                        self.inner().plan_ids(filters@),
                        label@,
                        limit as nat,
                        stats,
                    )
                },
                Err(e) => self.inner().plan_fails(filters@) && e == TsdbError::MissingFilter,
            },
    {
        match self.postings.postings_for_label_filters(filters) {
            Ok(series) => Ok(self.postings.stats_for(cow_ref(&series), label, limit)),
            Err(e) => Err(e),
        }
    }

    /// What the index takes.
    pub fn memory_usage(&self) -> (r: IndexMemory)
        requires
            self.wf(),
        ensures
            is_part(self.inner(), r),
    {
        self.postings.memory_usage()
    }
}

/// Where no filter is given, all series are counted.
pub proof fn law_unfiltered(index: TimeSeriesIndex, label: Seq<char>, limit: nat, r: PostingsStats)
    ensures
        !index.inner().plan_fails(Seq::empty()),
        is_stats(
            index.inner().terms(),
            index.inner().plan_ids(Seq::empty()),
            label,
            limit,
            r,
        ) == is_stats(index.inner().terms(), index.inner().all(), label, limit, r),
{
}

} // verus!
