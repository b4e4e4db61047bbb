//! The ranges of several keys side by side: a row for each timestamp, with the columns of each key.
use crate::aggregation::Aggregation;
use crate::range::merge::{pivot, pivoted, sources_increase, sources_of};
use crate::range::rows::{
    create_row_iterator, get_latest, latest_of, rows_increase, rows_of, series_rows,
    AggregationOptions, MultiSample, RangeOptions, Row,
};
use crate::sample::Sample;
use crate::series::store::TimeSeries;
use vstd::prelude::*;

verus! {

/// What is asked of several keys.
pub struct NRangeOptions<B> {
    pub range: RangeOptions,
    /// How the samples of each key are put together; where the list is empty, they are not.
    pub aggregations: Vec<AggregationOptions<B>>,
    pub is_reverse: bool,
}

/// One key of a query: its series, and the value of its open bucket where that is asked for.
pub struct NRangeSeriesMeta<'a, A> {
    pub series: &'a TimeSeries<A>,
    pub latest: Option<Sample>,
}

impl<B: Aggregation> NRangeOptions<B> {
    /// Buckets take time.
    pub open spec fn wf(&self) -> bool {
        forall|i: int| 0 <= i < self.aggregations@.len() ==> (#[trigger] self.aggregations@[i]).wf()
    }

    /// How the samples of a key are put together.
    pub open spec fn aggregation_of(&self, index: int) -> Option<AggregationOptions<B>> {
        if 0 <= index < self.aggregations@.len() {
            Some(self.aggregations@[index])
        } else {
            None
        }
    }

    /// How many columns a key has.
    pub open spec fn columns_of(&self, index: int) -> nat {
        match self.aggregation_of(index) {
            Some(o) => o.aggregators@.len(),
            None => 1,
        }
    }

    /// How many columns each key has.
    pub open spec fn widths(&self, keys: nat) -> Seq<usize> {
        Seq::new(keys, |i: int| self.columns_of(i) as usize)
    }

    /// How the samples of a key are put together.
    pub fn aggregation_for(&self, index: usize) -> (r: Option<&AggregationOptions<B>>)
        ensures
            match r {
                Some(o) => self.aggregation_of(index as int) == Some(*o),
                None => self.aggregation_of(index as int) is None,
            },
    {
        if index < self.aggregations.len() {
            Some(&self.aggregations[index])
        } else {
            None
        }
    }

    /// How many columns a key has.
    pub fn column_count(&self, index: usize) -> (r: usize)
        ensures
            r == self.columns_of(index as int),
    {
        match self.aggregation_for(index) {
            Some(o) => o.aggregators.len(),
            None => 1,
        }
    }
}

/// The rows that each key contributes.
pub open spec fn key_rows<'a, A: Aggregation, B: Aggregation>(
    metas: Seq<NRangeSeriesMeta<'a, A>>,
    options: NRangeOptions<B>,
) -> Seq<Seq<Row>> {
    Seq::new(
        metas.len(),
        |i: int|
            series_rows(
                metas[i].series,
                options.range,
                options.aggregation_of(i),
                metas[i].latest,
            ),
    )
}

/// Rows in the order that is asked for, as many as are asked for.
pub open spec fn requested(rows: Seq<Row>, is_reverse: bool, count: Option<usize>) -> Seq<Row> {
    let ordered = if is_reverse {
        rows.reverse()
    } else {
        rows
    };
    match count {
        Some(n) => if ordered.len() > n {
            ordered.take(n as int)
        } else {
            ordered
        },
        None => ordered,
    }
}

/// Puts rows in the order that is asked for, and takes as many as are asked for. The limit is on
/// the rows in that order.
pub fn collect_rows(rows: Vec<MultiSample>, is_reverse: bool, count: Option<usize>) -> (r: Vec<
    MultiSample,
>)
    ensures
        rows_of(r@) == requested(rows_of(rows@), is_reverse, count),
{
    let ghost all = rows@;
    let mut out: Vec<MultiSample> = Vec::new();
    if is_reverse {
        let mut rest: Vec<MultiSample> = rows;
        assert(all.take(all.len() as int) =~= all);
        while rest.len() > 0
            invariant
                rest@ == all.take(rest@.len() as int),
                rest@.len() <= all.len(),
                out@.len() == all.len() - rest@.len(),
                forall|k: int| 0 <= k < out@.len() ==> #[trigger] out@[k] == all[all.len() - 1 - k],
            decreases rest.len(),
        {
            let ghost n = rest@.len() as int;
            match rest.pop() {
                Some(row) => {
                    assert(row == all[n - 1]);
                    out.push(row);
                },
                None => {},
            }
            assert(rest@ =~= all.take(n - 1));
        }
        assert(rows_of(out@) =~= rows_of(all).reverse());
    } else {
        out = rows;
    }
    let ghost ordered = out@;
    if let Some(n) = count {
        if out.len() > n {
            out.truncate(n);
            assert(rows_of(out@) =~= rows_of(ordered).take(n as int));
        }
    }
    out
}

/// Puts the ranges of keys side by side. A key that is named twice has its columns twice; a key
/// that has nothing at a timestamp has blanks there.
pub fn process_nrange<'a, A: Aggregation, B: Aggregation>(
    metas: &Vec<NRangeSeriesMeta<'a, A>>,
    options: &NRangeOptions<B>,
) -> (r: Vec<MultiSample>)
    requires
        options.wf(),
        forall|i: int| 0 <= i < metas@.len() ==> (#[trigger] metas@[i]).series.wf(),
    ensures
        rows_of(r@) == requested(
            pivoted(key_rows(metas@, *options), options.widths(metas@.len())),
            options.is_reverse,
            options.range.count,
        ),
{
    let mut sources: Vec<Vec<MultiSample>> = Vec::new();
    let mut widths: Vec<usize> = Vec::new();
    let mut i: usize = 0;
    while i < metas.len()
        invariant
            i <= metas@.len(),
            options.wf(),
            forall|i: int| 0 <= i < metas@.len() ==> (#[trigger] metas@[i]).series.wf(),
            sources@.len() == i,
            widths@.len() == i,
            forall|k: int| 0 <= k < i ==> #[trigger] widths@[k] == options.columns_of(k),
            forall|k: int|
                0 <= k < i ==> rows_of((#[trigger] sources@[k])@) == key_rows(metas@, *options)[k],
            forall|k: int| 0 <= k < i ==> rows_increase(rows_of((#[trigger] sources@[k])@)),
        decreases metas.len() - i,
    {
        let meta = &metas[i];
        assert(metas@[i as int].series.wf());
        let rows = create_row_iterator(
            meta.series,
            &options.range,
            options.aggregation_for(i),
            meta.latest,
        );
        sources.push(rows);
        widths.push(options.column_count(i));
        i += 1;
    }
    proof {
        assert(sources_of(sources@) =~= key_rows(metas@, *options));
        assert(widths@ =~= options.widths(metas@.len()));
        assert(sources_increase(sources_of(sources@))) by {
            assert forall|k: int| 0 <= k < sources@.len() implies rows_increase(
                #[trigger] sources_of(sources@)[k],
            ) by {
                assert(rows_increase(rows_of(sources@[k]@)));
            }
        }
    }
    let joined = pivot(&sources, &widths);
    collect_rows(joined, options.is_reverse, options.range.count)
}

/// The value of the open bucket that a key contributes.
pub fn key_latest<A: Aggregation, B: Aggregation>(
    options: &NRangeOptions<B>,
    series: &TimeSeries<A>,
    open_bucket: Option<Sample>,
) -> (r: Option<Sample>)
    ensures
        r == latest_of(options.range, series.src_series is Some, open_bucket),
{
    get_latest(&options.range, series, open_bucket)
}

} // verus!
