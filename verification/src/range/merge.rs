//! The rows of several series, put together by their timestamps.
use crate::aggregation::{fed, Aggregation, NAN_BITS};
use crate::chunks::utils::{insert_timestamp, timestamps_increase};
use crate::index::label_scan::lemma_ascending_unique;
use crate::range::rows::{row_of, rows_increase, rows_of, rows_wide, MultiSample, Row};
use crate::sample::{Sample, Timestamp};
use vstd::prelude::*;

verus! {

/// The rows of several series.
pub open spec fn sources_of(sources: Seq<Vec<MultiSample>>) -> Seq<Seq<Row>> {
    sources.map_values(|s: Vec<MultiSample>| rows_of(s@))
}

/// The rows of each series are in order.
pub open spec fn sources_increase(sources: Seq<Seq<Row>>) -> bool {
    forall|i: int| 0 <= i < sources.len() ==> rows_increase(#[trigger] sources[i])
}

/// The values of the row at a timestamp, where there is one.
pub open spec fn row_at(rows: Seq<Row>, ts: Timestamp) -> Option<Seq<u64>>
    decreases rows.len(),
{
    if rows.len() == 0 {
        None
    } else if rows.last().0 == ts {
        Some(rows.last().1)
    } else {
        row_at(rows.drop_last(), ts)
    }
}

/// Some series has a row at a timestamp.
pub open spec fn has_row(sources: Seq<Seq<Row>>, ts: Timestamp) -> bool {
    exists|i: int| 0 <= i < sources.len() && row_at(#[trigger] sources[i], ts) is Some
}

/// The timestamps of all rows, each once, in order.
pub open spec fn lists_timestamps(sources: Seq<Seq<Row>>, list: Seq<Timestamp>) -> bool {
    &&& timestamps_increase(list)
    &&& forall|ts: Timestamp| #[trigger] list.contains(ts) == has_row(sources, ts)
}

/// The timestamps of all rows, each once, in order.
pub open spec fn joint_timestamps(sources: Seq<Seq<Row>>) -> Seq<Timestamp> {
    choose|list: Seq<Timestamp>| lists_timestamps(sources, list)
}

/// There is one list of the timestamps of all rows.
pub proof fn lemma_timestamps_are(sources: Seq<Seq<Row>>, list: Seq<Timestamp>)
    requires
        lists_timestamps(sources, list),
    ensures
        joint_timestamps(sources) == list,
{
    let chosen = joint_timestamps(sources);
    assert(lists_timestamps(sources, chosen));
    let less = |a: Timestamp, b: Timestamp| a < b;
    assert forall|i: int, j: int| 0 <= i < j < chosen.len() implies less(
        #[trigger] chosen[i],
        #[trigger] chosen[j],
    ) by {
        assert(chosen[i] < chosen[j]);
    }
    assert forall|i: int, j: int| 0 <= i < j < list.len() implies less(
        #[trigger] list[i],
        #[trigger] list[j],
    ) by {
        assert(list[i] < list[j]);
    }
    lemma_ascending_unique(chosen, list, less);
}

proof fn lemma_row_at(rows: Seq<Row>, i: int)
    requires
        rows_increase(rows),
        0 <= i < rows.len(),
    ensures
        row_at(rows, rows[i].0) == Some(rows[i].1),
    decreases rows.len(),
{
    if i < rows.len() - 1 {
        let less = rows.drop_last();
        assert(rows_increase(less)) by {
            assert forall|a: int, b: int| 0 <= a < b < less.len() implies (#[trigger] less[a]).0 < (
            #[trigger] less[b]).0 by {
                assert(less[a] == rows[a] && less[b] == rows[b]);
            }
        }
        lemma_row_at(less, i);
        assert(less[i] == rows[i]);
        assert(rows[i].0 < rows[rows.len() - 1].0);
    }
}

proof fn lemma_no_row(rows: Seq<Row>, ts: Timestamp)
    requires
        forall|i: int| 0 <= i < rows.len() ==> (#[trigger] rows[i]).0 != ts,
    ensures
        row_at(rows, ts) is None,
    decreases rows.len(),
{
    if rows.len() > 0 {
        let less = rows.drop_last();
        assert forall|i: int| 0 <= i < less.len() implies (#[trigger] less[i]).0 != ts by {
            assert(less[i] == rows[i]);
        }
        assert(rows[rows.len() - 1].0 != ts);
        lemma_no_row(less, ts);
    }
}

proof fn lemma_some_row(rows: Seq<Row>, ts: Timestamp)
    requires
        row_at(rows, ts) is Some,
    ensures
        exists|i: int| 0 <= i < rows.len() && (#[trigger] rows[i]).0 == ts,
    decreases rows.len(),
{
    if rows.last().0 == ts {
        assert(rows[rows.len() - 1].0 == ts);
    } else {
        lemma_some_row(rows.drop_last(), ts);
        let less = rows.drop_last();
        let i = choose|i: int| 0 <= i < less.len() && (#[trigger] less[i]).0 == ts;
        assert(rows[i].0 == ts);
    }
}

/// Where the row at a timestamp is.
fn find_row(rows: &Vec<MultiSample>, ts: Timestamp) -> (r: Option<usize>)
    requires
        rows_increase(rows_of(rows@)),
    ensures
        match r {
            Some(i) => i < rows@.len() && row_at(rows_of(rows@), ts) == Some(
                rows_of(rows@)[i as int].1,
            ) && rows@[i as int].timestamp == ts,
            None => row_at(rows_of(rows@), ts) is None,
        },
{
    let ghost view = rows_of(rows@);
    let mut lo: usize = 0;
    let mut hi: usize = rows.len();
    while lo < hi
        invariant
            lo <= hi <= rows@.len(),
            view == rows_of(rows@),
            rows_increase(view),
            forall|i: int| 0 <= i < lo ==> (#[trigger] view[i]).0 < ts,
            forall|i: int| hi <= i < view.len() ==> (#[trigger] view[i]).0 >= ts,
        decreases hi - lo,
    {
        let mid: usize = lo + (hi - lo) / 2;
        assert(view[mid as int].0 == rows@[mid as int].timestamp);
        if rows[mid].timestamp < ts {
            assert forall|i: int| 0 <= i < mid + 1 implies (#[trigger] view[i]).0 < ts by {
                if i < mid {
                    assert(view[i].0 < view[mid as int].0);
                }
            }
            lo = mid + 1;
        } else {
            assert forall|i: int| mid <= i < view.len() implies (#[trigger] view[i]).0 >= ts by {
                if i > mid {
                    assert(view[mid as int].0 < view[i].0);
                }
            }
            hi = mid;
        }
    }
    if lo < rows.len() && rows[lo].timestamp == ts {
        proof {
            assert(view[lo as int].0 == ts);
            lemma_row_at(view, lo as int);
        }
        Some(lo)
    } else {
        proof {
            assert forall|i: int| 0 <= i < view.len() implies (#[trigger] view[i]).0 != ts by {
                if i >= lo {
                    assert(view[i].0 >= ts);
                    if lo < i {
                        assert(view[lo as int].0 < view[i].0);
                    }
                }
            }
            lemma_no_row(view, ts);
        }
        None
    }
}

/// The timestamps of all rows, each once, in order.
pub fn all_timestamps(sources: &Vec<Vec<MultiSample>>) -> (r: Vec<Timestamp>)
    requires
        sources_increase(sources_of(sources@)),
    ensures
        lists_timestamps(sources_of(sources@), r@),
{
    let ghost views = sources_of(sources@);
    let mut out: Vec<Timestamp> = Vec::new();
    let mut i: usize = 0;
    while i < sources.len()
        invariant
            i <= sources@.len(),
            views == sources_of(sources@),
            timestamps_increase(out@),
            forall|ts: Timestamp| #[trigger]
                out@.contains(ts) == exists|k: int|
                    0 <= k < i && row_at(#[trigger] views[k], ts) is Some,
        decreases sources.len() - i,
    {
        let rows = &sources[i];
        let ghost before = out@;
        let ghost view = rows_of(rows@);
        assert(views[i as int] == view);
        let mut j: usize = 0;
        while j < rows.len()
            invariant
                j <= rows@.len(),
                view == rows_of(rows@),
                timestamps_increase(out@),
                forall|ts: Timestamp| #[trigger]
                    out@.contains(ts) == (before.contains(ts) || exists|k: int|
                        0 <= k < j && (#[trigger] view[k]).0 == ts),
            decreases rows.len() - j,
        {
            let ts: Timestamp = rows[j].timestamp;
            let ghost was = out@;
            insert_timestamp(&mut out, ts);
            proof {
                assert(view[j as int].0 == ts);
                assert forall|t: Timestamp| #[trigger] out@.contains(t) == (before.contains(t)
                    || exists|k: int| 0 <= k < j + 1 && (#[trigger] view[k]).0 == t) by {
                    assert(was.contains(t) == (before.contains(t) || exists|k: int|
                        0 <= k < j && (#[trigger] view[k]).0 == t));
                }
            }
            j += 1;
        }
        proof {
            assert forall|ts: Timestamp| #[trigger] out@.contains(ts) == (exists|k: int|
                0 <= k < i + 1 && row_at(#[trigger] views[k], ts) is Some) by {
                assert(before.contains(ts) == exists|k: int|
                    0 <= k < i && row_at(#[trigger] views[k], ts) is Some);
                if exists|k: int| 0 <= k < j && (#[trigger] view[k]).0 == ts {
                    if row_at(view, ts) is None {
                        let k = choose|k: int| 0 <= k < j && (#[trigger] view[k]).0 == ts;
                        lemma_row_present(view, k);
                    }
                    assert(row_at(views[i as int], ts) is Some);
                }
                if row_at(views[i as int], ts) is Some {
                    lemma_some_row(view, ts);
                }
            }
        }
        i += 1;
    }
    out
}

proof fn lemma_row_present(rows: Seq<Row>, i: int)
    requires
        0 <= i < rows.len(),
    ensures
        row_at(rows, rows[i].0) is Some,
    decreases rows.len(),
{
    if rows.last().0 != rows[i].0 {
        lemma_row_present(rows.drop_last(), i);
    }
}

/// Values that stand for nothing.
pub open spec fn blanks(width: nat) -> Seq<u64> {
    Seq::new(width, |i: int| NAN_BITS)
}

/// The values of all series at a timestamp, one series after another; where a series has none,
/// blanks.
pub open spec fn values_at(sources: Seq<Seq<Row>>, widths: Seq<usize>, ts: Timestamp) -> Seq<u64>
    decreases sources.len(),
{
    if sources.len() == 0 {
        Seq::empty()
    } else {
        values_at(sources.drop_last(), widths, ts) + match row_at(sources.last(), ts) {
            Some(values) => values,
            None => blanks(widths[sources.len() - 1] as nat),
        }
    }
}

/// The rows of all series side by side: one for each timestamp, in order.
pub open spec fn pivoted(sources: Seq<Seq<Row>>, widths: Seq<usize>) -> Seq<Row> {
    joint_timestamps(sources).map_values(|ts: Timestamp| (ts, values_at(sources, widths, ts)))
}

/// The values of all series at a timestamp.
fn pivot_values(sources: &Vec<Vec<MultiSample>>, widths: &Vec<usize>, ts: Timestamp) -> (r: Vec<u64>)
    requires
        sources@.len() == widths@.len(),
        sources_increase(sources_of(sources@)),
    ensures
        r@ == values_at(sources_of(sources@), widths@, ts),
{
    let ghost views = sources_of(sources@);
    let mut out: Vec<u64> = Vec::new();
    let mut i: usize = 0;
    assert(views.take(0) =~= Seq::<Seq<Row>>::empty());
    while i < sources.len()
        invariant
            i <= sources@.len(),
            sources@.len() == widths@.len(),
            views == sources_of(sources@),
            sources_increase(views),
            out@ == values_at(views.take(i as int), widths@, ts),
        decreases sources.len() - i,
    {
        let ghost before = out@;
        proof {
            assert(views.take(i + 1).drop_last() =~= views.take(i as int));
            assert(views.take(i + 1).last() == rows_of(sources@[i as int]@));
            assert(rows_increase(views[i as int]));
        }
        match find_row(&sources[i], ts) {
            Some(at) => {
                let row = &sources[i][at];
                let ghost values = row.values@;
                let mut j: usize = 0;
                assert(before + values.take(0) =~= before);
                while j < row.values.len()
                    invariant
                        j <= row.values@.len(),
                        values == row.values@,
                        out@ == before + values.take(j as int),
                    decreases row.values.len() - j,
                {
                    out.push(row.values[j]);
                    assert(out@ =~= before + values.take(j + 1));
                    j += 1;
                }
                assert(values.take(j as int) =~= values);
            },
            None => {
                let width: usize = widths[i];
                let mut j: usize = 0;
                assert(before + blanks(0) =~= before);
                while j < width
                    invariant
                        j <= width,
                        out@ == before + blanks(j as nat),
                    decreases width - j,
                {
                    out.push(NAN_BITS);
                    assert(out@ =~= before + blanks((j + 1) as nat));
                    j += 1;
                }
            },
        }
        i += 1;
    }
    assert(views.take(i as int) =~= views);
    out
}

/// Puts the rows of all series side by side.
pub fn pivot(sources: &Vec<Vec<MultiSample>>, widths: &Vec<usize>) -> (r: Vec<MultiSample>)
    requires
        sources@.len() == widths@.len(),
        sources_increase(sources_of(sources@)),
    ensures
        rows_of(r@) == pivoted(sources_of(sources@), widths@),
{
    let timestamps = all_timestamps(sources);
    let mut out: Vec<MultiSample> = Vec::new();
    let mut i: usize = 0;
    while i < timestamps.len()
        invariant
            i <= timestamps@.len(),
            sources@.len() == widths@.len(),
            sources_increase(sources_of(sources@)),
            out@.len() == i,
            forall|k: int|
                0 <= k < i ==> row_of(#[trigger] out@[k]) == (
                    timestamps@[k],
                    values_at(sources_of(sources@), widths@, timestamps@[k]),
                ),
        decreases timestamps.len() - i,
    {
        let values = pivot_values(sources, widths, timestamps[i]);
        out.push(MultiSample { timestamp: timestamps[i], values });
        i += 1;
    }
    proof {
        lemma_timestamps_are(sources_of(sources@), timestamps@);
        assert(rows_of(out@) =~= pivoted(sources_of(sources@), widths@));
    }
    out
}

/// The values of a column at a timestamp, one series after another.
pub open spec fn column_at(sources: Seq<Seq<Row>>, ts: Timestamp, column: int) -> Seq<Sample>
    decreases sources.len(),
{
    if sources.len() == 0 {
        Seq::empty()
    } else {
        let before = column_at(sources.drop_last(), ts, column);
        match row_at(sources.last(), ts) {
            Some(values) => before.push(Sample { timestamp: ts, value: values[column] }),
            None => before,
        }
    }
}

/// What an aggregator has seen of all series at a timestamp, for each column.
pub open spec fn states_at<B: Aggregation>(
    sources: Seq<Seq<Row>>,
    ts: Timestamp,
    columns: nat,
    reducer: B,
) -> Seq<B> {
    Seq::new(columns, |c: int| fed(reducer.cleared(), column_at(sources, ts, c)))
}

/// What a series has at a timestamp, fed to an aggregator for each column.
fn feed_row<B: Aggregation>(states: Vec<B>, row: &MultiSample) -> (r: Vec<B>)
    requires
        row.values@.len() == states@.len(),
    ensures
        r@.len() == states@.len(),
        forall|c: int|
            0 <= c < r@.len() ==> #[trigger] r@[c] == states@[c].after(
                Sample { timestamp: row.timestamp, value: row.values@[c] },
            ),
{
    let ghost all = states@;
    let mut rest: Vec<B> = states;
    let mut out: Vec<B> = Vec::new();
    let width: usize = row.values.len();
    let mut n: usize = 0;
    assert(all.skip(0) =~= all);
    while rest.len() > 0
        invariant
            n <= all.len(),
            all.len() == row.values@.len() == width,
            rest@ == all.skip(n as int),
            out@.len() == n,
            forall|c: int|
                0 <= c < n ==> #[trigger] out@[c] == all[c].after(
                    Sample { timestamp: row.timestamp, value: row.values@[c] },
                ),
        decreases rest.len(),
    {
        let mut a = rest.remove(0);
        proof {
            assert(a == all[n as int]);
            assert(rest@ =~= all.skip(n + 1));
        }
        let _ = a.update(Sample { timestamp: row.timestamp, value: row.values[n] });
        out.push(a);
        n += 1;
    }
    out
}

/// Feeds what all series have at a timestamp to an aggregator for each column.
fn reduce_at<B: Aggregation>(
    sources: &Vec<Vec<MultiSample>>,
    ts: Timestamp,
    columns: usize,
    reducer: &B,
) -> (r: Vec<B>)
    requires
        sources_increase(sources_of(sources@)),
        sources_wide(sources_of(sources@), columns as nat),
    ensures
        r@ == states_at(sources_of(sources@), ts, columns as nat, *reducer),
{
    let ghost views = sources_of(sources@);
    let mut states: Vec<B> = Vec::new();
    let mut c: usize = 0;
    while c < columns
        invariant
            c <= columns,
            states@.len() == c,
            forall|k: int| 0 <= k < c ==> #[trigger] states@[k] == reducer.cleared(),
        decreases columns - c,
    {
        let mut a = reducer.copy();
        a.reset();
        states.push(a);
        c += 1;
    }
    let mut i: usize = 0;
    assert(views.take(0) =~= Seq::<Seq<Row>>::empty());
    while i < sources.len()
        invariant
            i <= sources@.len(),
            views == sources_of(sources@),
            sources_increase(views),
            sources_wide(views, columns as nat),
            states@.len() == columns,
            forall|k: int|
                0 <= k < columns ==> #[trigger] states@[k] == fed(
                    reducer.cleared(),
                    column_at(views.take(i as int), ts, k),
                ),
        decreases sources.len() - i,
    {
        proof {
            assert(views.take(i + 1).drop_last() =~= views.take(i as int));
            assert(views.take(i + 1).last() == rows_of(sources@[i as int]@));
            assert(rows_increase(views[i as int]));
            assert(rows_wide(views[i as int], columns as nat));
        }
        let ghost was = states@;
        match find_row(&sources[i], ts) {
            Some(at) => {
                assert(views[i as int][at as int].1.len() == columns);
                states = feed_row(states, &sources[i][at]);
                proof {
                    assert forall|k: int| 0 <= k < columns implies #[trigger] states@[k] == fed(
                        reducer.cleared(),
                        column_at(views.take(i + 1), ts, k),
                    ) by {
                        let before = column_at(views.take(i as int), ts, k);
                        let s = Sample {
                            timestamp: ts,
                            value: views[i as int][at as int].1[k],
                        };
                        assert(before.push(s).drop_last() =~= before);
                        assert(was[k] == fed(reducer.cleared(), before));
                    }
                }
            },
            None => {},
        }
        i += 1;
    }
    assert(views.take(i as int) =~= views);
    assert(states@ =~= states_at(views, ts, columns as nat, *reducer));
    states
}

/// All rows of all series have as many values.
pub open spec fn sources_wide(sources: Seq<Seq<Row>>, width: nat) -> bool {
    forall|i: int| 0 <= i < sources.len() ==> rows_wide(#[trigger] sources[i], width)
}

/// What an aggregator has seen of all series at each timestamp, for each column.
pub open spec fn reduced<B: Aggregation>(sources: Seq<Seq<Row>>, columns: nat, reducer: B) -> Seq<
    (Timestamp, Seq<B>),
> {
    joint_timestamps(sources).map_values(
        |ts: Timestamp| (ts, states_at(sources, ts, columns, reducer)),
    )
}

/// States, as a sequence.
pub open spec fn reduced_views<B>(out: Seq<(Timestamp, Vec<B>)>) -> Seq<(Timestamp, Seq<B>)> {
    out.map_values(|r: (Timestamp, Vec<B>)| (r.0, r.1@))
}

/// Puts the rows of all series together, column by column, as far as the states of an aggregator.
pub fn reduce_states<B: Aggregation>(
    sources: &Vec<Vec<MultiSample>>,
    columns: usize,
    reducer: &B,
) -> (r: Vec<(Timestamp, Vec<B>)>)
    requires
        sources_increase(sources_of(sources@)),
        sources_wide(sources_of(sources@), columns as nat),
    ensures
        reduced_views(r@) == reduced(sources_of(sources@), columns as nat, *reducer),
{
    let timestamps = all_timestamps(sources);
    let mut out: Vec<(Timestamp, Vec<B>)> = Vec::new();
    let mut i: usize = 0;
    while i < timestamps.len()
        invariant
            i <= timestamps@.len(),
            sources_increase(sources_of(sources@)),
            sources_wide(sources_of(sources@), columns as nat),
            out@.len() == i,
            forall|k: int|
                0 <= k < i ==> (#[trigger] out@[k]).0 == timestamps@[k] && out@[k].1@ == states_at(
                    sources_of(sources@),
                    timestamps@[k],
                    columns as nat,
                    *reducer,
                ),
        decreases timestamps.len() - i,
    {
        let states = reduce_at(sources, timestamps[i], columns, reducer);
        out.push((timestamps[i], states));
        i += 1;
    }
    proof {
        lemma_timestamps_are(sources_of(sources@), timestamps@);
        assert(reduced_views(out@) =~= reduced(sources_of(sources@), columns as nat, *reducer));
    }
    out
}

/// The values of states.
pub open spec fn results_of<B: Aggregation>(states: Seq<B>) -> Seq<u64> {
    Seq::new(states.len(), |c: int| states[c].result())
}

/// The rows of states.
pub open spec fn finished<B: Aggregation>(out: Seq<(Timestamp, Seq<B>)>) -> Seq<Row> {
    out.map_values(|r: (Timestamp, Seq<B>)| (r.0, results_of(r.1)))
}

/// The rows of states.
pub fn finish_rows<B: Aggregation>(states: &Vec<(Timestamp, Vec<B>)>) -> (r: Vec<MultiSample>)
    ensures
        rows_of(r@) == finished(reduced_views(states@)),
{
    let mut out: Vec<MultiSample> = Vec::new();
    let mut i: usize = 0;
    while i < states.len()
        invariant
            i <= states@.len(),
            out@.len() == i,
            forall|k: int|
                0 <= k < i ==> row_of(#[trigger] out@[k]) == (
                    states@[k].0,
                    results_of(states@[k].1@),
                ),
        decreases states.len() - i,
    {
        let row = &states[i].1;
        let mut values: Vec<u64> = Vec::new();
        let mut c: usize = 0;
        while c < row.len()
            invariant
                c <= row@.len(),
                values@.len() == c,
                forall|k: int| 0 <= k < c ==> #[trigger] values@[k] == row@[k].result(),
            decreases row.len() - c,
        {
            values.push(row[c].finalize());
            c += 1;
        }
        assert(values@ =~= results_of(row@));
        out.push(MultiSample { timestamp: states[i].0, values });
        i += 1;
    }
    assert(rows_of(out@) =~= finished(reduced_views(states@)));
    out
}

/// A timestamp put among others.
proof fn lemma_with_timestamp(list: Seq<Timestamp>, ts: Timestamp) -> (r: Seq<Timestamp>)
    requires
        timestamps_increase(list),
    ensures
        timestamps_increase(r),
        forall|t: Timestamp| #[trigger] r.contains(t) == (list.contains(t) || t == ts),
        r.len() > 0,
        r.last() == ts || (list.len() > 0 && r.last() == list.last() && ts < list.last()),
    decreases list.len(),
{
    if list.len() == 0 || list.last() < ts {
        let r = list.push(ts);
        assert forall|t: Timestamp| #[trigger] r.contains(t) == (list.contains(t) || t == ts) by {
            if list.contains(t) {
                let k = choose|k: int| 0 <= k < list.len() && list[k] == t;
                assert(r[k] == t);
            }
            assert(r[list.len() as int] == ts);
        }
        r
    } else if list.last() == ts {
        assert(list[list.len() - 1] == ts);
        list
    } else {
        let less = list.drop_last();
        let q = lemma_with_timestamp(less, ts);
        let r = q.push(list.last());
        assert forall|i: int, j: int| 0 <= i < j < r.len() implies r[i] < r[j] by {
            if j == q.len() {
                assert(q[i] <= q.last());
                if less.len() > 0 {
                    assert(list[less.len() - 1] < list[list.len() - 1]);
                }
            }
        }
        assert forall|t: Timestamp| #[trigger] r.contains(t) == (list.contains(t) || t == ts) by {
            assert(q.contains(t) == (less.contains(t) || t == ts));
            if r.contains(t) {
                let k = choose|k: int| 0 <= k < r.len() && r[k] == t;
                if k < q.len() {
                    assert(q[k] == t);
                    if less.contains(t) {
                        let m = choose|m: int| 0 <= m < less.len() && less[m] == t;
                        assert(list[m] == t);
                    }
                } else {
                    assert(list[list.len() - 1] == t);
                }
            }
            if list.contains(t) {
                let k = choose|k: int| 0 <= k < list.len() && list[k] == t;
                if k < less.len() {
                    assert(less[k] == t);
                    assert(q.contains(t));
                    let m = choose|m: int| 0 <= m < q.len() && q[m] == t;
                    assert(r[m] == t);
                } else {
                    assert(r[q.len() as int] == t);
                }
            }
            if t == ts {
                assert(q.contains(t));
                let m = choose|m: int| 0 <= m < q.len() && q[m] == t;
                assert(r[m] == t);
            }
        }
        r
    }
}

/// The timestamps of rows put among others.
proof fn lemma_with_rows(list: Seq<Timestamp>, rows: Seq<Row>) -> (r: Seq<Timestamp>)
    requires
        timestamps_increase(list),
    ensures
        timestamps_increase(r),
        forall|t: Timestamp| #[trigger]
            r.contains(t) == (list.contains(t) || row_at(rows, t) is Some),
    decreases rows.len(),
{
    if rows.len() == 0 {
        list
    } else {
        let q = lemma_with_rows(list, rows.drop_last());
        lemma_with_timestamp(q, rows.last().0)
    }
}

/// There is a list of the timestamps of all rows.
proof fn lemma_timestamps_exist(sources: Seq<Seq<Row>>) -> (r: Seq<Timestamp>)
    ensures
        lists_timestamps(sources, r),
    decreases sources.len(),
{
    if sources.len() == 0 {
        Seq::empty()
    } else {
        let less = sources.drop_last();
        let q = lemma_timestamps_exist(less);
        let r = lemma_with_rows(q, sources.last());
        assert forall|ts: Timestamp| #[trigger] r.contains(ts) == has_row(sources, ts) by {
            assert(q.contains(ts) == has_row(less, ts));
            if has_row(less, ts) {
                let i = choose|i: int| 0 <= i < less.len() && row_at(#[trigger] less[i], ts) is Some;
                assert(sources[i] == less[i]);
            }
            if has_row(sources, ts) {
                let i = choose|i: int|
                    0 <= i < sources.len() && row_at(#[trigger] sources[i], ts) is Some;
                if i < less.len() {
                    assert(less[i] == sources[i]);
                }
            }
            if row_at(sources.last(), ts) is Some {
                assert(row_at(sources[sources.len() - 1], ts) is Some);
            }
        }
        r
    }
}

/// There is a row for a timestamp where some series has one, and only there; the rows are in
/// order.
pub proof fn law_rows_joined(sources: Seq<Seq<Row>>, widths: Seq<usize>)
    ensures
        rows_increase(pivoted(sources, widths)),
        forall|ts: Timestamp| #[trigger]
            has_row(sources, ts) == exists|k: int|
                0 <= k < pivoted(sources, widths).len() && (#[trigger] pivoted(
                    sources,
                    widths,
                )[k]).0 == ts,
{
    let list = lemma_timestamps_exist(sources);
    lemma_timestamps_are(sources, list);
    let rows = pivoted(sources, widths);
    assert forall|i: int, j: int| 0 <= i < j < rows.len() implies (#[trigger] rows[i]).0 < (
    #[trigger] rows[j]).0 by {
        assert(list[i] < list[j]);
    }
    assert forall|ts: Timestamp| #[trigger]
        has_row(sources, ts) == exists|k: int|
            0 <= k < rows.len() && (#[trigger] rows[k]).0 == ts by {
        assert(list.contains(ts) == has_row(sources, ts));
        if list.contains(ts) {
            let k = choose|k: int| 0 <= k < list.len() && list[k] == ts;
            assert(rows[k].0 == ts);
        }
        if exists|k: int| 0 <= k < rows.len() && (#[trigger] rows[k]).0 == ts {
            let k = choose|k: int| 0 <= k < rows.len() && (#[trigger] rows[k]).0 == ts;
            assert(list[k] == ts);
        }
    }
}

} // verus!
