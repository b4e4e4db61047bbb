//! The ranges of many series, one by one or by groups.
//!
//! A group is reduced in two steps: the rows of its series are put together by their timestamps,
//! and what stands in a column at a timestamp is fed to the reducer. Where a node only has some of
//! the series of a group, it hands out what its reducer has seen, for another node to go on with.
use crate::aggregation::Aggregation;
use crate::bytes::{
    bytes_less, lemma_lex_asymmetric, lemma_lex_total, lemma_lex_transitive, lex_less, utf8,
};
use crate::labels::{Label, SeriesSelector};
use crate::range::groups::{
    are_groups, collect_group_label_values, convert_labels, group_labels, group_series_by_label,
    group_values, grouped, is_group, keys_of, labels_view, same_but_group, text_opt, texts_of,
    texts_sorted, told_labels, Group, GroupedSeriesData, MRangeSeriesMeta,
};
use crate::index::label_querier::label_value;
use crate::range::merge::{finish_rows, finished, reduce_states, reduced, reduced_views, sources_of};
use crate::range::nrange::{collect_rows, requested};
use crate::range::rows::{
    create_row_iterator, rows_increase, rows_of, rows_wide, series_rows, AggregationOptions,
    MultiSample, RangeOptions, Row,
};
use crate::sample::{Sample, Timestamp};
use crate::text::{push_text, text_of};
use vstd::prelude::*;

verus! {

/// How much of a list is handed out: what comes first or what comes last.
#[derive(Debug, Clone, Copy, PartialEq, Eq, Structural)]
pub enum SampleLimit {
    Head(usize),
    Tail(usize),
}

/// What a limit leaves of a list.
pub open spec fn limited<T>(items: Seq<T>, limit: Option<SampleLimit>) -> Seq<T> {
    match limit {
        None => items,
        Some(SampleLimit::Head(n)) => if items.len() > n {
            items.take(n as int)
        } else {
            items
        },
        Some(SampleLimit::Tail(n)) => if items.len() > n {
            items.skip(items.len() - n)
        } else {
            items
        },
    }
}

/// What a limit leaves of a list.
pub fn apply_limit<T>(items: Vec<T>, limit: Option<SampleLimit>) -> (r: Vec<T>)
    ensures
        r@ == limited(items@, limit),
{
    let mut items: Vec<T> = items;
    let ghost all = items@;
    match limit {
        None => {},
        Some(SampleLimit::Head(n)) => {
            if items.len() > n {
                items.truncate(n);
                assert(items@ =~= all.take(n as int));
            }
        },
        Some(SampleLimit::Tail(n)) => {
            if items.len() > n {
                let at: usize = items.len() - n;
                let tail = items.split_off(at);
                assert(tail@ =~= all.skip(at as int));
                return tail;
            }
        },
    }
    items
}

/// How series are put together in groups.
pub struct RangeGroupingOptions<B> {
    /// What reduces a group.
    pub aggregation: B,
    /// Its name.
    pub reducer_name: String,
    /// Whether it can go on with what another one has seen.
    pub decomposable: bool,
    /// The label that series are grouped by.
    pub group_label: String,
}

/// What is asked of many series.
pub struct MRangeOptions<B> {
    pub range: RangeOptions,
    pub aggregation: Option<AggregationOptions<B>>,
    pub filters: Vec<SeriesSelector>,
    pub grouping: Option<RangeGroupingOptions<B>>,
    pub with_labels: bool,
    pub selected_labels: Vec<String>,
    pub is_reverse: bool,
}

impl<B: Aggregation> MRangeOptions<B> {
    /// Buckets take time, and there is a column.
    pub open spec fn wf(&self) -> bool {
        self.aggregation is Some ==> self.aggregation->0.wf()
            && self.aggregation->0.aggregators@.len() > 0
    }

    /// How many columns the rows have.
    pub open spec fn columns(&self) -> nat {
        match self.aggregation {
            Some(o) => o.aggregators@.len(),
            None => 1,
        }
    }

    /// How many columns the rows have.
    pub fn column_count(&self) -> (r: usize)
        ensures
            r == self.columns(),
    {
        match &self.aggregation {
            Some(o) => o.aggregators.len(),
            None => 1,
        }
    }

    /// The answer is made of rows.
    pub open spec fn multi(&self) -> bool {
        self.columns() > 1
    }

    fn aggregation_ref(&self) -> (r: Option<&AggregationOptions<B>>)
        ensures
            match r {
                Some(o) => self.aggregation == Some(*o),
                None => self.aggregation is None,
            },
    {
        match &self.aggregation {
            Some(o) => Some(o),
            None => None,
        }
    }
}

/// What a query can fail with.
#[derive(Debug, Clone, Copy, PartialEq, Eq, Structural)]
pub enum MRangeError {
    /// The caller may not read what was asked for.
    Permissions,
    /// No filter was given.
    MissingFilter,
    /// A part of a group was asked for, but no grouping given.
    MissingGrouping,
    /// A part of a group was asked for, but what reduces it cannot go on with a part.
    NotDecomposable,
}

/// The samples or the rows of an answer.
#[derive(Debug, Clone, PartialEq, Eq)]
pub enum SeriesResultData {
    Samples(Vec<Sample>),
    Rows(Vec<MultiSample>),
}

/// The answer for a series or a group.
#[derive(Debug, Clone, PartialEq, Eq)]
pub struct MRangeSeriesResult {
    pub group_label_value: Option<String>,
    pub key: String,
    pub labels: Vec<Label>,
    pub sources: Vec<String>,
    pub data: SeriesResultData,
}

/// The answer for a series or a group, with its texts as characters.
pub ghost struct Answer {
    pub group: Option<Seq<char>>,
    pub key: Seq<char>,
    pub labels: Seq<(Seq<char>, Seq<char>)>,
    pub sources: Seq<Seq<char>>,
    /// The rows of the answer.
    pub rows: Seq<Row>,
    /// Whether it is made of rows, or of samples.
    pub multi: bool,
}

/// The rows of samples or rows.
pub open spec fn data_rows(data: SeriesResultData) -> Seq<Row> {
    match data {
        SeriesResultData::Samples(samples) => samples@.map_values(
            |s: Sample| (s.timestamp, seq![s.value]),
        ),
        SeriesResultData::Rows(rows) => rows_of(rows@),
    }
}

impl View for MRangeSeriesResult {
    type V = Answer;

    open spec fn view(&self) -> Answer {
        Answer {
            group: text_opt(self.group_label_value),
            key: self.key@,
            labels: labels_view(self.labels@),
            sources: texts_of(self.sources@),
            rows: data_rows(self.data),
            multi: self.data is Rows,
        }
    }
}

/// Answers, with their texts as characters.
pub open spec fn answers(results: Seq<MRangeSeriesResult>) -> Seq<Answer> {
    results.map_values(|r: MRangeSeriesResult| r@)
}

/// Rows as samples, where there is one column.
fn rows_to_data(rows: Vec<MultiSample>, columns: usize) -> (r: SeriesResultData)
    requires
        columns > 0,
        rows_wide(rows_of(rows@), columns as nat),
    ensures
        data_rows(r) == rows_of(rows@),
        r is Rows == (columns > 1),
{
    if columns > 1 {
        return SeriesResultData::Rows(rows);
    }
    let mut samples: Vec<Sample> = Vec::new();
    let mut i: usize = 0;
    while i < rows.len()
        invariant
            i <= rows@.len(),
            columns == 1,
            rows_wide(rows_of(rows@), columns as nat),
            samples@.len() == i,
            forall|k: int|
                0 <= k < i ==> (
                    (#[trigger] samples@[k]).timestamp,
                    seq![samples@[k].value],
                ) == rows_of(rows@)[k],
        decreases rows.len() - i,
    {
        assert(rows_of(rows@)[i as int].1.len() == 1);
        let value: u64 = rows[i].values[0];
        assert(seq![value] =~= rows_of(rows@)[i as int].1);
        samples.push(Sample { timestamp: rows[i].timestamp, value });
        i += 1;
    }
    let data = SeriesResultData::Samples(samples);
    assert(data_rows(data) =~= rows_of(rows@));
    data
}

/// The rows that a series contributes to a query.
pub open spec fn meta_rows<'a, A: Aggregation, B: Aggregation>(
    meta: MRangeSeriesMeta<'a, A>,
    options: MRangeOptions<B>,
) -> Seq<Row> {
    series_rows(meta.series, options.range, options.aggregation, meta.latest)
}

/// The answer for a series.
pub open spec fn series_answer<'a, A: Aggregation, B: Aggregation>(
    meta: MRangeSeriesMeta<'a, A>,
    options: MRangeOptions<B>,
    limit: Option<SampleLimit>,
) -> Answer {
    Answer {
        group: text_opt(meta.group_label_value),
        key: meta.source_key@,
        labels: told_labels(
            meta.series.labels@,
            options.with_labels,
            options.selected_labels@,
        ),
        sources: Seq::empty(),
        rows: limited(
            requested(meta_rows(meta, options), options.is_reverse, options.range.count),
            limit,
        ),
        multi: options.multi(),
    }
}

proof fn lemma_requested_wide(rows: Seq<Row>, width: nat, is_reverse: bool, count: Option<usize>)
    requires
        rows_wide(rows, width),
    ensures
        rows_wide(requested(rows, is_reverse, count), width),
{
    let ordered = if is_reverse {
        rows.reverse()
    } else {
        rows
    };
    assert forall|i: int| 0 <= i < ordered.len() implies (#[trigger] ordered[i]).1.len() == width by {
        if is_reverse {
            assert(ordered[i] == rows[rows.len() - 1 - i]);
        } else {
            assert(ordered[i] == rows[i]);
        }
    }
    let out = requested(rows, is_reverse, count);
    assert forall|i: int| 0 <= i < out.len() implies (#[trigger] out[i]).1.len() == width by {
        assert(out[i] == ordered[i]);
    }
}

proof fn lemma_limited_rows(rows: Seq<MultiSample>, width: nat, limit: Option<SampleLimit>)
    requires
        rows_wide(rows_of(rows), width),
    ensures
        rows_of(limited(rows, limit)) == limited(rows_of(rows), limit),
        rows_wide(rows_of(limited(rows, limit)), width),
{
    assert(rows_of(limited(rows, limit)) =~= limited(rows_of(rows), limit));
    let out = limited(rows_of(rows), limit);
    assert forall|i: int| 0 <= i < out.len() implies (#[trigger] out[i]).1.len() == width by {
        match limit {
            Some(SampleLimit::Tail(n)) => {
                if rows.len() > n {
                    assert(out[i] == rows_of(rows)[i + rows.len() - n]);
                } else {
                    assert(out[i] == rows_of(rows)[i]);
                }
            },
            _ => {
                assert(out[i] == rows_of(rows)[i]);
            },
        }
    }
}

/// The answer for a series.
pub fn answer_series<'a, A: Aggregation, B: Aggregation>(
    meta: MRangeSeriesMeta<'a, A>,
    options: &MRangeOptions<B>,
    limit: Option<SampleLimit>,
) -> (r: MRangeSeriesResult)
    requires
        options.wf(),
        meta.series.wf(),
    ensures
        r@ == series_answer(meta, *options, limit),
{
    let ghost rows0 = meta_rows(meta, *options);
    let columns: usize = options.column_count();
    let rows = create_row_iterator(
        meta.series,
        &options.range,
        options.aggregation_ref(),
        meta.latest,
    );
    let rows = collect_rows(rows, options.is_reverse, options.range.count);
    proof {
        lemma_requested_wide(rows0, columns as nat, options.is_reverse, options.range.count);
        lemma_limited_rows(rows@, columns as nat, limit);
    }
    let rows = apply_limit(rows, limit);
    let data = rows_to_data(rows, columns);
    let labels = convert_labels(&meta.series.labels, options.with_labels, &options.selected_labels);
    let r = MRangeSeriesResult {
        group_label_value: meta.group_label_value,
        key: meta.source_key,
        labels,
        sources: Vec::new(),
        data,
    };
    assert(texts_of(r.sources@) =~= Seq::<Seq<char>>::empty());
    r
}

/// The answers for series, one by one.
pub open spec fn series_answers<'a, A: Aggregation, B: Aggregation>(
    metas: Seq<MRangeSeriesMeta<'a, A>>,
    options: MRangeOptions<B>,
    limit: Option<SampleLimit>,
) -> Seq<Answer> {
    metas.map_values(|m: MRangeSeriesMeta<'a, A>| series_answer(m, options, limit))
}

/// All series are well formed.
pub open spec fn metas_wf<'a, A: Aggregation>(metas: Seq<MRangeSeriesMeta<'a, A>>) -> bool {
    forall|i: int| 0 <= i < metas.len() ==> (#[trigger] metas[i]).series.wf()
}

/// The answers for series, one by one.
pub fn handle_non_grouped<'a, A: Aggregation, B: Aggregation>(
    metas: Vec<MRangeSeriesMeta<'a, A>>,
    options: &MRangeOptions<B>,
    limit: Option<SampleLimit>,
) -> (r: Vec<MRangeSeriesResult>)
    requires
        options.wf(),
        metas_wf(metas@),
    ensures
        answers(r@) == series_answers(metas@, *options, limit),
{
    let ghost all = metas@;
    let mut rest: Vec<MRangeSeriesMeta<'a, A>> = metas;
    let mut out: Vec<MRangeSeriesResult> = Vec::new();
    let ghost mut n: int = 0;
    assert(all.skip(0) =~= all);
    while rest.len() > 0
        invariant
            0 <= n <= all.len(),
            options.wf(),
            metas_wf(all),
            rest@ == all.skip(n),
            out@.len() == n,
            forall|i: int|
                0 <= i < n ==> (#[trigger] out@[i])@ == series_answer(all[i], *options, limit),
        decreases rest.len(),
    {
        let meta = rest.remove(0);
        proof {
            assert(meta == all[n]);
            assert(all[n].series.wf());
            assert(rest@ =~= all.skip(n + 1));
        }
        out.push(answer_series(meta, options, limit));
        proof {
            n = n + 1;
        }
    }
    assert(answers(out@) =~= series_answers(all, *options, limit));
    out
}

/// The rows of the series with these numbers.
pub open spec fn group_sources<'a, A: Aggregation, B: Aggregation>(
    metas: Seq<MRangeSeriesMeta<'a, A>>,
    numbers: Seq<int>,
    options: MRangeOptions<B>,
) -> Seq<Seq<Row>> {
    numbers.map_values(|n: int| meta_rows(metas[n], options))
}

/// What the reducer has seen of a group, at each timestamp.
pub open spec fn group_states<'a, A: Aggregation, B: Aggregation>(
    metas: Seq<MRangeSeriesMeta<'a, A>>,
    numbers: Seq<int>,
    options: MRangeOptions<B>,
    reducer: B,
) -> Seq<(Timestamp, Seq<B>)> {
    reduced(group_sources(metas, numbers, options), options.columns(), reducer)
}

/// Puts the rows of a group together, as far as the states of the reducer.
fn reduce_group<'a, A: Aggregation, B: Aggregation>(
    series: &Vec<MRangeSeriesMeta<'a, A>>,
    options: &MRangeOptions<B>,
    reducer: &B,
    Ghost(metas): Ghost<Seq<MRangeSeriesMeta<'a, A>>>,
    Ghost(numbers): Ghost<Seq<int>>,
) -> (r: Vec<(Timestamp, Vec<B>)>)
    requires
        options.wf(),
        metas_wf(metas),
        series@.len() == numbers.len(),
        forall|k: int| 0 <= k < numbers.len() ==> 0 <= (#[trigger] numbers[k]) < metas.len(),
        forall|k: int|
            0 <= k < series@.len() ==> same_but_group(#[trigger] series@[k], metas[numbers[k]]),
    ensures
        reduced_views(r@) == group_states(metas, numbers, *options, *reducer),
{
    let columns: usize = options.column_count();
    let mut sources: Vec<Vec<MultiSample>> = Vec::new();
    let mut i: usize = 0;
    while i < series.len()
        invariant
            i <= series@.len(),
            options.wf(),
            columns == options.columns(),
            metas_wf(metas),
            series@.len() == numbers.len(),
            forall|k: int| 0 <= k < numbers.len() ==> 0 <= (#[trigger] numbers[k]) < metas.len(),
            forall|k: int|
                0 <= k < series@.len() ==> same_but_group(#[trigger] series@[k], metas[numbers[k]]),
            sources@.len() == i,
            forall|k: int|
                0 <= k < i ==> rows_of((#[trigger] sources@[k])@) == meta_rows(
                    metas[numbers[k]],
                    *options,
                ) && rows_increase(rows_of(sources@[k]@)) && rows_wide(
                    rows_of(sources@[k]@),
                    columns as nat,
                ),
        decreases series.len() - i,
    {
        let meta = &series[i];
        proof {
            assert(same_but_group(series@[i as int], metas[numbers[i as int]]));
            assert(0 <= numbers[i as int] < metas.len());
            assert(metas[numbers[i as int]].series.wf());
        }
        let rows = create_row_iterator(
            meta.series,
            &options.range,
            options.aggregation_ref(),
            meta.latest,
        );
        sources.push(rows);
        i += 1;
    }
    proof {
        let views = sources_of(sources@);
        assert(views =~= group_sources(metas, numbers, *options));
        assert forall|k: int| 0 <= k < views.len() implies rows_increase(#[trigger] views[k]) by {
            assert(rows_increase(rows_of(sources@[k]@)));
        }
        assert forall|k: int| 0 <= k < views.len() implies rows_wide(
            #[trigger] views[k],
            columns as nat,
        ) by {
            assert(rows_wide(rows_of(sources@[k]@), columns as nat));
        }
    }
    reduce_states(&sources, columns, reducer)
}

/// A part of a group: what the reducer has seen of the series of this node.
pub struct GroupPartialsResult<B> {
    pub group_label_value: String,
    pub source_keys: Vec<String>,
    /// In order, with as many states for each as there are columns.
    pub timestamps: Vec<Timestamp>,
    /// Row by row.
    pub states: Vec<B>,
    pub column_count: usize,
}

/// The states of rows, one row after another.
pub open spec fn flat_states<B>(rows: Seq<(Timestamp, Seq<B>)>) -> Seq<B>
    decreases rows.len(),
{
    if rows.len() == 0 {
        Seq::empty()
    } else {
        flat_states(rows.drop_last()) + rows.last().1
    }
}

/// A part of a group.
pub open spec fn is_partial<'a, A: Aggregation, B: Aggregation>(
    metas: Seq<MRangeSeriesMeta<'a, A>>,
    group: Group,
    options: MRangeOptions<B>,
    reducer: B,
    limit: Option<SampleLimit>,
    r: GroupPartialsResult<B>,
) -> bool {
    let rows = limited(group_states(metas, group.1, options, reducer), limit);
    &&& r.group_label_value@ == group.0
    &&& texts_of(r.source_keys@) == texts_sorted(keys_of(metas, group.1))
    &&& r.timestamps@ == rows.map_values(|row: (Timestamp, Seq<B>)| row.0)
    &&& r.states@ == flat_states(rows)
    &&& r.column_count == options.columns()
}

/// The parts of groups.
pub open spec fn are_partials<'a, A: Aggregation, B: Aggregation>(
    metas: Seq<MRangeSeriesMeta<'a, A>>,
    groups: Seq<Group>,
    options: MRangeOptions<B>,
    reducer: B,
    limit: Option<SampleLimit>,
    r: Seq<GroupPartialsResult<B>>,
) -> bool {
    &&& r.len() == groups.len()
    &&& forall|g: int|
        0 <= g < r.len() ==> is_partial(metas, groups[g], options, reducer, limit, #[trigger] r[g])
}

/// Takes rows of states apart.
fn flatten_states<B>(rows: Vec<(Timestamp, Vec<B>)>) -> (r: (Vec<Timestamp>, Vec<B>))
    ensures
        r.0@ == reduced_views(rows@).map_values(|row: (Timestamp, Seq<B>)| row.0),
        r.1@ == flat_states(reduced_views(rows@)),
{
    let ghost all = rows@;
    let ghost views = reduced_views(all);
    let mut rest: Vec<(Timestamp, Vec<B>)> = rows;
    let mut timestamps: Vec<Timestamp> = Vec::new();
    let mut states: Vec<B> = Vec::new();
    let ghost mut n: int = 0;
    proof {
        assert(all.skip(0) =~= all);
        assert(views.take(0) =~= Seq::<(Timestamp, Seq<B>)>::empty());
    }
    while rest.len() > 0
        invariant
            0 <= n <= all.len(),
            rest@ == all.skip(n),
            views == reduced_views(all),
            timestamps@.len() == n,
            forall|i: int| 0 <= i < n ==> #[trigger] timestamps@[i] == views[i].0,
            states@ == flat_states(views.take(n)),
        decreases rest.len(),
    {
        let (ts, row) = rest.remove(0);
        let mut row = row;
        proof {
            assert((ts, row) == all[n]);
            assert(rest@ =~= all.skip(n + 1));
            assert(views.take(n + 1).drop_last() =~= views.take(n));
        }
        timestamps.push(ts);
        states.append(&mut row);
        proof {
            n = n + 1;
        }
    }
    proof {
        assert(views.take(n) =~= views);
        assert(timestamps@ =~= views.map_values(|row: (Timestamp, Seq<B>)| row.0));
    }
    (timestamps, states)
}

proof fn lemma_limited_states<B>(rows: Seq<(Timestamp, Vec<B>)>, limit: Option<SampleLimit>)
    ensures
        reduced_views(limited(rows, limit)) == limited(reduced_views(rows), limit),
{
    assert(reduced_views(limited(rows, limit)) =~= limited(reduced_views(rows), limit));
}

/// The parts of groups.
fn partials_of<'a, A: Aggregation, B: Aggregation>(
    groups: Vec<GroupedSeriesData<'a, A>>,
    options: &MRangeOptions<B>,
    reducer: &B,
    limit: Option<SampleLimit>,
    Ghost(metas): Ghost<Seq<MRangeSeriesMeta<'a, A>>>,
) -> (r: Vec<GroupPartialsResult<B>>)
    requires
        options.wf(),
        metas_wf(metas),
        are_groups(metas, grouped(group_values(metas)), groups@),
    ensures
        are_partials(metas, grouped(group_values(metas)), *options, *reducer, limit, r@),
{
    let ghost all = groups@;
    let ghost plan = grouped(group_values(metas));
    let mut rest: Vec<GroupedSeriesData<'a, A>> = groups;
    let mut out: Vec<GroupPartialsResult<B>> = Vec::new();
    let ghost mut n: int = 0;
    assert(all.skip(0) =~= all);
    while rest.len() > 0
        invariant
            0 <= n <= all.len(),
            rest@ == all.skip(n),
            options.wf(),
            metas_wf(metas),
            are_groups(metas, plan, all),
            out@.len() == n,
            forall|g: int|
                0 <= g < n ==> is_partial(
                    metas,
                    plan[g],
                    *options,
                    *reducer,
                    limit,
                    #[trigger] out@[g],
                ),
        decreases rest.len(),
    {
        let group = rest.remove(0);
        proof {
            assert(group == all[n]);
            assert(rest@ =~= all.skip(n + 1));
            assert(is_group(metas, plan[n], all[n]));
        }
        let rows = reduce_group(&group.series, options, reducer, Ghost(metas), Ghost(plan[n].1));
        proof {
            lemma_limited_states(rows@, limit);
        }
        let rows = apply_limit(rows, limit);
        let (timestamps, states) = flatten_states(rows);
        out.push(
            GroupPartialsResult {
                group_label_value: group.value,
                source_keys: group.source_keys,
                timestamps,
                states,
                column_count: options.column_count(),
            },
        );
        proof {
            n = n + 1;
        }
    }
    out
}

/// What is wrong with the request for the parts of groups.
pub open spec fn partials_error<B>(permitted: bool, options: MRangeOptions<B>) -> Option<MRangeError> {
    if !permitted {
        Some(MRangeError::Permissions)
    } else if options.filters@.len() == 0 {
        Some(MRangeError::MissingFilter)
    } else {
        match options.grouping {
            None => Some(MRangeError::MissingGrouping),
            Some(g) => if g.decomposable {
                None
            } else {
                Some(MRangeError::NotDecomposable)
            },
        }
    }
}

/// The values that series are grouped by: those of a label.
pub open spec fn label_values<'a, A>(metas: Seq<MRangeSeriesMeta<'a, A>>, name: Seq<char>) -> Seq<
    Option<Seq<char>>,
> {
    metas.map_values(|m: MRangeSeriesMeta<'a, A>| label_value(m.series.labels@, name))
}

/// Series whose values are those of a label.
pub open spec fn tagged<'a, A>(
    metas: Seq<MRangeSeriesMeta<'a, A>>,
    name: Seq<char>,
    tagged: Seq<MRangeSeriesMeta<'a, A>>,
) -> bool {
    &&& tagged.len() == metas.len()
    &&& group_values(tagged) == label_values(metas, name)
    &&& forall|i: int| 0 <= i < metas.len() ==> same_but_group(#[trigger] tagged[i], metas[i])
}

fn tag_series<'a, A: Aggregation>(metas: Vec<MRangeSeriesMeta<'a, A>>, group_label: &str) -> (r: Vec<
    MRangeSeriesMeta<'a, A>,
>)
    requires
        metas_wf(metas@),
    ensures
        tagged(metas@, group_label@, r@),
        metas_wf(r@),
{
    let ghost all = metas@;
    let r = collect_group_label_values(metas, group_label);
    proof {
        assert(group_values(r@) =~= label_values(all, group_label@));
        assert forall|i: int| 0 <= i < r@.len() implies (#[trigger] r@[i]).series.wf() by {
            assert(same_but_group(r@[i], all[i]));
            assert(all[i].series.wf());
        }
    }
    r
}

/// The parts of the groups that series make up.
pub open spec fn is_partials_answer<'a, A: Aggregation, B: Aggregation>(
    metas: Seq<MRangeSeriesMeta<'a, A>>,
    options: MRangeOptions<B>,
    grouping: RangeGroupingOptions<B>,
    limit: Option<SampleLimit>,
    parts: Seq<GroupPartialsResult<B>>,
) -> bool {
    exists|series: Seq<MRangeSeriesMeta<'a, A>>|
        {
            &&& #[trigger] tagged(metas, grouping.group_label@, series)
            &&& are_partials(
                series,
                grouped(label_values(metas, grouping.group_label@)),
                options,
                grouping.aggregation,
                limit,
                parts,
            )
        }
}

/// The parts of the groups that the series of this node make up: for each group, what the reducer
/// has seen at each timestamp, as far as the limit goes.
pub fn process_mrange_group_partials<'a, A: Aggregation, B: Aggregation>(
    permitted: bool,
    metas: Vec<MRangeSeriesMeta<'a, A>>,
    options: &MRangeOptions<B>,
    limit: Option<SampleLimit>,
) -> (r: Result<Vec<GroupPartialsResult<B>>, MRangeError>)
    requires
        options.wf(),
        metas_wf(metas@),
    ensures
        match r {
            Ok(parts) => partials_error(permitted, *options) is None && is_partials_answer(
                metas@,
                *options,
                options.grouping->0,
                limit,
                parts@,
            ),
            Err(e) => partials_error(permitted, *options) == Some(e),
        },
{
    if !permitted {
        return Err(MRangeError::Permissions);
    }
    if options.filters.len() == 0 {
        return Err(MRangeError::MissingFilter);
    }
    match &options.grouping {
        None => Err(MRangeError::MissingGrouping),
        Some(grouping) => {
            if !grouping.decomposable {
                return Err(MRangeError::NotDecomposable);
            }
            let ghost all = metas@;
            let metas = tag_series(metas, grouping.group_label.as_str());
            let ghost series = metas@;
            let groups = group_series_by_label(
                metas,
                grouping.group_label.as_str(),
                grouping.reducer_name.as_str(),
                false,
            );
            let parts = partials_of(groups, options, &grouping.aggregation, limit, Ghost(series));
            assert(is_partials_answer(all, *options, *grouping, limit, parts@)) by {
                assert(tagged(all, grouping.group_label@, series));
            }
            Ok(parts)
        },
    }
}

/// The key of a group: its label and its value.
pub open spec fn group_key(label: Seq<char>, value: Seq<char>) -> Seq<char> {
    label.push('=') + value
}

/// The answer for a group.
pub open spec fn group_answer<'a, A: Aggregation, B: Aggregation>(
    metas: Seq<MRangeSeriesMeta<'a, A>>,
    group: Group,
    options: MRangeOptions<B>,
    grouping: RangeGroupingOptions<B>,
) -> Answer {
    let sources = texts_sorted(keys_of(metas, group.1));
    Answer {
        group: Some(group.0),
        key: group_key(grouping.group_label@, group.0),
        labels: if options.with_labels {
            group_labels(grouping.group_label@, group.0, grouping.reducer_name@, sources)
        } else {
            Seq::empty()
        },
        sources,
        rows: requested(
            finished(group_states(metas, group.1, options, grouping.aggregation)),
            options.is_reverse,
            options.range.count,
        ),
        multi: options.multi(),
    }
}

/// The answers for groups.
pub open spec fn group_answers<'a, A: Aggregation, B: Aggregation>(
    metas: Seq<MRangeSeriesMeta<'a, A>>,
    options: MRangeOptions<B>,
    grouping: RangeGroupingOptions<B>,
) -> Seq<Answer> {
    grouped(group_values(metas)).map_values(
        |g: Group| group_answer(metas, g, options, grouping),
    )
}

/// The answer for a group.
fn answer_group<'a, A: Aggregation, B: Aggregation>(
    group: GroupedSeriesData<'a, A>,
    options: &MRangeOptions<B>,
    grouping: &RangeGroupingOptions<B>,
    Ghost(metas): Ghost<Seq<MRangeSeriesMeta<'a, A>>>,
    Ghost(plan): Ghost<Group>,
) -> (r: MRangeSeriesResult)
    requires
        options.wf(),
        metas_wf(metas),
        is_group(metas, plan, group),
        labels_view(group.labels@) == if options.with_labels {
            group_labels(
                grouping.group_label@,
                group.value@,
                grouping.reducer_name@,
                texts_of(group.source_keys@),
            )
        } else {
            Seq::empty()
        },
    ensures
        r@ == group_answer(metas, plan, *options, *grouping),
{
    let columns: usize = options.column_count();
    let states = reduce_group(
        &group.series,
        options,
        &grouping.aggregation,
        Ghost(metas),
        Ghost(plan.1),
    );
    let rows = finish_rows(&states);
    proof {
        let views = reduced_views(states@);
        assert forall|i: int| 0 <= i < rows_of(rows@).len() implies (
        #[trigger] rows_of(rows@)[i]).1.len() == columns by {
            assert(finished(views)[i].1.len() == views[i].1.len());
        }
        lemma_requested_wide(
            rows_of(rows@),
            columns as nat,
            options.is_reverse,
            options.range.count,
        );
    }
    let rows = collect_rows(rows, options.is_reverse, options.range.count);
    let data = rows_to_data(rows, columns);
    let mut key: Vec<char> = Vec::new();
    push_text(&mut key, grouping.group_label.as_str());
    key.push('=');
    push_text(&mut key, group.value.as_str());
    assert(key@ =~= group_key(grouping.group_label@, plan.0));
    MRangeSeriesResult {
        group_label_value: Some(group.value),
        key: text_of(key.as_slice()),
        labels: group.labels,
        sources: group.source_keys,
        data,
    }
}

/// The answers for groups. The limit is on the rows of each group, in the order that is asked for.
pub fn handle_grouping<'a, A: Aggregation, B: Aggregation>(
    metas: Vec<MRangeSeriesMeta<'a, A>>,
    options: &MRangeOptions<B>,
    grouping: &RangeGroupingOptions<B>,
) -> (r: Vec<MRangeSeriesResult>)
    requires
        options.wf(),
        metas_wf(metas@),
    ensures
        answers(r@) == group_answers(metas@, *options, *grouping),
{
    let ghost series = metas@;
    let ghost plan = grouped(group_values(series));
    let groups = group_series_by_label(
        metas,
        grouping.group_label.as_str(),
        grouping.reducer_name.as_str(),
        options.with_labels,
    );
    let ghost all = groups@;
    let mut rest: Vec<GroupedSeriesData<'a, A>> = groups;
    let mut out: Vec<MRangeSeriesResult> = Vec::new();
    let ghost mut n: int = 0;
    assert(all.skip(0) =~= all);
    while rest.len() > 0
        invariant
            0 <= n <= all.len(),
            rest@ == all.skip(n),
            options.wf(),
            metas_wf(series),
            are_groups(series, plan, all),
            forall|g: int|
                0 <= g < all.len() ==> labels_view((#[trigger] all[g]).labels@)
                    == if options.with_labels {
                    group_labels(
                        grouping.group_label@,
                        all[g].value@,
                        grouping.reducer_name@,
                        texts_of(all[g].source_keys@),
                    )
                } else {
                    Seq::empty()
                },
            out@.len() == n,
            forall|g: int|
                0 <= g < n ==> (#[trigger] out@[g])@ == group_answer(
                    series,
                    plan[g],
                    *options,
                    *grouping,
                ),
        decreases rest.len(),
    {
        let group = rest.remove(0);
        proof {
            assert(group == all[n]);
            assert(rest@ =~= all.skip(n + 1));
            assert(is_group(series, plan[n], all[n]));
        }
        out.push(answer_group(group, options, grouping, Ghost(series), Ghost(plan[n])));
        proof {
            n = n + 1;
        }
    }
    assert(answers(out@) =~= group_answers(series, *options, *grouping));
    out
}

/// What results are sorted by: the value of the group, or the key.
pub open spec fn sort_text(a: Answer, is_grouped: bool) -> Option<Seq<char>> {
    if is_grouped {
        a.group
    } else {
        Some(a.key)
    }
}

/// No text comes before a text; texts go byte by byte.
pub open spec fn text_opt_less(a: Option<Seq<char>>, b: Option<Seq<char>>) -> bool {
    match (a, b) {
        (None, Some(_)) => true,
        (Some(x), Some(y)) => lex_less(utf8(x), utf8(y)),
        _ => false,
    }
}

/// An answer put among others that are in order.
pub open spec fn insert_answer(s: Seq<Answer>, x: Answer, is_grouped: bool) -> Seq<Answer>
    decreases s.len(),
{
    if s.len() == 0 || !text_opt_less(sort_text(x, is_grouped), sort_text(s.last(), is_grouped)) {
        s.push(x)
    } else {
        insert_answer(s.drop_last(), x, is_grouped).push(s.last())
    }
}

/// Answers in order. Of two with the same text the one that was first stays first.
pub open spec fn answers_sorted(s: Seq<Answer>, is_grouped: bool) -> Seq<Answer>
    decreases s.len(),
{
    if s.len() == 0 {
        s
    } else {
        insert_answer(answers_sorted(s.drop_last(), is_grouped), s.last(), is_grouped)
    }
}

proof fn lemma_insert_answer_at(s: Seq<Answer>, x: Answer, is_grouped: bool, pos: int)
    requires
        0 <= pos <= s.len(),
        forall|k: int|
            pos <= k < s.len() ==> text_opt_less(
                sort_text(x, is_grouped),
                sort_text(#[trigger] s[k], is_grouped),
            ),
        pos > 0 ==> !text_opt_less(sort_text(x, is_grouped), sort_text(s[pos - 1], is_grouped)),
    ensures
        insert_answer(s, x, is_grouped) == s.insert(pos, x),
    decreases s.len(),
{
    if pos == s.len() {
        assert(s.insert(pos, x) =~= s.push(x));
    } else {
        let less = s.drop_last();
        assert forall|k: int| pos <= k < less.len() implies text_opt_less(
            sort_text(x, is_grouped),
            sort_text(#[trigger] less[k], is_grouped),
        ) by {
            assert(less[k] == s[k]);
        }
        lemma_insert_answer_at(less, x, is_grouped, pos);
        assert(text_opt_less(sort_text(x, is_grouped), sort_text(s[s.len() - 1], is_grouped)));
        assert(s.insert(pos, x) =~= less.insert(pos, x).push(s.last()));
    }
}

/// Whether a result comes before another.
fn result_before(a: &MRangeSeriesResult, b: &MRangeSeriesResult, is_grouped: bool) -> (r: bool)
    ensures
        r == text_opt_less(sort_text(a@, is_grouped), sort_text(b@, is_grouped)),
{
    if is_grouped {
        match (&a.group_label_value, &b.group_label_value) {
            (None, Some(_)) => true,
            (Some(x), Some(y)) => bytes_less(x.as_str().as_bytes(), y.as_str().as_bytes()),
            _ => false,
        }
    } else {
        bytes_less(a.key.as_str().as_bytes(), b.key.as_str().as_bytes())
    }
}

/// Puts results in order: groups by their values, series by their keys.
pub fn sort_mrange_results(results: Vec<MRangeSeriesResult>, is_grouped: bool) -> (r: Vec<
    MRangeSeriesResult,
>)
    ensures
        answers(r@) == answers_sorted(answers(results@), is_grouped),
{
    let ghost all = results@;
    let mut rest: Vec<MRangeSeriesResult> = results;
    let mut out: Vec<MRangeSeriesResult> = Vec::new();
    let ghost mut n: int = 0;
    proof {
        assert(all.skip(0) =~= all);
        assert(answers(all).take(0) =~= Seq::<Answer>::empty());
        assert(answers(out@) =~= Seq::<Answer>::empty());
    }
    while rest.len() > 0
        invariant
            0 <= n <= all.len(),
            rest@ == all.skip(n),
            answers(out@) == answers_sorted(answers(all).take(n), is_grouped),
        decreases rest.len(),
    {
        let item = rest.remove(0);
        proof {
            assert(item == all[n]);
            assert(rest@ =~= all.skip(n + 1));
            assert(answers(all).take(n + 1).drop_last() =~= answers(all).take(n));
        }
        let mut pos: usize = out.len();
        while pos > 0 && result_before(&item, &out[pos - 1], is_grouped)
            invariant
                pos <= out@.len(),
                forall|k: int|
                    pos <= k < out@.len() ==> text_opt_less(
                        sort_text(item@, is_grouped),
                        sort_text((#[trigger] out@[k])@, is_grouped),
                    ),
            decreases pos,
        {
            pos -= 1;
        }
        let ghost was = out@;
        let ghost x = item@;
        out.insert(pos, item);
        proof {
            assert forall|k: int| pos <= k < answers(was).len() implies text_opt_less(
                sort_text(x, is_grouped),
                sort_text(#[trigger] answers(was)[k], is_grouped),
            ) by {
                assert(text_opt_less(
                    sort_text(x, is_grouped),
                    sort_text(was[k]@, is_grouped),
                ));
            }
            lemma_insert_answer_at(answers(was), x, is_grouped, pos as int);
            assert(answers(out@) =~= answers(was).insert(pos as int, x));
            n = n + 1;
        }
    }
    assert(answers(all).take(n) =~= answers(all));
    out
}

proof fn lemma_text_opt_order(a: Option<Seq<char>>, b: Option<Seq<char>>, c: Option<Seq<char>>)
    ensures
        text_opt_less(a, b) ==> !text_opt_less(b, a),
        !text_opt_less(b, a) && !text_opt_less(c, b) ==> !text_opt_less(c, a),
{
    if a is Some && b is Some {
        let (x, y) = (utf8(a->0), utf8(b->0));
        lemma_lex_total(x, y);
        if lex_less(x, y) {
            lemma_lex_asymmetric(x, y);
        }
        if c is Some {
            let z = utf8(c->0);
            lemma_lex_total(y, z);
            if lex_less(z, x) && lex_less(x, y) {
                lemma_lex_transitive(z, x, y);
            }
            if lex_less(y, z) && lex_less(z, x) {
                lemma_lex_transitive(y, z, x);
            }
        }
    }
}

/// Answers are in order.
pub open spec fn in_order(s: Seq<Answer>, is_grouped: bool) -> bool {
    forall|i: int, j: int|
        0 <= i < j < s.len() ==> !text_opt_less(
            sort_text(#[trigger] s[j], is_grouped),
            sort_text(#[trigger] s[i], is_grouped),
        )
}

proof fn lemma_insert_answer(s: Seq<Answer>, x: Answer, is_grouped: bool)
    requires
        in_order(s, is_grouped),
    ensures
        in_order(insert_answer(s, x, is_grouped), is_grouped),
        insert_answer(s, x, is_grouped).len() == s.len() + 1,
        insert_answer(s, x, is_grouped).to_multiset() == s.to_multiset().insert(x),
        s.len() > 0 ==> insert_answer(s, x, is_grouped).last() == s.last() || insert_answer(
            s,
            x,
            is_grouped,
        ).last() == x,
    decreases s.len(),
{
    broadcast use vstd::seq_lib::group_to_multiset_ensures;

    let r = insert_answer(s, x, is_grouped);
    if s.len() == 0 || !text_opt_less(sort_text(x, is_grouped), sort_text(s.last(), is_grouped)) {
        assert forall|i: int, j: int| 0 <= i < j < r.len() implies !text_opt_less(
            sort_text(#[trigger] r[j], is_grouped),
            sort_text(#[trigger] r[i], is_grouped),
        ) by {
            if j == s.len() && i < s.len() - 1 {
                assert(!text_opt_less(
                    sort_text(s[s.len() - 1], is_grouped),
                    sort_text(s[i], is_grouped),
                ));
                lemma_text_opt_order(
                    sort_text(s[i], is_grouped),
                    sort_text(s.last(), is_grouped),
                    sort_text(x, is_grouped),
                );
            }
        }
    } else {
        let less = s.drop_last();
        lemma_insert_answer(less, x, is_grouped);
        let q = insert_answer(less, x, is_grouped);
        lemma_text_opt_order(
            sort_text(x, is_grouped),
            sort_text(s.last(), is_grouped),
            sort_text(x, is_grouped),
        );
        assert forall|i: int, j: int| 0 <= i < j < r.len() implies !text_opt_less(
            sort_text(#[trigger] r[j], is_grouped),
            sort_text(#[trigger] r[i], is_grouped),
        ) by {
            if j == q.len() {
                let last = q.last();
                if less.len() > 0 && last == less.last() {
                    assert(!text_opt_less(
                        sort_text(s[s.len() - 1], is_grouped),
                        sort_text(s[less.len() - 1], is_grouped),
                    ));
                }
                if i < q.len() - 1 {
                    assert(!text_opt_less(
                        sort_text(q[q.len() - 1], is_grouped),
                        sort_text(q[i], is_grouped),
                    ));
                    lemma_text_opt_order(
                        sort_text(q[i], is_grouped),
                        sort_text(last, is_grouped),
                        sort_text(s.last(), is_grouped),
                    );
                }
            }
        }
        assert(less.push(s.last()) =~= s);
        assert(r.to_multiset() =~= s.to_multiset().insert(x));
    }
}

/// Sorting keeps all answers and puts them in order.
pub proof fn law_answers_sorted(s: Seq<Answer>, is_grouped: bool)
    ensures
        in_order(answers_sorted(s, is_grouped), is_grouped),
        answers_sorted(s, is_grouped).to_multiset() == s.to_multiset(),
    decreases s.len(),
{
    if s.len() > 0 {
        broadcast use vstd::seq_lib::group_to_multiset_ensures;

        law_answers_sorted(s.drop_last(), is_grouped);
        lemma_insert_answer(answers_sorted(s.drop_last(), is_grouped), s.last(), is_grouped);
        assert(s.drop_last().push(s.last()) =~= s);
    }
}

/// A limit on what another node hands out does not change the answer, as long as it is for as many
/// rows as are asked for: the first ones where they go upwards, and the last ones where they go
/// downwards.
pub proof fn law_limit_keeps_answer(rows: Seq<Row>, n: usize)
    ensures
        requested(limited(rows, Some(SampleLimit::Head(n))), false, Some(n)) == requested(
            rows,
            false,
            Some(n),
        ),
        requested(limited(rows, Some(SampleLimit::Tail(n))), true, Some(n)) == requested(
            rows,
            true,
            Some(n),
        ),
{
    assert(requested(limited(rows, Some(SampleLimit::Head(n))), false, Some(n)) =~= requested(
        rows,
        false,
        Some(n),
    ));
    assert(requested(limited(rows, Some(SampleLimit::Tail(n))), true, Some(n)) =~= requested(
        rows,
        true,
        Some(n),
    ));
}

/// The answer to a query. A node that answers another one hands out its series one by one, tagged
/// with the value that they are grouped by; a node that answers the client groups them, or not,
/// and puts the answers in order.
pub open spec fn is_answer<'a, A: Aggregation, B: Aggregation>(
    metas: Seq<MRangeSeriesMeta<'a, A>>,
    options: MRangeOptions<B>,
    is_clustered: bool,
    limit: Option<SampleLimit>,
    r: Seq<Answer>,
) -> bool {
    match options.grouping {
        None => if is_clustered {
            r == series_answers(metas, options, limit)
        } else {
            r == answers_sorted(series_answers(metas, options, None), false)
        },
        Some(grouping) => exists|series: Seq<MRangeSeriesMeta<'a, A>>|
            {
                &&& #[trigger] tagged(metas, grouping.group_label@, series)
                &&& if is_clustered {
                    r == series_answers(series, options, limit)
                } else {
                    r == answers_sorted(group_answers(series, options, grouping), true)
                }
            },
    }
}

/// The answer to a query.
pub fn process_mrange<'a, A: Aggregation, B: Aggregation>(
    metas: Vec<MRangeSeriesMeta<'a, A>>,
    options: &MRangeOptions<B>,
    is_clustered: bool,
    limit: Option<SampleLimit>,
) -> (r: Vec<MRangeSeriesResult>)
    requires
        options.wf(),
        metas_wf(metas@),
    ensures
        is_answer(metas@, *options, is_clustered, limit, answers(r@)),
{
    match &options.grouping {
        None => {
            if is_clustered {
                handle_non_grouped(metas, options, limit)
            } else {
                let items = handle_non_grouped(metas, options, None);
                sort_mrange_results(items, false)
            }
        },
        Some(grouping) => {
            let ghost all = metas@;
            let metas = tag_series(metas, grouping.group_label.as_str());
            let ghost series = metas@;
            assert(tagged(all, grouping.group_label@, series));
            if is_clustered {
                handle_non_grouped(metas, options, limit)
            } else {
                let items = handle_grouping(metas, options, grouping);
                sort_mrange_results(items, true)
            }
        },
    }
}

/// The answer to a query, which has to have a filter.
pub fn process_mrange_query<'a, A: Aggregation, B: Aggregation>(
    metas: Vec<MRangeSeriesMeta<'a, A>>,
    options: &MRangeOptions<B>,
    is_clustered: bool,
    limit: Option<SampleLimit>,
) -> (r: Result<Vec<MRangeSeriesResult>, MRangeError>)
    requires
        options.wf(),
        metas_wf(metas@),
    ensures
        match r {
            Ok(results) => options.filters@.len() > 0 && is_answer(
                metas@,
                *options,
                is_clustered,
                limit,
                answers(results@),
            ),
            Err(e) => options.filters@.len() == 0 && e == MRangeError::MissingFilter,
        },
{
    if options.filters.len() == 0 {
        return Err(MRangeError::MissingFilter);
    }
    Ok(process_mrange(metas, options, is_clustered, limit))
}

} // verus!
