//! What is told of series and groups beside their samples, and how keys stand side by side.
use crate::aggregation::{Aggregation, NAN_BITS};
use crate::bytes::{lemma_lex_asymmetric, lemma_lex_total, lemma_lex_transitive, lex_less, utf8};
use crate::index::label_laws::{carries, law_label_value};
use crate::index::label_querier::label_value;
use crate::labels::Label;
use crate::range::groups::{
    group_labels, insert_text_sorted, joined_texts, keys_of, texts_of, texts_sorted, told_labels,
    Group, MRangeSeriesMeta,
};
use crate::range::laws::{column_start, is_page, law_columns, law_requested};
use crate::range::merge::{has_row, law_rows_joined, pivoted, row_at, values_at};
use crate::range::mrange::{
    answers_sorted, flat_states, group_states, is_partial, law_answers_sorted, limited,
    partials_error, sort_text, text_opt_less, Answer, GroupPartialsResult, MRangeError,
    MRangeOptions, SampleLimit,
};
use crate::range::nrange::{key_rows, requested, NRangeOptions, NRangeSeriesMeta};
use crate::range::rows::{rows_wide, series_rows, AggregationOptions, Row};
use crate::sample::Timestamp;
use vstd::prelude::*;

verus! {

/// Texts go upwards, byte by byte.
pub open spec fn texts_rise(texts: Seq<Seq<char>>) -> bool {
    forall|i: int, j: int|
        0 <= i < j < texts.len() ==> !lex_less(utf8(#[trigger] texts[j]), utf8(#[trigger] texts[i]))
}

/// Sorting keeps the texts, and puts none before one that it comes after.
pub proof fn law_texts_sorted(texts: Seq<Seq<char>>)
    ensures
        texts_rise(texts_sorted(texts)),
        texts_sorted(texts).to_multiset() == texts.to_multiset(),
    decreases texts.len(),
{
    broadcast use vstd::seq_lib::group_to_multiset_ensures;

    if texts.len() > 0 {
        let less = texts.drop_last();
        law_texts_sorted(less);
        lemma_text_inserted(texts_sorted(less), texts.last());
        assert(texts =~= less.push(texts.last()));
    }
}

proof fn lemma_text_inserted(s: Seq<Seq<char>>, x: Seq<char>)
    requires
        texts_rise(s),
    ensures
        texts_rise(insert_text_sorted(s, x)),
        insert_text_sorted(s, x).to_multiset() == s.to_multiset().insert(x),
    decreases s.len(),
{
    broadcast use vstd::seq_lib::group_to_multiset_ensures;

    let out = insert_text_sorted(s, x);
    if s.len() == 0 || !lex_less(utf8(x), utf8(s.last())) {
        assert forall|i: int, j: int| 0 <= i < j < out.len() implies !lex_less(
            utf8(#[trigger] out[j]),
            utf8(#[trigger] out[i]),
        ) by {
            if j < s.len() {
                assert(out[i] == s[i] && out[j] == s[j]);
            } else {
                let last = s.len() - 1;
                assert(out[i] == s[i]);
                assert(i < last ==> !lex_less(utf8(s[last]), utf8(s[i])));
                if lex_less(utf8(x), utf8(s[i])) {
                    lemma_lex_total(utf8(s[i]), utf8(s[last]));
                    if lex_less(utf8(s[i]), utf8(s[last])) {
                        lemma_lex_transitive(utf8(x), utf8(s[i]), utf8(s[last]));
                    }
                }
            }
        }
    } else {
        let less = s.drop_last();
        assert forall|i: int, j: int| 0 <= i < j < less.len() implies !lex_less(
            utf8(#[trigger] less[j]),
            utf8(#[trigger] less[i]),
        ) by {
            assert(less[i] == s[i] && less[j] == s[j]);
        }
        lemma_text_inserted(less, x);
        let front = insert_text_sorted(less, x);
        assert(s =~= less.push(s.last()));
        assert(out.to_multiset() =~= s.to_multiset().insert(x));
        assert forall|i: int, j: int| 0 <= i < j < out.len() implies !lex_less(
            utf8(#[trigger] out[j]),
            utf8(#[trigger] out[i]),
        ) by {
            if j < front.len() {
                assert(out[i] == front[i] && out[j] == front[j]);
            } else {
                assert(out[i] == front[i]);
                assert(out[j] == s.last());
                assert(front.contains(front[i]));
                assert(front.to_multiset().count(front[i]) > 0);
                if front[i] == x {
                    lemma_lex_asymmetric(utf8(x), utf8(s.last()));
                } else {
                    assert(less.to_multiset().count(front[i]) > 0);
                    assert(less.contains(front[i]));
                    let k = choose|k: int| 0 <= k < less.len() && less[k] == front[i];
                    assert(s[k] == front[i]);
                    assert(!lex_less(utf8(s[s.len() - 1]), utf8(s[k])));
                }
            }
        }
    }
}

/// The texts of two lists are joined by a comma where the lists meet; a single text stands for
/// itself, and no text for nothing.
pub proof fn law_joined(a: Seq<Seq<char>>, b: Seq<Seq<char>>)
    requires
        a.len() > 0,
        b.len() > 0,
    ensures
        joined_texts(a + b) == joined_texts(a) + seq![','] + joined_texts(b),
        a.len() == 1 ==> joined_texts(a) == a[0],
        joined_texts(Seq::<Seq<char>>::empty()) == Seq::<char>::empty(),
    decreases b.len(),
{
    let all = a + b;
    assert(all.last() == b.last());
    if b.len() == 1 {
        assert(all.drop_last() =~= a);
        assert(joined_texts(all) =~= joined_texts(a) + seq![','] + joined_texts(b));
    } else {
        let less = b.drop_last();
        law_joined(a, less);
        assert(all.drop_last() =~= a + less);
        assert(joined_texts(all) =~= joined_texts(a) + seq![','] + joined_texts(b));
    }
}

/// A group is told by the label and the value that its series share, by the name of what reduced
/// it, and by the keys of its series.
pub proof fn law_group_told(
    name: Seq<char>,
    value: Seq<char>,
    reducer: Seq<char>,
    sources: Seq<Seq<char>>,
)
    ensures
        group_labels(name, value, reducer, sources).len() == 3,
        group_labels(name, value, reducer, sources)[0] == (name, value),
        group_labels(name, value, reducer, sources)[1] == ("__reducer__"@, reducer),
        group_labels(name, value, reducer, sources)[2].0 == "__source__"@,
        sources.len() == 1 ==> group_labels(name, value, reducer, sources)[2].1 == sources[0],
        sources.len() > 1 ==> group_labels(name, value, reducer, sources)[2].1 == sources[0]
            + seq![','] + joined_texts(sources.skip(1)),
{
    if sources.len() > 1 {
        law_joined(sources.take(1), sources.skip(1));
        assert(sources.take(1) + sources.skip(1) =~= sources);
    }
}

/// Where labels are chosen, each is told in turn, with its value or with an empty one where the
/// series has no such label. Else all labels are told where that is asked for, and none where not.
pub proof fn law_told_labels(labels: Seq<Label>, with_labels: bool, selected: Seq<String>)
    ensures
        ({
            let told = told_labels(labels, with_labels, selected);
            &&& selected.len() == 0 && !with_labels ==> told.len() == 0
            &&& selected.len() == 0 && with_labels ==> told.len() == labels.len() && forall|i: int|
                0 <= i < labels.len() ==> (#[trigger] told[i]).0 == labels[i].name@ && told[i].1
                    == labels[i].value@
            &&& selected.len() > 0 ==> told.len() == selected.len() && forall|i: int|
                0 <= i < selected.len() ==> (#[trigger] told[i]).0 == selected[i]@ && is_label_or_blank(
                    labels,
                    told[i].0,
                    told[i].1,
                )
        }),
{
    let told = told_labels(labels, with_labels, selected);
    if selected.len() > 0 {
        assert forall|i: int| 0 <= i < selected.len() implies (#[trigger] told[i]).0 == selected[i]@
            && is_label_or_blank(labels, told[i].0, told[i].1) by {
            let name = selected[i]@;
            law_label_value(labels, name);
            if let Some(v) = label_value(labels, name) {
                assert(carries(labels, name, v));
            }
        }
    }
}

/// The value that a label has, or nothing where there is no such label.
pub open spec fn is_label_or_blank(labels: Seq<Label>, name: Seq<char>, value: Seq<char>) -> bool {
    ||| carries(labels, name, value)
    ||| value.len() == 0 && forall|i: int| 0 <= i < labels.len() ==> (#[trigger] labels[i]).name@ != name
}

/// The aggregation with the number of a key is the one for it; where there is none, the samples are
/// told as they are.
pub open spec fn own_aggregation<B>(options: NRangeOptions<B>, key: int) -> Option<
    AggregationOptions<B>,
> {
    if key < options.aggregations@.len() {
        Some(options.aggregations@[key])
    } else {
        None
    }
}

/// The rows of a key.
pub open spec fn own_rows<'a, A: Aggregation, B: Aggregation>(
    metas: Seq<NRangeSeriesMeta<'a, A>>,
    options: NRangeOptions<B>,
    key: int,
) -> Seq<Row> {
    series_rows(metas[key].series, options.range, own_aggregation(options, key), metas[key].latest)
}

/// A key has a column for each aggregator, or one for its samples.
pub open spec fn own_width<B>(options: NRangeOptions<B>, key: int) -> nat {
    if key < options.aggregations@.len() {
        options.aggregations@[key].aggregators@.len()
    } else {
        1
    }
}

/// The first column of a key: behind those of the keys before it.
pub open spec fn own_column<B>(options: NRangeOptions<B>, key: int) -> int
    decreases key,
{
    if key <= 0 {
        0
    } else {
        own_column(options, key - 1) + own_width(options, key - 1)
    }
}

/// What a key has in a column at a timestamp: its value there, or a blank.
pub open spec fn own_value(rows: Seq<Row>, ts: Timestamp, column: int) -> u64 {
    match row_at(rows, ts) {
        Some(values) => values[column],
        None => NAN_BITS,
    }
}

/// A row has the values of all keys at its timestamp, each in its own columns.
pub open spec fn is_side_by_side<'a, A: Aggregation, B: Aggregation>(
    metas: Seq<NRangeSeriesMeta<'a, A>>,
    options: NRangeOptions<B>,
    row: Row,
) -> bool {
    &&& row.1.len() == own_column(options, metas.len() as int)
    &&& forall|k: int, c: int|
        0 <= k < metas.len() && 0 <= c < own_width(options, k) ==> (#[trigger] row.1[own_column(
            options,
            k,
        ) + c]) == own_value(own_rows(metas, options, k), row.0, c)
}

/// The answer for several keys gives, upwards or downwards and as many as are asked for, rows that
/// hold the values of all keys side by side: one for each timestamp at which some key has a row.
#[verifier::rlimit(40)]
pub proof fn law_side_by_side<'a, A: Aggregation, B: Aggregation>(
    metas: Seq<NRangeSeriesMeta<'a, A>>,
    options: NRangeOptions<B>,
)
    requires
        options.wf(),
        forall|i: int| 0 <= i < metas.len() ==> (#[trigger] metas[i]).series.wf(),
        forall|i: int|
            0 <= i < options.aggregations@.len() ==> (
            #[trigger] options.aggregations@[i]).aggregators@.len() <= usize::MAX,
    ensures
        ({
            let all = pivoted(key_rows(metas, options), options.widths(metas.len()));
            let rows = requested(all, options.is_reverse, options.range.count);
            &&& is_page(all, rows, options.is_reverse, options.range.count)
            &&& forall|i: int|
                0 <= i < all.len() ==> is_side_by_side(metas, options, #[trigger] all[i])
            &&& forall|i: int| 0 <= i < all.len() ==> some_row(metas, options, (#[trigger] all[i]).0)
            &&& forall|ts: Timestamp| #[trigger]
                some_row(metas, options, ts) ==> exists|i: int|
                    0 <= i < all.len() && (#[trigger] all[i]).0 == ts
        }),
{
    let sources = key_rows(metas, options);
    let widths = options.widths(metas.len());
    let all = pivoted(sources, widths);
    law_rows_joined(sources, widths);
    law_requested(all, options.is_reverse, options.range.count);
    assert forall|k: int| 0 <= k < sources.len() implies #[trigger] sources[k] == own_rows(
        metas,
        options,
        k,
    ) && widths[k] == own_width(options, k) by {
        if k < options.aggregations@.len() {
            assert(options.aggregations@[k].aggregators@.len() <= usize::MAX);
        }
    }
    assert forall|k: int| 0 <= k < sources.len() implies rows_wide(
        #[trigger] sources[k],
        widths[k] as nat,
    ) by {
        assert(sources[k] == own_rows(metas, options, k));
    }
    assert forall|ts: Timestamp| #[trigger] some_row(metas, options, ts) == has_row(
        sources,
        ts,
    ) by {
        if some_row(metas, options, ts) {
            let k = choose|k: int|
                0 <= k < metas.len() && row_at(#[trigger] own_rows(metas, options, k), ts) is Some;
            assert(row_at(sources[k], ts) is Some);
        }
        if has_row(sources, ts) {
            let k = choose|k: int|
                0 <= k < sources.len() && row_at(#[trigger] sources[k], ts) is Some;
            assert(row_at(own_rows(metas, options, k), ts) is Some);
        }
    }
    lemma_own_columns(options, widths, metas.len() as int);
    assert forall|i: int| 0 <= i < all.len() implies is_side_by_side(
        metas,
        options,
        #[trigger] all[i],
    ) by {
        let row = all[i];
        law_columns(sources, widths, row.0);
        assert(row.1 == values_at(sources, widths, row.0));
        assert forall|k: int, c: int|
            0 <= k < metas.len() && 0 <= c < own_width(options, k) implies (
        #[trigger] row.1[own_column(options, k) + c]) == own_value(
            own_rows(metas, options, k),
            row.0,
            c,
        ) by {
            lemma_own_columns(options, widths, k);
            assert(sources[k] == own_rows(metas, options, k));
            assert(values_at(sources, widths, row.0)[column_start(widths, k) + c] == own_value(
                sources[k],
                row.0,
                c,
            ));
        }
    }
    assert forall|i: int| 0 <= i < all.len() implies some_row(
        metas,
        options,
        (#[trigger] all[i]).0,
    ) by {
        assert(has_row(sources, all[i].0));
    }
    assert forall|ts: Timestamp| #[trigger] some_row(metas, options, ts) implies exists|i: int|
        0 <= i < all.len() && (#[trigger] all[i]).0 == ts by {
        assert(has_row(sources, ts));
    }
}

/// Some key has a row at a timestamp.
pub open spec fn some_row<'a, A: Aggregation, B: Aggregation>(
    metas: Seq<NRangeSeriesMeta<'a, A>>,
    options: NRangeOptions<B>,
    ts: Timestamp,
) -> bool {
    exists|k: int|
        0 <= k < metas.len() && row_at(#[trigger] own_rows(metas, options, k), ts) is Some
}

proof fn lemma_own_columns<B>(options: NRangeOptions<B>, widths: Seq<usize>, key: int)
    requires
        0 <= key <= widths.len(),
        forall|k: int| 0 <= k < widths.len() ==> #[trigger] widths[k] == own_width(options, k),
    ensures
        column_start(widths, key) == own_column(options, key),
    decreases key,
{
    if key > 0 {
        lemma_own_columns(options, widths, key - 1);
        assert(widths[key - 1] == own_width(options, key - 1));
    }
}

/// Parts of groups are given where the caller may read the series, filters and a grouping are given,
/// and what reduces a group can go on with a part. Every refusal has its cause.
pub proof fn law_partials_refused<B>(permitted: bool, options: MRangeOptions<B>)
    ensures
        partials_error(permitted, options) is None <==> {
            &&& permitted
            &&& options.filters@.len() > 0
            &&& options.grouping is Some
            &&& options.grouping->0.decomposable
        },
        partials_error(permitted, options) == Some(MRangeError::Permissions) <==> !permitted,
        partials_error(permitted, options) == Some(MRangeError::MissingFilter) ==> permitted
            && options.filters@.len() == 0,
        partials_error(permitted, options) == Some(MRangeError::MissingGrouping) ==> permitted
            && options.filters@.len() > 0 && options.grouping is None,
        partials_error(permitted, options) == Some(MRangeError::NotDecomposable) ==> permitted
            && options.filters@.len() > 0 && options.grouping is Some
            && !options.grouping->0.decomposable,
{
}

/// The states of rows are given one row after another, each with its columns in order.
pub proof fn law_flat_states<B>(rows: Seq<(Timestamp, Seq<B>)>, width: nat, i: int, c: int)
    requires
        forall|k: int| 0 <= k < rows.len() ==> (#[trigger] rows[k]).1.len() == width,
        0 <= i < rows.len(),
        0 <= c < width,
    ensures
        flat_states(rows).len() == rows.len() * width,
        flat_states(rows)[i * width + c] == rows[i].1[c],
    decreases rows.len(),
{
    let less = rows.drop_last();
    let n = rows.len() - 1;
    assert forall|k: int| 0 <= k < less.len() implies (#[trigger] less[k]).1.len() == width by {
        assert(less[k] == rows[k]);
    }
    lemma_flat_len(less, width);
    assert(rows[n].1.len() == width);
    assert((n + 1) * width == n * width + width) by (nonlinear_arith);
    if i < n {
        law_flat_states(less, width, i, c);
        assert(less[i] == rows[i]);
        assert(i * width + c < n * width) by (nonlinear_arith)
            requires
                0 <= i < n,
                0 <= c < width,
        ;
        assert(0 <= i * width) by (nonlinear_arith)
            requires
                0 <= i,
                0 <= width,
        ;
    }
}

proof fn lemma_flat_len<B>(rows: Seq<(Timestamp, Seq<B>)>, width: nat)
    requires
        forall|k: int| 0 <= k < rows.len() ==> (#[trigger] rows[k]).1.len() == width,
    ensures
        flat_states(rows).len() == rows.len() * width,
    decreases rows.len(),
{
    if rows.len() > 0 {
        let less = rows.drop_last();
        let n = rows.len() - 1;
        assert forall|k: int| 0 <= k < less.len() implies (#[trigger] less[k]).1.len() == width by {
            assert(less[k] == rows[k]);
        }
        lemma_flat_len(less, width);
        assert(rows[n].1.len() == width);
        assert((n + 1) * width == n * width + width) by (nonlinear_arith);
    }
}

/// A part of a group tells the value and the keys of the group, and, as far as the limit goes, the
/// timestamps of its rows and what the reducer has seen in each column of them.
pub proof fn law_partial<'a, A: Aggregation, B: Aggregation>(
    metas: Seq<MRangeSeriesMeta<'a, A>>,
    group: Group,
    options: MRangeOptions<B>,
    reducer: B,
    limit: Option<SampleLimit>,
    r: GroupPartialsResult<B>,
    i: int,
    c: int,
)
    requires
        is_partial(metas, group, options, reducer, limit, r),
        forall|k: int|
            0 <= k < limited(group_states(metas, group.1, options, reducer), limit).len() ==> (
            #[trigger] limited(group_states(metas, group.1, options, reducer), limit)[k]).1.len()
                == options.columns(),
        0 <= i < r.timestamps@.len(),
        0 <= c < options.columns(),
    ensures
        r.group_label_value@ == group.0,
        texts_rise(texts_of(r.source_keys@)),
        texts_of(r.source_keys@).to_multiset() == keys_of(metas, group.1).to_multiset(),
        ({
            let rows = limited(group_states(metas, group.1, options, reducer), limit);
            &&& r.timestamps@.len() == rows.len()
            &&& r.timestamps@[i] == rows[i].0
            &&& r.states@[i * r.column_count + c] == rows[i].1[c]
        }),
{
    let rows = limited(group_states(metas, group.1, options, reducer), limit);
    law_texts_sorted(keys_of(metas, group.1));
    assert(r.timestamps@.len() == rows.len());
    law_flat_states(rows, options.columns(), i, c);
}

/// Answers for groups go upwards by the value of the group, with those of no value first, and answers
/// for series by the key; texts go byte by byte.
pub open spec fn answers_rise(answers: Seq<Answer>, is_grouped: bool) -> bool {
    &&& is_grouped ==> forall|i: int, j: int|
        0 <= i < j < answers.len() && (#[trigger] answers[j]).group is None ==> (
        #[trigger] answers[i]).group is None
    &&& is_grouped ==> forall|i: int, j: int|
        0 <= i < j < answers.len() && (#[trigger] answers[i]).group is Some && (
        #[trigger] answers[j]).group is Some ==> !lex_less(
            utf8(answers[j].group->0),
            utf8(answers[i].group->0),
        )
    &&& !is_grouped ==> forall|i: int, j: int|
        0 <= i < j < answers.len() ==> !lex_less(
            utf8((#[trigger] answers[j]).key),
            utf8((#[trigger] answers[i]).key),
        )
}

/// Answers are sorted by the value of the group, or by the key where there are no groups.
pub proof fn law_answers_rise(s: Seq<Answer>, is_grouped: bool)
    ensures
        answers_rise(answers_sorted(s, is_grouped), is_grouped),
        answers_sorted(s, is_grouped).to_multiset() == s.to_multiset(),
{
    law_answers_sorted(s, is_grouped);
    let out = answers_sorted(s, is_grouped);
    assert forall|i: int, j: int| 0 <= i < j < out.len() implies !text_opt_less(
        sort_text(#[trigger] out[j], is_grouped),
        sort_text(#[trigger] out[i], is_grouped),
    ) by {}
}

} // verus!
