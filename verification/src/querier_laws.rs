//! What a request for series finds, and how a deletion goes through them.
use crate::aggregation::Aggregation;
use crate::bytes::utf8;
use crate::index::label_laws::{carries, law_label_value};
use crate::index::label_querier::label_value;
use crate::index::state_laws::total;
use crate::labels::Label;
use crate::multi_del::{
    batch_share, changed_series, deleted_total, keyed, keyless, missing_ids, opened_count, reach, KeyOutcome, MIN_BATCH_SIZE,
};
use crate::querier::{date_matches, has_told, is_told, matching, readable, MetaDateRangeFilter};
use crate::range::laws::is_kept;
use crate::range::rows::in_range;
use crate::sample::{Sample, Timestamp};
use crate::series::store::{lemma_filter_from, TimeSeries};
use vstd::prelude::*;

verus! {

/// A series has a sample that its retention leaves, from one timestamp to another.
pub open spec fn has_sample<A: Aggregation>(
    series: &TimeSeries<A>,
    start: Timestamp,
    end: Timestamp,
) -> bool {
    exists|s: Sample|
        {
            &&& #[trigger] series.samples().contains(s)
            &&& is_kept(series, s.timestamp)
            &&& start <= s.timestamp
            &&& s.timestamp <= end
        }
}

/// A series is found by a range where it has a sample there, and by the exclusion of a range where
/// it has none.
pub proof fn law_date_range<A: Aggregation>(series: &TimeSeries<A>, f: MetaDateRangeFilter)
    requires
        series.wf(),
    ensures
        !f.exclude ==> date_matches(series, f) == has_sample(series, f.start, f.end),
        f.exclude ==> date_matches(series, f) == !has_sample(series, f.start, f.end),
{
    broadcast use vstd::seq_lib::group_filter_ensures;

    let all = series.samples();
    let floor = series.min_timestamp();
    let from = if f.start < floor {
        floor
    } else {
        f.start
    };
    let inside = |x: Sample| from <= x.timestamp <= f.end;
    let found = in_range(series, f.start, f.end);
    assert(found == all.filter(inside));
    lemma_filter_from(all, inside);
    if found.len() > 0 {
        assert(all.contains(all.filter(inside)[0]));
        assert(inside(found[0]));
        assert(has_sample(series, f.start, f.end));
    }
    if has_sample(series, f.start, f.end) {
        let s = choose|s: Sample|
            {
                &&& #[trigger] all.contains(s)
                &&& is_kept(series, s.timestamp)
                &&& f.start <= s.timestamp
                &&& s.timestamp <= f.end
            };
        assert(inside(s));
        assert(found.contains(s));
    }
}

/// The series that a range finds are numbered in order, and none else are.
pub proof fn law_matching<'a, A: Aggregation>(
    series: Seq<&'a TimeSeries<A>>,
    f: MetaDateRangeFilter,
)
    requires
        forall|i: int| 0 <= i < series.len() ==> (#[trigger] series[i]).wf(),
        series.len() <= usize::MAX,
    ensures
        forall|i: int, j: int|
            0 <= i < j < matching(series, f).len() ==> (#[trigger] matching(series, f)[i])
                < #[trigger] matching(series, f)[j],
        forall|i: int|
            0 <= i < matching(series, f).len() ==> (#[trigger] matching(series, f)[i])
                < series.len(),
        forall|k: usize|
            k < series.len() ==> (#[trigger] matching(series, f).contains(k) == (has_sample(
                series[k as int],
                f.start,
                f.end,
            ) != f.exclude)),
    decreases series.len(),
{
    let found = matching(series, f);
    if series.len() > 0 {
        let rest = series.drop_last();
        let before = matching(rest, f);
        assert forall|i: int| 0 <= i < rest.len() implies (#[trigger] rest[i]).wf() by {
            assert(series[i].wf());
        }
        law_matching(rest, f);
        let last = (series.len() - 1) as usize;
        assert(series[last as int].wf());
        law_date_range(series.last(), f);
        assert forall|k: usize|
            k < series.len() implies (#[trigger] found.contains(k) == (has_sample(
            series[k as int],
            f.start,
            f.end,
        ) != f.exclude)) by {
            if k < last {
                assert(rest[k as int] == series[k as int]);
                assert(before.contains(k) == (has_sample(rest[k as int], f.start, f.end)
                    != f.exclude));
            }
            if before.contains(k) {
                let i = choose|i: int| 0 <= i < before.len() && before[i] == k;
                assert(found[i] == k);
            }
            if found.contains(k) {
                let i = choose|i: int| 0 <= i < found.len() && found[i] == k;
                if i < before.len() {
                    assert(before[i] == k);
                }
            }
            if date_matches(series.last(), f) {
                assert(found[before.len() as int] == last);
            }
        }
    }
}

/// What has a key is told with it, and what has none is told to have none; each in the order of the
/// ids, and every id once in one of the two.
pub proof fn law_keys_part(ids: Seq<u64>, names: Map<u64, Seq<u8>>)
    ensures
        keyed(ids, names) == ids.filter(|id: u64| names.contains_key(id)),
        keyless(ids, names) == ids.filter(|id: u64| !names.contains_key(id)),
        keyed(ids, names).len() + keyless(ids, names).len() == ids.len(),
    decreases ids.len(),
{
    reveal(Seq::filter);
    if ids.len() > 0 {
        law_keys_part(ids.drop_last(), names);
    }
}

/// Of the keys that were opened, those with a series are read, those without one are gone, and
/// those that the caller may not read are neither; each in the order of the ids.
pub proof fn law_openings_part(ids: Seq<u64>, openings: Seq<KeyOutcome>)
    requires
        ids.len() == openings.len(),
    ensures
        readable(ids, openings) == ids.zip_with(openings).filter(
            |p: (u64, KeyOutcome)| p.1 is Opened,
        ).map_values(|p: (u64, KeyOutcome)| p.0),
        missing_ids(ids, openings) == ids.zip_with(openings).filter(
            |p: (u64, KeyOutcome)| p.1 is Missing,
        ).map_values(|p: (u64, KeyOutcome)| p.0),
        opened_count(openings) == openings.filter(|o: KeyOutcome| o is Opened).len(),
        opened_count(openings) == readable(ids, openings).len(),
    decreases ids.len(),
{
    reveal(Seq::filter);
    let opened = |p: (u64, KeyOutcome)| p.1 is Opened;
    let missing = |p: (u64, KeyOutcome)| p.1 is Missing;
    let id = |p: (u64, KeyOutcome)| p.0;
    let both = ids.zip_with(openings);
    if ids.len() > 0 {
        let less = ids.drop_last();
        let fewer = openings.drop_last();
        law_openings_part(less, fewer);
        lemma_openings_cut(less, openings, fewer);
        assert(both.drop_last() =~= less.zip_with(fewer));
        assert(both.filter(opened).map_values(id) =~= if opened(both.last()) {
            less.zip_with(fewer).filter(opened).map_values(id).push(ids.last())
        } else {
            less.zip_with(fewer).filter(opened).map_values(id)
        });
        assert(both.filter(missing).map_values(id) =~= if missing(both.last()) {
            less.zip_with(fewer).filter(missing).map_values(id).push(ids.last())
        } else {
            less.zip_with(fewer).filter(missing).map_values(id)
        });
    } else {
        assert(both.filter(opened).map_values(id) =~= Seq::<u64>::empty());
        assert(both.filter(missing).map_values(id) =~= Seq::<u64>::empty());
    }
}

/// What came of opening later keys does not matter for the first ids.
proof fn lemma_openings_cut(ids: Seq<u64>, openings: Seq<KeyOutcome>, fewer: Seq<KeyOutcome>)
    requires
        ids.len() <= fewer.len() <= openings.len(),
        forall|i: int| 0 <= i < fewer.len() ==> fewer[i] == openings[i],
    ensures
        readable(ids, openings) == readable(ids, fewer),
        missing_ids(ids, openings) == missing_ids(ids, fewer),
    decreases ids.len(),
{
    if ids.len() > 0 {
        lemma_openings_cut(ids.drop_last(), openings, fewer);
    }
}

/// A series has a label that goes by a name.
pub open spec fn is_named_so(labels: Seq<Label>, name: Seq<u8>) -> bool {
    exists|k: int| 0 <= k < labels.len() && utf8((#[trigger] labels[k]).name@) == name
}

/// A series has a label that has a value, where the first with its name counts.
pub open spec fn has_value_so(labels: Seq<Label>, name: Seq<char>, text: Seq<u8>) -> bool {
    exists|value: Seq<char>| #[trigger] carries(labels, name, value) && utf8(value) == text
}

/// Where no label is asked for, the names that some series has are told; where one is, the values
/// that it has in some series.
pub proof fn law_told(series: Seq<Vec<Label>>, label: Option<Seq<char>>, text: Seq<u8>)
    ensures
        label is None ==> (is_told(series, label, text) <==> exists|i: int|
            0 <= i < series.len() && is_named_so((#[trigger] series[i])@, text)),
        label is Some ==> (is_told(series, label, text) <==> exists|i: int|
            0 <= i < series.len() && has_value_so((#[trigger] series[i])@, label->0, text)),
{
    assert forall|i: int| 0 <= i < series.len() implies has_told(
        (#[trigger] series[i])@,
        label,
        text,
    ) == (if label is None {
        is_named_so(series[i]@, text)
    } else {
        has_value_so(series[i]@, label->0, text)
    }) by {
        if let Some(name) = label {
            law_label_value(series[i]@, name);
            if let Some(v) = label_value(series[i]@, name) {
                assert(carries(series[i]@, name, v));
            }
            if has_value_so(series[i]@, name, text) {
                let v = choose|v: Seq<char>| #[trigger]
                    carries(series[i]@, name, v) && utf8(v) == text;
                assert(label_value(series[i]@, name) == Some(v));
            }
        }
    }
    if is_told(series, label, text) {
        let i = choose|i: int|
            0 <= i < series.len() && has_told((#[trigger] series[i])@, label, text);
        assert(has_told(series[i]@, label, text));
    }
    if label is None && exists|i: int|
        0 <= i < series.len() && is_named_so((#[trigger] series[i])@, text) {
        let i = choose|i: int| 0 <= i < series.len() && is_named_so((#[trigger] series[i])@, text);
        assert(has_told(series[i]@, label, text));
    }
    if label is Some && exists|i: int|
        0 <= i < series.len() && has_value_so((#[trigger] series[i])@, label->0, text) {
        let i = choose|i: int|
            0 <= i < series.len() && has_value_so((#[trigger] series[i])@, label->0, text);
        assert(has_told(series[i]@, label, text));
    }
}

/// A batch takes the share that each of the threads gets of all series, at least two threads
/// sharing them, and never fewer than the least number.
pub proof fn law_batch_share(cardinality: nat, threads: nat)
    ensures
        batch_share(cardinality as int, threads as int) >= MIN_BATCH_SIZE,
        forall|t: int|
            t >= 2 && t >= threads && (t == 2 || t == threads) ==> {
                let share = #[trigger] (batch_share(cardinality as int, threads as int) * t);
                &&& share <= cardinality || share == MIN_BATCH_SIZE * t
                &&& cardinality < share + t
            },
{
    let share = batch_share(cardinality as int, threads as int);
    assert forall|t: int| t >= 2 && t >= threads && (t == 2 || t == threads) implies {
        let all = #[trigger] (share * t);
        &&& all <= cardinality || all == MIN_BATCH_SIZE * t
        &&& cardinality < all + t
    } by {
        let q = cardinality as int / t;
        assert(q * t <= cardinality < q * t + t) by (nonlinear_arith)
            requires
                q == cardinality as int / t,
                t >= 2,
        ;
        assert(q < 32 ==> q * t <= 32 * t) by (nonlinear_arith)
            requires
                t >= 2,
        ;
    }
}

/// A round reads ids up to the last one that it needs: as many of them have a key as are wanted,
/// and no fewer ids would do, or it comes to the end of the ids.
pub proof fn law_round_reads(ids: Seq<u64>, names: Map<u64, Seq<u8>>, wanted: nat)
    ensures
        ({
            let n = reach(ids, names, wanted) as int;
            let keys = |id: u64| names.contains_key(id);
            &&& n <= ids.len()
            &&& ids.take(n).filter(keys).len() <= wanted
            &&& n < ids.len() ==> ids.take(n).filter(keys).len() == wanted
            &&& n > 0 ==> ids.take(n - 1).filter(keys).len() < wanted
        }),
    decreases ids.len(),
{
    let n = reach(ids, names, wanted) as int;
    let keys = |id: u64| names.contains_key(id);
    reveal(Seq::filter);
    if ids.len() > 0 && wanted > 0 {
        let more = if names.contains_key(ids[0]) {
            (wanted - 1) as nat
        } else {
            wanted
        };
        let rest = ids.skip(1);
        law_round_reads(rest, names, more);
        let m = reach(rest, names, more) as int;
        lemma_filter_one(ids[0], rest.take(m), keys);
        assert(ids.take(n) =~= seq![ids[0]] + rest.take(m));
        if m > 0 {
            lemma_filter_one(ids[0], rest.take(m - 1), keys);
            assert(ids.take(n - 1) =~= seq![ids[0]] + rest.take(m - 1));
        } else {
            assert(ids.take(n - 1) =~= Seq::<u64>::empty());
        }
    } else {
        assert(ids.take(n) =~= Seq::<u64>::empty());
    }
}

/// What a batch of deletions comes to is the sum of what the deletions that did not fail took away,
/// and the series to be told of it are those that lost something, in order.
#[verifier::rlimit(40)]
pub proof fn law_deletions(deleted: Seq<Option<usize>>)
    requires
        deleted.len() <= usize::MAX,
    ensures
        deleted_total(deleted) == total(
            deleted.map_values(
                |n: Option<usize>|
                    if n is Some {
                        n->0 as nat
                    } else {
                        0nat
                    },
            ),
        ),
        forall|i: int, j: int|
            0 <= i < j < changed_series(deleted).len() ==> (#[trigger] changed_series(deleted)[i])
                < #[trigger] changed_series(deleted)[j],
        forall|k: usize|
            changed_series(deleted).contains(k) <==> k < deleted.len() && (
            #[trigger] deleted[k as int]) is Some && deleted[k as int]->0 > 0,
    decreases deleted.len(),
{
    let of = |n: Option<usize>|
        if n is Some {
            n->0 as nat
        } else {
            0nat
        };
    let numbers = deleted.map_values(of);
    if deleted.len() > 0 {
        let less = deleted.drop_last();
        let last = (deleted.len() - 1) as usize;
        law_deletions(less);
        assert(numbers.drop_last() =~= less.map_values(of));
        assert(numbers.last() == of(deleted.last()));
        let before = changed_series(less);
        let now = changed_series(deleted);
        assert forall|i: int| 0 <= i < before.len() implies (#[trigger] before[i]) < last by {
            assert(before.contains(before[i]));
            assert(less[before[i] as int] is Some);
        }
        assert forall|k: usize| now.contains(k) <==> k < deleted.len() && (
        #[trigger] deleted[k as int]) is Some && deleted[k as int]->0 > 0 by {
            if k < last {
                assert(less[k as int] == deleted[k as int]);
            }
            if before.contains(k) {
                let i = choose|i: int| 0 <= i < before.len() && before[i] == k;
                assert(now[i] == k);
                assert(less[k as int] == deleted[k as int]);
            }
            if now.contains(k) {
                let i = choose|i: int| 0 <= i < now.len() && now[i] == k;
                if i < before.len() {
                    assert(before[i] == k);
                    assert(before.contains(k));
                }
            }
            if now.len() > before.len() {
                assert(now[before.len() as int] == last);
            }
        }
    }
}

proof fn lemma_filter_one(id: u64, rest: Seq<u64>, keep: spec_fn(u64) -> bool)
    ensures
        (seq![id] + rest).filter(keep).len() == rest.filter(keep).len() + if keep(id) {
            1nat
        } else {
            0nat
        },
    decreases rest.len(),
{
    reveal(Seq::filter);
    let all = seq![id] + rest;
    if rest.len() == 0 {
        assert(all.drop_last() =~= Seq::<u64>::empty());
        assert(all.drop_last().filter(keep).len() == 0);
    } else {
        lemma_filter_one(id, rest.drop_last(), keep);
        assert(all.drop_last() =~= seq![id] + rest.drop_last());
        assert(all.last() == rest.last());
    }
}

} // verus!
