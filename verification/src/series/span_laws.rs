//! Where buckets start and end, what a retention leaves, and how a batch is gone through.
use crate::aggregation::Aggregation;
use crate::chunks::search::{outside, within};
use crate::postings::SeriesRef;
use crate::sample::{DuplicatePolicy, Sample, Timestamp};
use crate::series::batch::{fill_floor, is_filled, replay};
use crate::series::defrag::{
    defragged, law_packing_keeps_samples, packed, pulled, slot_samples, trimmed_slots,
};
use crate::series::graph::{is_acyclic, is_ranking, links_in, with_link, Links};
use crate::series::rule::CompactionRule;
use crate::series::store::{floor_at, occupied, without, SampleDuplicatePolicy, Slot};
use crate::time::{bucket_end_of, bucket_start_of};
use vstd::prelude::*;

verus! {

/// A bucket starts a whole number of durations from the alignment, at its timestamp or less than a
/// duration before it. One that would start before the epoch starts there.
pub proof fn law_bucket_start(ts: int, align: int, duration: int)
    requires
        duration > 0,
    ensures
        exists|n: int|
            {
                let start = #[trigger] (n * duration) + align;
                &&& start <= ts < start + duration
                &&& bucket_start_of(ts, align, duration) == if start < 0 {
                    0
                } else {
                    start
                }
            },
{
    let n = (ts - align) / duration;
    vstd::arithmetic::div_mod::lemma_fundamental_div_mod(ts - align, duration);
    vstd::arithmetic::mul::lemma_mul_is_commutative(n, duration);
    let start = n * duration + align;
    assert(start == ts - (ts - align) % duration);
    assert(bucket_start_of(ts, align, duration) == if start < 0 {
        0
    } else {
        start
    });
}

/// A bucket ends a duration after its start, or at the last timestamp there is.
pub proof fn law_bucket_end(start: Timestamp, duration: u64)
    requires
        start >= 0,
    ensures
        start + duration <= i64::MAX ==> bucket_end_of(start as int, duration as int) == start
            + duration,
        start + duration > i64::MAX ==> bucket_end_of(start as int, duration as int) == i64::MAX,
{
}

/// Without a retention nothing but the epoch bounds what is read; with one it is what is no further
/// back from the last timestamp, and not before the epoch.
pub proof fn law_floor(retention: u64, last: Timestamp, ts: Timestamp)
    ensures
        retention == 0 ==> (floor_at(retention, last) <= ts <==> 0 <= ts),
        retention > 0 ==> (floor_at(retention, last) <= ts <==> 0 <= ts && last - ts <= retention),
{
}

/// The policy that is asked for is in force, else that of the series, and else the one that blocks.
pub proof fn law_in_force(d: SampleDuplicatePolicy, asked: DuplicatePolicy)
    ensures
        d.in_force(Some(asked)) == asked,
        d.policy is Some ==> d.in_force(None) == d.policy->0,
        d.policy is None ==> d.in_force(None) == DuplicatePolicy::Block,
{
}

/// A range has the samples from its start to its end, both counted, and the rest are outside it; the
/// two keep the order and lose none.
pub proof fn law_range_parts(s: Seq<Sample>, start: Timestamp, end: Timestamp, x: Sample)
    ensures
        within(s, start, end).contains(x) <==> s.contains(x) && start <= x.timestamp && x.timestamp
            <= end,
        outside(s, start, end).contains(x) <==> s.contains(x) && (x.timestamp < start || end
            < x.timestamp),
        within(s, start, end).len() + outside(s, start, end).len() == s.len(),
    decreases s.len(),
{
    reveal(Seq::filter);
    if s.len() > 0 {
        let less = s.drop_last();
        law_range_parts(less, start, end, x);
        assert(s =~= less.push(s.last()));
        lemma_one_more(less, s.last(), x);
        lemma_one_more(within(less, start, end), s.last(), x);
        lemma_one_more(outside(less, start, end), s.last(), x);
    }
}

proof fn lemma_one_more(s: Seq<Sample>, y: Sample, x: Sample)
    ensures
        s.push(y).contains(x) <==> s.contains(x) || y == x,
{
    let t = s.push(y);
    assert(t[s.len() as int] == y);
    if s.contains(x) {
        let i = choose|i: int| 0 <= i < s.len() && s[i] == x;
        assert(t[i] == x);
    }
    if t.contains(x) {
        let i = choose|i: int| 0 <= i < t.len() && t[i] == x;
        if i < s.len() {
            assert(s[i] == x);
        }
    }
}

/// A timestamp goes beyond a bound, if there is one.
pub open spec fn is_beyond(bound: Option<Timestamp>, ts: Timestamp) -> bool {
    bound is None || bound->0 < ts
}

/// A timestamp of a batch goes forward where it first comes: it is behind the last one from before
/// and behind all that came before it.
pub open spec fn goes_forward(
    prev_last: Option<Timestamp>,
    order: Seq<Timestamp>,
    ts: Timestamp,
) -> bool {
    exists|i: int|
        {
            &&& 0 <= i < order.len()
            &&& #[trigger] order[i] == ts
            &&& is_beyond(prev_last, ts)
            &&& forall|j: int| 0 <= j < i ==> #[trigger] order[j] < ts
        }
}

/// The highest of the timestamps of a batch and the one from before.
pub open spec fn is_highest(
    prev_last: Option<Timestamp>,
    order: Seq<Timestamp>,
    high: Option<Timestamp>,
) -> bool {
    match high {
        None => prev_last is None && order.len() == 0,
        Some(h) => {
            &&& prev_last == Some(h) || order.contains(h)
            &&& prev_last is Some ==> prev_last->0 <= h
            &&& forall|i: int| 0 <= i < order.len() ==> #[trigger] order[i] <= h
        },
    }
}

/// A replay parts the timestamps of a batch: each goes forward or fills in, and none does both. Its
/// highest is the highest of all.
#[verifier::rlimit(40)]
pub proof fn law_replay(prev_last: Option<Timestamp>, order: Seq<Timestamp>, ts: Timestamp)
    ensures
        is_highest(prev_last, order, replay(prev_last, order).high),
        replay(prev_last, order).advanced.contains(ts) <==> goes_forward(prev_last, order, ts),
        is_filled(replay(prev_last, order).filled, ts) <==> order.contains(ts) && !goes_forward(
            prev_last,
            order,
            ts,
        ),
    decreases order.len(),
{
    let r = replay(prev_last, order);
    if order.len() > 0 {
        let less = order.drop_last();
        let last = order.last();
        let n = order.len() - 1;
        law_replay(prev_last, less, ts);
        law_replay(prev_last, less, last);
        let b = replay(prev_last, less);
        assert(order[n] == last);
        assert(order.contains(last));
        assert forall|i: int| 0 <= i < less.len() implies #[trigger] less[i] == order[i] by {}
        assert(order.contains(ts) <==> less.contains(ts) || last == ts) by {
            if less.contains(ts) {
                let i = choose|i: int| 0 <= i < less.len() && less[i] == ts;
                assert(order[i] == ts);
            }
            if order.contains(ts) {
                let i = choose|i: int| 0 <= i < order.len() && order[i] == ts;
                if i < n {
                    assert(less[i] == ts);
                }
            }
        }
        if let Some(h) = b.high {
            if less.contains(h) {
                let i = choose|i: int| 0 <= i < less.len() && less[i] == h;
                assert(order[i] == h);
                assert(order.contains(h));
            }
        }
        let forward = !(b.high is Some && last <= b.high->0);
        assert(goes_forward(prev_last, order, ts) <==> goes_forward(prev_last, less, ts) || (last
            == ts && forward)) by {
            if goes_forward(prev_last, less, ts) {
                let i = choose|i: int|
                    {
                        &&& 0 <= i < less.len()
                        &&& #[trigger] less[i] == ts
                        &&& is_beyond(prev_last, ts)
                        &&& forall|j: int| 0 <= j < i ==> #[trigger] less[j] < ts
                    };
                assert(order[i] == ts);
                assert forall|j: int| 0 <= j < i implies #[trigger] order[j] < ts by {
                    assert(less[j] < ts);
                }
            }
            if goes_forward(prev_last, order, ts) {
                let i = choose|i: int|
                    {
                        &&& 0 <= i < order.len()
                        &&& #[trigger] order[i] == ts
                        &&& is_beyond(prev_last, ts)
                        &&& forall|j: int| 0 <= j < i ==> #[trigger] order[j] < ts
                    };
                if i < n {
                    assert(less[i] == ts);
                    assert forall|j: int| 0 <= j < i implies #[trigger] less[j] < ts by {
                        assert(order[j] < ts);
                    }
                } else if let Some(h) = b.high {
                    if less.contains(h) {
                        let k = choose|k: int| 0 <= k < less.len() && less[k] == h;
                        assert(order[k] < ts);
                    }
                }
            }
            if last == ts && forward {
                assert(is_beyond(prev_last, ts));
                assert forall|j: int| 0 <= j < n implies #[trigger] order[j] < ts by {
                    assert(less[j] == order[j]);
                }
            }
        }
        lemma_timestamp_pushed(b.advanced, last, ts);
        lemma_filled_pushed(b.filled, last, b.high, ts);
        assert forall|i: int| 0 <= i < order.len() && r.high is Some implies #[trigger] order[i]
            <= r.high->0 by {
            if i < n {
                assert(less[i] == order[i]);
            }
        }
    }
}

proof fn lemma_timestamp_pushed(s: Seq<Timestamp>, y: Timestamp, x: Timestamp)
    ensures
        s.push(y).contains(x) <==> s.contains(x) || y == x,
{
    let t = s.push(y);
    assert(t[s.len() as int] == y);
    if s.contains(x) {
        let i = choose|i: int| 0 <= i < s.len() && s[i] == x;
        assert(t[i] == x);
    }
    if t.contains(x) {
        let i = choose|i: int| 0 <= i < t.len() && t[i] == x;
        if i < s.len() {
            assert(s[i] == x);
        }
    }
}

proof fn lemma_filled_pushed(
    s: Seq<(Timestamp, Timestamp)>,
    y: Timestamp,
    high: Option<Timestamp>,
    x: Timestamp,
)
    ensures
        high is Some ==> (is_filled(s.push((y, high->0)), x) <==> is_filled(s, x) || y == x),
{
    if let Some(h) = high {
        let t = s.push((y, h));
        assert(t[s.len() as int].0 == y);
        if is_filled(s, x) {
            let i = choose|i: int| 0 <= i < s.len() && (#[trigger] s[i]).0 == x;
            assert(t[i].0 == x);
        }
        if is_filled(t, x) {
            let i = choose|i: int| 0 <= i < t.len() && (#[trigger] t[i]).0 == x;
            if i < s.len() {
                assert(s[i].0 == x);
            }
        }
    }
}

/// A bucket is made anew with the floor that was in force when it was filled for the last time.
pub proof fn law_fill_floor<A: Aggregation>(
    rule: CompactionRule<A>,
    retention: u64,
    filled: Seq<(Timestamp, Timestamp)>,
    bucket: Timestamp,
)
    ensures
        forall|i: int|
            {
                &&& 0 <= i < filled.len()
                &&& rule.start_of((#[trigger] filled[i]).0) == bucket
                &&& forall|j: int|
                    i < j < filled.len() ==> rule.start_of((#[trigger] filled[j]).0) != bucket
            } ==> fill_floor(rule, retention, filled, bucket) == floor_at(retention, filled[i].1),
    decreases filled.len(),
{
    if filled.len() > 0 {
        let less = filled.drop_last();
        let n = filled.len() - 1;
        law_fill_floor(rule, retention, less, bucket);
        assert(filled[n] == filled.last());
        assert forall|i: int|
            {
                &&& 0 <= i < filled.len()
                &&& rule.start_of((#[trigger] filled[i]).0) == bucket
                &&& forall|j: int|
                    i < j < filled.len() ==> rule.start_of((#[trigger] filled[j]).0) != bucket
            } implies fill_floor(rule, retention, filled, bucket) == floor_at(
            retention,
            filled[i].1,
        ) by {
            if i < n {
                assert(rule.start_of(filled[n].0) != bucket);
                assert(less[i] == filled[i]);
                assert forall|j: int| i < j < less.len() implies rule.start_of(
                    (#[trigger] less[j]).0,
                ) != bucket by {
                    assert(less[j] == filled[j]);
                }
            }
        }
    }
}

/// An earlier chunk takes over all samples of a later one where they fit, as many as fit where these
/// are more than a quarter of them, and none otherwise.
pub proof fn law_pulled(dest: Slot, src: Slot)
    ensures
        ({
            let n = pulled(dest, src);
            let fits = |k: nat| dest.samples.len() + k <= dest.limit || k == 0;
            &&& fits(n)
            &&& n <= src.samples.len()
            &&& fits(src.samples.len()) ==> n == src.samples.len()
            &&& !fits(src.samples.len()) ==> n == 0 || (!fits(n + 1) && 4 * n > src.samples.len())
            &&& !fits(src.samples.len()) && n == 0 ==> forall|k: nat|
                4 * k > src.samples.len() ==> !#[trigger] fits(k)
        }),
{
    let n = pulled(dest, src);
    let len = src.samples.len();
    let fits = |k: nat| dest.samples.len() + k <= dest.limit || k == 0;
    if !fits(len) && n == 0 {
        assert forall|k: nat| 4 * k > len implies !#[trigger] fits(k) by {}
    }
}

/// Packing a series keeps its samples and leaves no empty chunk where there were several.
pub proof fn law_defragged(c: Seq<Slot>)
    ensures
        slot_samples(defragged(c)) == slot_samples(c),
        c.len() >= 2 ==> forall|i: int|
            0 <= i < defragged(c).len() ==> (#[trigger] defragged(c)[i]).samples.len() > 0,
        defragged(c).len() <= c.len(),
{
    broadcast use vstd::seq_lib::group_filter_ensures;

    if c.len() >= 2 {
        law_packing_keeps_samples(c, 0, 1, false);
        let p = packed(c, 0, 1, false);
        lemma_occupied(p);
    }
}

proof fn lemma_occupied(c: Seq<Slot>)
    ensures
        slot_samples(occupied(c)) == slot_samples(c),
        forall|i: int|
            0 <= i < occupied(c).len() ==> (#[trigger] occupied(c)[i]).samples.len() > 0,
        occupied(c).len() <= c.len(),
    decreases c.len(),
{
    reveal(Seq::filter);
    let keep = |x: Slot| x.samples.len() > 0;
    if c.len() > 0 {
        let less = c.drop_last();
        lemma_occupied(less);
        let kept = less.filter(keep);
        if keep(c.last()) {
            assert(kept.push(c.last()).drop_last() =~= kept);
        } else {
            assert(slot_samples(less) + c.last().samples =~= slot_samples(less));
        }
    }
}

/// Trimming drops what a retention does not leave, and nothing else.
pub proof fn law_trimmed(c: Seq<Slot>, retention: u64, floor: Timestamp)
    requires
        floor > i64::MIN,
    ensures
        slot_samples(trimmed_slots(c, retention, floor)) == if retention == 0 {
            slot_samples(c)
        } else {
            slot_samples(c).filter(|x: Sample| x.timestamp >= floor)
        },
{
    if retention != 0 {
        lemma_occupied(without(c, i64::MIN, (floor - 1) as i64));
        lemma_cut_samples(c, floor);
    }
}

proof fn lemma_cut_samples(c: Seq<Slot>, floor: Timestamp)
    requires
        floor > i64::MIN,
    ensures
        slot_samples(without(c, i64::MIN, (floor - 1) as i64)) == slot_samples(c).filter(
            |x: Sample| x.timestamp >= floor,
        ),
    decreases c.len(),
{
    let live = |x: Sample| x.timestamp >= floor;
    let cut = without(c, i64::MIN, (floor - 1) as i64);
    reveal(Seq::filter);
    if c.len() > 0 {
        let less = c.drop_last();
        lemma_cut_samples(less, floor);
        assert(cut.drop_last() =~= without(less, i64::MIN, (floor - 1) as i64));
        Seq::<Sample>::filter_distributes_over_add(slot_samples(less), c.last().samples, live);
        lemma_same_filter(c.last().samples, floor);
    } else {
        assert(slot_samples(c).filter(live) =~= Seq::<Sample>::empty());
    }
}

proof fn lemma_same_filter(s: Seq<Sample>, floor: Timestamp)
    requires
        floor > i64::MIN,
    ensures
        outside(s, i64::MIN, (floor - 1) as i64) == s.filter(|x: Sample| x.timestamp >= floor),
    decreases s.len(),
{
    reveal(Seq::filter);
    if s.len() > 0 {
        lemma_same_filter(s.drop_last(), floor);
    }
}

/// With one more link a series points to one more destination, and no other link comes or goes.
pub proof fn law_link_added(m: Links, from: SeriesRef, to: SeriesRef, a: u64, b: u64)
    ensures
        with_link(m, from, to).contains_key(a) <==> m.contains_key(a) || a == from,
        with_link(m, from, to).contains_key(a) ==> (with_link(m, from, to)[a].contains(b) <==> (
        m.contains_key(a) && m[a].contains(b)) || (a == from && b == to)),
{
}

/// An entry of a list is the last for a series.
pub open spec fn is_last_for(list: Seq<(SeriesRef, Vec<SeriesRef>)>, a: u64, i: int) -> bool {
    &&& 0 <= i < list.len()
    &&& list[i].0 == a
    &&& forall|j: int| i < j < list.len() ==> (#[trigger] list[j]).0 != a
}

/// A series of a list has the destinations that it is listed with for the last time; what is not
/// listed has none.
pub proof fn law_links_listed(list: Seq<(SeriesRef, Vec<SeriesRef>)>, a: u64)
    ensures
        links_in(list).contains_key(a) <==> exists|i: int| #[trigger] is_last_for(list, a, i),
        forall|i: int| #[trigger]
            is_last_for(list, a, i) ==> links_in(list)[a] == list[i].1@.to_set(),
    decreases list.len(),
{
    if list.len() > 0 {
        let less = list.drop_last();
        let n = list.len() - 1;
        law_links_listed(less, a);
        if list.last().0 == a {
            assert(is_last_for(list, a, n));
            assert forall|i: int| #[trigger] is_last_for(list, a, i) implies i == n by {
                if i < n {
                    assert(list[n].0 != a);
                }
            }
        } else {
            assert forall|i: int| #[trigger] is_last_for(list, a, i) == is_last_for(less, a, i) by {
                if is_last_for(list, a, i) {
                    assert(i != n);
                    assert forall|j: int| i < j < less.len() implies (#[trigger] less[j]).0
                        != a by {
                        assert(list[j].0 != a);
                    }
                }
                if is_last_for(less, a, i) {
                    assert forall|j: int| i < j < list.len() implies (#[trigger] list[j]).0
                        != a by {
                        if j < n {
                            assert(less[j].0 != a);
                        }
                    }
                }
            }
            if exists|i: int| #[trigger] is_last_for(less, a, i) {
                let i = choose|i: int| #[trigger] is_last_for(less, a, i);
                assert(is_last_for(list, a, i));
            }
            if exists|i: int| #[trigger] is_last_for(list, a, i) {
                let i = choose|i: int| #[trigger] is_last_for(list, a, i);
                assert(is_last_for(less, a, i));
            }
            assert forall|i: int| #[trigger] is_last_for(list, a, i) implies links_in(list)[a]
                == list[i].1@.to_set() by {
                assert(is_last_for(less, a, i));
            }
        }
    }
}

/// A way through links: each series points to the next, which is another one.
pub open spec fn is_walk(m: Links, way: Seq<u64>) -> bool {
    &&& forall|i: int| 0 <= i < way.len() ==> m.contains_key(#[trigger] way[i])
    &&& forall|i: int, j: int|
        0 <= i < way.len() && j == i + 1 && j < way.len() ==> (#[trigger] way[i]) != (
        #[trigger] way[j]) && m[way[i]].contains(way[j])
}

/// Where a way leads back to its start, links run in a circle.
pub proof fn law_circle(m: Links, way: Seq<u64>)
    requires
        way.len() > 1,
        is_walk(m, way),
        way[0] == way.last(),
    ensures
        !is_acyclic(m),
{
    if is_acyclic(m) {
        let rank = choose|rank: spec_fn(u64) -> nat| is_ranking(m, rank);
        lemma_ranks_fall(m, way, rank, way.len() - 1);
    }
}

proof fn lemma_ranks_fall(m: Links, way: Seq<u64>, rank: spec_fn(u64) -> nat, i: int)
    requires
        is_walk(m, way),
        is_ranking(m, rank),
        0 < i < way.len(),
    ensures
        rank(way[i]) < rank(way[0]),
    decreases i,
{
    let j = i - 1;
    assert(way[j] != way[i] && m[way[j]].contains(way[i]));
    assert(m.contains_key(way[j]) && m.contains_key(way[i]));
    if i > 1 {
        lemma_ranks_fall(m, way, rank, i - 1);
    }
}

/// Where every link leads from a larger id to a smaller one, but for those to itself, nothing runs in
/// a circle.
pub proof fn law_no_circle(m: Links)
    requires
        forall|a: u64, b: u64|
            #![trigger m[a].contains(b)]
            m.contains_key(a) && m[a].contains(b) ==> b <= a,
    ensures
        is_acyclic(m),
{
    let rank = |id: u64| id as nat;
    assert(is_ranking(m, rank));
}

} // verus!
