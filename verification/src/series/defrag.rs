//! Packing the samples of a series into fewer chunks.
use crate::aggregation::Aggregation;
use crate::chunks::chunk::{merge_by_capacity, moved, ChunkEncoding, TimeSeriesChunk};
use crate::chunks::search::within;
use crate::chunks::uncompressed::{merge_into, policy_or_last};
use crate::error::TsdbError;
use crate::sample::{
    is_strictly_sorted, is_sum, DuplicatePolicy, Sample, Timestamp,
};
use crate::series::store::{
    flat, lemma_flat_at, lemma_part_strict, occupied, slots, without, Slot, TimeSeries,
};
use crate::series::update::{from_floor, lemma_all_from_floor};
use vstd::prelude::*;

verus! {

/// How many samples of a chunk an earlier one takes over: all that fit, but none where that is
/// no more than a quarter of them.
pub open spec fn pulled(dest: Slot, src: Slot) -> nat {
    let room = if dest.samples.len() <= dest.limit {
        (dest.limit - dest.samples.len()) as nat
    } else {
        0
    };
    if room >= src.samples.len() {
        src.samples.len()
    } else if room > src.samples.len() / 4 {
        room
    } else {
        0
    }
}

/// The chunks after one of them took over samples of a later one.
pub open spec fn pull(c: Seq<Slot>, to: int, from: int) -> Seq<Slot> {
    let n = pulled(c[to], c[from]) as int;
    c.update(
        to,
        Slot { samples: c[to].samples + c[from].samples.take(n), limit: c[to].limit },
    ).update(from, Slot { samples: c[from].samples.skip(n), limit: c[from].limit })
}

/// The walk over the chunks: the chunk `to` takes over what it can of the chunk `from` and, as
/// long as it gets anything, of those after it; the first of which it gets nothing takes its
/// place. An empty chunk is passed by, unless the last one gave something.
pub open spec fn packed(c: Seq<Slot>, to: int, from: int, going: bool) -> Seq<Slot>
    decreases c.len() - from,
{
    if !(0 <= to < from < c.len()) {
        c
    } else if !going && c[from].samples.len() == 0 {
        packed(c, to, from + 1, false)
    } else if c[from].samples.len() > 0 && pulled(c[to], c[from]) > 0 {
        packed(pull(c, to, from), to, from + 1, true)
    } else {
        packed(c, from, from + 1, false)
    }
}

/// The samples of chunks, one chunk after the other.
pub open spec fn slot_samples(c: Seq<Slot>) -> Seq<Sample>
    decreases c.len(),
{
    if c.len() == 0 {
        Seq::empty()
    } else {
        slot_samples(c.drop_last()) + c.last().samples
    }
}

proof fn lemma_slot_add(a: Seq<Slot>, b: Seq<Slot>)
    ensures
        slot_samples(a + b) == slot_samples(a) + slot_samples(b),
    decreases b.len(),
{
    if b.len() == 0 {
        assert(a + b =~= a);
        assert(slot_samples(a) + slot_samples(b) =~= slot_samples(a));
    } else {
        assert((a + b).drop_last() =~= a + b.drop_last());
        assert((a + b).last() == b.last());
        lemma_slot_add(a, b.drop_last());
        assert(slot_samples(a + b) =~= slot_samples(a) + slot_samples(b));
    }
}

proof fn lemma_slot_one(s: Slot)
    ensures
        slot_samples(seq![s]) == s.samples,
{
    assert(seq![s].drop_last() =~= Seq::<Slot>::empty());
    assert(slot_samples(seq![s].drop_last()) =~= Seq::<Sample>::empty());
    assert(slot_samples(seq![s]) =~= s.samples);
}

proof fn lemma_slot_empty(c: Seq<Slot>)
    requires
        forall|i: int| 0 <= i < c.len() ==> (#[trigger] c[i]).samples.len() == 0,
    ensures
        slot_samples(c) == Seq::<Sample>::empty(),
    decreases c.len(),
{
    if c.len() > 0 {
        assert forall|i: int| 0 <= i < c.drop_last().len() implies (
        #[trigger] c.drop_last()[i]).samples.len() == 0 by {
            assert(c.drop_last()[i] == c[i]);
        }
        lemma_slot_empty(c.drop_last());
        assert(c[c.len() - 1].samples.len() == 0);
        assert(slot_samples(c) =~= Seq::<Sample>::empty());
    }
}

/// The parts around two chunks that have nothing between them.
proof fn lemma_slot_around(c: Seq<Slot>, to: int, from: int)
    requires
        0 <= to < from < c.len(),
        forall|i: int| to < i < from ==> (#[trigger] c[i]).samples.len() == 0,
    ensures
        slot_samples(c) == slot_samples(c.take(to)) + c[to].samples + c[from].samples
            + slot_samples(c.skip(from + 1)),
{
    let a = c.take(to);
    let m = c.subrange(to + 1, from);
    let z = c.skip(from + 1);
    assert(c =~= a + seq![c[to]] + m + seq![c[from]] + z);
    lemma_slot_add(a, seq![c[to]]);
    lemma_slot_add(a + seq![c[to]], m);
    lemma_slot_add(a + seq![c[to]] + m, seq![c[from]]);
    lemma_slot_add(a + seq![c[to]] + m + seq![c[from]], z);
    lemma_slot_one(c[to]);
    lemma_slot_one(c[from]);
    assert forall|i: int| 0 <= i < m.len() implies (#[trigger] m[i]).samples.len() == 0 by {
        assert(m[i] == c[to + 1 + i]);
    }
    lemma_slot_empty(m);
    assert(slot_samples(a) + c[to].samples + slot_samples(m) =~= slot_samples(a)
        + c[to].samples);
}

/// One chunk taking over samples of another leaves the samples as they are.
proof fn lemma_pull_keeps(c: Seq<Slot>, to: int, from: int)
    requires
        0 <= to < from < c.len(),
        forall|i: int| to < i < from ==> (#[trigger] c[i]).samples.len() == 0,
    ensures
        slot_samples(pull(c, to, from)) == slot_samples(c),
        pull(c, to, from).len() == c.len(),
        forall|i: int|
            0 <= i < c.len() && i != to && i != from ==> #[trigger] pull(c, to, from)[i] == c[i],
{
    let d = pull(c, to, from);
    let n = pulled(c[to], c[from]) as int;
    lemma_slot_around(c, to, from);
    assert forall|i: int| to < i < from implies (#[trigger] d[i]).samples.len() == 0 by {
        assert(d[i] == c[i]);
    }
    lemma_slot_around(d, to, from);
    assert(d.take(to) =~= c.take(to));
    assert(d.skip(from + 1) =~= c.skip(from + 1));
    let a = slot_samples(c.take(to));
    let z = slot_samples(c.skip(from + 1));
    let x = c[to].samples;
    let y = c[from].samples;
    assert(a + (x + y.take(n)) + y.skip(n) + z =~= a + x + y + z);
}

/// Packing chunks loses no sample and moves none.
pub proof fn law_packing_keeps_samples(c: Seq<Slot>, to: int, from: int, going: bool)
    requires
        0 <= to < from <= c.len(),
        forall|i: int| to < i < from ==> (#[trigger] c[i]).samples.len() == 0,
    ensures
        slot_samples(packed(c, to, from, going)) == slot_samples(c),
        packed(c, to, from, going).len() == c.len(),
    decreases c.len() - from,
{
    if from >= c.len() {
    } else if !going && c[from].samples.len() == 0 {
        law_packing_keeps_samples(c, to, from + 1, false);
    } else if c[from].samples.len() > 0 && pulled(c[to], c[from]) > 0 {
        lemma_pull_keeps(c, to, from);
        let d = pull(c, to, from);
        if pulled(c[to], c[from]) == c[from].samples.len() {
            assert forall|i: int| to < i < from + 1 implies (#[trigger] d[i]).samples.len()
                == 0 by {
                if i < from {
                    assert(d[i] == c[i]);
                }
            }
            law_packing_keeps_samples(d, to, from + 1, true);
        } else {
            reveal_with_fuel(packed, 2);
            if from + 1 < d.len() {
                assert(pulled(d[to], d[from + 1]) == 0 || d[from + 1].samples.len() == 0);
                law_packing_keeps_samples(d, from + 1, from + 2, false);
            }
        }
    } else {
        law_packing_keeps_samples(c, from, from + 1, false);
    }
}

proof fn lemma_slots_flat(chunks: Seq<TimeSeriesChunk>)
    ensures
        slot_samples(slots(chunks)) == flat(chunks),
    decreases chunks.len(),
{
    if chunks.len() > 0 {
        lemma_slots_flat(chunks.drop_last());
        assert(slots(chunks).drop_last() =~= slots(chunks.drop_last()));
    }
}

proof fn lemma_occupied_flat(c: Seq<Slot>)
    ensures
        slot_samples(occupied(c)) == slot_samples(c),
    decreases c.len(),
{
    reveal(Seq::filter);
    if c.len() > 0 {
        lemma_occupied_flat(c.drop_last());
        let less = occupied(c.drop_last());
        if c.last().samples.len() > 0 {
            assert(occupied(c) == less.push(c.last()));
            assert(less.push(c.last()).drop_last() =~= less);
        } else {
            assert(slot_samples(c.drop_last()) + c.last().samples =~= slot_samples(
                c.drop_last(),
            ));
        }
    }
}

/// Of two chunks of a series, all samples of the one are older than those of the other.
proof fn lemma_chunks_apart(chunks: Seq<TimeSeriesChunk>, i: int, j: int)
    requires
        is_strictly_sorted(flat(chunks)),
        0 <= i < j < chunks.len(),
    ensures
        is_strictly_sorted(chunks[i]@),
        is_strictly_sorted(chunks[j]@),
        forall|x: int, y: int|
            #![trigger chunks[i]@[x], chunks[j]@[y]]
            0 <= x < chunks[i]@.len() && 0 <= y < chunks[j]@.len() ==> chunks[i]@[x].timestamp
                < chunks[j]@[y].timestamp,
        forall|y: int| 0 <= y < chunks[j]@.len() ==> flat(chunks).contains(#[trigger] chunks[j]@[y]),
{
    lemma_flat_at(chunks, j);
    let a = flat(chunks.take(j));
    let b = chunks[j]@;
    let c = flat(chunks.skip(j + 1));
    lemma_part_strict(a, b, c);
    assert forall|y: int| 0 <= y < b.len() implies flat(chunks).contains(#[trigger] b[y]) by {
        assert(flat(chunks)[a.len() + y] == b[y]);
    }
    let head = chunks.take(j);
    assert(head[i] == chunks[i]);
    lemma_flat_at(head, i);
    let a2 = flat(head.take(i));
    let b2 = head[i]@;
    let c2 = flat(head.skip(i + 1));
    lemma_part_strict(a2, b2, c2);
    assert forall|x: int, y: int|
        #![trigger chunks[i]@[x], chunks[j]@[y]]
        0 <= x < chunks[i]@.len() && 0 <= y < chunks[j]@.len() implies chunks[i]@[x].timestamp
        < chunks[j]@[y].timestamp by {
        assert(a[a2.len() + x] == b2[x]);
        assert(a[a2.len() + x].timestamp < b[y].timestamp);
    }
}

/// Between chunks of a series, samples move as they are.
proof fn lemma_moved_in_order<F: Fn(u64, u64) -> u64>(
    dest: Slot,
    src: Slot,
    floor: Timestamp,
    policy: DuplicatePolicy,
    sum: F,
)
    requires
        is_strictly_sorted(dest.samples),
        is_strictly_sorted(src.samples),
        forall|x: int, y: int|
            #![trigger dest.samples[x], src.samples[y]]
            0 <= x < dest.samples.len() && 0 <= y < src.samples.len() ==> dest.samples[x].timestamp
                < src.samples[y].timestamp,
        forall|y: int| 0 <= y < src.samples.len() ==> floor <= (#[trigger] src.samples[y]).timestamp,
        src.samples.len() <= usize::MAX,
    ensures
        ({
            let n = pulled(dest, src) as int;
            let m = moved(dest.samples, dest.limit, src.samples, floor, policy, sum);
            if src.samples.len() == 0 || n == 0 {
                m == Ok::<Option<(Seq<Sample>, Seq<Sample>, nat)>, TsdbError>(None)
            } else {
                m matches Ok(Some((d, s, _))) && d == dest.samples + src.samples.take(n) && s
                    == src.samples.skip(n)
            }
        }),
{
    let n = pulled(dest, src) as int;
    if src.samples.len() > 0 && n > 0 {
        lemma_all_from_floor(src.samples, floor);
        let live = within(src.samples, floor, i64::MAX);
        assert(live == src.samples);
        let part = live.take(n);
        let full = dest.samples.len() >= dest.limit;
        assert(!full);
        assert(part[0] == src.samples[0]);
        if dest.samples.len() > 0 {
            assert(dest.samples[dest.samples.len() - 1].timestamp < src.samples[0].timestamp);
        }
        if part.len() == 1 {
            assert(dest.samples.push(part[0]) =~= dest.samples + part);
            assert(seq![part[0]] =~= Seq::<Sample>::empty() + part);
            if dest.samples.len() == 0 {
                assert(dest.samples + part =~= seq![part[0]]);
            }
        }
        let r = merge_into(dest.samples, full, part, policy, sum);
        assert(r is Ok);
        assert(r->Ok_0.0 == dest.samples + part);
        if n == src.samples.len() {
            assert(src.samples.skip(n) =~= Seq::<Sample>::empty());
        }
    }
}

/// Takes a chunk out of a list, and leaves an empty one in its place.
fn take_chunk(chunks: &mut Vec<TimeSeriesChunk>, at: usize) -> (r: TimeSeriesChunk)
    requires
        at < old(chunks)@.len(),
    ensures
        r == old(chunks)@[at as int],
        final(chunks)@.len() == old(chunks)@.len(),
        forall|i: int|
            0 <= i < final(chunks)@.len() && i != at ==> final(chunks)@[i] == old(chunks)@[i],
{
    let mut chunk = TimeSeriesChunk::new(ChunkEncoding::Uncompressed, 0);
    std::mem::swap(&mut chunk, &mut chunks[at]);
    chunk
}

/// Compacts a series in place: drops expired samples, moves samples into the chunk before where
/// that has room, and drops the chunks that this empties.
#[verifier::rlimit(40)]
pub fn defrag_series<A: Aggregation, F: Fn(u64, u64) -> u64>(
    series: &mut TimeSeries<A>,
    sum: &F,
) -> (r: Result<(), TsdbError>)
    requires
        old(series).wf(),
        is_sum(*sum),
    ensures
        r is Ok,
        final(series).wf(),
        final(series).same_frame(*old(series)),
        final(series).samples() == from_floor(old(series).samples(), old(series).min_timestamp()),
        slots(final(series).chunks@) == defragged(
            trimmed_slots(
                slots(old(series).chunks@),
                old(series).retention,
                old(series).min_timestamp(),
            ),
        ),
{
    let floor: Timestamp = series.get_min_timestamp();
    match series.trim() {
        Ok(_) => {},
        Err(e) => {
            return Err(e);
        },
    }
    let n: usize = series.chunks.len();
    if n < 2 {
        return Ok(());
    }
    let policy: Option<DuplicatePolicy> = series.sample_duplicates.policy;
    let ghost trimmed = *series;
    let ghost start = slots(series.chunks@);
    let ghost all = series.samples();
    proof {
        lemma_slots_flat(series.chunks@);
        lemma_from_floor_bound(old(series).samples(), floor);
    }
    let mut to: usize = 0;
    let mut from: usize = 1;
    let mut going: bool = false;
    while from < n
        invariant
            0 <= to < from <= n,
            n == series.chunks@.len(),
            n == start.len(),
            is_sum(*sum),
            series.same_frame(trimmed),
            trimmed.wf(),
            is_strictly_sorted(all),
            flat(series.chunks@) == all,
            forall|i: int| 0 <= i < all.len() ==> floor <= (#[trigger] all[i]).timestamp,
            packed(start, 0, 1, false) == packed(
                slots(series.chunks@),
                to as int,
                from as int,
                going,
            ),
            (forall|i: int|
                to < i < from ==> (#[trigger] series.chunks@[i])@.len() == 0)
                || series.chunks@[to as int]@.len() >= series.chunks@[to as int].limit(),
        decreases n - from,
    {
        let ghost now = series.chunks@;
        let ghost c = slots(now);
        if !going && series.chunks[from].is_empty() {
            from += 1;
            continue;
        }
        proof {
            lemma_chunks_apart(now, to as int, from as int);
            assert forall|y: int| 0 <= y < now[from as int]@.len() implies floor <= (
            #[trigger] now[from as int]@[y]).timestamp by {
                assert(all.contains(now[from as int]@[y]));
            }
            assert(now[from as int].inner().samples.len() == now[from as int]@.len());
            lemma_moved_in_order(
                c[to as int],
                c[from as int],
                floor,
                policy_or_last(policy),
                *sum,
            );
        }
        let mut dest: TimeSeriesChunk = take_chunk(&mut series.chunks, to);
        let mut src: TimeSeriesChunk = take_chunk(&mut series.chunks, from);
        let moved_some: bool = match merge_by_capacity(&mut dest, &mut src, floor, policy, sum) {
            Ok(Some(_)) => true,
            _ => false,
        };
        series.chunks.set(to, dest);
        series.chunks.set(from, src);
        proof {
            let d = slots(series.chunks@);
            if moved_some {
                assert(d =~= pull(c, to as int, from as int));
                assert forall|i: int| to < i < from implies (#[trigger] c[i]).samples.len()
                    == 0 by {
                    assert(now[i]@.len() == 0);
                }
                lemma_pull_keeps(c, to as int, from as int);
                if pulled(c[to as int], c[from as int]) == c[from as int].samples.len() {
                    assert forall|i: int| to < i < from + 1 implies (
                    #[trigger] series.chunks@[i])@.len() == 0 by {
                        if i < from {
                            assert(series.chunks@[i] == now[i]);
                        }
                    }
                }
            } else {
                assert(d =~= c);
            }
            lemma_slots_flat(now);
            lemma_slots_flat(series.chunks@);
        }
        if moved_some {
            going = true;
        } else {
            to = from;
            going = false;
        }
        from += 1;
    }
    series.drop_empty_chunks();
    series.recalculate_total_samples();
    series.update_first_last_timestamps();
    Ok(())
}

/// The chunks of a series after its expired samples were dropped.
pub open spec fn trimmed_slots(c: Seq<Slot>, retention: u64, floor: Timestamp) -> Seq<Slot> {
    if retention == 0 {
        c
    } else {
        occupied(without(c, i64::MIN, (floor - 1) as i64))
    }
}

/// The chunks of a series after it was packed.
pub open spec fn defragged(c: Seq<Slot>) -> Seq<Slot> {
    if c.len() < 2 {
        c
    } else {
        occupied(packed(c, 0, 1, false))
    }
}

proof fn lemma_from_floor_bound(s: Seq<Sample>, floor: Timestamp)
    ensures
        forall|i: int|
            0 <= i < from_floor(s, floor).len() ==> floor <= (#[trigger] from_floor(
                s,
                floor,
            )[i]).timestamp,
{
    broadcast use vstd::seq_lib::group_filter_ensures;

    let p = |x: Sample| floor <= x.timestamp <= i64::MAX;
    assert forall|i: int| 0 <= i < from_floor(s, floor).len() implies floor <= (
    #[trigger] from_floor(s, floor)[i]).timestamp by {
        assert(p(s.filter(p)[i]));
    }
}

} // verus!
