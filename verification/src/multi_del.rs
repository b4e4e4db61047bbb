//! Deleting from many series at once.
//!
//! The series are fetched in batches. A round of a batch looks up the keys of the next ids; the
//! caller opens them, as the index must not be held meanwhile, and tells what it found. A batch
//! that is not full goes on with another round, until there are no more ids.
use crate::bytes::bytes_copy;
use crate::postings::stale::pass_without;
use crate::postings::{Postings, SeriesRef};
use vstd::prelude::*;

verus! {

/// The least number of series in a batch.
pub const MIN_BATCH_SIZE: usize = 32;

/// How many series a batch takes: an even share for each thread, but no fewer than the least
/// number.
pub open spec fn batch_share(cardinality: int, threads: int) -> int {
    let threads = if threads < 2 {
        2
    } else {
        threads
    };
    if cardinality / threads < MIN_BATCH_SIZE {
        MIN_BATCH_SIZE as int
    } else {
        cardinality / threads
    }
}

/// How many series a batch takes.
pub fn batch_size_for(cardinality: usize, num_threads: usize) -> (r: usize)
    ensures
        r == batch_share(cardinality as int, num_threads as int),
{
    let threads: usize = if num_threads < 2 {
        2
    } else {
        num_threads
    };
    let share: usize = cardinality / threads;
    if share < MIN_BATCH_SIZE {
        MIN_BATCH_SIZE
    } else {
        share
    }
}

/// What came of opening a key.
#[derive(Debug, Clone, Copy, PartialEq, Eq, Structural)]
pub enum KeyOutcome {
    /// The caller may not delete from it.
    Denied,
    /// There is no series under it.
    Missing,
    /// There is a series under it.
    Opened,
}

/// How many of some keys have a series.
pub open spec fn opened_count(outcomes: Seq<KeyOutcome>) -> nat
    decreases outcomes.len(),
{
    if outcomes.len() == 0 {
        0
    } else {
        opened_count(outcomes.drop_last()) + if outcomes.last() == KeyOutcome::Opened {
            1nat
        } else {
            0nat
        }
    }
}

/// The ids whose keys have no series.
pub open spec fn missing_ids(ids: Seq<u64>, outcomes: Seq<KeyOutcome>) -> Seq<u64>
    decreases ids.len(),
{
    if ids.len() == 0 {
        Seq::empty()
    } else {
        let before = missing_ids(ids.drop_last(), outcomes);
        if outcomes[ids.len() - 1] == KeyOutcome::Missing {
            before.push(ids.last())
        } else {
            before
        }
    }
}

/// The ids of a list that have no key.
pub open spec fn keyless(ids: Seq<u64>, names: Map<u64, Seq<u8>>) -> Seq<u64>
    decreases ids.len(),
{
    if ids.len() == 0 {
        Seq::empty()
    } else if names.contains_key(ids.last()) {
        keyless(ids.drop_last(), names)
    } else {
        keyless(ids.drop_last(), names).push(ids.last())
    }
}

/// The ids of a list that have a key.
pub open spec fn keyed(ids: Seq<u64>, names: Map<u64, Seq<u8>>) -> Seq<u64>
    decreases ids.len(),
{
    if ids.len() == 0 {
        Seq::empty()
    } else if names.contains_key(ids.last()) {
        keyed(ids.drop_last(), names).push(ids.last())
    } else {
        keyed(ids.drop_last(), names)
    }
}

/// How far a list has to be read until so many of its ids had a key: to its end, where there are
/// fewer.
pub open spec fn reach(ids: Seq<u64>, names: Map<u64, Seq<u8>>, wanted: nat) -> nat
    decreases ids.len(),
{
    if ids.len() == 0 || wanted == 0 {
        0
    } else if names.contains_key(ids[0]) {
        1 + reach(ids.skip(1), names, (wanted - 1) as nat)
    } else {
        1 + reach(ids.skip(1), names, wanted)
    }
}

/// A batch that is being fetched.
pub struct BatchFetch {
    /// The ids of all series.
    ids: Vec<u64>,
    /// How many of them were looked at.
    at: usize,
    /// How many series the batch takes.
    batch_size: usize,
    /// How many it has.
    taken: usize,
    /// Whether there were too few ids for the last round.
    exhausted: bool,
    /// The ids that turned out to have no series.
    stale: Vec<u64>,
}

/// The ids of keys.
pub open spec fn ids_of_keys(keys: Seq<(SeriesRef, Vec<u8>)>) -> Seq<u64> {
    keys.map_values(|k: (SeriesRef, Vec<u8>)| k.0)
}

impl BatchFetch {
    /// The ids that were not looked at yet.
    pub closed spec fn rest(&self) -> Seq<u64> {
        self.ids@.skip(self.at as int)
    }

    /// How many series the batch still takes.
    pub closed spec fn wanted(&self) -> nat {
        (self.batch_size - self.taken) as nat
    }

    /// Whether there were too few ids for the last round.
    pub closed spec fn is_dry(&self) -> bool {
        self.exhausted
    }

    /// The ids that turned out to have no series.
    pub closed spec fn found_stale(&self) -> Seq<u64> {
        self.stale@
    }

    /// No more ids were looked at than there are, and no more series taken than asked for.
    pub closed spec fn wf(&self) -> bool {
        self.at <= self.ids@.len() && self.taken <= self.batch_size
    }

    /// A batch of the first series.
    pub fn new(ids: Vec<u64>, batch_size: usize) -> (r: Self)
        ensures
            r.wf(),
            r.rest() == ids@,
            r.wanted() == batch_size,
            !r.is_dry(),
            r.found_stale() == Seq::<u64>::empty(),
    {
        let r = BatchFetch {
            ids,
            at: 0,
            batch_size,
            taken: 0,
            exhausted: false,
            stale: Vec::new(),
        };
        assert(r.rest() =~= ids@);
        r
    }

    /// Goes on with the next batch.
    pub fn next_batch(&mut self)
        requires
            old(self).wf(),
        ensures
            final(self).wf(),
            final(self).rest() == old(self).rest(),
            final(self).wanted() == old(self).wanted() + old(self).has(),
            final(self).is_dry() == old(self).is_dry(),
            final(self).found_stale() == old(self).found_stale(),
            final(self).has() == 0,
    {
        self.taken = 0;
    }

    /// How many series the batch has.
    pub closed spec fn has(&self) -> nat {
        self.taken as nat
    }

    /// Whether the batch is complete: full, or as full as it gets.
    pub fn is_complete(&self) -> (r: bool)
        requires
            self.wf(),
        ensures
            r == (self.wanted() == 0 || self.is_dry()),
    {
        self.taken >= self.batch_size || self.exhausted
    }

    /// The keys of the next ids, as many as the batch still takes. An id without a key is noted.
    pub fn next_round(&mut self, postings: &Postings) -> (r: Vec<(SeriesRef, Vec<u8>)>)
        requires
            old(self).wf(),
        ensures
            final(self).wf(),
            final(self).wanted() == old(self).wanted(),
            final(self).has() == old(self).has(),
            ({
                let n = reach(old(self).rest(), postings.keys(), old(self).wanted()) as int;
                let seen = old(self).rest().take(n);
                &&& n <= old(self).rest().len()
                &&& final(self).rest() == old(self).rest().skip(n)
                &&& ids_of_keys(r@) == keyed(seen, postings.keys())
                &&& forall|i: int|
                    0 <= i < r@.len() ==> postings.keys().contains_key((#[trigger] r@[i]).0)
                        && r@[i].1@ == postings.keys()[r@[i].0]
                &&& final(self).found_stale() == old(self).found_stale() + keyless(
                    seen,
                    postings.keys(),
                )
            }),
            final(self).is_dry() == (r@.len() < old(self).wanted()),
    {
        let ghost names = postings.keys();
        let ghost rest0 = self.rest();
        let ghost stale0 = self.stale@;
        let wanted: usize = self.batch_size - self.taken;
        let mut out: Vec<(SeriesRef, Vec<u8>)> = Vec::new();
        let ghost mut n: int = 0;
        proof {
            assert(rest0.take(0) =~= Seq::<u64>::empty());
            assert(rest0.skip(0) =~= rest0);
            assert(ids_of_keys(out@) =~= Seq::<u64>::empty());
            assert(stale0 + Seq::<u64>::empty() =~= stale0);
        }
        while self.at < self.ids.len() && out.len() < wanted
            invariant
                self.wf(),
                self.ids == old(self).ids,
                self.batch_size == old(self).batch_size,
                self.taken == old(self).taken,
                wanted == self.batch_size - self.taken,
                names == postings.keys(),
                rest0 == old(self).rest(),
                0 <= n <= rest0.len(),
                self.at == old(self).at + n,
                old(self).at + rest0.len() == self.ids@.len(),
                self.rest() == rest0.skip(n),
                out@.len() <= wanted,
                ids_of_keys(out@) == keyed(rest0.take(n), names),
                forall|i: int|
                    0 <= i < out@.len() ==> names.contains_key((#[trigger] out@[i]).0)
                        && out@[i].1@ == names[out@[i].0],
                self.stale@ == stale0 + keyless(rest0.take(n), names),
                reach(rest0, names, wanted as nat) == n + reach(
                    rest0.skip(n),
                    names,
                    (wanted - out@.len()) as nat,
                ),
            decreases self.ids.len() - self.at,
        {
            let id: u64 = self.ids[self.at];
            let ghost was = out@;
            proof {
                assert(rest0.skip(n)[0] == id);
                assert(rest0.skip(n).skip(1) =~= rest0.skip(n + 1));
                assert(rest0.take(n + 1).drop_last() =~= rest0.take(n));
                assert(rest0.take(n + 1).last() == id);
            }
            match postings.get_key_by_id(id) {
                Some(key) => {
                    out.push((id, bytes_copy(key.as_slice())));
                    assert(ids_of_keys(out@) =~= ids_of_keys(was).push(id));
                },
                None => {
                    self.stale.push(id);
                    assert(self.stale@ =~= stale0 + keyless(rest0.take(n), names).push(id));
                },
            }
            self.at = self.at + 1;
            proof {
                assert(self.rest() =~= rest0.skip(n + 1));
                n = n + 1;
            }
        }
        self.exhausted = out.len() < wanted;
        proof {
            assert(ids_of_keys(out@).len() == out@.len());
            if self.at == self.ids@.len() {
                assert(rest0.skip(n).len() == 0);
            }
            assert(reach(rest0, names, wanted as nat) == n);
        }
        out
    }

    /// Takes note of what came of opening the keys of a round.
    pub fn absorb(&mut self, keys: &Vec<(SeriesRef, Vec<u8>)>, outcomes: &Vec<KeyOutcome>)
        requires
            old(self).wf(),
            keys@.len() == outcomes@.len(),
            keys@.len() <= old(self).wanted(),
        ensures
            final(self).wf(),
            final(self).rest() == old(self).rest(),
            final(self).is_dry() == old(self).is_dry(),
            final(self).wanted() == old(self).wanted() - opened_count(outcomes@),
            final(self).has() == old(self).has() + opened_count(outcomes@),
            final(self).found_stale() == old(self).found_stale() + missing_ids(
                ids_of_keys(keys@),
                outcomes@,
            ),
    {
        let ghost ids = ids_of_keys(keys@);
        let ghost stale0 = self.stale@;
        let mut i: usize = 0;
        proof {
            assert(ids.take(0) =~= Seq::<u64>::empty());
            assert(outcomes@.take(0) =~= Seq::<KeyOutcome>::empty());
            assert(stale0 + Seq::<u64>::empty() =~= stale0);
        }
        while i < keys.len()
            invariant
                i <= keys@.len(),
                keys@.len() == outcomes@.len(),
                ids == ids_of_keys(keys@),
                self.ids == old(self).ids,
                self.at == old(self).at,
                self.batch_size == old(self).batch_size,
                self.exhausted == old(self).exhausted,
                old(self).taken <= self.batch_size,
                keys@.len() <= self.batch_size - old(self).taken,
                self.taken == old(self).taken + opened_count(outcomes@.take(i as int)),
                opened_count(outcomes@.take(i as int)) <= i,
                self.stale@ == stale0 + missing_ids(ids.take(i as int), outcomes@),
            decreases keys.len() - i,
        {
            proof {
                assert(outcomes@.take(i + 1).drop_last() =~= outcomes@.take(i as int));
                assert(ids.take(i + 1).drop_last() =~= ids.take(i as int));
                assert(ids.take(i + 1).last() == keys@[i as int].0);
            }
            match outcomes[i] {
                KeyOutcome::Denied => {},
                KeyOutcome::Missing => {
                    self.stale.push(keys[i].0);
                    assert(self.stale@ =~= stale0 + missing_ids(
                        ids.take(i as int),
                        outcomes@,
                    ).push(keys@[i as int].0));
                },
                KeyOutcome::Opened => {
                    self.taken = self.taken + 1;
                },
            }
            i += 1;
        }
        proof {
            assert(outcomes@.take(i as int) =~= outcomes@);
            assert(ids.take(i as int) =~= ids);
            assert(self.rest() =~= old(self).rest());
        }
    }

    /// Marks the ids that turned out to have no series for removal.
    pub fn mark_stale(&mut self, postings: &mut Postings)
        requires
            old(self).wf(),
            old(postings).wf(),
        ensures
            final(self).wf(),
            final(self).rest() == old(self).rest(),
            final(self).wanted() == old(self).wanted(),
            final(self).has() == old(self).has(),
            final(self).is_dry() == old(self).is_dry(),
            final(self).found_stale() == Seq::<u64>::empty(),
            final(postings).wf(),
            final(postings).terms() == old(postings).terms(),
            final(postings).keys() == old(postings).keys().remove_keys(
                old(self).found_stale().to_set(),
            ),
            final(postings).stale() == old(postings).stale().union(
                old(self).found_stale().to_set(),
            ),
            final(postings).stale_ids.retiring() == pass_without(
                old(postings).stale_ids.retiring(),
                old(self).found_stale().to_set(),
            ),
            final(postings).all() == old(postings).all().difference(
                old(self).found_stale().to_set(),
            ),
    {
        let mut ids: Vec<u64> = Vec::new();
        std::mem::swap(&mut ids, &mut self.stale);
        if ids.len() > 0 {
            postings.mark_ids_as_stale(ids.as_slice());
        } else {
            proof {
                assert(ids@.to_set() =~= Set::<u64>::empty());
                assert(postings.keys() =~= old(postings).keys().remove_keys(ids@.to_set()));
                assert(postings.stale() =~= old(postings).stale().union(ids@.to_set()));
                assert(postings.all() =~= old(postings).all().difference(ids@.to_set()));
                if let Some(p) = postings.stale_ids.retiring() {
                    assert(p =~= p.difference(ids@.to_set()));
                }
            }
        }
    }
}

/// A round either fills what the batch still takes or comes to the end of the ids.
pub proof fn law_round(ids: Seq<u64>, names: Map<u64, Seq<u8>>, wanted: nat)
    ensures
        reach(ids, names, wanted) <= ids.len(),
        keyed(ids.take(reach(ids, names, wanted) as int), names).len() <= wanted,
        keyed(ids.take(reach(ids, names, wanted) as int), names).len() < wanted ==> reach(
            ids,
            names,
            wanted,
        ) == ids.len(),
    decreases ids.len(),
{
    let n = reach(ids, names, wanted) as int;
    if ids.len() == 0 || wanted == 0 {
        assert(ids.take(0) =~= Seq::<u64>::empty());
    } else {
        let more = if names.contains_key(ids[0]) {
            (wanted - 1) as nat
        } else {
            wanted
        };
        law_round(ids.skip(1), names, more);
        let m = reach(ids.skip(1), names, more) as int;
        let tail = ids.skip(1).take(m);
        assert(ids.take(n) =~= seq![ids[0]] + tail);
        lemma_keyed_first(ids[0], tail, names);
    }
}

proof fn lemma_keyed_first(id: u64, tail: Seq<u64>, names: Map<u64, Seq<u8>>)
    ensures
        keyed(seq![id] + tail, names).len() == keyed(tail, names).len() + if names.contains_key(id) {
            1nat
        } else {
            0nat
        },
    decreases tail.len(),
{
    let all = seq![id] + tail;
    if tail.len() == 0 {
        assert(all.drop_last() =~= Seq::<u64>::empty());
        assert(all.last() == id);
        assert(keyed(all.drop_last(), names) =~= Seq::<u64>::empty());
    } else {
        lemma_keyed_first(id, tail.drop_last(), names);
        assert(all.drop_last() =~= seq![id] + tail.drop_last());
        assert(all.last() == tail.last());
    }
}

/// How many samples were deleted in all; a number that is too large counts as the largest.
pub open spec fn deleted_total(deleted: Seq<Option<usize>>) -> nat
    decreases deleted.len(),
{
    if deleted.len() == 0 {
        0
    } else {
        deleted_total(deleted.drop_last()) + match deleted.last() {
            Some(n) => n as nat,
            None => 0,
        }
    }
}

/// The numbers of the series that lost samples.
pub open spec fn changed_series(deleted: Seq<Option<usize>>) -> Seq<usize>
    decreases deleted.len(),
{
    if deleted.len() == 0 {
        Seq::empty()
    } else {
        let before = changed_series(deleted.drop_last());
        match deleted.last() {
            Some(n) => if n > 0 {
                before.push((deleted.len() - 1) as usize)
            } else {
                before
            },
            None => before,
        }
    }
}

/// What a batch of deletions comes to: how many samples were deleted, and which series have to be
/// told of it. A series whose deletion failed, or that lost nothing, does not count.
pub fn sum_up_deletions(deleted: &Vec<Option<usize>>) -> (r: (usize, Vec<usize>))
    ensures
        r.0 == if deleted_total(deleted@) > usize::MAX {
            usize::MAX as nat
        } else {
            deleted_total(deleted@)
        },
        r.1@ == changed_series(deleted@),
{
    let mut total: usize = 0;
    let mut changed: Vec<usize> = Vec::new();
    let mut i: usize = 0;
    assert(deleted@.take(0) =~= Seq::<Option<usize>>::empty());
    while i < deleted.len()
        invariant
            i <= deleted@.len(),
            total == if deleted_total(deleted@.take(i as int)) > usize::MAX {
                usize::MAX as nat
            } else {
                deleted_total(deleted@.take(i as int))
            },
            changed@ == changed_series(deleted@.take(i as int)),
        decreases deleted.len() - i,
    {
        assert(deleted@.take(i + 1).drop_last() =~= deleted@.take(i as int));
        if let Some(n) = deleted[i] {
            total = total.saturating_add(n);
            if n > 0 {
                changed.push(i);
            }
        }
        i += 1;
    }
    assert(deleted@.take(i as int) =~= deleted@);
    (total, changed)
}

} // verus!
