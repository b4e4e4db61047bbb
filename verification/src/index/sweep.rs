//! Going over an index id by id, a window at a time.
//!
//! Between two windows the index may change, so each window is read afresh from where the last one
//! ended.
use crate::bytes::bytes_copy;
use crate::postings::stale::{lemma_push_contains, pass_without};
use crate::postings::{Postings, SeriesRef};
use vstd::prelude::*;

verus! {

/// How many ids a window holds.
pub const RECONCILE_BATCH_SIZE: usize = 256;

/// The ids are the first ones, from the cursor on, of those that have a key.
pub open spec fn is_window(names: Map<u64, Seq<u8>>, cursor: u64, limit: nat, ids: Seq<u64>) -> bool {
    &&& ids.len() <= limit
    &&& forall|i: int, j: int| 0 <= i < j < ids.len() ==> ids[i] < ids[j]
    &&& forall|i: int|
        0 <= i < ids.len() ==> names.contains_key(#[trigger] ids[i]) && cursor <= ids[i]
    &&& forall|id: u64| #[trigger]
        names.contains_key(id) && cursor <= id ==> ids.contains(id) || (ids.len() == limit
            && limit > 0 && ids.last() < id)
}

/// The first ids, from the cursor on, of those that have a key.
pub fn window_from(postings: &Postings, cursor: u64, limit: usize) -> (r: Vec<u64>)
    requires
        limit > 0,
    ensures
        is_window(postings.keys(), cursor, limit as nat, r@),
{
    let ids = postings.ids_in_order();
    let mut i: usize = 0;
    while i < ids.len() && ids[i] < cursor
        invariant
            i <= ids@.len(),
            forall|k: int| 0 <= k < i ==> ids@[k] < cursor,
        decreases ids.len() - i,
    {
        i += 1;
    }
    let mut out: Vec<u64> = Vec::new();
    let start: usize = i;
    while i < ids.len() && out.len() < limit
        invariant
            start <= i <= ids@.len(),
            out@.len() <= limit,
            out@ == ids@.subrange(start as int, i as int),
        decreases ids.len() - i,
    {
        out.push(ids[i]);
        i += 1;
    }
    proof {
        let names = postings.keys();
        assert forall|k: int| 0 <= k < out@.len() implies names.contains_key(#[trigger] out@[k])
            && cursor <= out@[k] by {
            assert(out@[k] == ids@[start + k]);
            assert(ids@[start as int] >= cursor);
        }
        assert forall|id: u64| #[trigger] names.contains_key(id) && cursor <= id implies out@.contains(
            id,
        ) || (out@.len() == limit && out@.last() < id) by {
            assert(ids@.contains(id));
            let k = choose|k: int| 0 <= k < ids@.len() && ids@[k] == id;
            assert(k >= start);
            if k < i {
                assert(out@[k - start] == id);
            } else {
                assert(out@.last() == ids@[i - 1]);
            }
        }
    }
    out
}

/// The ids of a window that were told off.
pub open spec fn told_off(ids: Seq<u64>, alive: Seq<bool>) -> Set<u64> {
    Set::new(|id: u64| exists|i: int| 0 <= i < ids.len() && #[trigger] ids[i] == id && !alive[i])
}

/// Where the next window starts: past the last id, or nowhere.
pub open spec fn past(ids: Seq<u64>) -> Option<u64> {
    if ids.len() == 0 || ids.last() == u64::MAX {
        None
    } else {
        Some((ids.last() + 1) as u64)
    }
}

/// Goes over an index and marks for removal what has no series.
#[derive(Debug, Clone, Copy, PartialEq, Eq, Structural)]
pub struct Reconciliation {
    /// Where the next window starts; nowhere, once all is done.
    pub cursor: Option<u64>,
    /// How many ids were looked at.
    pub checked: u64,
    /// How many of them had no series.
    pub dangling: u64,
}

impl Reconciliation {
    /// Starts at the first id.
    pub fn new() -> (r: Self)
        ensures
            r == (Reconciliation { cursor: Some(0), checked: 0, dangling: 0 }),
    {
        Reconciliation { cursor: Some(0), checked: 0, dangling: 0 }
    }

    /// The ids to look at next, with their keys; none, where all is done.
    pub fn window(&self, postings: &Postings) -> (r: Vec<(SeriesRef, Vec<u8>)>)
        ensures
            match self.cursor {
                Some(c) => is_window(
                    postings.keys(),
                    c,
                    RECONCILE_BATCH_SIZE as nat,
                    window_ids(r@),
                ) && forall|i: int|
                    0 <= i < r@.len() ==> (#[trigger] r@[i]).1@ == postings.keys()[r@[i].0],
                None => r@.len() == 0,
            },
    {
        let mut out: Vec<(SeriesRef, Vec<u8>)> = Vec::new();
        let cursor: u64 = match self.cursor {
            Some(c) => c,
            None => {
                return out;
            },
        };
        let ids = window_from(postings, cursor, RECONCILE_BATCH_SIZE);
        let mut i: usize = 0;
        while i < ids.len()
            invariant
                i <= ids@.len(),
                is_window(postings.keys(), cursor, RECONCILE_BATCH_SIZE as nat, ids@),
                out@.len() == i,
                forall|k: int| 0 <= k < i ==> (#[trigger] out@[k]).0 == ids@[k],
                forall|k: int|
                    0 <= k < i ==> (#[trigger] out@[k]).1@ == postings.keys()[out@[k].0],
            decreases ids.len() - i,
        {
            assert(postings.keys().contains_key(ids@[i as int]));
            let key: Vec<u8> = match postings.get_key_by_id(ids[i]) {
                Some(k) => bytes_copy(k.as_slice()),
                None => Vec::new(),
            };
            out.push((ids[i], key));
            i += 1;
        }
        assert(window_ids(out@) =~= ids@);
        out
    }

    /// Marks the ids of a window that turned out to have no series, and moves on.
    pub fn absorb(
        &mut self,
        postings: &mut Postings,
        window: &Vec<(SeriesRef, Vec<u8>)>,
        alive: &Vec<bool>,
    )
        requires
            old(postings).wf(),
            window@.len() == alive@.len(),
            old(self).checked + window@.len() <= u64::MAX,
            old(self).dangling <= old(self).checked,
        ensures
            final(postings).wf(),
            final(postings).terms() == old(postings).terms(),
            final(postings).keys() == old(postings).keys().remove_keys(
                told_off(window_ids(window@), alive@),
            ),
            final(postings).stale() == old(postings).stale().union(
                told_off(window_ids(window@), alive@),
            ),
            final(postings).stale_ids.retiring() == pass_without(
                old(postings).stale_ids.retiring(),
                told_off(window_ids(window@), alive@),
            ),
            final(postings).all() == old(postings).all().difference(
                told_off(window_ids(window@), alive@),
            ),
            final(self).cursor == past(window_ids(window@)),
            final(self).checked == old(self).checked + window@.len(),
            final(self).dangling == old(self).dangling + dead_count(alive@),
            final(self).dangling <= final(self).checked,
    {
        let mut missing: Vec<SeriesRef> = Vec::new();
        let mut i: usize = 0;
        let ghost ids = window_ids(window@);
        assert(alive@.take(0) =~= Seq::<bool>::empty());
        while i < window.len()
            invariant
                i <= window@.len(),
                window@.len() == alive@.len(),
                ids == window_ids(window@),
                missing@.len() == dead_count(alive@.take(i as int)),
                missing@.len() <= i,
                forall|x: u64| #[trigger]
                    missing@.contains(x) == told_off(ids.take(i as int), alive@.take(i as int)).contains(
                        x,
                    ),
            decreases window.len() - i,
        {
            let ghost before = missing@;
            let ghost told = told_off(ids.take(i as int), alive@.take(i as int));
            let ghost told_now = told_off(ids.take(i + 1), alive@.take(i + 1));
            assert(alive@.take(i + 1).drop_last() =~= alive@.take(i as int));
            let id: u64 = window[i].0;
            if !alive[i] {
                missing.push(id);
            }
            proof {
                assert forall|x: u64| #[trigger] missing@.contains(x) == told_now.contains(x) by {
                    lemma_told_off_more(ids, alive@, i as int, x);
                    if !alive@[i as int] {
                        lemma_push_contains(before, id, x);
                    } else {
                        assert(missing@ == before);
                    }
                    assert(before.contains(x) == told.contains(x));
                }
            }
            i += 1;
        }
        proof {
            assert(ids.take(i as int) =~= ids);
            assert(alive@.take(i as int) =~= alive@);
            assert(missing@.to_set() =~= told_off(ids, alive@));
        }
        if missing.len() > 0 {
            postings.mark_ids_as_stale(missing.as_slice());
        } else {
            proof {
                assert(told_off(ids, alive@) =~= Set::<u64>::empty()) by {
                    assert forall|x: u64| !told_off(ids, alive@).contains(x) by {
                        assert(!missing@.contains(x));
                    }
                }
                assert(postings.keys() =~= old(postings).keys().remove_keys(
                    told_off(ids, alive@),
                ));
                assert(postings.stale() =~= old(postings).stale().union(told_off(ids, alive@)));
                if let Some(p) = old(postings).stale_ids.retiring() {
                    assert(p =~= p.difference(told_off(ids, alive@)));
                }
                assert(postings.all() =~= old(postings).all().difference(told_off(ids, alive@)));
            }
        }
        self.checked = self.checked + window.len() as u64;
        self.dangling = self.dangling + missing.len() as u64;
        self.cursor = if window.len() == 0 {
            None
        } else {
            let last: u64 = window[window.len() - 1].0;
            if last == u64::MAX {
                None
            } else {
                Some(last + 1)
            }
        };
    }
}

impl Default for Reconciliation {
    fn default() -> (r: Self)
        ensures
            r == (Reconciliation { cursor: Some(0), checked: 0, dangling: 0 }),
    {
        Reconciliation::new()
    }
}

/// The ids of a window.
pub open spec fn window_ids(window: Seq<(SeriesRef, Vec<u8>)>) -> Seq<u64> {
    window.map_values(|w: (SeriesRef, Vec<u8>)| w.0)
}

/// How many were told off.
pub open spec fn dead_count(alive: Seq<bool>) -> nat
    decreases alive.len(),
{
    if alive.len() == 0 {
        0
    } else {
        dead_count(alive.drop_last()) + if alive.last() {
            0nat
        } else {
            1nat
        }
    }
}

proof fn lemma_told_off_more(ids: Seq<u64>, alive: Seq<bool>, i: int, x: u64)
    requires
        ids.len() == alive.len(),
        0 <= i < ids.len(),
    ensures
        told_off(ids.take(i + 1), alive.take(i + 1)).contains(x) == (told_off(
            ids.take(i),
            alive.take(i),
        ).contains(x) || (ids[i] == x && !alive[i])),
{
    let a = ids.take(i + 1);
    let b = ids.take(i);
    if told_off(a, alive.take(i + 1)).contains(x) {
        let k = choose|k: int| 0 <= k < a.len() && #[trigger] a[k] == x && !alive.take(i + 1)[k];
        if k < i {
            assert(b[k] == x && !alive.take(i)[k]);
        }
    }
    if told_off(b, alive.take(i)).contains(x) {
        let k = choose|k: int| 0 <= k < b.len() && #[trigger] b[k] == x && !alive.take(i)[k];
        assert(a[k] == x && !alive.take(i + 1)[k]);
    }
    if ids[i] == x && !alive[i] {
        assert(a[i] == x && !alive.take(i + 1)[i]);
    }
}

/// Every id before the cursor that has a key has a series.
pub open spec fn settled_before(names: Map<u64, Seq<u8>>, cursor: Option<u64>, series: Set<u64>) -> bool {
    forall|id: u64| #[trigger]
        names.contains_key(id) && (match cursor {
            Some(c) => id < c,
            None => true,
        }) ==> series.contains(id)
}

/// A window whose ids are all told off or found alive settles the index up to the next one; once
/// there is no next one, every id that is left has a series. No id that has a series is lost.
pub proof fn law_reconciliation(
    names: Map<u64, Seq<u8>>,
    cursor: u64,
    series: Set<u64>,
    ids: Seq<u64>,
    alive: Seq<bool>,
)
    requires
        settled_before(names, Some(cursor), series),
        is_window(names, cursor, RECONCILE_BATCH_SIZE as nat, ids),
        alive.len() == ids.len(),
        forall|i: int| 0 <= i < ids.len() ==> alive[i] == series.contains(#[trigger] ids[i]),
    ensures
        settled_before(names.remove_keys(told_off(ids, alive)), past(ids), series),
        forall|id: u64| #[trigger]
            names.contains_key(id) && series.contains(id) ==> names.remove_keys(
                told_off(ids, alive),
            ).contains_key(id),
{
    let after = names.remove_keys(told_off(ids, alive));
    assert forall|id: u64| #[trigger]
        after.contains_key(id) && (match past(ids) {
            Some(c) => id < c,
            None => true,
        }) implies series.contains(id) by {
        assert(names.contains_key(id));
        if cursor <= id {
            if ids.contains(id) {
                let i = choose|i: int| 0 <= i < ids.len() && ids[i] == id;
                assert(ids[i] == id);
                if !alive[i] {
                    assert(told_off(ids, alive).contains(id));
                }
            }
        }
    }
    assert forall|id: u64| #[trigger]
        names.contains_key(id) && series.contains(id) implies after.contains_key(id) by {
        if told_off(ids, alive).contains(id) {
            let i = choose|i: int| 0 <= i < ids.len() && #[trigger] ids[i] == id && !alive[i];
            assert(alive[i] == series.contains(ids[i]));
        }
    }
}

} // verus!
