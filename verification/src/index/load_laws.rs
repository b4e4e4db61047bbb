//! What is known of a load, and how an index is gone over after it.
use crate::index::load::{stats_map, summed, LoadStats};
use crate::index::persistence::with_series;
use crate::index::state_laws::total;
use crate::index::sweep::{dead_count, past};
use crate::postings::Postings;
use vstd::arithmetic::div_mod::lemma_add_mod_noop;
use vstd::prelude::*;

verus! {

/// The sum of a load counts its series, adds up the hashes of those whose keys are known, and says
/// whether one is not known.
pub proof fn law_summed(hashes: Seq<Option<u64>>)
    requires
        hashes.len() <= u64::MAX,
    ensures
        summed(hashes).count == hashes.len(),
        summed(hashes).incomplete <==> hashes.contains(None),
        summed(hashes).digest == total(
            hashes.map_values(
                |h: Option<u64>|
                    if h is Some {
                        h->0 as nat
                    } else {
                        0nat
                    },
            ),
        ) % 0x1_0000_0000_0000_0000,
    decreases hashes.len(),
{
    let of = |h: Option<u64>|
        if h is Some {
            h->0 as nat
        } else {
            0nat
        };
    let numbers = hashes.map_values(of);
    if hashes.len() > 0 {
        let less = hashes.drop_last();
        let last = hashes.last();
        law_summed(less);
        assert(numbers.drop_last() =~= less.map_values(of));
        assert(numbers.last() == of(last));
        assert(hashes[hashes.len() - 1] == last);
        assert(hashes.contains(None) <==> less.contains(None) || last is None) by {
            if less.contains(None) {
                let i = choose|i: int| 0 <= i < less.len() && less[i] == None::<u64>;
                assert(hashes[i] == None::<u64>);
            }
            if hashes.contains(None) {
                let i = choose|i: int| 0 <= i < hashes.len() && hashes[i] == None::<u64>;
                if i < less.len() {
                    assert(less[i] == None::<u64>);
                }
            }
        }
        let before = total(less.map_values(of));
        lemma_add_mod_noop(before as int, of(last) as int, 0x1_0000_0000_0000_0000);
    }
}

/// Of the databases of a list each has what it is listed with for the last time.
pub proof fn law_stats_listed(v: Seq<(i32, LoadStats)>, db: i32)
    ensures
        forall|i: int| #[trigger]
            is_last_stats(v, db, i) ==> stats_map(v).contains_key(db) && stats_map(v)[db] == v[i].1,
        (forall|i: int| 0 <= i < v.len() ==> (#[trigger] v[i]).0 != db) ==> !stats_map(
            v,
        ).contains_key(db),
    decreases v.len(),
{
    if v.len() > 0 {
        let less = v.drop_last();
        let n = v.len() - 1;
        law_stats_listed(less, db);
        if v.last().0 == db {
            assert forall|i: int| #[trigger] is_last_stats(v, db, i) implies i == n by {
                if i < n {
                    assert(v[n].0 != db);
                }
            }
        } else {
            assert forall|i: int| #[trigger] is_last_stats(v, db, i) implies is_last_stats(
                less,
                db,
                i,
            ) by {
                assert forall|j: int| i < j < less.len() implies (#[trigger] less[j]).0 != db by {
                    assert(v[j].0 != db);
                }
            }
            if forall|i: int| 0 <= i < v.len() ==> (#[trigger] v[i]).0 != db {
                assert forall|i: int| 0 <= i < less.len() implies (#[trigger] less[i]).0 != db by {
                    assert(v[i].0 != db);
                }
            }
        }
        assert(v[n].0 == v.last().0);
    }
}

/// An entry of a list is the last for a database.
pub open spec fn is_last_stats(v: Seq<(i32, LoadStats)>, db: i32, i: int) -> bool {
    &&& 0 <= i < v.len()
    &&& v[i].0 == db
    &&& forall|j: int| i < j < v.len() ==> (#[trigger] v[j]).0 != db
}

/// What was told off is what was found not to be alive.
pub proof fn law_dead(alive: Seq<bool>)
    ensures
        dead_count(alive) == alive.filter(|a: bool| !a).len(),
    decreases alive.len(),
{
    reveal(Seq::filter);
    if alive.len() > 0 {
        law_dead(alive.drop_last());
    }
}

/// The next window starts right behind the last id of one; there is none where there is no id behind
/// it.
pub proof fn law_next_window(ids: Seq<u64>)
    ensures
        past(ids) is None <==> ids.len() == 0 || ids.last() == u64::MAX,
        past(ids) matches Some(cursor) ==> forall|id: u64|
            #![trigger ids.contains(id)]
            cursor <= id <==> ids.last() < id,
{
}

/// A database has an index with series in it.
pub open spec fn has_series(index: Option<&Postings>) -> bool {
    index is Some && index->0.keys().dom().len() > 0
}

/// A snapshot holds the databases of an order that have series, in that order, each with its index.
pub proof fn law_saved(dbs: Seq<(i32, Option<&Postings>)>, order: Seq<usize>)
    ensures
        with_series(dbs, order) == order.filter(
            |n: usize| has_series(dbs[n as int].1),
        ).map_values(|n: usize| (dbs[n as int].0, *dbs[n as int].1->0)),
    decreases order.len(),
{
    reveal(Seq::filter);
    let has = |n: usize| has_series(dbs[n as int].1);
    let of = |n: usize| (dbs[n as int].0, *dbs[n as int].1->0);
    if order.len() > 0 {
        let less = order.drop_last();
        law_saved(dbs, less);
        assert(order.filter(has).map_values(of) =~= if has(order.last()) {
            less.filter(has).map_values(of).push(of(order.last()))
        } else {
            less.filter(has).map_values(of)
        });
    } else {
        assert(order.filter(has).map_values(of) =~= Seq::<(i32, Postings)>::empty());
    }
}

} // verus!
