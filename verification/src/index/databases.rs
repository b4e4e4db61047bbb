//! The indexes of all databases.
use crate::index::migration::state_of;
use crate::postings::label_index::no_terms;
use crate::postings::laws::{index_bulk, IndexState};
use crate::postings::mutation::{entries_wf, BulkIndexEntry};
use crate::postings::Postings;
use std::collections::BTreeMap;
use vstd::prelude::*;
use vstd::std_specs::btree::{increasing_seq, spec_btree_map_iter};
use vstd::std_specs::cmp::OrdSpec;
use vstd::std_specs::iter::IteratorSpec;

verus! {

/// The databases of a set, in order.
pub open spec fn lists_dbs(dbs: Set<i32>, list: Seq<i32>) -> bool {
    &&& forall|i: int, j: int| 0 <= i < j < list.len() ==> list[i] < list[j]
    &&& forall|i: int| 0 <= i < list.len() ==> dbs.contains(#[trigger] list[i])
    &&& forall|db: i32| #[trigger] dbs.contains(db) ==> list.contains(db)
}

/// The databases that a map has something for, in order.
pub fn dbs_of<V>(m: &BTreeMap<i32, V>) -> (r: Vec<i32>)
    ensures
        lists_dbs(m@.dom(), r@),
{
    let mut dbs: Vec<i32> = Vec::new();
    let ghost entries = spec_btree_map_iter(m).remaining();
    for entry in it: m.iter()
        invariant
            it.seq() == entries,
            dbs@.len() == it.index(),
            forall|i: int| 0 <= i < dbs@.len() ==> dbs@[i] == *(#[trigger] entries[i]).0,
    {
        dbs.push(*entry.0);
    }
    proof {
        assert(dbs@ =~= entries.map_values(|kv: (&i32, &V)| *kv.0));
        assert(increasing_seq(dbs@));
        assert forall|i: int, j: int| 0 <= i < j < dbs@.len() implies dbs@[i] < dbs@[j] by {
            assert(dbs@[i].cmp_spec(&dbs@[j]) is Less);
        }
        assert forall|i: int| 0 <= i < dbs@.len() implies m@.dom().contains(#[trigger] dbs@[i]) by {
            assert(m@.contains_key(*entries[i].0));
        }
        assert forall|db: i32| #[trigger] m@.dom().contains(db) implies dbs@.contains(db) by {
            assert(entries.contains((&db, &m@[db])));
            let i = choose|i: int| 0 <= i < entries.len() && entries[i] == (&db, &m@[db]);
            assert(dbs@[i] == db);
        }
    }
    dbs
}

/// The state of an index that holds nothing.
pub open spec fn empty_state() -> IndexState {
    IndexState {
        terms: no_terms(),
        keys: Map::empty(),
        all: Set::empty(),
        stale: Set::empty(),
        pass: None,
    }
}

/// The indexes of all databases. A database without an index is one whose index holds nothing.
pub struct Databases {
    indexes: BTreeMap<i32, Postings>,
}

impl Databases {
    /// The databases that have an index.
    pub closed spec fn dbs(&self) -> Set<i32> {
        self.indexes@.dom()
    }

    /// The state of the index of a database.
    pub closed spec fn state(&self, db: i32) -> IndexState {
        if self.indexes@.contains_key(db) {
            state_of(&self.indexes@[db])
        } else {
            empty_state()
        }
    }

    /// The index of a database that has one.
    pub closed spec fn index(&self, db: i32) -> Postings {
        self.indexes@[db]
    }

    /// All indexes are well formed.
    pub closed spec fn wf(&self) -> bool {
        forall|db: i32| #[trigger] self.indexes@.contains_key(db) ==> self.indexes@[db].wf()
    }

    /// Every index holds what another set of indexes holds for the database, but for one.
    pub open spec fn same_but(&self, other: Databases, db: i32) -> bool {
        forall|d: i32| d != db ==> #[trigger] self.state(d) == other.state(d)
    }

    /// No indexes.
    pub fn new() -> (r: Self)
        ensures
            r.wf(),
            r.dbs() == Set::<i32>::empty(),
            forall|db: i32| #[trigger] r.state(db) == empty_state(),
    {
        Databases { indexes: BTreeMap::new() }
    }

    /// The databases that have an index, in order.
    pub fn db_list(&self) -> (r: Vec<i32>)
        ensures
            lists_dbs(self.dbs(), r@),
    {
        dbs_of(&self.indexes)
    }

    /// The index of a database, where it has one.
    pub fn get(&self, db: i32) -> (r: Option<&Postings>)
        requires
            self.wf(),
        ensures
            r is Some == self.dbs().contains(db),
            match r {
                Some(p) => p.wf() && *p == self.index(db) && state_of(p) == self.state(db),
                None => self.state(db) == empty_state(),
            },
    {
        self.indexes.get(&db)
    }

    /// Takes the index of a database out; an empty one where it has none.
    pub fn take(&mut self, db: i32) -> (r: Postings)
        requires
            old(self).wf(),
        ensures
            final(self).wf(),
            r.wf(),
            state_of(&r) == old(self).state(db),
            final(self).state(db) == empty_state(),
            final(self).same_but(*old(self), db),
            final(self).dbs() == old(self).dbs().remove(db),
    {
        let ghost before = self.indexes@;
        let taken = self.indexes.remove(&db);
        proof {
            assert(self.indexes@ == before.remove(db));
            assert(self.dbs() =~= old(self).dbs().remove(db));
        }
        match taken {
            Some(p) => {
                assert(before.contains_key(db) && p == before[db]);
                p
            },
            None => {
                let p = Postings::new();
                proof {
                    assert(p.stale() =~= Set::<u64>::empty());
                    assert(state_of(&p) == empty_state());
                }
                p
            },
        }
    }

    /// Gives a database an index.
    pub fn put(&mut self, db: i32, postings: Postings)
        requires
            old(self).wf(),
            postings.wf(),
        ensures
            final(self).wf(),
            final(self).state(db) == state_of(&postings),
            final(self).same_but(*old(self), db),
            final(self).dbs() == old(self).dbs().insert(db),
    {
        let ghost before = self.indexes@;
        self.indexes.insert(db, postings);
        proof {
            assert(self.indexes@ == before.insert(db, postings));
            assert(self.dbs() =~= old(self).dbs().insert(db));
        }
    }

    /// Clears the index of a database.
    pub fn clear_timeseries_index(&mut self, db: i32)
        requires
            old(self).wf(),
        ensures
            final(self).wf(),
            final(self).state(db) == empty_state(),
            final(self).same_but(*old(self), db),
            final(self).dbs() == old(self).dbs().remove(db),
    {
        let _ = self.take(db);
    }

    /// Clears the indexes of all databases.
    pub fn clear_all_timeseries_indexes(&mut self)
        ensures
            final(self).wf(),
            final(self).dbs() == Set::<i32>::empty(),
            forall|db: i32| #[trigger] final(self).state(db) == empty_state(),
    {
        self.indexes.clear();
    }

    /// Clears the indexes of some databases: those that came from a snapshot whose load failed.
    pub fn discard_preloaded_indexes(&mut self, dbs: &Vec<i32>)
        requires
            old(self).wf(),
        ensures
            final(self).wf(),
            forall|db: i32| #[trigger]
                final(self).state(db) == if dbs@.contains(db) {
                    empty_state()
                } else {
                    old(self).state(db)
                },
    {
        let mut i: usize = 0;
        while i < dbs.len()
            invariant
                i <= dbs@.len(),
                self.wf(),
                forall|db: i32| #[trigger]
                    self.state(db) == if dbs@.take(i as int).contains(db) {
                        empty_state()
                    } else {
                        old(self).state(db)
                    },
            decreases dbs.len() - i,
        {
            let ghost before = *self;
            self.clear_timeseries_index(dbs[i]);
            proof {
                let (done, more) = (dbs@.take(i as int), dbs@.take(i + 1));
                assert forall|db: i32| #[trigger] self.state(db) == if more.contains(db) {
                    empty_state()
                } else {
                    old(self).state(db)
                } by {
                    if db == dbs@[i as int] {
                        assert(more[i as int] == db);
                    } else {
                        assert(self.state(db) == before.state(db));
                        if done.contains(db) {
                            let k = choose|k: int| 0 <= k < done.len() && done[k] == db;
                            assert(more[k] == db);
                        }
                        if more.contains(db) {
                            let k = choose|k: int| 0 <= k < more.len() && more[k] == db;
                            assert(done[k] == db);
                        }
                    }
                }
            }
            i += 1;
        }
        assert(dbs@.take(i as int) =~= dbs@);
    }

    /// Exchanges the indexes of two databases.
    pub fn swap_timeseries_index_dbs(&mut self, from_db: i32, to_db: i32)
        requires
            old(self).wf(),
        ensures
            final(self).wf(),
            final(self).state(from_db) == old(self).state(to_db),
            final(self).state(to_db) == old(self).state(from_db),
            forall|db: i32|
                db != from_db && db != to_db ==> #[trigger] final(self).state(db) == old(
                    self,
                ).state(db),
    {
        if from_db == to_db {
            return;
        }
        let first = self.take(from_db);
        let ghost mid = *self;
        assert(mid.state(to_db) == old(self).state(to_db));
        let second = self.take(to_db);
        let ghost gone = *self;
        self.put(from_db, second);
        let ghost half = *self;
        self.put(to_db, first);
        proof {
            assert(half.state(from_db) == old(self).state(to_db));
            assert(self.state(from_db) == half.state(from_db));
            assert forall|db: i32| db != from_db && db != to_db implies #[trigger] self.state(db)
                == old(self).state(db) by {
                assert(self.state(db) == half.state(db));
                assert(half.state(db) == gone.state(db));
                assert(gone.state(db) == mid.state(db));
                assert(mid.state(db) == old(self).state(db));
            }
        }
    }

    /// Takes over indexes that came from a snapshot.
    pub fn preload(&mut self, sections: Vec<(i32, Postings)>)
        requires
            old(self).wf(),
            forall|i: int| 0 <= i < sections@.len() ==> (#[trigger] sections@[i]).1.wf(),
        ensures
            final(self).wf(),
            forall|db: i32| #[trigger]
                final(self).state(db) == preloaded_state(sections@, db, old(self).state(db)),
    {
        let ghost all = sections@;
        let mut rest: Vec<(i32, Postings)> = sections;
        let ghost mut n: int = 0;
        proof {
            assert(all.skip(0) =~= all);
            assert(all.take(0) =~= Seq::<(i32, Postings)>::empty());
        }
        while rest.len() > 0
            invariant
                0 <= n <= all.len(),
                rest@ == all.skip(n),
                self.wf(),
                forall|i: int| 0 <= i < all.len() ==> (#[trigger] all[i]).1.wf(),
                forall|db: i32| #[trigger]
                    self.state(db) == preloaded_state(all.take(n), db, old(self).state(db)),
            decreases rest.len(),
        {
            let (db, postings) = rest.remove(0);
            let ghost before = *self;
            proof {
                assert((db, postings) == all[n]);
                assert(rest@ =~= all.skip(n + 1));
                assert(all.take(n + 1).drop_last() =~= all.take(n));
            }
            self.put(db, postings);
            proof {
                assert forall|d: i32| #[trigger] self.state(d) == preloaded_state(
                    all.take(n + 1),
                    d,
                    old(self).state(d),
                ) by {
                    if d != db {
                        assert(self.state(d) == before.state(d));
                    }
                }
                n = n + 1;
            }
        }
        assert(all.take(n) =~= all);
    }

    /// Indexes what was gathered for each database.
    pub fn index_lists(&mut self, lists: Vec<(i32, Vec<BulkIndexEntry>)>)
        requires
            old(self).wf(),
            forall|i: int| 0 <= i < lists@.len() ==> entries_wf((#[trigger] lists@[i]).1@),
        ensures
            final(self).wf(),
            forall|db: i32| #[trigger]
                final(self).state(db) == built_state(lists@, db, old(self).state(db)),
    {
        let ghost all = lists@;
        let mut rest: Vec<(i32, Vec<BulkIndexEntry>)> = lists;
        let ghost mut n: int = 0;
        proof {
            assert(all.skip(0) =~= all);
            assert(all.take(0) =~= Seq::<(i32, Vec<BulkIndexEntry>)>::empty());
        }
        while rest.len() > 0
            invariant
                0 <= n <= all.len(),
                rest@ == all.skip(n),
                self.wf(),
                forall|i: int| 0 <= i < all.len() ==> entries_wf((#[trigger] all[i]).1@),
                forall|db: i32| #[trigger]
                    self.state(db) == built_state(all.take(n), db, old(self).state(db)),
            decreases rest.len(),
        {
            let (db, entries) = rest.remove(0);
            let ghost before = *self;
            proof {
                assert((db, entries) == all[n]);
                assert(entries_wf(all[n].1@));
                assert(rest@ =~= all.skip(n + 1));
                assert(all.take(n + 1).drop_last() =~= all.take(n));
            }
            let mut postings = self.take(db);
            let ghost mid = *self;
            postings.bulk_index(entries);
            self.put(db, postings);
            proof {
                assert forall|d: i32| #[trigger] self.state(d) == built_state(
                    all.take(n + 1),
                    d,
                    old(self).state(d),
                ) by {
                    if d != db {
                        assert(self.state(d) == mid.state(d));
                        assert(mid.state(d) == before.state(d));
                    } else {
                        assert(before.state(db) == built_state(
                            all.take(n),
                            db,
                            old(self).state(db),
                        ));
                    }
                }
                n = n + 1;
            }
        }
        assert(all.take(n) =~= all);
    }
}

impl Default for Databases {
    fn default() -> (r: Self)
        ensures
            r.wf(),
            r.dbs() == Set::<i32>::empty(),
            forall|db: i32| #[trigger] r.state(db) == empty_state(),
    {
        Databases::new()
    }
}

/// The state of the index of a database after indexes came from a snapshot: that of the last one
/// for the database.
pub open spec fn preloaded_state(
    sections: Seq<(i32, Postings)>,
    db: i32,
    before: IndexState,
) -> IndexState
    decreases sections.len(),
{
    if sections.len() == 0 {
        before
    } else if sections.last().0 == db {
        state_of(&sections.last().1)
    } else {
        preloaded_state(sections.drop_last(), db, before)
    }
}

/// The state of the index of a database after what was gathered for it was indexed.
pub open spec fn built_state(
    lists: Seq<(i32, Vec<BulkIndexEntry>)>,
    db: i32,
    before: IndexState,
) -> IndexState
    decreases lists.len(),
{
    if lists.len() == 0 {
        before
    } else {
        let done = built_state(lists.drop_last(), db, before);
        if lists.last().0 == db {
            index_bulk(done, lists.last().1@)
        } else {
            done
        }
    }
}

} // verus!
