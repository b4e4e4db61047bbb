//! Loading a dataset whose indexes come ready-made.
//!
//! While a dataset loads, databases may get their indexes from a snapshot. What came in is summed
//! up, and once loading is over it is held against each such index: where the two differ, the
//! index is gone over id by id.
use crate::bytes::bytes_copy;
use crate::index::hasher::{feed_bytes, feed_word, hash_of, start_hasher, Fed, FedHasher};
use crate::postings::serialization::lists_ids;
use crate::postings::{Postings, SeriesRef};
use vstd::prelude::*;

verus! {

/// What came in for one database.
#[derive(Debug, Clone, Copy, PartialEq, Eq, Structural)]
pub struct LoadStats {
    /// How many series.
    pub count: u64,
    /// The sum of the hashes of their ids and keys.
    pub digest: u64,
    /// Whether a key could not be read, so that the sum says nothing.
    pub incomplete: bool,
}

/// A sum that starts over past the largest word.
pub open spec fn wrapped_sum(a: u64, b: u64) -> u64 {
    if a + b > u64::MAX {
        (a + b - u64::MAX - 1) as u64
    } else {
        (a + b) as u64
    }
}

/// What came in with one series more.
pub open spec fn observed(s: LoadStats, hash: Option<u64>) -> LoadStats {
    LoadStats {
        count: (s.count + 1) as u64,
        digest: wrapped_sum(
            s.digest,
            match hash {
                Some(h) => h,
                None => 0,
            },
        ),
        incomplete: s.incomplete || hash is None,
    }
}

/// Nothing came in.
pub open spec fn nothing() -> LoadStats {
    LoadStats { count: 0, digest: 0, incomplete: false }
}

/// What came in with series of these hashes.
pub open spec fn summed(hashes: Seq<Option<u64>>) -> LoadStats
    decreases hashes.len(),
{
    if hashes.len() == 0 {
        nothing()
    } else {
        observed(summed(hashes.drop_last()), hashes.last())
    }
}

impl LoadStats {
    /// What came in with one series more, whose key may be unknown.
    pub fn observe(&self, entry_hash: Option<u64>) -> (r: Self)
        requires
            self.count < u64::MAX,
        ensures
            r == observed(*self, entry_hash),
    {
        let hash: u64 = match entry_hash {
            Some(h) => h,
            None => 0,
        };
        LoadStats {
            count: self.count + 1,
            digest: self.digest.wrapping_add(hash),
            incomplete: self.incomplete || entry_hash.is_none(),
        }
    }
}

impl Default for LoadStats {
    fn default() -> (r: Self)
        ensures
            r == nothing(),
    {
        LoadStats { count: 0, digest: 0, incomplete: false }
    }
}

/// An id, and the key that the series comes in under.
pub type Entry = (SeriesRef, Vec<u8>);

/// Entries by their contents.
pub open spec fn entries_view(entries: Seq<Entry>) -> Seq<(u64, Seq<u8>)> {
    entries.map_values(|e: Entry| (e.0, e.1@))
}

/// The seeds of every hash of an entry: two sums of hashes can be held against each other.
pub open spec fn digest_seeds() -> Seq<u64> {
    seq![1, 2, 3, 4]
}

/// A hash that a hasher gave that was fed an id and then a key, and nothing else.
pub closed spec fn is_entry_hash(id: u64, key: Seq<u8>, hash: u64) -> bool {
    exists|h: FedHasher|
        {
            &&& h.seeds() == digest_seeds()
            &&& h.fed() == seq![Fed::Word(id), Fed::Bytes(key)]
            &&& #[trigger] call_ensures(hash_of, (&h,), hash)
        }
}

/// The hash of an entry: of its id and then of its key.
pub fn entry_hash(id: SeriesRef, key_name: &[u8]) -> (r: u64)
    ensures
        is_entry_hash(id, key_name@, r),
{
    let mut hasher = start_hasher(1, 2, 3, 4);
    feed_word(&mut hasher, id);
    feed_bytes(&mut hasher, key_name);
    let hash: u64 = hash_of(&hasher);
    proof {
        assert(hasher.fed() =~= seq![Fed::Word(id), Fed::Bytes(key_name@)]);
        assert(call_ensures(hash_of, (&hasher,), hash));
    }
    hash
}

/// One hash for each entry.
pub open spec fn are_hashes(entries: Seq<(u64, Seq<u8>)>, hashes: Seq<u64>) -> bool {
    &&& hashes.len() == entries.len()
    &&& forall|i: int|
        0 <= i < hashes.len() ==> is_entry_hash(entries[i].0, entries[i].1, #[trigger] hashes[i])
}

/// What a series adds to the sum: the hash of its id and of the key that it comes in under, where
/// the key can be read.
pub fn loaded_entry_hash(id: SeriesRef, key_name: Option<&[u8]>) -> (r: Option<u64>)
    ensures
        match r {
            Some(hash) => key_name is Some && is_entry_hash(id, key_name->0@, hash),
            None => key_name is None,
        },
{
    match key_name {
        Some(name) => Some(entry_hash(id, name)),
        None => None,
    }
}

/// The entries of a directory, by their ids in order.
pub open spec fn lists_entries(names: Map<u64, Seq<u8>>, entries: Seq<(u64, Seq<u8>)>) -> bool {
    &&& lists_ids(names, entries.map_values(|e: (u64, Seq<u8>)| e.0))
    &&& forall|i: int| 0 <= i < entries.len() ==> (#[trigger] entries[i]).1 == names[entries[i].0]
}

/// The entries of the directory of an index, by their ids in order.
pub fn indexed_entries(postings: &Postings) -> (r: Vec<Entry>)
    requires
        postings.wf(),
    ensures
        lists_entries(postings.keys(), entries_view(r@)),
        r@.len() == postings.keys().dom().len(),
{
    let ids = postings.ids_in_order();
    let ghost names = postings.keys();
    let mut entries: Vec<Entry> = Vec::new();
    let mut i: usize = 0;
    while i < ids.len()
        invariant
            i <= ids@.len(),
            names == postings.keys(),
            lists_ids(names, ids@),
            entries@.len() == i,
            forall|k: int|
                0 <= k < i ==> (#[trigger] entries@[k]).0 == ids@[k] && entries@[k].1@
                    == names[ids@[k]],
        decreases ids.len() - i,
    {
        assert(names.contains_key(ids@[i as int]));
        if let Some(key) = postings.id_to_key.get(&ids[i]) {
            entries.push((ids[i], bytes_copy(key.as_slice())));
        }
        i += 1;
    }
    proof {
        assert(postings.id_to_key@.dom() =~= names.dom());
        assert(entries_view(entries@).map_values(|e: (u64, Seq<u8>)| e.0) =~= ids@);
    }
    entries
}

/// What series of these hashes sum up to.
pub fn summarize(hashes: &Vec<Option<u64>>) -> (r: LoadStats)
    ensures
        r == summed(hashes@),
{
    let mut stats: LoadStats = LoadStats::default();
    let mut i: usize = 0;
    assert(hashes@.take(0) =~= Seq::<Option<u64>>::empty());
    while i < hashes.len()
        invariant
            i <= hashes@.len(),
            stats == summed(hashes@.take(i as int)),
            stats.count == i,
        decreases hashes.len() - i,
    {
        assert(hashes@.take(i + 1).drop_last() =~= hashes@.take(i as int));
        stats = stats.observe(hashes[i]);
        i += 1;
    }
    assert(hashes@.take(i as int) =~= hashes@);
    stats
}

/// What series whose keys are all known sum up to.
pub open spec fn summed_known(hashes: Seq<u64>) -> LoadStats {
    summed(hashes.map_values(|h: u64| Some(h)))
}

/// What an index sums up to, from the hashes of the entries of its directory: it knows all its
/// keys.
pub fn read_indexed_stats(postings: &Postings) -> (r: LoadStats)
    requires
        postings.wf(),
    ensures
        r.count == postings.keys().dom().len(),
        !r.incomplete,
        exists|entries: Seq<(u64, Seq<u8>)>, hashes: Seq<u64>|
            {
                &&& lists_entries(postings.keys(), entries)
                &&& #[trigger] are_hashes(entries, hashes)
                &&& r == summed_known(hashes)
            },
{
    let entries = indexed_entries(postings);
    let ghost listed = entries_view(entries@);
    let ghost mut hashes: Seq<u64> = Seq::empty();
    let mut marked: Vec<Option<u64>> = Vec::new();
    let mut i: usize = 0;
    while i < entries.len()
        invariant
            i <= entries@.len(),
            listed == entries_view(entries@),
            marked@.len() == i,
            hashes.len() == i,
            forall|k: int|
                0 <= k < i ==> {
                    &&& is_entry_hash(listed[k].0, listed[k].1, #[trigger] hashes[k])
                    &&& marked@[k] == Some(hashes[k])
                },
        decreases entries.len() - i,
    {
        let hash: u64 = entry_hash(entries[i].0, entries[i].1.as_slice());
        marked.push(Some(hash));
        proof {
            hashes = hashes.push(hash);
        }
        i += 1;
    }
    proof {
        assert(marked@ =~= hashes.map_values(|h: u64| Some(h)));
        assert(are_hashes(listed, hashes));
        lemma_summed(marked@);
    }
    summarize(&marked)
}

proof fn lemma_summed(hashes: Seq<Option<u64>>)
    requires
        hashes.len() <= u64::MAX,
    ensures
        summed(hashes).count == hashes.len(),
        (forall|i: int| 0 <= i < hashes.len() ==> (#[trigger] hashes[i]) is Some)
            ==> !summed(hashes).incomplete,
    decreases hashes.len(),
{
    if hashes.len() > 0 {
        let less = hashes.drop_last();
        lemma_summed(less);
        if forall|i: int| 0 <= i < hashes.len() ==> (#[trigger] hashes[i]) is Some {
            assert forall|i: int| 0 <= i < less.len() implies (#[trigger] less[i]) is Some by {
                assert(less[i] == hashes[i]);
            }
            assert(hashes[hashes.len() - 1] is Some);
        }
    }
}

/// It does not matter in which order series come in.
pub proof fn law_digest_order_independent(a: Seq<Option<u64>>, b: Seq<Option<u64>>)
    requires
        a.to_multiset() == b.to_multiset(),
    ensures
        summed(a) == summed(b),
    decreases a.len(),
{
    a.to_multiset_ensures();
    b.to_multiset_ensures();
    assert(a.len() == b.len());
    if a.len() > 0 {
        let x = a.last();
        assert(a.contains(x));
        assert(b.to_multiset().count(x) > 0);
        assert(b.contains(x));
        let k = choose|k: int| 0 <= k < b.len() && b[k] == x;
        lemma_summed_move(b, k);
        let moved = b.remove(k);
        let less = a.drop_last();
        assert(less =~= a.remove(a.len() - 1));
        moved.to_multiset_ensures();
        less.to_multiset_ensures();
        assert(less.to_multiset() =~= a.to_multiset().remove(x));
        assert(moved.to_multiset() =~= b.to_multiset().remove(x));
        law_digest_order_independent(less, moved);
    }
}

/// A series that came in early may as well have come last.
proof fn lemma_summed_move(b: Seq<Option<u64>>, k: int)
    requires
        0 <= k < b.len(),
    ensures
        summed(b) == observed(summed(b.remove(k)), b[k]),
    decreases b.len(),
{
    let n = b.len() as int;
    if k == n - 1 {
        assert(b.remove(k) =~= b.drop_last());
    } else {
        let less = b.drop_last();
        lemma_summed_move(less, k);
        assert(b.remove(k).drop_last() =~= less.remove(k));
        assert(b.remove(k).last() == b.last());
        let s = summed(less.remove(k));
        assert(observed(observed(s, b[k]), b.last()) == observed(observed(s, b.last()), b[k]));
    }
}

/// A series whose key has another hash changes the sum, though not the count.
pub proof fn law_digest_sees_a_change(before: Seq<Option<u64>>, k: int, hash: u64)
    requires
        0 <= k < before.len(),
        before[k] is Some,
        before[k]->0 != hash,
    ensures
        summed(before.update(k, Some(hash))).digest != summed(before).digest,
        summed(before.update(k, Some(hash))).count == summed(before).count,
{
    let after = before.update(k, Some(hash));
    lemma_summed_move(before, k);
    lemma_summed_move(after, k);
    assert(before.remove(k) =~= after.remove(k));
}

/// Whether an index has to be gone over: what came in is not all known, or is not what the index
/// has.
pub fn needs_sweep(loaded: &LoadStats, indexed: &LoadStats) -> (r: bool)
    ensures
        r == (loaded.incomplete || *loaded != *indexed),
{
    loaded.incomplete || *loaded != *indexed
}

/// Whether the keys of a database have to be gone over, once every id of the index is known to be
/// that of a series: there are more or fewer of them than came in.
pub fn needs_repair(indexed_count: u64, loaded_count: u64) -> (r: bool)
    ensures
        r == (indexed_count != loaded_count),
{
    indexed_count != loaded_count
}

/// Once every entry of the directory is known to be that of a series that came in, as many entries
/// as series mean that none is missing.
pub proof fn law_equal_counts_are_enough(names: Map<u64, Seq<u8>>, loaded: Map<u64, Seq<u8>>)
    requires
        loaded.dom().finite(),
        names.submap_of(loaded),
        names.dom().len() == loaded.dom().len(),
    ensures
        names == loaded,
{
    assert(names.dom().subset_of(loaded.dom())) by {
        assert forall|id: u64| names.dom().contains(id) implies loaded.dom().contains(id) by {
            assert(names.contains_key(id));
        }
    }
    vstd::set_lib::lemma_subset_equality(names.dom(), loaded.dom());
    assert(names =~= loaded);
}

/// The time in which a dataset loads.
#[derive(Debug, Clone, PartialEq, Eq)]
pub struct LoadWindow {
    active: bool,
    preloaded: Vec<i32>,
    stats: Vec<(i32, LoadStats)>,
}

/// The databases of a list, each with what came in for it.
pub open spec fn stats_map(v: Seq<(i32, LoadStats)>) -> Map<i32, LoadStats>
    decreases v.len(),
{
    if v.len() == 0 {
        Map::empty()
    } else {
        stats_map(v.drop_last()).insert(v.last().0, v.last().1)
    }
}

/// No database comes twice.
pub open spec fn dbs_differ(v: Seq<(i32, LoadStats)>) -> bool {
    forall|i: int, j: int| 0 <= i < j < v.len() ==> (#[trigger] v[i]).0 != (#[trigger] v[j]).0
}

proof fn lemma_stats_map(v: Seq<(i32, LoadStats)>)
    requires
        dbs_differ(v),
    ensures
        forall|i: int| 0 <= i < v.len() ==> stats_map(v).contains_key((#[trigger] v[i]).0),
        forall|i: int| 0 <= i < v.len() ==> stats_map(v)[(#[trigger] v[i]).0] == v[i].1,
        forall|db: i32| #[trigger]
            stats_map(v).contains_key(db) ==> exists|i: int|
                0 <= i < v.len() && (#[trigger] v[i]).0 == db,
    decreases v.len(),
{
    if v.len() > 0 {
        let less = v.drop_last();
        assert(dbs_differ(less)) by {
            assert forall|i: int, j: int| 0 <= i < j < less.len() implies (#[trigger] less[i]).0 != (
            #[trigger] less[j]).0 by {
                assert(less[i] == v[i] && less[j] == v[j]);
            }
        }
        lemma_stats_map(less);
        assert forall|i: int| 0 <= i < v.len() implies stats_map(v).contains_key(
            (#[trigger] v[i]).0,
        ) && stats_map(v)[v[i].0] == v[i].1 by {
            if i < less.len() {
                assert(less[i] == v[i]);
                assert(v[i].0 != v[v.len() - 1].0);
            }
        }
        assert forall|db: i32| #[trigger] stats_map(v).contains_key(db) implies exists|i: int|
            0 <= i < v.len() && (#[trigger] v[i]).0 == db by {
            if db == v.last().0 {
                assert(v[v.len() - 1].0 == db);
            } else {
                assert(stats_map(less).contains_key(db));
                let i = choose|i: int| 0 <= i < less.len() && (#[trigger] less[i]).0 == db;
                assert(v[i].0 == db);
            }
        }
    }
}

impl LoadWindow {
    /// Whether a dataset is loading.
    pub closed spec fn is_open(&self) -> bool {
        self.active
    }

    /// The databases whose indexes came from a snapshot.
    pub closed spec fn ready(&self) -> Set<i32> {
        self.preloaded@.to_set()
    }

    /// What came in for each database.
    pub closed spec fn loaded(&self) -> Map<i32, LoadStats> {
        stats_map(self.stats@)
    }

    /// No database is counted twice.
    pub closed spec fn wf(&self) -> bool {
        dbs_differ(self.stats@)
    }

    /// Nothing is loading.
    pub fn new() -> (r: Self)
        ensures
            r.wf(),
            !r.is_open(),
            r.ready() == Set::<i32>::empty(),
            r.loaded() == Map::<i32, LoadStats>::empty(),
    {
        let w = LoadWindow { active: false, preloaded: Vec::new(), stats: Vec::new() };
        assert(w.preloaded@.to_set() =~= Set::<i32>::empty());
        w
    }

    /// Loading starts: what is left of an earlier load is forgotten.
    pub fn on_loading_started(&mut self)
        ensures
            final(self).wf(),
            final(self).is_open(),
            final(self).ready() == Set::<i32>::empty(),
            final(self).loaded() == Map::<i32, LoadStats>::empty(),
    {
        self.active = true;
        self.preloaded = Vec::new();
        self.stats = Vec::new();
        assert(self.preloaded@.to_set() =~= Set::<i32>::empty());
    }

    /// Loading ended: the databases whose indexes came from a snapshot are to be held against
    /// what came in.
    pub fn on_loading_ended(&mut self) -> (r: (Vec<i32>, Vec<(i32, LoadStats)>))
        requires
            old(self).wf(),
        ensures
            final(self).wf(),
            !final(self).is_open(),
            final(self).ready() == Set::<i32>::empty(),
            r.0@.to_set() == old(self).ready(),
            dbs_differ(r.1@),
            r.0@.len() > 0 ==> final(self).loaded() == Map::<i32, LoadStats>::empty() && stats_map(
                r.1@,
            ) == old(self).loaded(),
            r.0@.len() == 0 ==> final(self).loaded() == old(self).loaded() && r.1@.len() == 0,
    {
        self.active = false;
        let dbs = self.take_preloaded_dbs();
        if dbs.len() == 0 {
            return (dbs, Vec::new());
        }
        let stats = self.take_loaded_stats();
        (dbs, stats)
    }

    /// Loading failed: the databases whose indexes came from a snapshot are to be cleared.
    pub fn on_loading_failed(&mut self) -> (r: Vec<i32>)
        ensures
            final(self).wf(),
            !final(self).is_open(),
            final(self).ready() == Set::<i32>::empty(),
            final(self).loaded() == Map::<i32, LoadStats>::empty(),
            r@.to_set() == old(self).ready(),
    {
        self.active = false;
        self.stats = Vec::new();
        self.take_preloaded_dbs()
    }

    /// Whether a dataset is loading.
    pub fn is_loading_active(&self) -> (r: bool)
        ensures
            r == self.is_open(),
    {
        self.active
    }

    /// Notes that the index of a database came from a snapshot.
    pub fn note_preloaded(&mut self, db: i32)
        ensures
            final(self).is_open() == old(self).is_open(),
            final(self).loaded() == old(self).loaded(),
            final(self).ready() == old(self).ready().insert(db),
            old(self).wf() ==> final(self).wf(),
    {
        let ghost before = self.preloaded@;
        self.preloaded.push(db);
        proof {
            let now = self.preloaded@;
            assert forall|x: i32| #[trigger] now.to_set().contains(x)
                == before.to_set().insert(db).contains(x) by {
                if before.contains(x) {
                    let k = choose|k: int| 0 <= k < before.len() && before[k] == x;
                    assert(now[k] == x);
                }
                assert(now[before.len() as int] == db);
                if now.contains(x) && x != db {
                    let k = choose|k: int| 0 <= k < now.len() && now[k] == x;
                    assert(before[k] == x);
                }
            }
            assert(now.to_set() =~= before.to_set().insert(db));
        }
    }

    /// Whether a key that was loaded into a database need not be indexed: its index is there.
    pub fn should_skip_load_indexing(&self, db: i32) -> (r: bool)
        ensures
            r == (self.is_open() && self.ready().contains(db)),
    {
        if !self.active {
            return false;
        }
        let mut i: usize = 0;
        while i < self.preloaded.len()
            invariant
                i <= self.preloaded@.len(),
                self.active,
                forall|j: int| 0 <= j < i ==> self.preloaded@[j] != db,
            decreases self.preloaded.len() - i,
        {
            if self.preloaded[i] == db {
                assert(self.preloaded@[i as int] == db);
                return true;
            }
            i += 1;
        }
        false
    }

    /// Counts a series that came in.
    pub fn note_series_loaded(&mut self, db: i32, entry_hash: Option<u64>)
        requires
            old(self).wf(),
            old(self).loaded().contains_key(db) ==> old(self).loaded()[db].count < u64::MAX,
        ensures
            final(self).wf(),
            final(self).is_open() == old(self).is_open(),
            final(self).ready() == old(self).ready(),
            final(self).loaded() == old(self).loaded().insert(
                db,
                observed(
                    if old(self).loaded().contains_key(db) {
                        old(self).loaded()[db]
                    } else {
                        nothing()
                    },
                    entry_hash,
                ),
            ),
    {
        let ghost before = self.stats@;
        proof {
            lemma_stats_map(before);
        }
        let mut i: usize = 0;
        while i < self.stats.len()
            invariant
                i <= self.stats@.len(),
                self.stats@ == before,
                self.active == old(self).active,
                self.preloaded == old(self).preloaded,
                before == old(self).stats@,
                dbs_differ(before),
                old(self).loaded().contains_key(db) ==> old(self).loaded()[db].count < u64::MAX,
                forall|j: int| 0 <= j < i ==> (#[trigger] before[j]).0 != db,
                forall|j: int|
                    0 <= j < before.len() ==> stats_map(before).contains_key(
                        (#[trigger] before[j]).0,
                    ) && stats_map(before)[before[j].0] == before[j].1,
            decreases self.stats.len() - i,
        {
            if self.stats[i].0 == db {
                assert(stats_map(before).contains_key(before[i as int].0));
                let next: LoadStats = self.stats[i].1.observe(entry_hash);
                self.stats.set(i, (db, next));
                proof {
                    assert(dbs_differ(self.stats@)) by {
                        assert forall|a: int, b: int| 0 <= a < b < self.stats@.len() implies (
                        #[trigger] self.stats@[a]).0 != (#[trigger] self.stats@[b]).0 by {
                            assert(before[a].0 != before[b].0);
                        }
                    }
                    lemma_stats_map(before);
                    lemma_stats_map(self.stats@);
                    lemma_stats_update(before, self.stats@, i as int, db, next);
                }
                return;
            }
            i += 1;
        }
        let first: LoadStats = LoadStats::default();
        let next: LoadStats = first.observe(entry_hash);
        self.stats.push((db, next));
        proof {
            assert(self.stats@.drop_last() =~= before);
            assert(!stats_map(before).contains_key(db));
            assert(dbs_differ(self.stats@)) by {
                assert forall|a: int, b: int| 0 <= a < b < self.stats@.len() implies (
                #[trigger] self.stats@[a]).0 != (#[trigger] self.stats@[b]).0 by {
                    assert(self.stats@[a] == before[a]);
                    if b < before.len() {
                        assert(self.stats@[b] == before[b]);
                    }
                }
            }
        }
    }

    /// Counts a series that came in, if one of a dataset did: what has no database came alone.
    /// Gives the database that the series belongs to then.
    pub fn observe_series_rdb_load(&mut self, db: i32, entry_hash: Option<u64>) -> (r: Option<i32>)
        requires
            old(self).wf(),
            old(self).loaded().contains_key(db) ==> old(self).loaded()[db].count < u64::MAX,
        ensures
            final(self).wf(),
            r == if db < 0 {
                None
            } else {
                Some(db)
            },
            final(self).is_open() == old(self).is_open(),
            final(self).ready() == old(self).ready(),
            final(self).loaded() == if db >= 0 && old(self).is_open() {
                old(self).loaded().insert(
                    db,
                    observed(
                        if old(self).loaded().contains_key(db) {
                            old(self).loaded()[db]
                        } else {
                            nothing()
                        },
                        entry_hash,
                    ),
                )
            } else {
                old(self).loaded()
            },
    {
        if db < 0 {
            return None;
        }
        if self.active {
            self.note_series_loaded(db, entry_hash);
        }
        Some(db)
    }

    /// What came in for each database, which is then forgotten.
    pub fn take_loaded_stats(&mut self) -> (r: Vec<(i32, LoadStats)>)
        requires
            old(self).wf(),
        ensures
            final(self).wf(),
            final(self).is_open() == old(self).is_open(),
            final(self).ready() == old(self).ready(),
            final(self).loaded() == Map::<i32, LoadStats>::empty(),
            stats_map(r@) == old(self).loaded(),
            dbs_differ(r@),
    {
        let mut out: Vec<(i32, LoadStats)> = Vec::new();
        std::mem::swap(&mut out, &mut self.stats);
        out
    }

    /// The databases whose indexes came from a snapshot, which are then forgotten.
    pub fn take_preloaded_dbs(&mut self) -> (r: Vec<i32>)
        ensures
            final(self).is_open() == old(self).is_open(),
            final(self).loaded() == old(self).loaded(),
            final(self).wf() == old(self).wf(),
            final(self).ready() == Set::<i32>::empty(),
            r@.to_set() == old(self).ready(),
    {
        let mut out: Vec<i32> = Vec::new();
        std::mem::swap(&mut out, &mut self.preloaded);
        assert(self.preloaded@.to_set() =~= Set::<i32>::empty());
        out
    }
}

proof fn lemma_stats_update(
    before: Seq<(i32, LoadStats)>,
    now: Seq<(i32, LoadStats)>,
    at: int,
    db: i32,
    next: LoadStats,
)
    requires
        dbs_differ(before),
        dbs_differ(now),
        0 <= at < before.len(),
        before[at].0 == db,
        now == before.update(at, (db, next)),
    ensures
        stats_map(now) == stats_map(before).insert(db, next),
{
    lemma_stats_map(before);
    lemma_stats_map(now);
    let goal = stats_map(before).insert(db, next);
    assert forall|x: i32| stats_map(now).contains_key(x) == goal.contains_key(x) by {
        if stats_map(now).contains_key(x) {
            let i = choose|i: int| 0 <= i < now.len() && (#[trigger] now[i]).0 == x;
            if i != at {
                assert(before[i] == now[i]);
            }
            assert(stats_map(before).contains_key(before[i].0));
        }
        if stats_map(before).contains_key(x) {
            let i = choose|i: int| 0 <= i < before.len() && (#[trigger] before[i]).0 == x;
            assert(now[i].0 == x);
        }
        assert(now[at].0 == db);
    }
    assert forall|x: i32| stats_map(now).contains_key(x) implies stats_map(now)[x] == goal[x] by {
        let i = choose|i: int| 0 <= i < now.len() && (#[trigger] now[i]).0 == x;
        if i == at {
            assert(now[at] == (db, next));
        } else {
            assert(before[i] == now[i]);
            assert(before[i].0 != before[at].0) by {
                if i < at {
                    assert(before[i].0 != before[at].0);
                } else {
                    assert(before[at].0 != before[i].0);
                }
            }
        }
    }
    assert(stats_map(now) =~= goal);
}

/// What came in for a database: nothing, where it is not in the list.
pub fn loaded_stats_of(stats: &Vec<(i32, LoadStats)>, db: i32) -> (r: LoadStats)
    requires
        dbs_differ(stats@),
    ensures
        r == if stats_map(stats@).contains_key(db) {
            stats_map(stats@)[db]
        } else {
            nothing()
        },
{
    proof {
        lemma_stats_map(stats@);
    }
    let mut i: usize = 0;
    while i < stats.len()
        invariant
            i <= stats@.len(),
            forall|j: int| 0 <= j < i ==> (#[trigger] stats@[j]).0 != db,
            forall|j: int|
                0 <= j < stats@.len() ==> stats_map(stats@).contains_key((#[trigger] stats@[j]).0)
                    && stats_map(stats@)[stats@[j].0] == stats@[j].1,
        decreases stats.len() - i,
    {
        if stats[i].0 == db {
            assert(stats_map(stats@).contains_key(stats@[i as int].0));
            return stats[i].1;
        }
        i += 1;
    }
    LoadStats::default()
}

} // verus!
