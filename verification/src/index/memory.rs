//! How much memory the indexes take.
//!
//! Bitmaps tell what their containers take, and byte strings tell their lengths. What the radix
//! tree and the directory take for their own nodes is not told by either, so the totals are a lower
//! bound.
use crate::bytes::lex_less;
use crate::index::bulk_build::at_most_usize;
use crate::index::databases::{lists_dbs, Databases};
use crate::index::stats::{all_keys, lemma_all_keys, lists_keys};
use crate::postings::key::IndexKey;
use crate::postings::label_index::{bitmaps_of, is_entry, TermMap};
use crate::postings::serialization::lists_ids;
use crate::postings::{Postings, PostingsBitmap, SeriesRef};
use croaring::Bitmap64;
use vstd::layout::size_of;
use vstd::prelude::*;

verus! {

/// What indexes take, in bytes.
#[derive(Debug, Clone, Copy, PartialEq, Eq, Structural)]
pub struct IndexMemory {
    /// Databases that have an index.
    pub db_count: usize,
    /// Keys in the dictionary.
    pub term_count: usize,
    /// Series in the directory.
    pub series_count: usize,
    /// The keys of the dictionary.
    pub terms_bytes: usize,
    /// The posting lists.
    pub postings_bytes: usize,
    /// The directory.
    pub id_to_key_bytes: usize,
    /// The set of live ids, and the ids that are marked for removal.
    pub bookkeeping_bytes: usize,
}

impl Default for IndexMemory {
    /// Nothing at all.
    fn default() -> (r: Self)
        ensures
            r == no_memory(),
    {
        IndexMemory {
            db_count: 0,
            term_count: 0,
            series_count: 0,
            terms_bytes: 0,
            postings_bytes: 0,
            id_to_key_bytes: 0,
            bookkeeping_bytes: 0,
        }
    }
}

/// Nothing at all.
pub open spec fn no_memory() -> IndexMemory {
    IndexMemory {
        db_count: 0,
        term_count: 0,
        series_count: 0,
        terms_bytes: 0,
        postings_bytes: 0,
        id_to_key_bytes: 0,
        bookkeeping_bytes: 0,
    }
}

/// Both together.
pub open spec fn merged(a: IndexMemory, b: IndexMemory) -> IndexMemory {
    IndexMemory {
        db_count: at_most_usize((a.db_count + b.db_count) as nat),
        term_count: at_most_usize((a.term_count + b.term_count) as nat),
        series_count: at_most_usize((a.series_count + b.series_count) as nat),
        terms_bytes: at_most_usize((a.terms_bytes + b.terms_bytes) as nat),
        postings_bytes: at_most_usize((a.postings_bytes + b.postings_bytes) as nat),
        id_to_key_bytes: at_most_usize((a.id_to_key_bytes + b.id_to_key_bytes) as nat),
        bookkeeping_bytes: at_most_usize((a.bookkeeping_bytes + b.bookkeeping_bytes) as nat),
    }
}

/// All together.
pub open spec fn all_merged(parts: Seq<IndexMemory>) -> IndexMemory
    decreases parts.len(),
{
    if parts.len() == 0 {
        no_memory()
    } else {
        merged(all_merged(parts.drop_last()), parts.last())
    }
}

impl IndexMemory {
    /// All bytes together.
    pub fn total_bytes(&self) -> (r: usize)
        ensures
            r == at_most_usize(
                (self.terms_bytes + self.postings_bytes + self.id_to_key_bytes
                    + self.bookkeeping_bytes) as nat,
            ),
    {
        self.terms_bytes.saturating_add(self.postings_bytes).saturating_add(
            self.id_to_key_bytes,
        ).saturating_add(self.bookkeeping_bytes)
    }

    /// Adds what another index takes.
    pub fn merge(&mut self, other: IndexMemory)
        ensures
            *final(self) == merged(*old(self), other),
    {
        self.db_count = self.db_count.saturating_add(other.db_count);
        self.term_count = self.term_count.saturating_add(other.term_count);
        self.series_count = self.series_count.saturating_add(other.series_count);
        self.terms_bytes = self.terms_bytes.saturating_add(other.terms_bytes);
        self.postings_bytes = self.postings_bytes.saturating_add(other.postings_bytes);
        self.id_to_key_bytes = self.id_to_key_bytes.saturating_add(other.id_to_key_bytes);
        self.bookkeeping_bytes = self.bookkeeping_bytes.saturating_add(other.bookkeeping_bytes);
    }
}

/// The bytes of the array, run and bitset containers of a bitmap.
pub uninterp spec fn container_sizes(b: Bitmap64) -> (u64, u64, u64);

/// `Bitmap64::statistics`: the bytes of the array, run and bitset containers of a bitmap. They
/// depend on how the ids are laid out in the bitmap, not on the ids alone.
#[verifier::external_body]
fn container_bytes(bitmap: &Bitmap64) -> (r: (u64, u64, u64))
    ensures
        r == container_sizes(*bitmap),
{
    let stats = bitmap.statistics();
    (
        stats.n_bytes_array_containers,
        stats.n_bytes_run_containers,
        stats.n_bytes_bitset_containers,
    )
}

/// What the containers of a bitmap take together.
pub fn containers_total(arrays: u64, runs: u64, bitsets: u64) -> (r: usize)
    ensures
        r == at_most_usize((arrays + runs + bitsets) as nat),
{
    let total: u64 = arrays.saturating_add(runs).saturating_add(bitsets);
    if total > usize::MAX as u64 {
        usize::MAX
    } else {
        total as usize
    }
}

/// What the containers of a bitmap take.
pub open spec fn heap_size(b: Bitmap64) -> usize {
    let (arrays, runs, bitsets) = container_sizes(b);
    at_most_usize(sum_of(arrays, runs, bitsets))
}

/// What the containers of a bitmap take.
pub fn bitmap_heap_size(bitmap: &PostingsBitmap) -> (r: usize)
    ensures
        r == heap_size(*bitmap),
{
    let (arrays, runs, bitsets) = container_bytes(bitmap);
    containers_total(arrays, runs, bitsets)
}

/// Three counts added up.
pub open spec fn sum_of(arrays: u64, runs: u64, bitsets: u64) -> nat {
    (arrays + runs + bitsets) as nat
}

/// Sizes added up.
pub open spec fn sizes_sum(sizes: Seq<usize>) -> nat
    decreases sizes.len(),
{
    if sizes.len() == 0 {
        0
    } else {
        sizes_sum(sizes.drop_last()) + sizes.last() as nat
    }
}

/// What keys of the dictionary take, their closing NUL bytes included.
pub open spec fn keys_bytes(keys: Seq<Seq<u8>>) -> nat
    decreases keys.len(),
{
    if keys.len() == 0 {
        0
    } else {
        keys_bytes(keys.drop_last()) + size_of::<IndexKey>() + keys.last().len()
    }
}

/// What the directory takes for some ids.
pub open spec fn names_bytes(names: Map<u64, Seq<u8>>, ids: Seq<u64>) -> nat
    decreases ids.len(),
{
    if ids.len() == 0 {
        0
    } else {
        names_bytes(names, ids.drop_last()) + size_of::<SeriesRef>() + size_of::<Vec<u8>>()
            + names[ids.last()].len()
    }
}

/// What an index takes, where its posting lists take `lists` and its other bitmaps `rest`.
pub open spec fn is_memory(
    terms: TermMap,
    names: Map<u64, Seq<u8>>,
    lists: Seq<usize>,
    rest: Seq<usize>,
    r: IndexMemory,
) -> bool {
    &&& r.db_count == 1
    &&& r.term_count == terms.dom().len()
    &&& r.series_count == names.dom().len()
    &&& r.terms_bytes == at_most_usize(keys_bytes(all_keys(terms)))
    &&& r.postings_bytes == at_most_usize(sizes_sum(lists))
    &&& exists|ids: Seq<u64>| #[trigger]
        lists_ids(names, ids) && r.id_to_key_bytes == at_most_usize(names_bytes(names, ids))
    &&& r.bookkeeping_bytes == at_most_usize(sizes_sum(rest))
}

/// Adds sizes up.
fn add_sizes(sizes: &Vec<usize>) -> (r: usize)
    ensures
        r == at_most_usize(sizes_sum(sizes@)),
{
    let mut total: usize = 0;
    let mut i: usize = 0;
    assert(sizes@.take(0) =~= Seq::<usize>::empty());
    while i < sizes.len()
        invariant
            i <= sizes@.len(),
            total == at_most_usize(sizes_sum(sizes@.take(i as int))),
        decreases sizes.len() - i,
    {
        assert(sizes@.take(i + 1).drop_last() =~= sizes@.take(i as int));
        total = total.saturating_add(sizes[i]);
        i += 1;
    }
    assert(sizes@.take(i as int) =~= sizes@);
    total
}

/// What the keys of the dictionary take, and how many there are.
fn tally_keys(postings: &Postings) -> (r: (usize, usize))
    requires
        postings.wf(),
    ensures
        r.0 == postings.terms().dom().len(),
        r.1 == at_most_usize(keys_bytes(all_keys(postings.terms()))),
{
    let ghost terms = postings.terms();
    let entries = postings.label_index.entries();
    let ghost keys = entries@.map_values(|e: (&Vec<u8>, &PostingsBitmap)| e.0@);
    let key_size: usize = core::mem::size_of::<IndexKey>();
    let mut total: usize = 0;
    let mut i: usize = 0;
    assert(keys.take(0) =~= Seq::<Seq<u8>>::empty());
    while i < entries.len()
        invariant
            i <= entries@.len(),
            key_size == size_of::<IndexKey>(),
            keys == entries@.map_values(|e: (&Vec<u8>, &PostingsBitmap)| e.0@),
            total == at_most_usize(keys_bytes(keys.take(i as int))),
        decreases entries.len() - i,
    {
        assert(keys.take(i + 1).drop_last() =~= keys.take(i as int));
        assert(keys.take(i + 1).last() == entries@[i as int].0@);
        total = total.saturating_add(key_size);
        total = total.saturating_add(entries[i].0.len());
        i += 1;
    }
    proof {
        assert(keys.take(i as int) =~= keys);
        assert forall|j: int| 0 <= j < keys.len() implies terms.contains_key(#[trigger] keys[j]) by {
            assert(is_entry(terms, entries@[j].0@, *entries@[j].1));
        }
        assert forall|k: Seq<u8>| #[trigger] terms.contains_key(k) implies keys.contains(k) by {
            let j = choose|j: int| 0 <= j < entries@.len() && #[trigger] entries@[j].0@ == k;
            assert(keys[j] == k);
        }
        assert forall|a: int, b: int| 0 <= a < b < keys.len() implies lex_less(
            #[trigger] keys[a],
            #[trigger] keys[b],
        ) by {
            assert(lex_less(entries@[a].0@, entries@[b].0@));
        }
        lemma_all_keys(terms, keys);
        lemma_listed_once(terms, keys);
        assert(keys.len() == entries.len());
    }
    (entries.len(), total)
}

/// A list of the keys of a dictionary is as long as the dictionary is large.
proof fn lemma_listed_once(terms: TermMap, keys: Seq<Seq<u8>>)
    requires
        lists_keys(terms, keys),
    ensures
        keys.len() == terms.dom().len(),
{
    assert forall|i: int, j: int| 0 <= i < keys.len() && 0 <= j < keys.len() && i != j implies keys[i]
        != keys[j] by {
        crate::bytes::lemma_lex_irreflexive(keys[i]);
        if i < j {
            assert(lex_less(keys[i], keys[j]));
        } else {
            assert(lex_less(keys[j], keys[i]));
        }
    }
    keys.unique_seq_to_set();
    assert(keys.to_set() =~= terms.dom()) by {
        assert forall|k: Seq<u8>| keys.to_set().contains(k) == terms.dom().contains(k) by {
            if keys.contains(k) {
                let i = choose|i: int| 0 <= i < keys.len() && keys[i] == k;
                assert(terms.contains_key(keys[i]));
            }
            if terms.contains_key(k) {
                assert(keys.contains(k));
            }
        }
    }
}

/// What the directory takes.
fn tally_names(postings: &Postings) -> (r: usize)
    ensures
        exists|ids: Seq<u64>| #[trigger]
            lists_ids(postings.keys(), ids) && r == at_most_usize(
                names_bytes(postings.keys(), ids),
            ),
{
    let ids = postings.ids_in_order();
    let ghost names = postings.keys();
    let id_size: usize = core::mem::size_of::<SeriesRef>();
    let key_size: usize = core::mem::size_of::<Vec<u8>>();
    let mut total: usize = 0;
    let mut i: usize = 0;
    assert(ids@.take(0) =~= Seq::<u64>::empty());
    while i < ids.len()
        invariant
            i <= ids@.len(),
            names == postings.keys(),
            lists_ids(names, ids@),
            id_size == size_of::<SeriesRef>(),
            key_size == size_of::<Vec<u8>>(),
            total == at_most_usize(names_bytes(names, ids@.take(i as int))),
        decreases ids.len() - i,
    {
        assert(ids@.take(i + 1).drop_last() =~= ids@.take(i as int));
        assert(names.contains_key(ids@[i as int]));
        let len: usize = match postings.id_to_key.get(&ids[i]) {
            Some(key) => key.len(),
            None => 0,
        };
        total = total.saturating_add(id_size);
        total = total.saturating_add(key_size);
        total = total.saturating_add(len);
        i += 1;
    }
    assert(ids@.take(i as int) =~= ids@);
    total
}

impl Postings {
    /// What the index takes, where its posting lists take `lists` and its other bitmaps `rest`.
    pub fn memory_with(&self, lists: &Vec<usize>, rest: &Vec<usize>) -> (r: IndexMemory)
        requires
            self.wf(),
        ensures
            is_memory(self.terms(), self.keys(), lists@, rest@, r),
    {
        let (term_count, terms_bytes) = tally_keys(self);
        assert(self.keys().dom() =~= self.id_to_key@.dom());
        IndexMemory {
            db_count: 1,
            term_count,
            series_count: self.id_to_key.len(),
            terms_bytes,
            postings_bytes: add_sizes(lists),
            id_to_key_bytes: tally_names(self),
            bookkeeping_bytes: add_sizes(rest),
        }
    }

    /// What each posting list takes, in the order of the keys.
    pub open spec fn list_sizes(&self) -> Seq<usize> {
        all_keys(self.terms()).map_values(
            |k: Seq<u8>| heap_size(bitmaps_of(self.label_index)[k]),
        )
    }

    /// What the set of live ids takes, that of the ids that are marked for removal, and that of the
    /// ids that a running pass may retire.
    pub open spec fn rest_sizes(&self) -> Seq<usize> {
        let (marked, pass) = self.stale_ids.held();
        let two = seq![heap_size(self.all_postings), heap_size(marked)];
        match pass {
            Some(retiring) => two.push(heap_size(retiring)),
            None => two,
        }
    }

    /// What the index takes: a size is taken of each posting list, of the set of live ids, of the
    /// ids that are marked for removal, and of those that a running pass may retire.
    pub fn memory_usage(&self) -> (r: IndexMemory)
        requires
            self.wf(),
        ensures
            is_memory(self.terms(), self.keys(), self.list_sizes(), self.rest_sizes(), r),
    {
        let entries = self.label_index.entries();
        let mut lists: Vec<usize> = Vec::new();
        let mut i: usize = 0;
        while i < entries.len()
            invariant
                i <= entries@.len(),
                lists@.len() == i,
                forall|j: int| 0 <= j < i ==> #[trigger] lists@[j] == heap_size(*entries@[j].1),
            decreases entries.len() - i,
        {
            lists.push(bitmap_heap_size(entries[i].1));
            i += 1;
        }
        let (marked, pass) = self.stale_ids.bitmaps();
        let mut rest: Vec<usize> = Vec::new();
        rest.push(bitmap_heap_size(&self.all_postings));
        rest.push(bitmap_heap_size(marked));
        if let Some(retiring) = pass {
            rest.push(bitmap_heap_size(retiring));
        }
        proof {
            let terms = self.terms();
            let keys = entries@.map_values(|e: (&Vec<u8>, &PostingsBitmap)| e.0@);
            assert forall|j: int| 0 <= j < keys.len() implies terms.contains_key(
                #[trigger] keys[j],
            ) by {
                assert(is_entry(terms, entries@[j].0@, *entries@[j].1));
            }
            assert forall|k: Seq<u8>| #[trigger] terms.contains_key(k) implies keys.contains(k) by {
                let j = choose|j: int| 0 <= j < entries@.len() && #[trigger] entries@[j].0@ == k;
                assert(keys[j] == k);
            }
            assert forall|a: int, b: int| 0 <= a < b < keys.len() implies lex_less(
                #[trigger] keys[a],
                #[trigger] keys[b],
            ) by {
                assert(lex_less(entries@[a].0@, entries@[b].0@));
            }
            lemma_all_keys(terms, keys);
            assert(lists@ =~= self.list_sizes());
            assert(rest@ =~= self.rest_sizes());
        }
        self.memory_with(&lists, &rest)
    }
}

/// What an index takes.
pub open spec fn is_part(p: Postings, r: IndexMemory) -> bool {
    is_memory(p.terms(), p.keys(), p.list_sizes(), p.rest_sizes(), r)
}

/// What the index of each database takes.
pub open spec fn are_parts(databases: Databases, dbs: Seq<i32>, parts: Seq<IndexMemory>) -> bool {
    &&& parts.len() == dbs.len()
    &&& forall|i: int| 0 <= i < dbs.len() ==> is_part(databases.index(dbs[i]), #[trigger] parts[i])
}

/// What the indexes of all databases take together.
pub fn index_memory_usage(databases: &Databases) -> (r: IndexMemory)
    requires
        databases.wf(),
    ensures
        exists|dbs: Seq<i32>, parts: Seq<IndexMemory>|
            {
                &&& lists_dbs(databases.dbs(), dbs)
                &&& #[trigger] are_parts(*databases, dbs, parts)
                &&& r == all_merged(parts)
            },
{
    let dbs = databases.db_list();
    let ghost mut parts: Seq<IndexMemory> = Seq::empty();
    let mut total = IndexMemory::default();
    let mut i: usize = 0;
    while i < dbs.len()
        invariant
            i <= dbs@.len(),
            databases.wf(),
            lists_dbs(databases.dbs(), dbs@),
            are_parts(*databases, dbs@.take(i as int), parts),
            total == all_merged(parts),
        decreases dbs.len() - i,
    {
        assert(databases.dbs().contains(dbs@[i as int]));
        if let Some(postings) = databases.get(dbs[i]) {
            let part = postings.memory_usage();
            total.merge(part);
            proof {
                assert(parts.push(part).drop_last() =~= parts);
                let before = parts;
                parts = parts.push(part);
                let taken = dbs@.take(i + 1);
                assert forall|k: int| 0 <= k < taken.len() implies is_part(
                    databases.index(taken[k]),
                    #[trigger] parts[k],
                ) by {
                    if k < i {
                        assert(before[k] == parts[k]);
                        assert(taken[k] == dbs@.take(i as int)[k]);
                    }
                }
            }
        }
        i += 1;
    }
    assert(dbs@.take(i as int) =~= dbs@);
    total
}

} // verus!
