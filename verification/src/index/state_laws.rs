//! What happens to the indexes of databases, and what they take.
use crate::bytes::utf8;
use crate::index::bulk_build::{at_most_usize, footprint, keys_footprint};
use crate::index::databases::{built_state, preloaded_state};
use crate::index::events::state_without;
use crate::index::memory::{
    all_merged, keys_bytes, merged, names_bytes, no_memory, sizes_sum, IndexMemory,
};
use crate::index::migration::{series_indexed, state_of};
use crate::labels::Label;
use crate::postings::key::{term_key, IndexKey};
use crate::postings::laws::{index_bulk, IndexState};
use crate::postings::mutation::{
    keys_after, label_key, label_keys, series_postings, BulkIndexEntry,
};
use crate::postings::{list_of, Postings, SeriesRef};
use vstd::layout::size_of;
use vstd::prelude::*;

verus! {

/// A label has an index key.
pub open spec fn has_label_key(labels: Seq<Label>, k: Seq<u8>) -> bool {
    exists|i: int|
        0 <= i < labels.len() && term_key(
            utf8((#[trigger] labels[i]).name@),
            utf8(labels[i].value@),
        ) == k
}

/// A series that is indexed stands in the lists of its labels, in no other list more than before, is
/// live, is under its key and is not marked for removal. No other series is touched.
pub proof fn law_series_indexed(s: IndexState, id: u64, labels: Seq<Label>, key: Seq<u8>)
    ensures
        ({
            let t = series_indexed(s, id, labels, key);
            &&& forall|k: Seq<u8>, x: u64| #[trigger]
                list_of(t.terms, k).contains(x) <==> list_of(s.terms, k).contains(x) || (x == id
                    && has_label_key(labels, k))
            &&& forall|k: Seq<u8>| #[trigger]
                t.terms.contains_key(k) <==> s.terms.contains_key(k) || has_label_key(labels, k)
            &&& t.keys.contains_key(id) && t.keys[id] == key
            &&& forall|x: u64|
                x != id ==> (#[trigger] t.keys.contains_key(x) == s.keys.contains_key(x)
                    && t.keys[x] == s.keys[x])
            &&& forall|x: u64| #[trigger] t.all.contains(x) <==> s.all.contains(x) || x == id
            &&& forall|x: u64| #[trigger] t.stale.contains(x) <==> s.stale.contains(x) && x != id
        }),
{
    let t = series_indexed(s, id, labels, key);
    assert forall|k: Seq<u8>| #[trigger] label_keys(labels).contains(k) == has_label_key(
        labels,
        k,
    ) by {
        if has_label_key(labels, k) {
            let i = choose|i: int|
                0 <= i < labels.len() && term_key(
                    utf8((#[trigger] labels[i]).name@),
                    utf8(labels[i].value@),
                ) == k;
            assert(label_key(labels[i]) == k);
        }
        if label_keys(labels).contains(k) {
            let i = choose|i: int| 0 <= i < labels.len() && label_key(#[trigger] labels[i]) == k;
            assert(term_key(utf8(labels[i].name@), utf8(labels[i].value@)) == k);
        }
    }
    let added = series_postings(id, labels);
    assert forall|k: Seq<u8>, x: u64| #[trigger] added.contains((k, x)) == (x == id && has_label_key(
        labels,
        k,
    )) by {
        assert(label_keys(labels).contains(k) == has_label_key(labels, k));
    }
    assert forall|k: Seq<u8>| #[trigger] t.terms.contains_key(k) <==> s.terms.contains_key(k)
        || has_label_key(labels, k) by {
        if has_label_key(labels, k) {
            assert(added.contains((k, id)));
        }
        if t.terms.contains_key(k) && !s.terms.contains_key(k) {
            let x = choose|x: u64| added.contains((k, x));
            assert(added.contains((k, x)));
        }
    }
    assert forall|k: Seq<u8>, x: u64| #[trigger] list_of(t.terms, k).contains(x) <==> list_of(
        s.terms,
        k,
    ).contains(x) || (x == id && has_label_key(labels, k)) by {
        assert(t.terms.contains_key(k) <==> s.terms.contains_key(k) || has_label_key(labels, k));
        assert(added.contains((k, x)) == (x == id && has_label_key(labels, k)));
    }
}

/// A series that is taken out stands in no list of its labels, is not live and has no key. No other
/// series is touched, and nothing is where the key is not that of the series.
pub proof fn law_series_left(s: IndexState, id: u64, labels: Seq<Label>, key: Seq<u8>)
    ensures
        ({
            let t = state_without(s, id, labels, key);
            let stands = s.keys.contains_key(id) && s.keys[id] == key;
            &&& !stands ==> t == s
            &&& stands ==> {
                &&& forall|k: Seq<u8>, x: u64| #[trigger]
                    list_of(t.terms, k).contains(x) <==> list_of(s.terms, k).contains(x) && !(x
                        == id && has_label_key(labels, k))
                &&& !t.keys.contains_key(id)
                &&& forall|x: u64|
                    x != id ==> (#[trigger] t.keys.contains_key(x) == s.keys.contains_key(x))
                &&& forall|x: u64|
                    x != id && s.keys.contains_key(x) ==> #[trigger] t.keys[x] == s.keys[x]
                &&& forall|x: u64| #[trigger] t.all.contains(x) <==> s.all.contains(x) && x != id
                &&& t.stale == s.stale
                &&& t.pass == s.pass
            }
        }),
{
    let t = state_without(s, id, labels, key);
    if s.keys.contains_key(id) && s.keys[id] == key {
        assert forall|k: Seq<u8>, x: u64| #[trigger] list_of(t.terms, k).contains(x) <==> list_of(
            s.terms,
            k,
        ).contains(x) && !(x == id && has_label_key(labels, k)) by {
            assert(label_keys(labels).contains(k) == has_label_key(labels, k)) by {
                if has_label_key(labels, k) {
                    let i = choose|i: int|
                        0 <= i < labels.len() && term_key(
                            utf8((#[trigger] labels[i]).name@),
                            utf8(labels[i].value@),
                        ) == k;
                    assert(label_key(labels[i]) == k);
                }
                if label_keys(labels).contains(k) {
                    let i = choose|i: int|
                        0 <= i < labels.len() && label_key(#[trigger] labels[i]) == k;
                    assert(term_key(utf8(labels[i].name@), utf8(labels[i].value@)) == k);
                }
            }
            if s.terms.contains_key(k) && !t.terms.contains_key(k) {
                assert(!s.terms[k].remove(id).contains(x));
            }
        }
    }
}

/// After a bulk load an id that was loaded is under the key of the last entry for it, and any other
/// under the key that it was under.
pub proof fn law_bulk_keys(keys: Map<u64, Seq<u8>>, entries: Seq<BulkIndexEntry>, id: u64)
    ensures
        (forall|i: int| 0 <= i < entries.len() ==> (#[trigger] entries[i]).id != id) ==> {
            &&& keys_after(keys, entries).contains_key(id) == keys.contains_key(id)
            &&& keys.contains_key(id) ==> keys_after(keys, entries)[id] == keys[id]
        },
        forall|i: int|
            {
                &&& 0 <= i < entries.len()
                &&& (#[trigger] entries[i]).id == id
                &&& forall|j: int| i < j < entries.len() ==> (#[trigger] entries[j]).id != id
            } ==> keys_after(keys, entries).contains_key(id) && keys_after(keys, entries)[id]
                == entries[i].key@,
    decreases entries.len(),
{
    if entries.len() > 0 {
        let less = entries.drop_last();
        let last = entries.len() - 1;
        law_bulk_keys(keys, less, id);
        assert(entries[last] == entries.last());
        if entries.last().id != id {
            if forall|i: int| 0 <= i < entries.len() ==> (#[trigger] entries[i]).id != id {
                assert forall|i: int| 0 <= i < less.len() implies (#[trigger] less[i]).id != id by {
                    assert(less[i] == entries[i]);
                }
            }
            assert forall|i: int|
                {
                    &&& 0 <= i < entries.len()
                    &&& (#[trigger] entries[i]).id == id
                    &&& forall|j: int| i < j < entries.len() ==> (#[trigger] entries[j]).id != id
                } implies keys_after(keys, entries).contains_key(id) && keys_after(keys, entries)[id]
                == entries[i].key@ by {
                assert(less[i] == entries[i]);
                assert forall|j: int| i < j < less.len() implies (#[trigger] less[j]).id != id by {
                    assert(less[j] == entries[j]);
                }
            }
        }
    }
}

/// After indexes came from a snapshot, a database has the last that came for it, or the one that it
/// had.
pub proof fn law_preloaded(sections: Seq<(i32, Postings)>, db: i32, before: IndexState)
    ensures
        (forall|i: int| 0 <= i < sections.len() ==> (#[trigger] sections[i]).0 != db)
            ==> preloaded_state(sections, db, before) == before,
        forall|i: int|
            {
                &&& 0 <= i < sections.len()
                &&& (#[trigger] sections[i]).0 == db
                &&& forall|j: int| i < j < sections.len() ==> (#[trigger] sections[j]).0 != db
            } ==> preloaded_state(sections, db, before) == state_of(&sections[i].1),
    decreases sections.len(),
{
    if sections.len() > 0 {
        let less = sections.drop_last();
        let last = sections.len() - 1;
        law_preloaded(less, db, before);
        assert(sections[last] == sections.last());
        if sections.last().0 != db {
            if forall|i: int| 0 <= i < sections.len() ==> (#[trigger] sections[i]).0 != db {
                assert forall|i: int| 0 <= i < less.len() implies (#[trigger] less[i]).0 != db by {
                    assert(less[i] == sections[i]);
                }
            }
            assert forall|i: int|
                {
                    &&& 0 <= i < sections.len()
                    &&& (#[trigger] sections[i]).0 == db
                    &&& forall|j: int| i < j < sections.len() ==> (#[trigger] sections[j]).0 != db
                } implies preloaded_state(sections, db, before) == state_of(&sections[i].1) by {
                assert(less[i] == sections[i]);
                assert forall|j: int| i < j < less.len() implies (#[trigger] less[j]).0 != db by {
                    assert(less[j] == sections[j]);
                }
            }
        }
    }
}

/// Once what was gathered is indexed, each database that has a list has it on top of what it had, and
/// any other is as it was.
pub proof fn law_built(lists: Seq<(i32, Vec<BulkIndexEntry>)>, db: i32, before: IndexState)
    requires
        forall|i: int, j: int|
            0 <= i < j < lists.len() ==> (#[trigger] lists[i]).0 != (#[trigger] lists[j]).0,
    ensures
        (forall|i: int| 0 <= i < lists.len() ==> (#[trigger] lists[i]).0 != db) ==> built_state(
            lists,
            db,
            before,
        ) == before,
        forall|i: int|
            0 <= i < lists.len() && (#[trigger] lists[i]).0 == db ==> built_state(lists, db, before)
                == index_bulk(before, lists[i].1@),
    decreases lists.len(),
{
    if lists.len() > 0 {
        let less = lists.drop_last();
        let last = lists.len() - 1;
        assert forall|i: int, j: int| 0 <= i < j < less.len() implies (#[trigger] less[i]).0 != (
        #[trigger] less[j]).0 by {
            assert(less[i] == lists[i] && less[j] == lists[j]);
        }
        law_built(less, db, before);
        assert(lists[last] == lists.last());
        if lists.last().0 == db {
            assert forall|i: int| 0 <= i < less.len() implies (#[trigger] less[i]).0 != db by {
                assert(less[i] == lists[i]);
                assert(lists[i].0 != lists[last].0);
            }
        } else {
            if forall|i: int| 0 <= i < lists.len() ==> (#[trigger] lists[i]).0 != db {
                assert forall|i: int| 0 <= i < less.len() implies (#[trigger] less[i]).0 != db by {
                    assert(less[i] == lists[i]);
                }
            }
            assert forall|i: int| 0 <= i < lists.len() && (#[trigger] lists[i]).0 == db implies
                built_state(lists, db, before) == index_bulk(before, lists[i].1@) by {
                assert(less[i] == lists[i]);
            }
        }
    }
}

/// Numbers added up.
pub open spec fn total(numbers: Seq<nat>) -> nat {
    numbers.fold_left(0nat, |a: nat, b: nat| a + b)
}

proof fn lemma_total(numbers: Seq<nat>)
    requires
        numbers.len() > 0,
    ensures
        total(numbers) == total(numbers.drop_last()) + numbers.last(),
{
}

/// A number that is counted is told as it is, or as the largest that there is.
pub proof fn law_counted(n: nat)
    ensures
        n <= usize::MAX ==> at_most_usize(n) == n,
        n > usize::MAX ==> at_most_usize(n) == usize::MAX,
{
}

/// Sizes are added up.
pub proof fn law_sizes(sizes: Seq<usize>)
    ensures
        sizes_sum(sizes) == total(sizes.map_values(|n: usize| n as nat)),
    decreases sizes.len(),
{
    let numbers = sizes.map_values(|n: usize| n as nat);
    if sizes.len() > 0 {
        law_sizes(sizes.drop_last());
        assert(numbers.drop_last() =~= sizes.drop_last().map_values(|n: usize| n as nat));
        lemma_total(numbers);
    }
}

/// A key takes its bytes and a header.
pub proof fn law_keys_size(keys: Seq<Seq<u8>>)
    ensures
        keys_bytes(keys) == total(keys.map_values(|k: Seq<u8>| k.len() + size_of::<IndexKey>())),
    decreases keys.len(),
{
    let numbers = keys.map_values(|k: Seq<u8>| k.len() + size_of::<IndexKey>());
    if keys.len() > 0 {
        law_keys_size(keys.drop_last());
        assert(numbers.drop_last() =~= keys.drop_last().map_values(
            |k: Seq<u8>| k.len() + size_of::<IndexKey>(),
        ));
        lemma_total(numbers);
    }
}

/// An entry of the directory takes an id, a header and the bytes of the key.
pub proof fn law_names_size(names: Map<u64, Seq<u8>>, ids: Seq<u64>)
    ensures
        names_bytes(names, ids) == total(
            ids.map_values(
                |id: u64| size_of::<SeriesRef>() + size_of::<Vec<u8>>() + names[id].len(),
            ),
        ),
    decreases ids.len(),
{
    let numbers = ids.map_values(
        |id: u64| size_of::<SeriesRef>() + size_of::<Vec<u8>>() + names[id].len(),
    );
    if ids.len() > 0 {
        law_names_size(names, ids.drop_last());
        assert(numbers.drop_last() =~= ids.drop_last().map_values(
            |id: u64| size_of::<SeriesRef>() + size_of::<Vec<u8>>() + names[id].len(),
        ));
        lemma_total(numbers);
    }
}

/// A series that was gathered takes an entry, its key, and for each label a header and its bytes.
pub proof fn law_footprint(entry: BulkIndexEntry)
    ensures
        footprint(entry) == size_of::<BulkIndexEntry>() + entry.key@.len() + total(
            entry.label_keys@.map_values(|k: IndexKey| size_of::<IndexKey>() + k@.len()),
        ),
{
    lemma_keys_footprint(entry.label_keys@);
}

proof fn lemma_keys_footprint(keys: Seq<IndexKey>)
    ensures
        keys_footprint(keys) == total(
            keys.map_values(|k: IndexKey| size_of::<IndexKey>() + k@.len()),
        ),
    decreases keys.len(),
{
    let numbers = keys.map_values(|k: IndexKey| size_of::<IndexKey>() + k@.len());
    if keys.len() > 0 {
        lemma_keys_footprint(keys.drop_last());
        assert(numbers.drop_last() =~= keys.drop_last().map_values(
            |k: IndexKey| size_of::<IndexKey>() + k@.len(),
        ));
        lemma_total(numbers);
    }
}

/// One number of what an index takes.
pub open spec fn counts_of(m: IndexMemory) -> Seq<nat> {
    seq![
        m.db_count as nat,
        m.term_count as nat,
        m.series_count as nat,
        m.terms_bytes as nat,
        m.postings_bytes as nat,
        m.id_to_key_bytes as nat,
        m.bookkeeping_bytes as nat,
    ]
}

/// Of the indexes together each number is the sum of those of the indexes, or the largest there is.
pub proof fn law_memory_adds(parts: Seq<IndexMemory>, n: int)
    requires
        0 <= n < 7,
    ensures
        ({
            let sum = total(parts.map_values(|m: IndexMemory| counts_of(m)[n]));
            counts_of(all_merged(parts))[n] == if sum > usize::MAX {
                usize::MAX as nat
            } else {
                sum
            }
        }),
    decreases parts.len(),
{
    let numbers = parts.map_values(|m: IndexMemory| counts_of(m)[n]);
    if parts.len() > 0 {
        let less = parts.drop_last();
        law_memory_adds(less, n);
        assert(numbers.drop_last() =~= less.map_values(|m: IndexMemory| counts_of(m)[n]));
        lemma_total(numbers);
        let a = all_merged(less);
        let b = parts.last();
        assert(counts_of(merged(a, b))[n] == at_most_usize(
            (counts_of(a)[n] + counts_of(b)[n]) as nat,
        ));
    } else {
        assert(counts_of(no_memory())[n] == 0);
    }
}

} // verus!
