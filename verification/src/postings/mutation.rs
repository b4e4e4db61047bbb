//! Adding series to the index and taking them out.
//!
//! The posting lists, the set of live ids and the directory change together, so a series is never
//! half indexed.
use crate::bytes::{bytes_equal, lex_less, utf8};
use crate::labels::Label;
use crate::postings::key::{is_sealed, lemma_sealed_prefix_free, lemma_term_key, nul_free, term_key, IndexKey};
use crate::postings::label_index::{fits_among, TermMap};
use crate::postings::stale::lemma_push_to_set;
use crate::postings::{dictionary_wf, list_of, Postings, SeriesRef};
use croaring::Bitmap64;
use vstd::prelude::*;

verus! {

/// A pair of an index key and the id of a series that carries the label.
pub type Posting = (Seq<u8>, u64);

/// One series to be indexed in bulk: its id, its key, and the index keys of its labels.
pub struct BulkIndexEntry {
    pub id: SeriesRef,
    pub key: Vec<u8>,
    pub label_keys: Vec<IndexKey>,
}

/// The dictionary with these postings added.
pub open spec fn with_postings(terms: TermMap, added: Set<Posting>) -> TermMap {
    Map::new(
        |k: Seq<u8>| terms.contains_key(k) || exists|id: u64| added.contains((k, id)),
        |k: Seq<u8>| list_of(terms, k).union(Set::new(|id: u64| added.contains((k, id)))),
    )
}

/// The dictionary after an id was taken out of the lists under these keys: a list that loses its
/// last id is gone, with its key.
pub open spec fn without_postings(terms: TermMap, keys: Set<Seq<u8>>, id: u64) -> TermMap {
    Map::new(
        |k: Seq<u8>|
            terms.contains_key(k) && !(keys.contains(k) && terms[k].contains(id) && terms[k].remove(
                id,
            ) == Set::<u64>::empty()),
        |k: Seq<u8>|
            if keys.contains(k) {
                terms[k].remove(id)
            } else {
                terms[k]
            },
    )
}

/// The index key of a label.
pub open spec fn label_key(l: Label) -> Seq<u8> {
    term_key(utf8(l.name@), utf8(l.value@))
}

/// The index keys of labels.
pub open spec fn label_keys(labels: Seq<Label>) -> Set<Seq<u8>> {
    Set::new(|k: Seq<u8>| exists|i: int| 0 <= i < labels.len() && label_key(#[trigger] labels[i]) == k)
}

/// The postings of a series.
pub open spec fn series_postings(id: u64, labels: Seq<Label>) -> Set<Posting> {
    Set::new(|p: Posting| p.1 == id && label_keys(labels).contains(p.0))
}

/// No label holds a NUL byte.
pub open spec fn labels_nul_free(labels: Seq<Label>) -> bool {
    forall|i: int|
        0 <= i < labels.len() ==> nul_free(utf8((#[trigger] labels[i]).name@)) && nul_free(
            utf8(labels[i].value@),
        )
}

/// The postings of the entries of a bulk load.
pub open spec fn entry_postings(entries: Seq<BulkIndexEntry>) -> Set<Posting> {
    Set::new(
        |p: Posting|
            exists|i: int, j: int|
                0 <= i < entries.len() && 0 <= j < entries[i].label_keys@.len() && entries[i].id
                    == p.1 && (#[trigger] entries[i].label_keys@[j])@ == p.0,
    )
}

/// The ids of the entries of a bulk load.
pub open spec fn entry_ids(entries: Seq<BulkIndexEntry>) -> Set<u64> {
    Set::new(|id: u64| exists|i: int| 0 <= i < entries.len() && (#[trigger] entries[i]).id == id)
}

/// The directory after a bulk load: of two entries for one id, the later one counts.
pub open spec fn keys_after(keys: Map<u64, Seq<u8>>, entries: Seq<BulkIndexEntry>) -> Map<
    u64,
    Seq<u8>,
>
    decreases entries.len(),
{
    if entries.len() == 0 {
        keys
    } else {
        keys_after(keys, entries.drop_last()).insert(entries.last().id, entries.last().key@)
    }
}

/// All index keys of a bulk load are closed by a NUL byte.
pub open spec fn entries_wf(entries: Seq<BulkIndexEntry>) -> bool {
    forall|i: int, j: int|
        0 <= i < entries.len() && 0 <= j < entries[i].label_keys@.len() ==> is_sealed(
            (#[trigger] entries[i].label_keys@[j])@,
        )
}

/// A label's key fits among those of other labels.
pub proof fn lemma_fits(terms: TermMap, key: Seq<u8>)
    requires
        dictionary_wf(terms),
        is_sealed(key),
    ensures
        fits_among(terms, key),
{
    assert forall|k: Seq<u8>| #[trigger]
        terms.contains_key(k) && (crate::bytes::starts_with(k, key) || crate::bytes::starts_with(
            key,
            k,
        )) implies k == key by {
        lemma_sealed_prefix_free(k, key);
    }
}

/// Adding postings twice is adding them together.
pub proof fn lemma_with_postings_twice(terms: TermMap, a: Set<Posting>, b: Set<Posting>)
    ensures
        with_postings(with_postings(terms, a), b) == with_postings(terms, a.union(b)),
{
    let one = with_postings(with_postings(terms, a), b);
    let two = with_postings(terms, a.union(b));
    assert forall|k: Seq<u8>| one.contains_key(k) == two.contains_key(k) by {
        if one.contains_key(k) && !terms.contains_key(k) {
            if exists|id: u64| a.contains((k, id)) {
                let id = choose|id: u64| a.contains((k, id));
                assert(a.union(b).contains((k, id)));
            } else {
                let id = choose|id: u64| b.contains((k, id));
                assert(a.union(b).contains((k, id)));
            }
        }
        if two.contains_key(k) && !terms.contains_key(k) {
            let id = choose|id: u64| a.union(b).contains((k, id));
            assert(a.contains((k, id)) || b.contains((k, id)));
        }
    }
    assert forall|k: Seq<u8>| one.contains_key(k) implies one[k] == two[k] by {
        let mid = with_postings(terms, a);
        assert(list_of(mid, k) =~= list_of(terms, k).union(
            Set::new(|id: u64| a.contains((k, id))),
        )) by {
            if !mid.contains_key(k) {
                assert forall|id: u64| !a.contains((k, id)) by {}
            }
        }
        assert(one[k] =~= two[k]);
    }
    assert(one =~= two);
}

/// `<[(Vec<u8>, u64)]>::sort_unstable`: the same pairs, ordered by key, and by id among equal
/// keys.
#[verifier::external_body]
fn sort_pairs(pairs: &mut Vec<(Vec<u8>, u64)>)
    ensures
        final(pairs)@.to_multiset() == old(pairs)@.to_multiset(),
        forall|i: int, j: int|
            0 <= i < j < final(pairs)@.len() ==> lex_less(
                (#[trigger] final(pairs)@[i]).0@,
                (#[trigger] final(pairs)@[j]).0@,
            ) || (final(pairs)@[i].0@ == final(pairs)@[j].0@
                && final(pairs)@[i].1 <= final(pairs)@[j].1),
{
    pairs.sort_unstable();
}

impl Postings {
    /// Takes an id out of the posting list of a label's value; a list that loses its last id is
    /// dropped. Tells whether the id was there.
    pub fn remove_posting_for_label_value(&mut self, label: &str, value: &str, ts_id: SeriesRef) -> (r:
        bool)
        ensures
            r == list_of(old(self).terms(), term_key(utf8(label@), utf8(value@))).contains(ts_id),
            final(self).terms() == without_postings(
                old(self).terms(),
                set![term_key(utf8(label@), utf8(value@))],
                ts_id,
            ),
            final(self).id_to_key == old(self).id_to_key,
            final(self).stale_ids == old(self).stale_ids,
            final(self).all_postings == old(self).all_postings,
    {
        let key = IndexKey::for_label_value(label, value);
        let ghost terms0 = self.terms();
        let mut removed: bool = false;
        let mut now_empty: bool = false;
        match self.label_index.get_mut(key.as_bytes()) {
            Some(list) => {
                removed = list.remove_checked(ts_id);
                now_empty = removed && list.is_empty();
            },
            None => {},
        }
        if now_empty {
            self.label_index.remove(key.as_bytes());
        }
        proof {
            if terms0.contains_key(key@) && !removed {
                assert(terms0[key@].remove(ts_id) =~= terms0[key@]);
            }
            assert(self.terms() =~= without_postings(terms0, set![key@], ts_id));
        }
        removed
    }

    /// Adds an id to the live ids and to the posting list of a label's value. Tells whether the
    /// value is new to the dictionary.
    pub fn add_posting_for_label_value(&mut self, ts_id: SeriesRef, label: &str, value: &str) -> (r:
        bool)
        requires
            old(self).wf(),
            nul_free(utf8(label@)),
            nul_free(utf8(value@)),
        ensures
            r == !old(self).terms().contains_key(term_key(utf8(label@), utf8(value@))),
            final(self).terms() == with_postings(
                old(self).terms(),
                set![(term_key(utf8(label@), utf8(value@)), ts_id)],
            ),
            final(self).all() == old(self).all().insert(ts_id),
            final(self).id_to_key == old(self).id_to_key,
            final(self).stale_ids == old(self).stale_ids,
            !old(self).stale().contains(ts_id) ==> final(self).wf(),
    {
        self.all_postings.add(ts_id);
        let ghost mid = *self;
        let r = self.add_posting_for_label_value_internal(ts_id, label, value);
        assert(!old(self).stale().contains(ts_id) ==> self.all().disjoint(self.stale()));
        r
    }

    /// Adds an id to the posting list of a label's value, leaving the live ids as they are.
    fn add_posting_for_label_value_internal(
        &mut self,
        ts_id: SeriesRef,
        label: &str,
        value: &str,
    ) -> (r: bool)
        requires
            dictionary_wf(old(self).terms()),
            nul_free(utf8(label@)),
            nul_free(utf8(value@)),
        ensures
            r == !old(self).terms().contains_key(term_key(utf8(label@), utf8(value@))),
            final(self).terms() == with_postings(
                old(self).terms(),
                set![(term_key(utf8(label@), utf8(value@)), ts_id)],
            ),
            dictionary_wf(final(self).terms()),
            final(self).id_to_key == old(self).id_to_key,
            final(self).stale_ids == old(self).stale_ids,
            final(self).all_postings == old(self).all_postings,
    {
        let key = IndexKey::for_label_value(label, value);
        proof {
            lemma_term_key(utf8(label@), utf8(value@));
        }
        let ids: Vec<u64> = vec![ts_id];
        let ghost terms0 = self.terms();
        let ghost key0 = key@;
        let added = self.add_many_for_key(key, ids.as_slice());
        proof {
            let one = set![(key0, ts_id)];
            assert(postings_under(key0, ids@) =~= one) by {
                assert(ids@[0] == ts_id);
                assert forall|p: Posting| postings_under(key0, ids@).contains(p) == one.contains(
                    p,
                ) by {
                    if p.1 == ts_id {
                        assert(ids@.contains(p.1));
                    }
                }
            }
        }
        added
    }

    /// Adds ids to the posting list under a key. Tells whether the key is new to the dictionary.
    fn add_many_for_key(&mut self, key: IndexKey, ids: &[SeriesRef]) -> (r: bool)
        requires
            dictionary_wf(old(self).terms()),
            is_sealed(key@),
            ids@.len() > 0,
        ensures
            r == !old(self).terms().contains_key(key@),
            final(self).terms() == with_postings(old(self).terms(), postings_under(key@, ids@)),
            dictionary_wf(final(self).terms()),
            final(self).id_to_key == old(self).id_to_key,
            final(self).stale_ids == old(self).stale_ids,
            final(self).all_postings == old(self).all_postings,
    {
        let ghost terms0 = self.terms();
        let ghost added = postings_under(key@, ids@);
        let ghost key0 = key@;
        proof {
            assert(added.contains((key0, ids@[0]))) by {
                assert(ids@.contains(ids@[0]));
            }
            assert(Set::new(|id: u64| added.contains((key0, id))) =~= ids@.to_set());
        }
        let mut found: bool = false;
        match self.label_index.get_mut(key.as_bytes()) {
            Some(list) => {
                list.add_many(ids);
                found = true;
            },
            None => {},
        }
        if !found {
            let mut list = Bitmap64::new();
            list.add_many(ids);
            proof {
                lemma_fits(terms0, key0);
            }
            self.label_index.insert(key.into_bytes(), list);
        }
        proof {
            let goal = with_postings(terms0, added);
            assert forall|k: Seq<u8>| #[trigger] goal.contains_key(k) <==> self.terms().contains_key(
                k,
            ) by {
                if k != key0 && !terms0.contains_key(k) {
                    assert forall|id: u64| !added.contains((k, id)) by {}
                }
            }
            assert forall|k: Seq<u8>| goal.contains_key(k) implies self.terms()[k] == goal[k] by {
                assert(self.terms()[k] =~= goal[k]);
            }
            assert(self.terms() =~= goal);
            assert(self.terms().dom() =~= terms0.dom().insert(key0));
        }
        !found
    }

    /// Indexes a series under its labels and its key. That it is indexed says that it is alive,
    /// so a mark for removal is revoked.
    pub fn index_labels(&mut self, id: SeriesRef, labels: &Vec<Label>, key: &[u8])
        requires
            old(self).wf(),
            labels_nul_free(labels@),
        ensures
            final(self).wf(),
            final(self).terms() == with_postings(
                old(self).terms(),
                series_postings(id, labels@),
            ),
            final(self).keys() == old(self).keys().insert(id, key@),
            final(self).all() == old(self).all().insert(id),
            final(self).stale() == old(self).stale().remove(id),
            final(self).stale_ids.retiring() == old(self).stale_ids.retiring(),
    {
        if !self.stale_ids.is_empty() {
            self.stale_ids.revoke(id);
        } else {
            assert(self.stale() =~= self.stale().remove(id));
        }
        let ghost terms0 = self.terms();
        let ghost stale1 = self.stale_ids;
        let mut i: usize = 0;
        proof {
            assert(terms0 == old(self).terms());
            assert(series_postings(id, labels@.subrange(0, 0)) =~= Set::<Posting>::empty());
            lemma_with_none(terms0);
        }
        while i < labels.len()
            invariant
                i <= labels.len(),
                labels_nul_free(labels@),
                self.id_to_key == old(self).id_to_key,
                self.all_postings == old(self).all_postings,
                self.stale_ids == stale1,
                dictionary_wf(self.terms()),
                self.terms() == with_postings(
                    terms0,
                    series_postings(id, labels@.subrange(0, i as int)),
                ),
            decreases labels.len() - i,
        {
            let l = &labels[i];
            self.add_posting_for_label_value_internal(id, l.name.as_str(), l.value.as_str());
            proof {
                let done = labels@.subrange(0, i as int);
                let more = labels@.subrange(0, i + 1);
                let one = set![(label_key(labels@[i as int]), id)];
                lemma_with_postings_twice(terms0, series_postings(id, done), one);
                assert(series_postings(id, done).union(one) =~= series_postings(id, more)) by {
                    assert(more =~= done.push(labels@[i as int]));
                    assert forall|p: Posting| series_postings(id, more).contains(p) == (
                    series_postings(id, done).contains(p) || one.contains(p)) by {
                        if series_postings(id, more).contains(p) {
                            let j = choose|j: int|
                                0 <= j < more.len() && label_key(#[trigger] more[j]) == p.0;
                            if j < i {
                                assert(done[j] == more[j]);
                            }
                        }
                        if series_postings(id, done).contains(p) {
                            let j = choose|j: int|
                                0 <= j < done.len() && label_key(#[trigger] done[j]) == p.0;
                            assert(more[j] == done[j]);
                        }
                        if one.contains(p) {
                            assert(more[i as int] == labels@[i as int]);
                        }
                    }
                }
            }
            i += 1;
        }
        assert(labels@.subrange(0, i as int) =~= labels@);
        self.all_postings.add(id);
        self.set_timeseries_key(id, key);
        assert(self.all().disjoint(self.stale()));
    }

    /// Takes a series out of the index. Tells whether it was live.
    pub fn remove_labels(&mut self, id: SeriesRef, labels: &Vec<Label>) -> (r: bool)
        requires
            old(self).wf(),
        ensures
            final(self).wf(),
            r == old(self).all().contains(id),
            final(self).terms() == without_postings(old(self).terms(), label_keys(labels@), id),
            final(self).keys() == old(self).keys().remove(id),
            final(self).all() == old(self).all().remove(id),
            final(self).stale_ids == old(self).stale_ids,
    {
        let _ = self.id_to_key.remove(&id);
        assert(self.keys() =~= old(self).keys().remove(id));
        let removed: bool = self.all_postings.remove_checked(id);
        let ghost terms0 = self.terms();
        let ghost mid = *self;
        let mut i: usize = 0;
        proof {
            assert(label_keys(labels@.subrange(0, 0)) =~= Set::<Seq<u8>>::empty());
            assert(without_postings(terms0, Set::empty(), id) =~= terms0);
        }
        while i < labels.len()
            invariant
                i <= labels.len(),
                self.id_to_key == mid.id_to_key,
                self.all_postings == mid.all_postings,
                self.stale_ids == mid.stale_ids,
                self.terms() == without_postings(
                    terms0,
                    label_keys(labels@.subrange(0, i as int)),
                    id,
                ),
            decreases labels.len() - i,
        {
            let l = &labels[i];
            let ghost before = self.terms();
            self.remove_posting_for_label_value(l.name.as_str(), l.value.as_str(), id);
            proof {
                let done = labels@.subrange(0, i as int);
                let more = labels@.subrange(0, i + 1);
                let k0 = label_key(labels@[i as int]);
                assert(more =~= done.push(labels@[i as int]));
                assert(label_keys(more) =~= label_keys(done).insert(k0)) by {
                    assert forall|k: Seq<u8>| label_keys(more).contains(k) == label_keys(
                        done,
                    ).insert(k0).contains(k) by {
                        if label_keys(more).contains(k) {
                            let j = choose|j: int|
                                0 <= j < more.len() && label_key(#[trigger] more[j]) == k;
                            if j < i {
                                assert(done[j] == more[j]);
                            }
                        }
                        if label_keys(done).contains(k) {
                            let j = choose|j: int|
                                0 <= j < done.len() && label_key(#[trigger] done[j]) == k;
                            assert(more[j] == done[j]);
                        }
                        if k == k0 {
                            assert(more[i as int] == labels@[i as int]);
                        }
                    }
                }
                let goal = without_postings(terms0, label_keys(more), id);
                assert forall|k: Seq<u8>| self.terms().contains_key(k) == goal.contains_key(k) by {
                    if k == k0 && label_keys(done).contains(k0) && before.contains_key(k0) {
                        assert(before[k0] == terms0[k0].remove(id));
                        assert(!before[k0].contains(id));
                    }
                }
                assert forall|k: Seq<u8>| goal.contains_key(k) implies self.terms()[k]
                    == goal[k] by {
                    assert(self.terms()[k] =~= goal[k]);
                }
                assert(self.terms() =~= goal);
            }
            i += 1;
        }
        assert(labels@.subrange(0, i as int) =~= labels@);
        assert(terms0 == old(self).terms());
        assert forall|k: Seq<u8>| #[trigger] self.terms().contains_key(k) implies is_sealed(k) by {
            assert(terms0.contains_key(k));
        }
        proof {
            vstd::set_lib::lemma_len_subset(self.terms().dom(), terms0.dom());
        }
        assert(self.all().disjoint(self.stale()));
        removed
    }

    /// Indexes many series in one pass, as indexing them one by one would: the postings are
    /// sorted, so that each posting list is touched once.
    pub fn bulk_index(&mut self, entries: Vec<BulkIndexEntry>)
        requires
            old(self).wf(),
            entries_wf(entries@),
        ensures
            final(self).wf(),
            final(self).terms() == with_postings(old(self).terms(), entry_postings(entries@)),
            final(self).keys() == keys_after(old(self).keys(), entries@),
            final(self).all() == old(self).all().union(entry_ids(entries@)),
            final(self).stale() == old(self).stale().difference(entry_ids(entries@)),
            final(self).stale_ids.retiring() == old(self).stale_ids.retiring(),
    {
        let ghost terms0 = self.terms();
        let ghost all = entries@;
        if entries.len() == 0 {
            proof {
                assert(entry_postings(entries@) =~= Set::<Posting>::empty());
                lemma_with_none(terms0);
                assert(entry_ids(entries@) =~= Set::<u64>::empty());
                assert(self.all() =~= old(self).all().union(entry_ids(entries@)));
                assert(self.stale() =~= old(self).stale().difference(entry_ids(entries@)));
            }
            return;
        }
        let mut ids: Vec<SeriesRef> = Vec::new();
        let mut pairs: Vec<(Vec<u8>, u64)> = Vec::new();
        let mut i: usize = 0;
        proof {
            assert(entry_postings(all.subrange(0, 0)) =~= Set::<Posting>::empty());
            assert(pairs_set(pairs@) =~= Set::<Posting>::empty());
            assert(entry_ids(all.subrange(0, 0)) =~= Set::<u64>::empty());
            assert(ids@.to_set() =~= Set::<u64>::empty());
            assert(self.stale() =~= self.stale().difference(Set::<u64>::empty()));
        }
        while i < entries.len()
            invariant
                i <= entries.len(),
                entries@ == all,
                entries_wf(all),
                self.label_index == old(self).label_index,
                self.all_postings == old(self).all_postings,
                self.stale_ids.retiring() == old(self).stale_ids.retiring(),
                self.stale() == old(self).stale().difference(entry_ids(all.subrange(0, i as int))),
                ids@.to_set() == entry_ids(all.subrange(0, i as int)),
                self.keys() == keys_after(old(self).keys(), all.subrange(0, i as int)),
                pairs_are(pairs@, entry_postings(all.subrange(0, i as int))),
                forall|j: int| 0 <= j < pairs@.len() ==> is_sealed((#[trigger] pairs@[j]).0@),
            decreases entries.len() - i,
        {
            let e = &entries[i];
            let ghost done = all.subrange(0, i as int);
            let ghost more = all.subrange(0, i + 1);
            self.stale_ids.revoke(e.id);
            let ghost ids_before = ids@;
            ids.push(e.id);
            let ghost keys_before = self.keys();
            self.id_to_key.insert(e.id, crate::bytes::bytes_copy(e.key.as_slice()));
            let mut j: usize = 0;
            proof {
                assert(more =~= done.push(*e));
                assert(entry_ids(more) =~= entry_ids(done).insert(e.id)) by {
                    assert forall|id: u64| entry_ids(more).contains(id) == entry_ids(done).insert(
                        e.id,
                    ).contains(id) by {
                        if entry_ids(done).contains(id) {
                            let a = choose|a: int|
                                0 <= a < done.len() && (#[trigger] done[a]).id == id;
                            assert(more[a].id == id);
                        }
                        if id == e.id {
                            assert(more[i as int].id == id);
                        }
                        if entry_ids(more).contains(id) && id != e.id {
                            let a = choose|a: int|
                                0 <= a < more.len() && (#[trigger] more[a]).id == id;
                            assert(done[a].id == id);
                        }
                    }
                }
                assert(self.stale() =~= old(self).stale().difference(entry_ids(more)));
                assert forall|x: u64| ids@.to_set().contains(x) == entry_ids(more).contains(x) by {
                    lemma_push_to_set(ids_before, e.id, x);
                }
                assert(ids@.to_set() =~= entry_ids(more));
                assert(more.drop_last() =~= done);
                assert(self.keys() =~= keys_before.insert(e.id, e.key@));
                assert(self.keys() == keys_after(old(self).keys(), more));
                assert(partial_postings(all, i as int, 0) =~= entry_postings(done)) by {
                    lemma_partial_none(all, i as int);
                }
            }
            let ghost self1 = *self;
            while j < e.label_keys.len()
                invariant
                    0 <= i < all.len(),
                    *e == all[i as int],
                    entries_wf(all),
                    j <= e.label_keys.len(),
                    *self == self1,
                    pairs_are(pairs@, partial_postings(all, i as int, j as int)),
                    forall|a: int|
                        0 <= a < pairs@.len() ==> is_sealed((#[trigger] pairs@[a]).0@),
                decreases e.label_keys.len() - j,
            {
                let k = e.label_keys[j].copy().into_bytes();
                let ghost pairs_before = pairs@;
                assert(is_sealed(all[i as int].label_keys@[j as int]@));
                pairs.push((k, e.id));
                proof {
                    lemma_partial_step(all, i as int, j as int);
                    lemma_pairs_push(
                        pairs_before,
                        (k, e.id),
                        partial_postings(all, i as int, j as int),
                    );
                    assert(pairs@ =~= pairs_before.push((k, e.id)));
                }
                j += 1;
            }
            proof {
                lemma_partial_all(all, i as int);
            }
            i += 1;
        }
        assert(all.subrange(0, i as int) =~= all);
        self.all_postings.add_many(ids.as_slice());
        let ghost unsorted = pairs@;
        sort_pairs(&mut pairs);
        proof {
            unsorted.to_multiset_ensures();
            pairs@.to_multiset_ensures();
            assert forall|x: (Vec<u8>, u64)| #[trigger]
                pairs@.contains(x) <==> unsorted.contains(x) by {
                assert(unsorted.contains(x) <==> unsorted.to_multiset().count(x) > 0);
                assert(pairs@.contains(x) <==> pairs@.to_multiset().count(x) > 0);
            }
            assert forall|a: int| 0 <= a < pairs@.len() implies is_sealed(
                (#[trigger] pairs@[a]).0@,
            ) by {
                assert(pairs@.contains(pairs@[a]));
                let b = choose|b: int| 0 <= b < unsorted.len() && unsorted[b] == pairs@[a];
                assert(is_sealed(unsorted[b].0@));
            }
            lemma_pairs_same(unsorted, pairs@, entry_postings(all));
        }
        let mut run: Vec<SeriesRef> = Vec::new();
        let mut at: usize = 0;
        let ghost self2 = *self;
        proof {
            lemma_with_none(terms0);
            assert(pairs_set(pairs@.subrange(0, 0)) =~= Set::<Posting>::empty());
        }
        while at < pairs.len()
            invariant
                at <= pairs.len(),
                self.id_to_key == self2.id_to_key,
                self.stale_ids == self2.stale_ids,
                self.all_postings == self2.all_postings,
                forall|a: int| 0 <= a < pairs@.len() ==> is_sealed((#[trigger] pairs@[a]).0@),
                dictionary_wf(self.terms()),
                self.terms() == with_postings(terms0, pairs_set(pairs@.subrange(0, at as int))),
            decreases pairs.len() - at,
        {
            let ghost from = at as int;
            let key: Vec<u8> = crate::bytes::bytes_copy(pairs[at].0.as_slice());
            run.clear();
            while at < pairs.len() && bytes_equal(pairs[at].0.as_slice(), key.as_slice())
                invariant
                    0 <= from <= at <= pairs.len(),
                    from < pairs.len(),
                    key@ == pairs@[from].0@,
                    run@.len() == at - from,
                    forall|a: int| from <= a < at ==> (#[trigger] pairs@[a]).0@ == key@,
                    forall|a: int| 0 <= a < run@.len() ==> run@[a] == pairs@[from + a].1,
                decreases pairs.len() - at,
            {
                run.push(pairs[at].1);
                at += 1;
            }
            proof {
                assert(is_sealed(pairs@[from].0@));
            }
            assert(run@.len() > 0);
            let ghost key0 = key@;
            self.add_many_for_key(IndexKey::from_bytes(key.as_slice()), run.as_slice());
            proof {
                lemma_with_postings_twice(
                    terms0,
                    pairs_set(pairs@.subrange(0, from)),
                    postings_under(key0, run@),
                );
                lemma_run(pairs@, from, at as int, key0, run@);
            }
        }
        proof {
            assert(pairs@.subrange(0, at as int) =~= pairs@);
            lemma_pairs_are_set(pairs@, entry_postings(all));
            assert(self.all() =~= old(self).all().union(entry_ids(all)));
            assert(self.all().disjoint(self.stale()));
        }
    }
}

/// The postings of ids under one key.
pub open spec fn postings_under(key: Seq<u8>, ids: Seq<u64>) -> Set<Posting> {
    Set::new(|p: Posting| p.0 == key && ids.contains(p.1))
}

/// The postings that a list of pairs stands for.
spec fn pairs_set(pairs: Seq<(Vec<u8>, u64)>) -> Set<Posting> {
    Set::new(|p: Posting| exists|a: int| 0 <= a < pairs.len() && (#[trigger] pairs[a]).0@ == p.0 && pairs[a].1 == p.1)
}

/// A list of pairs stands for exactly these postings.
spec fn pairs_are(pairs: Seq<(Vec<u8>, u64)>, set: Set<Posting>) -> bool {
    pairs_set(pairs) == set
}

/// The postings of the entries before `i`, and of the first `j` labels of entry `i`.
spec fn partial_postings(entries: Seq<BulkIndexEntry>, i: int, j: int) -> Set<Posting> {
    Set::new(
        |p: Posting|
            exists|a: int, b: int|
                0 <= a < entries.len() && 0 <= b < entries[a].label_keys@.len() && (a < i || (a == i
                    && b < j)) && entries[a].id == p.1 && (#[trigger] entries[a].label_keys@[b])@
                    == p.0,
    )
}

proof fn lemma_with_none(terms: TermMap)
    ensures
        with_postings(terms, Set::empty()) == terms,
{
    let none = Set::<Posting>::empty();
    assert forall|k: Seq<u8>| terms.contains_key(k) implies with_postings(terms, none)[k]
        == terms[k] by {
        assert(with_postings(terms, none)[k] =~= terms[k]);
    }
    assert(with_postings(terms, none) =~= terms);
}

proof fn lemma_partial_none(entries: Seq<BulkIndexEntry>, i: int)
    requires
        0 <= i <= entries.len(),
    ensures
        partial_postings(entries, i, 0) == entry_postings(entries.subrange(0, i)),
{
    let done = entries.subrange(0, i);
    assert forall|p: Posting| partial_postings(entries, i, 0).contains(p) == entry_postings(
        done,
    ).contains(p) by {
        if partial_postings(entries, i, 0).contains(p) {
            let (a, b) = choose|a: int, b: int|
                0 <= a < entries.len() && 0 <= b < entries[a].label_keys@.len() && (a < i || (a == i
                    && b < 0)) && entries[a].id == p.1 && (#[trigger] entries[a].label_keys@[b])@
                    == p.0;
            assert(done[a].label_keys@[b]@ == p.0);
        }
        if entry_postings(done).contains(p) {
            let (a, b) = choose|a: int, b: int|
                0 <= a < done.len() && 0 <= b < done[a].label_keys@.len() && done[a].id == p.1 && (
                #[trigger] done[a].label_keys@[b])@ == p.0;
            assert(entries[a].label_keys@[b]@ == p.0);
        }
    }
    assert(partial_postings(entries, i, 0) =~= entry_postings(done));
}

proof fn lemma_partial_all(entries: Seq<BulkIndexEntry>, i: int)
    requires
        0 <= i < entries.len(),
    ensures
        partial_postings(entries, i, entries[i].label_keys@.len() as int) == entry_postings(
            entries.subrange(0, i + 1),
        ),
{
    lemma_partial_none(entries, i + 1);
    let one = partial_postings(entries, i, entries[i].label_keys@.len() as int);
    let two = partial_postings(entries, i + 1, 0);
    assert forall|p: Posting| one.contains(p) == two.contains(p) by {
        if one.contains(p) {
            let (a, b) = choose|a: int, b: int|
                0 <= a < entries.len() && 0 <= b < entries[a].label_keys@.len() && (a < i || (a == i
                    && b < entries[i].label_keys@.len())) && entries[a].id == p.1 && (
                #[trigger] entries[a].label_keys@[b])@ == p.0;
            assert(entries[a].label_keys@[b]@ == p.0);
        }
        if two.contains(p) {
            let (a, b) = choose|a: int, b: int|
                0 <= a < entries.len() && 0 <= b < entries[a].label_keys@.len() && (a < i + 1 || (a
                    == i + 1 && b < 0)) && entries[a].id == p.1 && (
                #[trigger] entries[a].label_keys@[b])@ == p.0;
            assert(entries[a].label_keys@[b]@ == p.0);
        }
    }
    assert(one =~= two);
}

proof fn lemma_partial_step(entries: Seq<BulkIndexEntry>, i: int, j: int)
    requires
        0 <= i < entries.len(),
        0 <= j < entries[i].label_keys@.len(),
    ensures
        partial_postings(entries, i, j + 1) == partial_postings(entries, i, j).insert(
            (entries[i].label_keys@[j]@, entries[i].id),
        ),
{
    let one = partial_postings(entries, i, j + 1);
    let two = partial_postings(entries, i, j).insert((entries[i].label_keys@[j]@, entries[i].id));
    assert forall|p: Posting| one.contains(p) == two.contains(p) by {
        if one.contains(p) {
            let (a, b) = choose|a: int, b: int|
                0 <= a < entries.len() && 0 <= b < entries[a].label_keys@.len() && (a < i || (a == i
                    && b < j + 1)) && entries[a].id == p.1 && (#[trigger] entries[a].label_keys@[b])@
                    == p.0;
            if !(a == i && b == j) {
                assert(entries[a].label_keys@[b]@ == p.0);
            }
        }
        if two.contains(p) {
            if p == (entries[i].label_keys@[j]@, entries[i].id) {
                assert(entries[i].label_keys@[j]@ == p.0);
            } else {
                let (a, b) = choose|a: int, b: int|
                    0 <= a < entries.len() && 0 <= b < entries[a].label_keys@.len() && (a < i || (a
                        == i && b < j)) && entries[a].id == p.1 && (
                    #[trigger] entries[a].label_keys@[b])@ == p.0;
                assert(entries[a].label_keys@[b]@ == p.0);
            }
        }
    }
    assert(one =~= two);
}

proof fn lemma_pairs_push(pairs: Seq<(Vec<u8>, u64)>, x: (Vec<u8>, u64), set: Set<Posting>)
    requires
        pairs_are(pairs, set),
    ensures
        pairs_are(pairs.push(x), set.insert((x.0@, x.1))),
{
    let more = pairs.push(x);
    assert forall|p: Posting| pairs_set(more).contains(p) == set.insert((x.0@, x.1)).contains(
        p,
    ) by {
        if pairs_set(more).contains(p) {
            let a = choose|a: int|
                0 <= a < more.len() && (#[trigger] more[a]).0@ == p.0 && more[a].1 == p.1;
            if a < pairs.len() {
                assert(pairs[a] == more[a]);
                assert(pairs_set(pairs).contains(p));
            }
        }
        if set.contains(p) {
            assert(pairs_set(pairs).contains(p));
            let a = choose|a: int|
                0 <= a < pairs.len() && (#[trigger] pairs[a]).0@ == p.0 && pairs[a].1 == p.1;
            assert(more[a] == pairs[a]);
        }
        if p == (x.0@, x.1) {
            assert(more[pairs.len() as int] == x);
        }
    }
    assert(pairs_set(more) =~= set.insert((x.0@, x.1)));
}

proof fn lemma_pairs_same(
    a: Seq<(Vec<u8>, u64)>,
    b: Seq<(Vec<u8>, u64)>,
    set: Set<Posting>,
)
    requires
        forall|x: (Vec<u8>, u64)| b.contains(x) <==> a.contains(x),
        pairs_are(a, set),
    ensures
        pairs_are(b, set),
{
    assert forall|p: Posting| pairs_set(b).contains(p) == set.contains(p) by {
        if pairs_set(b).contains(p) {
            let i = choose|i: int| 0 <= i < b.len() && (#[trigger] b[i]).0@ == p.0 && b[i].1 == p.1;
            assert(b.contains(b[i]));
            let j = choose|j: int| 0 <= j < a.len() && a[j] == b[i];
            assert(a[j].0@ == p.0);
            assert(pairs_set(a).contains(p));
        }
        if set.contains(p) {
            assert(pairs_set(a).contains(p));
            let i = choose|i: int| 0 <= i < a.len() && (#[trigger] a[i]).0@ == p.0 && a[i].1 == p.1;
            assert(a.contains(a[i]));
            let j = choose|j: int| 0 <= j < b.len() && b[j] == a[i];
            assert(b[j].0@ == p.0);
        }
    }
    assert(pairs_set(b) =~= set);
}

proof fn lemma_pairs_are_set(pairs: Seq<(Vec<u8>, u64)>, set: Set<Posting>)
    requires
        pairs_are(pairs, set),
    ensures
        pairs_set(pairs) == set,
{
}

proof fn lemma_run(pairs: Seq<(Vec<u8>, u64)>, from: int, to: int, key: Seq<u8>, run: Seq<u64>)
    requires
        0 <= from <= to <= pairs.len(),
        run.len() == to - from,
        forall|a: int| from <= a < to ==> (#[trigger] pairs[a]).0@ == key,
        forall|a: int| 0 <= a < run.len() ==> run[a] == pairs[from + a].1,
    ensures
        pairs_set(pairs.subrange(0, from)).union(postings_under(key, run)) == pairs_set(
            pairs.subrange(0, to),
        ),
{
    let before = pairs.subrange(0, from);
    let after = pairs.subrange(0, to);
    let one = pairs_set(before).union(postings_under(key, run));
    assert forall|p: Posting| one.contains(p) == pairs_set(after).contains(p) by {
        if pairs_set(before).contains(p) {
            let a = choose|a: int|
                0 <= a < before.len() && (#[trigger] before[a]).0@ == p.0 && before[a].1 == p.1;
            assert(after[a] == before[a]);
        }
        if postings_under(key, run).contains(p) {
            let b = choose|b: int| 0 <= b < run.len() && run[b] == p.1;
            assert(after[from + b] == pairs[from + b]);
        }
        if pairs_set(after).contains(p) {
            let a = choose|a: int|
                0 <= a < after.len() && (#[trigger] after[a]).0@ == p.0 && after[a].1 == p.1;
            if a < from {
                assert(before[a] == after[a]);
            } else {
                assert(pairs[a].0@ == key);
                assert(run[a - from] == p.1);
                assert(run.contains(p.1));
            }
        }
    }
    assert(one =~= pairs_set(after));
}

} // verus!
