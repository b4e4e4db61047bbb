//! Ids that are marked for removal.
//!
//! Where an id turns out to have no series any more, the posting lists it stands in cannot be
//! found from its labels. So the id is marked here, hidden from every read, and taken out of the
//! posting lists by a later pass over the dictionary.
use crate::bytes::{lemma_lex_asymmetric, lemma_lex_irreflexive, lemma_lex_total, lemma_lex_transitive, lex_less};
use crate::postings::bitmap::{cow_ids, ids_of};
use crate::postings::key::IndexKey;
use crate::postings::label_index::TermMap;
use crate::postings::{Postings, SeriesRef};
use croaring::Bitmap64;
use std::borrow::Cow;
use vstd::prelude::*;

verus! {

/// The ids that are marked for removal but may still stand in posting lists.
pub struct StaleSet {
    ids: Bitmap64,
    /// What a pass over the dictionary may retire when it ends: the ids that were marked when it
    /// started and not marked again since. Nothing between passes.
    pass: Option<Bitmap64>,
}

impl StaleSet {
    /// The marked ids.
    pub closed spec fn marked(&self) -> Set<u64> {
        ids_of(self.ids)
    }

    /// The ids that the running pass may retire.
    pub closed spec fn retiring(&self) -> Option<Set<u64>> {
        match self.pass {
            Some(p) => Some(ids_of(p)),
            None => None,
        }
    }

    /// Nothing is marked and no pass is running.
    pub open spec fn wf_empty(&self) -> bool {
        self.marked() == Set::<u64>::empty() && self.retiring() is None
    }

    /// No marks.
    pub fn new() -> (r: StaleSet)
        ensures
            r.wf_empty(),
    {
        StaleSet { ids: Bitmap64::new(), pass: None }
    }

    /// The bitmap of the marked ids, and that of those that the running pass may retire.
    pub closed spec fn held(&self) -> (Bitmap64, Option<Bitmap64>) {
        (self.ids, self.pass)
    }

    /// The marked ids, and those that the running pass may retire.
    pub fn bitmaps(&self) -> (r: (&Bitmap64, Option<&Bitmap64>))
        ensures
            *r.0 == self.held().0,
            match r.1 {
                Some(pass) => self.held().1 == Some(*pass),
                None => self.held().1 is None,
            },
            ids_of(*r.0) == self.marked(),
            match r.1 {
                Some(pass) => self.retiring() == Some(ids_of(*pass)),
                None => self.retiring() is None,
            },
    {
        (&self.ids, self.pass.as_ref())
    }

    /// Whether nothing is marked.
    pub fn is_empty(&self) -> (r: bool)
        ensures
            r == (self.marked() == Set::<u64>::empty()),
    {
        self.ids.is_empty()
    }

    /// How many ids are marked.
    pub fn cardinality(&self) -> (r: u64)
        ensures
            self.marked().len() <= u64::MAX ==> r == self.marked().len(),
    {
        self.ids.cardinality()
    }

    /// Whether an id is marked.
    pub fn contains(&self, id: SeriesRef) -> (r: bool)
        ensures
            r == self.marked().contains(id),
    {
        self.ids.contains(id)
    }

    /// How many ids of a posting list are marked.
    pub fn stale_count_in(&self, postings: &Bitmap64) -> (r: u64)
        ensures
            self.marked().intersect(ids_of(*postings)).len() <= u64::MAX ==> r
                == self.marked().intersect(ids_of(*postings)).len(),
    {
        self.ids.and_cardinality(postings)
    }

    /// Takes the marked ids out of a posting list.
    pub fn mask(&self, postings: &mut Bitmap64)
        ensures
            ids_of(*final(postings)) == ids_of(*old(postings)).difference(self.marked()),
    {
        if !self.ids.is_empty() {
            postings.andnot_inplace(&self.ids);
        } else {
            assert(ids_of(*postings) =~= ids_of(*postings).difference(self.marked()));
        }
    }

    /// Takes the marked ids out of a posting list that is borrowed or owned. It is copied only
    /// where it is borrowed and something is marked.
    pub fn mask_cow<'a>(&self, postings: Cow<'a, Bitmap64>) -> (r: Cow<'a, Bitmap64>)
        ensures
            cow_ids(r) == cow_ids(postings).difference(self.marked()),
            self.marked() == Set::<u64>::empty() ==> r == postings,
            self.marked() != Set::<u64>::empty() ==> r is Owned,
    {
        if self.ids.is_empty() {
            assert(cow_ids(postings) =~= cow_ids(postings).difference(self.marked()));
            return postings;
        }
        match postings {
            Cow::Borrowed(b) => Cow::Owned(b.andnot(&self.ids)),
            Cow::Owned(mut b) => {
                b.andnot_inplace(&self.ids);
                Cow::Owned(b)
            },
        }
    }

    /// Marks ids. The running pass may no longer retire them: they may stand in posting lists that
    /// it has already visited.
    pub fn mark_many(&mut self, ids: &[SeriesRef])
        ensures
            final(self).marked() == old(self).marked().union(ids@.to_set()),
            final(self).retiring() == pass_without(old(self).retiring(), ids@.to_set()),
    {
        self.ids.add_many(ids);
        match self.pass.as_mut() {
            Some(pass) => {
                pass.remove_many(ids);
            },
            None => {},
        }
    }

    /// Starts a pass: it may retire what is marked now.
    pub fn begin_pass(&mut self)
        ensures
            final(self).marked() == old(self).marked(),
            final(self).retiring() == Some(old(self).marked()),
    {
        self.pass = Some(self.ids.clone());
    }

    /// Ends a pass that has visited the whole dictionary: what it may retire is no longer marked.
    pub fn finish_pass(&mut self)
        ensures
            final(self).retiring() is None,
            final(self).marked() == match old(self).retiring() {
                Some(p) => old(self).marked().difference(p),
                None => old(self).marked(),
            },
    {
        match self.pass.take() {
            Some(pass) => {
                self.ids.andnot_inplace(&pass);
            },
            None => {},
        }
    }

    /// Whether a pass is running.
    pub fn in_pass(&self) -> (r: bool)
        ensures
            r == (self.retiring() is Some),
    {
        self.pass.is_some()
    }

    /// Removes the mark of an id that is alive again.
    pub fn revoke(&mut self, id: SeriesRef)
        ensures
            final(self).marked() == old(self).marked().remove(id),
            final(self).retiring() == old(self).retiring(),
    {
        self.ids.remove(id);
    }

    /// Removes all marks, and ends a pass without retiring anything.
    pub fn clear(&mut self)
        ensures
            final(self).wf_empty(),
    {
        self.ids.clear();
        self.pass = None;
    }
}

/// What a pass may retire once ids were marked while it runs.
pub open spec fn pass_without(pass: Option<Set<u64>>, ids: Set<u64>) -> Option<Set<u64>> {
    match pass {
        Some(p) => Some(p.difference(ids)),
        None => None,
    }
}

/// The keys that a batch visits: from a start (the first key where there is none) up to, not
/// including, the key that the next batch starts from.
pub open spec fn in_batch(start: Option<Seq<u8>>, next: Option<Seq<u8>>, k: Seq<u8>) -> bool {
    &&& match start {
        Some(s) => k == s || lex_less(s, k),
        None => true,
    }
    &&& match next {
        Some(n) => lex_less(k, n),
        None => true,
    }
}

/// The dictionary after the marked ids were taken out of the posting lists of a batch: lists that
/// became empty are gone, with their keys.
pub open spec fn drained(
    terms: TermMap,
    stale: Set<u64>,
    start: Option<Seq<u8>>,
    next: Option<Seq<u8>>,
) -> TermMap {
    Map::new(
        |k: Seq<u8>|
            terms.contains_key(k) && !(in_batch(start, next, k) && terms[k].difference(stale)
                == Set::<u64>::empty()),
        |k: Seq<u8>|
            if in_batch(start, next, k) {
                terms[k].difference(stale)
            } else {
                terms[k]
            },
    )
}

/// The keys of a batch.
pub open spec fn batch_keys(
    terms: TermMap,
    start: Option<Seq<u8>>,
    next: Option<Seq<u8>>,
) -> Set<Seq<u8>> {
    Set::new(|k: Seq<u8>| terms.contains_key(k) && in_batch(start, next, k))
}

/// How far ids have been drained from an index: the dictionary, the marked ids, and those that the
/// running pass may retire.
pub ghost struct Drain {
    pub terms: TermMap,
    pub stale: Set<u64>,
    pub pass: Option<Set<u64>>,
}

/// What a batch of a pass does that starts from a key (the first one where there is none) and
/// visits at most `count` keys, where there are marked ids. A pass that starts, or that was not
/// running, may retire what is marked then. The batch that reaches the end, if it visits a key,
/// retires it.
pub open spec fn is_batch(
    before: Drain,
    start: Option<Seq<u8>>,
    count: nat,
    after: Drain,
    next: Option<Seq<u8>>,
) -> bool {
    let visited = batch_keys(before.terms, start, next);
    let pass = if start is None || before.pass is None {
        before.stale
    } else {
        before.pass->0
    };
    &&& after.terms == drained(before.terms, before.stale, start, next)
    &&& visited.finite()
    &&& match next {
        Some(k) => visited.len() == count && before.terms.contains_key(k) && in_batch(
            start,
            None,
            k,
        ),
        None => visited.len() <= count,
    }
    &&& if next is None && visited.len() > 0 {
        &&& after.stale == before.stale.difference(pass)
        &&& after.pass is None
    } else {
        &&& after.stale == before.stale
        &&& after.pass == Some(pass)
    }
}

/// The bytes of a key, if there is one.
pub open spec fn key_bytes(k: Option<IndexKey>) -> Option<Seq<u8>> {
    match k {
        Some(key) => Some(key@),
        None => None,
    }
}

impl Postings {
    /// How far ids have been drained.
    pub open spec fn drain(&self) -> Drain {
        Drain { terms: self.terms(), stale: self.stale(), pass: self.stale_ids.retiring() }
    }

    /// Marks one id for removal; see [`Postings::mark_ids_as_stale`].
    pub fn mark_id_as_stale(&mut self, id: SeriesRef)
        requires
            old(self).wf(),
        ensures
            final(self).wf(),
            final(self).terms() == old(self).terms(),
            final(self).keys() == old(self).keys().remove(id),
            final(self).stale() == old(self).stale().insert(id),
            final(self).stale_ids.retiring() == match old(self).stale_ids.retiring() {
                Some(p) => Some(p.remove(id)),
                None => None,
            },
            final(self).all() == old(self).all().remove(id),
    {
        let ids: Vec<SeriesRef> = vec![id];
        let ghost one = ids@.to_set();
        self.mark_ids_as_stale(ids.as_slice());
        proof {
            assert(one =~= set![id]) by {
                assert(ids@[0] == id);
                assert(one.contains(id)) by {
                    assert(ids@.contains(id));
                }
            }
            assert(self.keys() =~= old(self).keys().remove(id));
            assert(self.stale() =~= old(self).stale().insert(id));
            assert(self.all() =~= old(self).all().remove(id));
            match old(self).stale_ids.retiring() {
                Some(p) => {
                    assert(p.difference(one) =~= p.remove(id));
                },
                None => {},
            }
        }
    }

    /// Marks ids for removal: they lose their keys, are no longer live, and are hidden from every
    /// read until a pass has taken them out of the posting lists.
    pub fn mark_ids_as_stale(&mut self, ids: &[SeriesRef])
        requires
            old(self).wf(),
        ensures
            final(self).wf(),
            final(self).terms() == old(self).terms(),
            final(self).keys() == old(self).keys().remove_keys(ids@.to_set()),
            final(self).stale() == old(self).stale().union(ids@.to_set()),
            final(self).stale_ids.retiring() == pass_without(
                old(self).stale_ids.retiring(),
                ids@.to_set(),
            ),
            final(self).all() == old(self).all().difference(ids@.to_set()),
    {
        let mut i: usize = 0;
        while i < ids.len()
            invariant
                i <= ids.len(),
                self.label_index == old(self).label_index,
                self.stale_ids == old(self).stale_ids,
                self.all_postings == old(self).all_postings,
                self.keys() == old(self).keys().remove_keys(ids@.subrange(0, i as int).to_set()),
            decreases ids.len() - i,
        {
            let ghost before = self.keys();
            let ghost map_before = self.id_to_key@;
            let _ = self.id_to_key.remove(&ids[i]);
            proof {
                assert(self.id_to_key@ == map_before.remove(ids@[i as int]));
                assert(self.keys() =~= before.remove(ids@[i as int]));
                let done = ids@.subrange(0, i as int);
                let more = ids@.subrange(0, i + 1);
                assert(more =~= done.push(ids@[i as int]));
                assert forall|x: u64| more.to_set().contains(x) == (done.to_set().contains(x) || x
                    == ids@[i as int]) by {
                    lemma_push_to_set(done, ids@[i as int], x);
                }
                assert(self.keys() =~= old(self).keys().remove_keys(more.to_set()));
            }
            i += 1;
        }
        assert(ids@.subrange(0, i as int) =~= ids@);
        self.stale_ids.mark_many(ids);
        self.all_postings.remove_many(ids);
        assert forall|id: u64| self.all().contains(id) implies !self.stale().contains(id) by {
            assert(old(self).all().contains(id));
        }
        assert(self.all().disjoint(self.stale()));
        assert(self.terms() == old(self).terms());
    }

    /// Whether any id is marked for removal.
    pub fn has_stale_ids(&self) -> (r: bool)
        ensures
            r == (self.stale() != Set::<u64>::empty()),
    {
        !self.stale_ids.is_empty()
    }

    /// One batch of the pass that takes the marked ids out of the posting lists. It visits at
    /// most `count` keys, from `start_prefix` on, and returns the first key that it did not
    /// visit. A batch that reaches the end ends the pass.
    pub fn remove_stale_ids(&mut self, start_prefix: Option<IndexKey>, count: usize) -> (r: Option<
        IndexKey,
    >)
        requires
            old(self).wf(),
        ensures
            final(self).wf(),
            final(self).keys() == old(self).keys(),
            final(self).all() == old(self).all(),
            old(self).stale() == Set::<u64>::empty() ==> r is None && final(self).terms() == old(
                self,
            ).terms() && final(self).stale_ids == old(self).stale_ids,
            old(self).stale() != Set::<u64>::empty() ==> is_batch(
                old(self).drain(),
                key_bytes(start_prefix),
                count as nat,
                final(self).drain(),
                key_bytes(r),
            ),
    {
        if self.stale_ids.is_empty() {
            return None;
        }
        let ghost start = key_bytes(start_prefix);
        let ghost terms0 = self.terms();
        let ghost stale0 = self.stale();
        if start_prefix.is_none() || !self.stale_ids.in_pass() {
            self.stale_ids.begin_pass();
        }
        let mut cursor: Vec<u8> = Vec::new();
        let mut inclusive: bool = true;
        match &start_prefix {
            Some(k) => {
                cursor = k.copy().into_bytes();
            },
            None => {},
        }
        let mut keys_processed: usize = 0;
        let mut next_key: Option<IndexKey> = None;
        let mut done: bool = false;
        let ghost mut visited: Set<Seq<u8>> = Set::empty();
        let ghost stale_state = self.stale_ids;
        proof {
            assert(terms0 =~= drained_set(terms0, stale0, visited));
            assert forall|k: Seq<u8>| in_batch(start, None, k) <==> !#[trigger] before_cursor(
                cursor@,
                inclusive,
                k,
            ) by {
                lemma_cursor(cursor@, inclusive, k);
            }
        }
        while !done
            invariant
                old(self).wf(),
                terms0 == old(self).terms(),
                stale0 == old(self).stale(),
                start == key_bytes(start_prefix),
                self.id_to_key == old(self).id_to_key,
                self.all_postings == old(self).all_postings,
                self.stale_ids == stale_state,
                self.stale() == stale0,
                visited.finite(),
                visited.len() == keys_processed,
                keys_processed <= count,
                self.terms() == drained_set(terms0, stale0, visited),
                // Every key that is visited lies between the start and the cursor, and every key
                // of the dictionary between them is visited.
                forall|k: Seq<u8>| #[trigger]
                    visited.contains(k) <==> terms0.contains_key(k) && in_batch(start, None, k)
                        && (done ==> match next_key {
                        Some(n) => lex_less(k, n@),
                        None => true,
                    }) && (!done ==> before_cursor(cursor@, inclusive, k)),
                !done ==> (next_key is None && forall|k: Seq<u8>| #[trigger]
                    terms0.contains_key(k) && !before_cursor(cursor@, inclusive, k) ==> in_batch(
                        start,
                        None,
                        k,
                    )),
                done && next_key is Some ==> keys_processed == count && terms0.contains_key(
                    next_key->0@,
                ) && in_batch(start, None, next_key->0@),
            decreases (if done { 0int } else { count - keys_processed + 1 }),
        {
            let found = self.label_index.first_from(cursor.as_slice(), inclusive);
            match found {
                None => {
                    proof {
                        assert forall|k: Seq<u8>| terms0.contains_key(k) && in_batch(
                            start,
                            None,
                            k,
                        ) implies #[trigger] visited.contains(k) by {
                            if !visited.contains(k) {
                                assert(self.terms().contains_key(k));
                                lemma_cursor(cursor@, inclusive, k);
                            }
                        }
                    }
                    done = true;
                },
                Some(entry) => {
                    let key: Vec<u8> = crate::bytes::bytes_copy(entry.0.as_slice());
                    proof {
                        lemma_cursor(cursor@, inclusive, key@);
                        assert(self.terms().contains_key(key@));
                        assert(terms0.contains_key(key@));
                        assert(!visited.contains(key@));
                        assert forall|k: Seq<u8>| terms0.contains_key(k) && in_batch(
                            start,
                            None,
                            k,
                        ) implies (#[trigger] visited.contains(k) <==> lex_less(k, key@)) by {
                            lemma_cursor(cursor@, inclusive, k);
                            if visited.contains(k) {
                                // `k` is before the cursor, the key is not.
                                lemma_before_cursor(cursor@, inclusive, k, key@);
                            } else {
                                assert(self.terms().contains_key(k));
                                assert(k == key@ || lex_less(key@, k));
                                if lex_less(key@, k) {
                                    lemma_lex_asymmetric(key@, k);
                                } else {
                                    lemma_lex_irreflexive(k);
                                }
                            }
                        }
                    }
                    if keys_processed == count {
                        next_key = Some(IndexKey::from_bytes(key.as_slice()));
                        done = true;
                    } else {
                        let ghost terms1 = self.terms();
                        let mut now_empty: bool = true;
                        match self.label_index.get_mut(key.as_slice()) {
                            Some(list) => {
                                if !list.is_empty() {
                                    self.stale_ids.mask(list);
                                    now_empty = list.is_empty();
                                } else {
                                    assert(ids_of(*list) =~= ids_of(*list).difference(stale0));
                                }
                            },
                            None => {},
                        }
                        if now_empty {
                            self.label_index.remove(key.as_slice());
                        }
                        proof {
                            let more = visited.insert(key@);
                            assert(terms1[key@] == terms0[key@]);
                            assert(self.terms() =~= drained_set(terms0, stale0, more));
                            assert forall|k: Seq<u8>| #[trigger] more.contains(k)
                                <==> terms0.contains_key(k) && in_batch(start, None, k)
                                && before_cursor(key@, false, k) by {
                                if terms0.contains_key(k) && in_batch(start, None, k) {
                                    assert(visited.contains(k) <==> lex_less(k, key@));
                                }
                            }
                            assert forall|k: Seq<u8>| #[trigger]
                                terms0.contains_key(k) && !before_cursor(
                                    key@,
                                    false,
                                    k,
                                ) implies in_batch(start, None, k) by {
                                lemma_lex_total(key@, k);
                                match start {
                                    Some(s) => {
                                        if s != key@ {
                                            lemma_lex_transitive(s, key@, k);
                                        }
                                    },
                                    None => {},
                                }
                            }
                            visited = more;
                        }
                        keys_processed = keys_processed + 1;
                        cursor = key;
                        inclusive = false;
                    }
                },
            }
        }
        proof {
            let next = key_bytes(next_key);
            assert(batch_keys(terms0, start, next) =~= visited);
            assert(drained_set(terms0, stale0, visited) =~= drained(terms0, stale0, start, next));
            vstd::set_lib::lemma_len_subset(self.terms().dom(), terms0.dom());
        }
        if keys_processed > 0 && next_key.is_none() {
            self.stale_ids.finish_pass();
        }
        next_key
    }
}

/// The dictionary after the marked ids were taken out of the lists under these keys.
pub open spec fn drained_set(terms: TermMap, stale: Set<u64>, visited: Set<Seq<u8>>) -> TermMap {
    Map::new(
        |k: Seq<u8>|
            terms.contains_key(k) && !(visited.contains(k) && terms[k].difference(stale)
                == Set::<u64>::empty()),
        |k: Seq<u8>|
            if visited.contains(k) {
                terms[k].difference(stale)
            } else {
                terms[k]
            },
    )
}

/// `k` lies before the point that a cursor stands at.
pub open spec fn before_cursor(cursor: Seq<u8>, inclusive: bool, k: Seq<u8>) -> bool {
    lex_less(k, cursor) || (!inclusive && k == cursor)
}

/// A key is before a cursor exactly where a search from the cursor does not consider it.
pub proof fn lemma_cursor(cursor: Seq<u8>, inclusive: bool, k: Seq<u8>)
    ensures
        before_cursor(cursor, inclusive, k) <==> !(lex_less(cursor, k) || (inclusive && cursor
            == k)),
{
    lemma_lex_total(cursor, k);
    lemma_lex_irreflexive(k);
    if lex_less(k, cursor) {
        lemma_lex_asymmetric(k, cursor);
    }
    if lex_less(cursor, k) {
        lemma_lex_asymmetric(cursor, k);
    }
}

/// What is before a cursor comes before what is not.
pub proof fn lemma_before_cursor(cursor: Seq<u8>, inclusive: bool, a: Seq<u8>, b: Seq<u8>)
    requires
        before_cursor(cursor, inclusive, a),
        !before_cursor(cursor, inclusive, b),
    ensures
        lex_less(a, b),
{
    lemma_cursor(cursor, inclusive, b);
    if lex_less(a, cursor) && lex_less(cursor, b) {
        lemma_lex_transitive(a, cursor, b);
    }
}

/// What a set gains when its sequence grows by one.
pub proof fn lemma_push_to_set(s: Seq<u64>, v: u64, x: u64)
    ensures
        s.push(v).to_set().contains(x) == (s.to_set().contains(x) || x == v),
{
    assert(s.push(v)[s.len() as int] == v);
    if s.to_set().contains(x) {
        let i = choose|i: int| 0 <= i < s.len() && s[i] == x;
        assert(s.push(v)[i] == x);
    }
    if s.push(v).to_set().contains(x) && x != v {
        let i = choose|i: int| 0 <= i < s.push(v).len() && s.push(v)[i] == x;
        assert(s[i] == x);
    }
}

/// What a sequence that grows by one contains.
pub proof fn lemma_push_contains(s: Seq<u64>, v: u64, x: u64)
    ensures
        s.push(v).contains(x) == (s.contains(x) || x == v),
{
    lemma_push_to_set(s, v, x);
    assert(s.push(v).to_set().contains(x) == s.push(v).contains(x));
    assert(s.to_set().contains(x) == s.contains(x));
}

} // verus!
