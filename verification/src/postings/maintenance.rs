//! Incremental compaction of the posting lists.
//!
//! A pass goes over the dictionary in batches, from a cursor to the next. It stores the lists that
//! it visits more compactly and drops those that are empty.
use crate::bytes::{lemma_lex_asymmetric, lemma_lex_irreflexive, lemma_lex_total, lemma_lex_transitive, lex_less};
use crate::postings::bitmap::ids_of;
use crate::postings::key::IndexKey;
use crate::postings::label_index::TermMap;
use crate::postings::stale::{before_cursor, in_batch, key_bytes, lemma_before_cursor, lemma_cursor};
use crate::postings::{Postings, PostingsBitmap};
use vstd::prelude::*;

verus! {

/// The dictionary without the empty lists of a batch.
pub open spec fn compacted(terms: TermMap, start: Option<Seq<u8>>, next: Option<Seq<u8>>) -> TermMap {
    Map::new(
        |k: Seq<u8>|
            terms.contains_key(k) && !(in_batch(start, next, k) && terms[k] == Set::<u64>::empty()),
        |k: Seq<u8>| terms[k],
    )
}

/// The keys of a batch whose lists are not empty.
pub open spec fn batch_lists(
    terms: TermMap,
    start: Option<Seq<u8>>,
    next: Option<Seq<u8>>,
) -> Set<Seq<u8>> {
    Set::new(
        |k: Seq<u8>|
            terms.contains_key(k) && in_batch(start, next, k) && terms[k] != Set::<u64>::empty(),
    )
}

/// The dictionary without the empty lists under these keys.
spec fn compacted_set(terms: TermMap, visited: Set<Seq<u8>>) -> TermMap {
    Map::new(
        |k: Seq<u8>|
            terms.contains_key(k) && !(visited.contains(k) && terms[k] == Set::<u64>::empty()),
        |k: Seq<u8>| terms[k],
    )
}

/// Stores a list more compactly.
fn optimize_bitmap(bitmap: &mut PostingsBitmap)
    ensures
        ids_of(*final(bitmap)) == ids_of(*old(bitmap)),
{
    bitmap.run_optimize();
    bitmap.shrink_to_fit();
}

impl Postings {
    /// One batch of a compaction pass. It compacts at most `count` lists, from `start_prefix` on,
    /// drops the empty lists that it meets, and returns the key to go on from.
    pub fn optimize_postings(&mut self, start_prefix: Option<IndexKey>, count: usize) -> (r: Option<
        IndexKey,
    >)
        requires
            old(self).wf(),
        ensures
            final(self).wf(),
            final(self).keys() == old(self).keys(),
            final(self).all() == old(self).all(),
            final(self).stale_ids == old(self).stale_ids,
            ({
                let start = key_bytes(start_prefix);
                let next = key_bytes(r);
                let lists = batch_lists(old(self).terms(), start, next);
                &&& final(self).terms() == compacted(old(self).terms(), start, next)
                &&& lists.finite()
                &&& r is Some ==> lists.len() == count && old(self).terms().contains_key(r->0@)
                    && in_batch(start, None, r->0@) && old(self).terms()[r->0@] != Set::<
                    u64,
                >::empty()
                &&& r is None ==> lists.len() <= count
            }),
    {
        let ghost start = key_bytes(start_prefix);
        let ghost terms0 = self.terms();
        if start_prefix.is_none() {
            optimize_bitmap(&mut self.all_postings);
        }
        let mut cursor: Vec<u8> = Vec::new();
        let mut inclusive: bool = true;
        match &start_prefix {
            Some(k) => {
                cursor = k.copy().into_bytes();
            },
            None => {},
        }
        let mut keys_processed: usize = 0;
        let mut next_key: Option<IndexKey> = None;
        let mut more: bool = true;
        let ghost mut visited: Set<Seq<u8>> = Set::empty();
        let ghost mut lists: Set<Seq<u8>> = Set::empty();
        proof {
            assert(terms0 =~= compacted_set(terms0, visited));
            assert forall|k: Seq<u8>| in_batch(start, None, k) <==> !#[trigger] before_cursor(
                cursor@,
                inclusive,
                k,
            ) by {
                lemma_cursor(cursor@, inclusive, k);
            }
        }
        let mut next_entry = self.first_key_from(cursor.as_slice(), inclusive);
        while more
            invariant
                old(self).wf(),
                terms0 == old(self).terms(),
                start == key_bytes(start_prefix),
                self.id_to_key == old(self).id_to_key,
                self.all() == old(self).all(),
                self.stale_ids == old(self).stale_ids,
                lists.finite(),
                lists.len() == keys_processed,
                keys_processed <= count,
                self.terms() == compacted_set(terms0, visited),
                forall|k: Seq<u8>| #[trigger]
                    lists.contains(k) <==> visited.contains(k) && terms0[k] != Set::<
                        u64,
                    >::empty(),
                forall|k: Seq<u8>| #[trigger]
                    visited.contains(k) <==> terms0.contains_key(k) && in_batch(start, None, k) && (
                    !more ==> match next_key {
                        Some(n) => lex_less(k, n@),
                        None => true,
                    }) && (more ==> before_cursor(cursor@, inclusive, k)),
                more ==> (next_key is None && forall|k: Seq<u8>| #[trigger]
                    terms0.contains_key(k) && !before_cursor(cursor@, inclusive, k) ==> in_batch(
                        start,
                        None,
                        k,
                    )),
                more ==> is_next(self.terms(), cursor@, inclusive, next_entry),
                !more && next_key is Some ==> keys_processed == count && terms0.contains_key(
                    next_key->0@,
                ) && in_batch(start, None, next_key->0@) && terms0[next_key->0@] != Set::<
                    u64,
                >::empty(),
                terms0.dom().finite(),
                visited.subset_of(terms0.dom()),
            decreases (if more { 1int } else { 0int }) + terms0.dom().difference(visited).len(),
        {
            match &next_entry {
                None => {
                    proof {
                        assert forall|k: Seq<u8>| terms0.contains_key(k) && in_batch(
                            start,
                            None,
                            k,
                        ) implies #[trigger] visited.contains(k) by {
                            if !visited.contains(k) {
                                assert(self.terms().contains_key(k));
                                lemma_cursor(cursor@, inclusive, k);
                            }
                        }
                    }
                    more = false;
                },
                Some(found) => {
                    let key: Vec<u8> = crate::bytes::bytes_copy(found.as_slice());
                    proof {
                        lemma_cursor(cursor@, inclusive, key@);
                        assert(terms0.contains_key(key@));
                        assert(!visited.contains(key@));
                        assert forall|k: Seq<u8>| terms0.contains_key(k) && in_batch(
                            start,
                            None,
                            k,
                        ) implies (#[trigger] visited.contains(k) <==> lex_less(k, key@)) by {
                            lemma_cursor(cursor@, inclusive, k);
                            if visited.contains(k) {
                                lemma_before_cursor(cursor@, inclusive, k, key@);
                            } else {
                                assert(self.terms().contains_key(k));
                                assert(k == key@ || lex_less(key@, k));
                                if lex_less(key@, k) {
                                    lemma_lex_asymmetric(key@, k);
                                } else {
                                    lemma_lex_irreflexive(k);
                                }
                            }
                        }
                    }
                    let ghost terms1 = self.terms();
                    assert(terms1[key@] == terms0[key@]);
                    let mut is_empty: bool = true;
                    match self.label_index.get(key.as_slice()) {
                        Some(list) => {
                            is_empty = list.is_empty();
                        },
                        None => {},
                    }
                    if !is_empty && keys_processed == count {
                        next_key = Some(IndexKey::from_bytes(key.as_slice()));
                        more = false;
                    } else {
                        if is_empty {
                            self.label_index.remove(key.as_slice());
                        } else {
                            match self.label_index.get_mut(key.as_slice()) {
                                Some(list) => {
                                    optimize_bitmap(list);
                                },
                                None => {},
                            }
                            keys_processed = keys_processed + 1;
                        }
                        proof {
                            let now = visited.insert(key@);
                            assert(self.terms() =~= compacted_set(terms0, now));
                            assert forall|k: Seq<u8>| #[trigger] now.contains(k)
                                <==> terms0.contains_key(k) && in_batch(start, None, k)
                                && before_cursor(key@, false, k) by {
                                if terms0.contains_key(k) && in_batch(start, None, k) {
                                    assert(visited.contains(k) <==> lex_less(k, key@));
                                }
                            }
                            assert forall|k: Seq<u8>| #[trigger]
                                terms0.contains_key(k) && !before_cursor(
                                    key@,
                                    false,
                                    k,
                                ) implies in_batch(start, None, k) by {
                                lemma_lex_total(key@, k);
                                match start {
                                    Some(s) => {
                                        if s != key@ {
                                            lemma_lex_transitive(s, key@, k);
                                        }
                                    },
                                    None => {},
                                }
                            }
                            assert(terms0.dom().difference(now) =~= terms0.dom().difference(
                                visited,
                            ).remove(key@));
                            visited = now;
                            if !is_empty {
                                lists = lists.insert(key@);
                            }
                        }
                        cursor = key;
                        inclusive = false;
                        next_entry = self.first_key_from(cursor.as_slice(), inclusive);
                    }
                },
            }
        }
        proof {
            let next = key_bytes(next_key);
            assert(batch_lists(terms0, start, next) =~= lists);
            assert(compacted_set(terms0, visited) =~= compacted(terms0, start, next));
            vstd::set_lib::lemma_len_subset(self.terms().dom(), terms0.dom());
            assert(self.all().disjoint(self.stale()));
        }
        next_key
    }

    /// The first key of the dictionary from a cursor on.
    fn first_key_from(&self, cursor: &[u8], inclusive: bool) -> (r: Option<Vec<u8>>)
        ensures
            is_next(self.terms(), cursor@, inclusive, r),
    {
        match self.label_index.first_from(cursor, inclusive) {
            Some(entry) => Some(crate::bytes::bytes_copy(entry.0.as_slice())),
            None => None,
        }
    }
}

/// A key is the first of the dictionary from a cursor on.
spec fn is_next(terms: TermMap, cursor: Seq<u8>, inclusive: bool, key: Option<Vec<u8>>) -> bool {
    match key {
        Some(e) => {
            &&& terms.contains_key(e@)
            &&& lex_less(cursor, e@) || (inclusive && cursor == e@)
            &&& forall|k: Seq<u8>| #[trigger]
                terms.contains_key(k) && (lex_less(cursor, k) || (inclusive && cursor == k)) ==> k
                    == e@ || lex_less(e@, k)
        },
        None => forall|k: Seq<u8>| #[trigger]
            terms.contains_key(k) ==> !lex_less(cursor, k) && !(inclusive && cursor == k),
    }
}

} // verus!
