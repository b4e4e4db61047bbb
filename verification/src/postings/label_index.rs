//! The term dictionary: an ordered map from index keys to posting lists.
//!
//! It is a [`blart::TreeMap`], an adaptive radix tree, held in [`LabelIndex`]. [`terms_of`] names
//! its contents, and the functions below say what each operation of the tree does to them. The
//! tree cannot hold two keys of which one is a proper prefix of the other; see
//! [`super::key`] for how index keys avoid that.
use super::bitmap::ids_of;
use crate::bytes::{lex_less, starts_with};
use blart::TreeMap;
use croaring::Bitmap64;
use std::ops::Bound;
use vstd::prelude::*;

verus! {

/// A radix tree from byte strings to posting lists.
#[verifier::external_body]
pub struct LabelIndex {
    tree: TreeMap<Vec<u8>, Bitmap64>,
}

/// Index keys, each with the ids in the posting list under it.
pub type TermMap = Map<Seq<u8>, Set<u64>>;

/// No key at all.
pub open spec fn no_terms() -> TermMap {
    Map::empty()
}

/// What the tree holds: for each of its keys the ids in the posting list under it.
pub uninterp spec fn terms_of(t: LabelIndex) -> TermMap;

/// The posting lists that the tree holds, under their keys.
pub uninterp spec fn bitmaps_of(t: LabelIndex) -> Map<Seq<u8>, Bitmap64>;

impl View for LabelIndex {
    type V = TermMap;

    open spec fn view(&self) -> TermMap {
        terms_of(*self)
    }
}

/// `key` is neither a proper prefix of a key in `terms` nor has one of them as a proper prefix.
pub open spec fn fits_among(terms: TermMap, key: Seq<u8>) -> bool {
    forall|k: Seq<u8>| #[trigger]
        terms.contains_key(k) && (starts_with(k, key) || starts_with(key, k)) ==> k == key
}

/// An entry of the tree: its key and its posting list.
pub open spec fn is_entry(
    terms: TermMap,
    key: Seq<u8>,
    list: Bitmap64,
) -> bool {
    terms.contains_key(key) && ids_of(list) == terms[key]
}

/// Whether an entry is the first from a key on, with the key itself or without.
pub open spec fn is_first(
    terms: TermMap,
    from: Seq<u8>,
    inclusive: bool,
    r: Option<(&Vec<u8>, &Bitmap64)>,
) -> bool {
    match r {
        Some(e) => {
            &&& is_entry(terms, e.0@, *e.1)
            &&& lex_less(from, e.0@) || (inclusive && from == e.0@)
            &&& forall|k: Seq<u8>| #[trigger]
                terms.contains_key(k) && (lex_less(from, k) || (inclusive && from == k)) ==> k
                    == e.0@ || lex_less(e.0@, k)
        },
        None => forall|k: Seq<u8>| #[trigger]
            terms.contains_key(k) ==> !lex_less(from, k) && !(inclusive && from == k),
    }
}

impl LabelIndex {
    /// `TreeMap::new`: an empty tree.
    #[verifier::external_body]
    pub(crate) fn new() -> (r: LabelIndex)
        ensures
            terms_of(r) == no_terms(),
    {
        LabelIndex { tree: TreeMap::new() }
    }

    /// `TreeMap::clear`: nothing is left in the tree.
    #[verifier::external_body]
    pub(crate) fn clear(&mut self)
        ensures
            terms_of(*final(self)) == no_terms(),
    {
        self.tree.clear()
    }

    /// `TreeMap::get`: the posting list under the key, if the tree holds the key.
    #[verifier::external_body]
    pub(crate) fn get(&self, key: &[u8]) -> (r: Option<&Bitmap64>)
        ensures
            match r {
                Some(list) => is_entry(terms_of(*self), key@, *list),
                None => !terms_of(*self).contains_key(key@),
            },
    {
        self.tree.get(key)
    }

    /// `TreeMap::get_mut`: the posting list under the key, to be changed in place; all other
    /// entries stay as they are.
    #[verifier::external_body]
    pub(crate) fn get_mut(&mut self, key: &[u8]) -> (r: Option<&mut Bitmap64>)
        ensures
            match r {
                Some(list) => {
                    &&& is_entry(terms_of(*old(self)), key@, *list)
                    &&& terms_of(*final(self)) == terms_of(*old(self)).insert(
                        key@,
                        ids_of(*final(list)),
                    )
                },
                None => {
                    &&& !terms_of(*old(self)).contains_key(key@)
                    &&& terms_of(*final(self)) == terms_of(*old(self))
                },
            },
    {
        self.tree.get_mut(key)
    }

    /// `TreeMap::try_insert`, on a key for which it cannot fail: the list is under the key
    /// afterwards, and all other entries stay as they are.
    #[verifier::external_body]
    pub(crate) fn insert(&mut self, key: Vec<u8>, list: Bitmap64)
        requires
            fits_among(terms_of(*old(self)), key@),
        ensures
            terms_of(*final(self)) == terms_of(*old(self)).insert(key@, ids_of(list)),
    {
        let _ = self.tree.try_insert(key, list);
    }

    /// `TreeMap::remove`: the key is gone afterwards, and all other entries stay as they are.
    #[verifier::external_body]
    pub(crate) fn remove(&mut self, key: &[u8])
        ensures
            terms_of(*final(self)) == terms_of(*old(self)).remove(key@),
    {
        let _ = self.tree.remove(key);
    }

    /// `TreeMap::prefix`: the entries whose keys begin with `prefix`, in key order.
    #[verifier::external_body]
    pub(crate) fn prefix(&self, prefix: &[u8]) -> (r: Vec<(&Vec<u8>, &Bitmap64)>)
        ensures
            forall|i: int|
                0 <= i < r@.len() ==> {
                    &&& starts_with((#[trigger] r@[i]).0@, prefix@)
                    &&& is_entry(terms_of(*self), r@[i].0@, *r@[i].1)
                },
            forall|k: Seq<u8>| #[trigger]
                terms_of(*self).contains_key(k) && starts_with(k, prefix@) ==> exists|i: int|
                    0 <= i < r@.len() && #[trigger] r@[i].0@ == k,
            forall|i: int, j: int|
                0 <= i < j < r@.len() ==> lex_less((#[trigger] r@[i]).0@, (#[trigger] r@[j]).0@),
    {
        self.tree.prefix(prefix).collect()
    }

    /// `TreeMap::iter`: all entries, in key order, each with the list that the tree holds.
    #[verifier::external_body]
    pub(crate) fn entries(&self) -> (r: Vec<(&Vec<u8>, &Bitmap64)>)
        ensures
            forall|i: int|
                0 <= i < r@.len() ==> *(#[trigger] r@[i]).1 == bitmaps_of(*self)[r@[i].0@],
            forall|i: int|
                0 <= i < r@.len() ==> is_entry(
                    terms_of(*self),
                    (#[trigger] r@[i]).0@,
                    *r@[i].1,
                ),
            forall|k: Seq<u8>| #[trigger]
                terms_of(*self).contains_key(k) ==> exists|i: int|
                    0 <= i < r@.len() && #[trigger] r@[i].0@ == k,
            forall|i: int, j: int|
                0 <= i < j < r@.len() ==> lex_less((#[trigger] r@[i]).0@, (#[trigger] r@[j]).0@),
    {
        self.tree.iter().collect()
    }

    /// `TreeMap::range` from a bound on, its first item: the entry with the least key that is not
    /// before `from`.
    #[verifier::external_body]
    fn first_at(&self, from: &[u8]) -> (r: Option<(&Vec<u8>, &Bitmap64)>)
        ensures
            is_first(terms_of(*self), from@, true, r),
    {
        self.tree.range::<[u8], _>((Bound::Included(from), Bound::Unbounded)).next()
    }

    /// `TreeMap::range` from behind a bound on, its first item: the entry with the least key that
    /// is after `from`.
    #[verifier::external_body]
    fn first_after(&self, from: &[u8]) -> (r: Option<(&Vec<u8>, &Bitmap64)>)
        ensures
            is_first(terms_of(*self), from@, false, r),
    {
        self.tree.range::<[u8], _>((Bound::Excluded(from), Bound::Unbounded)).next()
    }

    /// The entry with the least key that is not before `from` (with `inclusive`) or is after it
    /// (without).
    pub(crate) fn first_from(&self, from: &[u8], inclusive: bool) -> (r: Option<
        (&Vec<u8>, &Bitmap64),
    >)
        ensures
            is_first(terms_of(*self), from@, inclusive, r),
    {
        if inclusive {
            self.first_at(from)
        } else {
            self.first_after(from)
        }
    }

    /// `TreeMap::range` up to a bound, its last item: the entry with the greatest key that is
    /// before `until`.
    #[verifier::external_body]
    pub(crate) fn last_before(&self, until: &[u8]) -> (r: Option<(&Vec<u8>, &Bitmap64)>)
        ensures
            match r {
                Some(e) => {
                    &&& is_entry(terms_of(*self), e.0@, *e.1)
                    &&& lex_less(e.0@, until@)
                    &&& forall|k: Seq<u8>| #[trigger]
                        terms_of(*self).contains_key(k) && lex_less(k, until@) ==> k == e.0@
                            || lex_less(k, e.0@)
                },
                None => forall|k: Seq<u8>| #[trigger]
                    terms_of(*self).contains_key(k) ==> !lex_less(k, until@),
            },
    {
        self.tree.range::<[u8], _>((Bound::Unbounded, Bound::Excluded(until))).next_back()
    }

    /// `TreeMap::last_key_value`: the entry with the greatest key.
    #[verifier::external_body]
    pub(crate) fn last(&self) -> (r: Option<(&Vec<u8>, &Bitmap64)>)
        ensures
            match r {
                Some(e) => {
                    &&& is_entry(terms_of(*self), e.0@, *e.1)
                    &&& forall|k: Seq<u8>| #[trigger]
                        terms_of(*self).contains_key(k) ==> k == e.0@ || lex_less(k, e.0@)
                },
                None => terms_of(*self) == no_terms(),
            },
    {
        self.tree.last_key_value()
    }
}

} // verus!
