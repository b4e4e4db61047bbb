//! The inverted index: from labels to the series that carry them.
//!
//! [`Postings`] owns the state; each submodule is one concern:
//!
//! * [`mutation`]: indexing and un-indexing series, one at a time or in bulk.
//! * [`directory`]: the map from series ids to keys.
//! * [`terms`]: lookups of label values and prefixes.
//! * [`predicate`]: from one filter to the ids that it selects.
//! * [`planner`]: from filters and selectors to the ids that they select together.
//! * [`stale`]: ids that are marked for removal, hidden from reads and drained later.
//! * [`maintenance`]: incremental compaction of the posting lists.
pub mod bitmap;
pub mod directory;
pub mod key;
pub mod label_index;
pub mod laws;
pub mod maintenance;
pub mod mutation;
pub mod planner;
pub mod predicate;
pub mod serialization;
pub mod stale;
pub mod terms;

use crate::bytes::lex_less;
use crate::postings::bitmap::ids_of;
use crate::postings::key::{is_sealed, IndexKey};
use crate::postings::label_index::{is_entry, no_terms, terms_of, LabelIndex, TermMap};
use crate::postings::stale::StaleSet;
use croaring::Bitmap64;
use std::collections::BTreeMap;
use vstd::prelude::*;

verus! {

/// The id of a series.
pub type SeriesRef = u64;

/// A set of series ids.
pub type PostingsBitmap = Bitmap64;

/// The inverted index of one database.
pub struct Postings {
    /// From index keys to the ids of the series that carry the label.
    pub label_index: LabelIndex,
    /// From series ids to the keys that the series are stored under.
    pub id_to_key: BTreeMap<SeriesRef, Vec<u8>>,
    /// Ids that are marked for removal but may still stand in posting lists.
    pub stale_ids: StaleSet,
    /// The ids of all live series.
    pub all_postings: PostingsBitmap,
}

/// The posting list under a key; empty where there is none.
pub open spec fn list_of(terms: TermMap, key: Seq<u8>) -> Set<u64> {
    if terms.contains_key(key) {
        terms[key]
    } else {
        Set::empty()
    }
}

/// A dictionary holds finitely many keys, each closed by a NUL byte.
pub open spec fn dictionary_wf(terms: TermMap) -> bool {
    &&& terms.dom().finite()
    &&& forall|k: Seq<u8>| #[trigger] terms.contains_key(k) ==> is_sealed(k)
}

impl Postings {
    /// The term dictionary.
    pub open spec fn terms(&self) -> TermMap {
        terms_of(self.label_index)
    }

    /// The key of each indexed series.
    pub open spec fn keys(&self) -> Map<u64, Seq<u8>> {
        self.id_to_key@.map_values(|k: Vec<u8>| k@)
    }

    /// The live ids.
    pub open spec fn all(&self) -> Set<u64> {
        ids_of(self.all_postings)
    }

    /// The ids that are marked for removal.
    pub open spec fn stale(&self) -> Set<u64> {
        self.stale_ids.marked()
    }

    /// The dictionary is well formed, and no live id is marked for removal.
    pub open spec fn wf(&self) -> bool {
        &&& dictionary_wf(self.terms())
        &&& self.all().disjoint(self.stale())
    }

    /// The ids in a posting list that are not marked for removal.
    pub open spec fn live_list(&self, key: Seq<u8>) -> Set<u64> {
        list_of(self.terms(), key).difference(self.stale())
    }

    /// An empty index.
    pub fn new() -> (r: Postings)
        ensures
            r.wf(),
            r.terms() == no_terms(),
            r.keys() == Map::<u64, Seq<u8>>::empty(),
            r.stale_ids.wf_empty(),
            r.all() == Set::<u64>::empty(),
    {
        let r = Postings {
            label_index: LabelIndex::new(),
            id_to_key: BTreeMap::new(),
            stale_ids: StaleSet::new(),
            all_postings: Bitmap64::new(),
        };
        assert(r.keys() =~= Map::<u64, Seq<u8>>::empty());
        r
    }

    /// Takes everything out of the index.
    pub fn clear(&mut self)
        ensures
            final(self).wf(),
            final(self).terms() == no_terms(),
            final(self).keys() == Map::<u64, Seq<u8>>::empty(),
            final(self).stale_ids.wf_empty(),
            final(self).all() == Set::<u64>::empty(),
    {
        self.label_index.clear();
        self.id_to_key.clear();
        self.stale_ids.clear();
        self.all_postings.clear();
        assert(self.keys() =~= Map::<u64, Seq<u8>>::empty());
    }

    /// Exchanges the contents of two indexes.
    pub fn swap(&mut self, other: &mut Postings)
        ensures
            *final(self) == *old(other),
            *final(other) == *old(self),
    {
        std::mem::swap(&mut self.label_index, &mut other.label_index);
        std::mem::swap(&mut self.id_to_key, &mut other.id_to_key);
        std::mem::swap(&mut self.stale_ids, &mut other.stale_ids);
        std::mem::swap(&mut self.all_postings, &mut other.all_postings);
    }

    /// All posting lists as they stand, each with its key, in key order.
    pub fn posting_lists(&self) -> (r: Vec<(&Vec<u8>, &PostingsBitmap)>)
        ensures
            forall|i: int|
                0 <= i < r@.len() ==> is_entry(self.terms(), (#[trigger] r@[i]).0@, *r@[i].1),
            forall|k: Seq<u8>| #[trigger]
                self.terms().contains_key(k) ==> exists|i: int|
                    0 <= i < r@.len() && #[trigger] r@[i].0@ == k,
            forall|i: int, j: int|
                0 <= i < j < r@.len() ==> lex_less((#[trigger] r@[i]).0@, (#[trigger] r@[j]).0@),
    {
        self.label_index.entries()
    }

    /// The posting list under a key as it stands, ids marked for removal included.
    pub fn raw_postings(&self, key: &IndexKey) -> (r: Option<&PostingsBitmap>)
        ensures
            match r {
                Some(list) => is_entry(self.terms(), key@, *list),
                None => !self.terms().contains_key(key@),
            },
    {
        self.label_index.get(key.as_bytes())
    }
}

impl Default for Postings {
    fn default() -> (r: Postings)
        ensures
            r.wf(),
            r.terms() == no_terms(),
            r.keys() == Map::<u64, Seq<u8>>::empty(),
            r.stale_ids.wf_empty(),
            r.all() == Set::<u64>::empty(),
    {
        Postings::new()
    }
}

} // verus!
