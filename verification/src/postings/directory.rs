//! The directory of series: which key each id is stored under.
use crate::bytes::{bytes_copy, bytes_equal};
use crate::postings::{Postings, SeriesRef};
use vstd::prelude::*;

verus! {

impl Postings {
    /// Records the key of a series.
    pub fn set_timeseries_key(&mut self, id: SeriesRef, new_key: &[u8])
        ensures
            final(self).keys() == old(self).keys().insert(id, new_key@),
            final(self).label_index == old(self).label_index,
            final(self).stale_ids == old(self).stale_ids,
            final(self).all_postings == old(self).all_postings,
    {
        match self.id_to_key.get(&id) {
            Some(existing) => {
                if bytes_equal(existing.as_slice(), new_key) {
                    assert(self.keys() =~= old(self).keys().insert(id, new_key@));
                    return;
                }
            },
            None => {},
        }
        self.id_to_key.insert(id, bytes_copy(new_key));
        assert(self.keys() =~= old(self).keys().insert(id, new_key@));
    }

    /// The number of series that have a key.
    pub fn count(&self) -> (r: usize)
        ensures
            r == self.keys().dom().len(),
    {
        proof {
            assert(self.keys().dom() =~= self.id_to_key@.dom());
        }
        self.id_to_key.len()
    }

    /// Whether a series has a key.
    pub fn has_id(&self, id: SeriesRef) -> (r: bool)
        ensures
            r == self.keys().contains_key(id),
    {
        self.id_to_key.contains_key(&id)
    }

    /// The key of a series.
    pub fn get_key_by_id(&self, id: SeriesRef) -> (r: Option<&Vec<u8>>)
        ensures
            match r {
                Some(k) => self.keys().contains_key(id) && k@ == self.keys()[id],
                None => !self.keys().contains_key(id),
            },
    {
        self.id_to_key.get(&id)
    }
}

} // verus!
