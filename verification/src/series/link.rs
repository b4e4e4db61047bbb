//! Links between the two ends of a compaction.
//!
//! A link is the name of a key. That it still holds is checked where it is used: a rule from one
//! series to another holds as long as the other names the one as its source.
use crate::bytes::{bytes_copy, bytes_equal, utf8};
use vstd::prelude::*;

verus! {

/// The key of the series at the other end of a compaction.
#[derive(Debug, Clone, PartialEq, Eq, Hash)]
pub struct SeriesLink {
    key: Vec<u8>,
}

impl SeriesLink {
    /// The key.
    pub closed spec fn view(&self) -> Seq<u8> {
        self.key@
    }

    /// The link to a key.
    pub fn from_key(key: &[u8]) -> (r: Self)
        ensures
            r@ == key@,
    {
        SeriesLink { key: bytes_copy(key) }
    }

    /// The link to the key with a name.
    pub fn from_name(name: &str) -> (r: Self)
        ensures
            r@ == utf8(name@),
    {
        SeriesLink { key: bytes_copy(name.as_bytes()) }
    }

    /// The key.
    pub fn key(&self) -> (r: &[u8])
        ensures
            r@ == self@,
    {
        self.key.as_slice()
    }

    /// Whether the link is to a key.
    pub fn points_to(&self, key: &[u8]) -> (r: bool)
        ensures
            r == (self@ == key@),
    {
        bytes_equal(self.key.as_slice(), key)
    }

    /// How many bytes the link takes beyond itself.
    pub fn heap_size(&self) -> (r: usize)
        ensures
            r == self@.len(),
    {
        self.key.len()
    }
}

} // verus!
