//! Numbers under texts.
//!
//! The map is an [`ahash::AHashMap`]. [`entries_of`] names its contents, and the functions below
//! say what each operation does to them. It is never walked: in which order it would hand its
//! entries out is up to chance.
use ahash::{AHashMap, RandomState};
use vstd::prelude::*;

verus! {

/// `ahash::RandomState`, what an `AHashMap` hashes its keys with.
#[verifier::external_type_specification]
#[verifier::external_body]
pub struct ExRandomState(RandomState);

/// `ahash::AHashMap`, a hash map.
#[verifier::external_type_specification]
#[verifier::external_body]
#[verifier::reject_recursive_types(K)]
#[verifier::reject_recursive_types(V)]
#[verifier::reject_recursive_types(S)]
pub struct ExAHashMap<K, V, S>(AHashMap<K, V, S>);

/// A map from texts to numbers.
pub type TextMap = AHashMap<String, usize>;

/// What the map holds.
pub uninterp spec fn entries_of(m: TextMap) -> Map<Seq<char>, usize>;

/// No entry.
pub open spec fn no_entries() -> Map<Seq<char>, usize> {
    Map::empty()
}

/// `AHashMap::new`: nothing is in the map.
#[verifier::external_body]
pub(crate) fn empty_map() -> (r: TextMap)
    ensures
        entries_of(r) == no_entries(),
{
    AHashMap::new()
}

/// `HashMap::get` of an `AHashMap`: the number under a text.
#[verifier::external_body]
pub(crate) fn number_under(m: &TextMap, text: &str) -> (r: Option<usize>)
    ensures
        r == (if entries_of(*m).contains_key(text@) { Some(entries_of(*m)[text@]) } else { None }),
{
    m.get(text).copied()
}

/// `HashMap::insert` of an `AHashMap`: the number stands under the text, and nothing else changes.
#[verifier::external_body]
pub(crate) fn put_number(m: &mut TextMap, text: String, n: usize)
    ensures
        entries_of(*final(m)) == entries_of(*old(m)).insert(text@, n),
{
    m.insert(text, n);
}

} // verus!
