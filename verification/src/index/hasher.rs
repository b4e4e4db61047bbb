//! Hashers that remember what they were fed.
//!
//! Hashing is the work of the `ahash` crate. What a hash is differs from one build target to
//! another, so no contract says what it is: contracts say what a hasher was fed, and that a hash is
//! what that hasher gave.
use ahash::{AHasher, RandomState};
use std::hash::{BuildHasher, Hasher};
use vstd::prelude::*;

verus! {

/// `ahash::AHasher`, a hasher.
#[verifier::external_type_specification]
#[verifier::external_body]
pub struct ExAHasher(AHasher);

/// What a hasher is fed at once.
pub enum Fed {
    Word(u64),
    Bytes(Seq<u8>),
}

/// A hasher, and what it was started with and fed.
pub struct FedHasher {
    hasher: AHasher,
    seeds: Ghost<Seq<u64>>,
    fed: Ghost<Seq<Fed>>,
}

impl FedHasher {
    /// The seeds that the hasher was started with.
    pub closed spec fn seeds(&self) -> Seq<u64> {
        self.seeds@
    }

    /// What the hasher was fed, in order.
    pub closed spec fn fed(&self) -> Seq<Fed> {
        self.fed@
    }
}

/// `RandomState::with_seeds` and its `build_hasher`: a hasher with these seeds that was fed nothing.
#[verifier::external_body]
pub(crate) fn start_hasher(k0: u64, k1: u64, k2: u64, k3: u64) -> (r: FedHasher)
    ensures
        r.seeds() == seq![k0, k1, k2, k3],
        r.fed() == Seq::<Fed>::empty(),
{
    FedHasher {
        hasher: RandomState::with_seeds(k0, k1, k2, k3).build_hasher(),
        seeds: Ghost(seq![k0, k1, k2, k3]),
        fed: Ghost(Seq::empty()),
    }
}

/// `write_u64` of `AHasher`: the hasher is fed a word.
#[verifier::external_body]
pub(crate) fn feed_word(hasher: &mut FedHasher, word: u64)
    ensures
        final(hasher).seeds() == old(hasher).seeds(),
        final(hasher).fed() == old(hasher).fed().push(Fed::Word(word)),
{
    hasher.hasher.write_u64(word);
    hasher.fed = Ghost(hasher.fed@.push(Fed::Word(word)));
}

/// `write` of `AHasher`: the hasher is fed bytes.
#[verifier::external_body]
pub(crate) fn feed_bytes(hasher: &mut FedHasher, bytes: &[u8])
    ensures
        final(hasher).seeds() == old(hasher).seeds(),
        final(hasher).fed() == old(hasher).fed().push(Fed::Bytes(bytes@)),
{
    hasher.hasher.write(bytes);
    hasher.fed = Ghost(hasher.fed@.push(Fed::Bytes(bytes@)));
}

/// `finish` of `AHasher`: the hash of what the hasher was fed. What it is is left unsaid: it differs
/// from one build target to another.
#[verifier::external_body]
pub(crate) fn hash_of(hasher: &FedHasher) -> (r: u64) {
    hasher.hasher.finish()
}

} // verus!
