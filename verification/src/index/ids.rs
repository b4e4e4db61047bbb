//! Ids of series.
//!
//! An id has 24 bits for an epoch, which is drawn at random when a generator is made, and 40 bits
//! for a counter, which grows by one with each id. Two generators give the same id only if they
//! drew the same epoch. All ids of one generator lie close together, which keeps sets of them
//! small.
//!
//! The epoch 0 is not drawn: no id is 0, which stands for none. Nor is the last epoch, so that a
//! counter that runs over does not carry into epoch 0.
use rand::{rng, RngExt};
use vstd::prelude::*;

verus! {

/// The id of a series.
pub type TimeseriesId = u64;

/// How many bits of an id are the epoch.
pub const EPOCH_BITS: u32 = 24;

/// How many bits of an id are the counter.
pub const COUNTER_BITS: u32 = 40;

/// The last epoch.
pub const EPOCH_MASK: u64 = 0xFF_FFFF;

/// The last value of the counter.
pub const COUNTER_MASK: u64 = 0xFF_FFFF_FFFF;

/// The id of an epoch and a counter.
pub open spec fn id_of(epoch: int, counter: int) -> int {
    epoch * (COUNTER_MASK + 1) + counter
}

/// The epoch of an id.
pub open spec fn epoch_of(id: int) -> int {
    id / (COUNTER_MASK + 1)
}

/// The counter of an id.
pub open spec fn counter_of(id: int) -> int {
    id % (COUNTER_MASK + 1)
}

/// A source of ids.
#[derive(Debug)]
pub struct IdGenerator {
    state: u64,
}

/// A number by chance, from the generator of the thread: `rand::rng` and `RngExt::random`.
#[verifier::external_body]
fn random_word() -> u64 {
    rng().random::<u64>()
}

/// The epoch that a number by chance gives, unless it is one of the two that are not drawn.
pub fn epoch_from(word: u64) -> (r: Option<u64>)
    ensures
        match r {
            Some(epoch) => epoch == word % (EPOCH_MASK + 1) as u64 && 0 < epoch < EPOCH_MASK,
            None => word % (EPOCH_MASK + 1) as u64 == 0 || word % (EPOCH_MASK + 1) as u64
                == EPOCH_MASK,
        },
{
    let epoch: u64 = word & EPOCH_MASK;
    assert(word & 0xFF_FFFF == word % 0x100_0000) by (bit_vector);
    if epoch != 0 && epoch != EPOCH_MASK {
        Some(epoch)
    } else {
        None
    }
}

/// Draws an epoch. Which one, is up to chance.
pub fn mint_epoch() -> (r: u64)
    ensures
        0 < r < EPOCH_MASK,
{
    let mut left: u64 = u64::MAX;
    while left > 0
        decreases left,
    {
        if let Some(epoch) = epoch_from(random_word()) {
            return epoch;
        }
        left -= 1;
    }
    1
}

impl IdGenerator {
    /// The last id that was given, or where the ids start.
    pub closed spec fn last(&self) -> u64 {
        self.state
    }

    /// A generator with an epoch by chance.
    pub fn new() -> (r: Self)
        ensures
            0 < epoch_of(r.last() as int) < EPOCH_MASK,
            counter_of(r.last() as int) == 0,
    {
        let epoch: u64 = mint_epoch();
        proof {
            lemma_parts(epoch, 0);
        }
        IdGenerator::with_epoch(epoch)
    }

    /// A generator with an epoch, of which only the bits count that an epoch has.
    pub fn with_epoch(epoch: u64) -> (r: Self)
        ensures
            r.last() == id_of((epoch % (EPOCH_MASK + 1) as u64) as int, 0),
            epoch_of(r.last() as int) == epoch % (EPOCH_MASK + 1) as u64,
            counter_of(r.last() as int) == 0,
    {
        IdGenerator::with_parts(epoch, 0)
    }

    /// A generator with an epoch and a counter, of which only the bits count that they have.
    pub fn with_parts(epoch: u64, counter: u64) -> (r: Self)
        ensures
            r.last() == id_of(
                (epoch % (EPOCH_MASK + 1) as u64) as int,
                (counter % (COUNTER_MASK + 1) as u64) as int,
            ),
            epoch_of(r.last() as int) == epoch % (EPOCH_MASK + 1) as u64,
            counter_of(r.last() as int) == counter % (COUNTER_MASK + 1) as u64,
    {
        let e: u64 = epoch & EPOCH_MASK;
        let c: u64 = counter & COUNTER_MASK;
        assert(epoch & 0xFF_FFFF == epoch % 0x100_0000) by (bit_vector);
        assert(counter & 0xFF_FFFF_FFFF == counter % 0x100_0000_0000) by (bit_vector);
        assert(((e << 40) | c) == e * 0x100_0000_0000 + c) by (bit_vector)
            requires
                e <= 0xFF_FFFF,
                c <= 0xFF_FFFF_FFFF,
        ;
        proof {
            lemma_parts(e, c);
        }
        IdGenerator { state: (e << COUNTER_BITS) | c }
    }

    /// Whether there is no id left.
    pub fn is_spent(&self) -> (r: bool)
        ensures
            r == (self.last() == u64::MAX),
    {
        self.state == u64::MAX
    }

    /// The next id.
    pub fn next_id(&mut self) -> (r: TimeseriesId)
        requires
            old(self).last() < u64::MAX,
        ensures
            r == old(self).last() + 1,
            final(self).last() == r,
    {
        self.state = self.state + 1;
        self.state
    }

    /// The next id.
    pub fn generate(&mut self) -> (r: TimeseriesId)
        requires
            old(self).last() < u64::MAX,
        ensures
            r == old(self).last() + 1,
            final(self).last() == r,
    {
        self.next_id()
    }

    /// The epoch of the last id.
    pub fn epoch(&self) -> (r: u32)
        ensures
            r == epoch_of(self.last() as int),
    {
        extract_epoch(self.state)
    }

    /// The epoch of an id.
    pub fn extract_epoch(id: TimeseriesId) -> (r: u32)
        ensures
            r == epoch_of(id as int),
    {
        extract_epoch(id)
    }

    /// The counter of an id.
    pub fn extract_counter(id: TimeseriesId) -> (r: u64)
        ensures
            r == counter_of(id as int),
    {
        extract_counter(id)
    }
}

impl Default for IdGenerator {
    fn default() -> (r: Self)
        ensures
            0 < epoch_of(r.last() as int) < EPOCH_MASK,
            counter_of(r.last() as int) == 0,
    {
        Self::new()
    }
}

/// The next id of a generator.
pub fn generate(generator: &mut IdGenerator) -> (r: TimeseriesId)
    requires
        old(generator).last() < u64::MAX,
    ensures
        r == old(generator).last() + 1,
        final(generator).last() == r,
{
    generator.next_id()
}

/// The next id of a generator.
pub fn next_timeseries_id(generator: &mut IdGenerator) -> (r: TimeseriesId)
    requires
        old(generator).last() < u64::MAX,
    ensures
        r == old(generator).last() + 1,
        final(generator).last() == r,
{
    generate(generator)
}

/// The epoch of an id.
pub fn extract_epoch(id: TimeseriesId) -> (r: u32)
    ensures
        r == epoch_of(id as int),
{
    assert(id >> 40 == id / 0x100_0000_0000) by (bit_vector);
    (id >> COUNTER_BITS) as u32
}

/// The counter of an id.
pub fn extract_counter(id: TimeseriesId) -> (r: u64)
    ensures
        r == counter_of(id as int),
{
    assert(id & 0xFF_FFFF_FFFF == id % 0x100_0000_0000) by (bit_vector);
    id & COUNTER_MASK
}

proof fn lemma_parts(epoch: u64, counter: u64)
    requires
        epoch <= EPOCH_MASK,
        counter <= COUNTER_MASK,
    ensures
        id_of(epoch as int, counter as int) <= u64::MAX,
        epoch_of(id_of(epoch as int, counter as int)) == epoch,
        counter_of(id_of(epoch as int, counter as int)) == counter,
        epoch % (EPOCH_MASK + 1) as u64 == epoch,
        counter % (COUNTER_MASK + 1) as u64 == counter,
{
    let e = epoch as int;
    let c = counter as int;
    assert(COUNTER_MASK + 1 == 0x100_0000_0000);
    assert(EPOCH_MASK + 1 == 0x100_0000);
    assert(id_of(e, c) == e * 0x100_0000_0000 + c);
    assert(e % 0x100_0000 == e);
    assert(c % 0x100_0000_0000 == c);
    vstd::arithmetic::div_mod::lemma_fundamental_div_mod_converse(
        id_of(epoch as int, counter as int),
        COUNTER_MASK + 1,
        epoch as int,
        counter as int,
    );
}

/// An id is made of its epoch and its counter, and those of an id that is made of them are they.
pub proof fn law_id_parts(id: u64, epoch: u64, counter: u64)
    requires
        epoch <= EPOCH_MASK,
        counter <= COUNTER_MASK,
    ensures
        id_of(epoch_of(id as int), counter_of(id as int)) == id,
        epoch_of(id_of(epoch as int, counter as int)) == epoch,
        counter_of(id_of(epoch as int, counter as int)) == counter,
{
    lemma_parts(epoch, counter);
    vstd::arithmetic::div_mod::lemma_fundamental_div_mod(id as int, COUNTER_MASK + 1);
}

/// The ids that a generator gives one after the other, by their number: no two are the same, none is
/// 0 or of epoch 0, and until the counter runs over they all have the epoch of the generator and
/// count on. What runs over goes on in the epochs after it.
pub proof fn law_ids_apart(epoch: u64, i: int, j: int)
    requires
        0 < epoch < EPOCH_MASK,
        0 < i < j,
        id_of(epoch as int, 0) + j <= u64::MAX,
    ensures
        0 < id_of(epoch as int, 0) + i < id_of(epoch as int, 0) + j,
        epoch <= epoch_of(id_of(epoch as int, 0) + i),
        i <= COUNTER_MASK ==> epoch_of(id_of(epoch as int, 0) + i) == epoch && counter_of(
            id_of(epoch as int, 0) + i,
        ) == i,
{
    let n: int = COUNTER_MASK + 1;
    let at = id_of(epoch as int, 0);
    lemma_parts(epoch, 0);
    vstd::arithmetic::div_mod::lemma_div_is_ordered(at, at + i, n);
    if i < n {
        vstd::arithmetic::div_mod::lemma_fundamental_div_mod_converse(at + i, n, epoch as int, i);
    }
}

} // verus!
