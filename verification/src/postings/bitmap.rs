//! Sets of series ids, held in compressed bitmaps.
//!
//! A [`croaring::Bitmap64`] is opaque to the verifier. [`ids_of`] names the set of ids that a
//! bitmap holds, and the declarations below say what each operation does to that set.
use croaring::{Bitmap64, Portable};
use std::borrow::Cow;
use vstd::prelude::*;

verus! {

/// `croaring::Bitmap64`, a compressed set of 64-bit integers.
#[verifier::external_type_specification]
#[verifier::external_body]
pub struct ExBitmap64(Bitmap64);

/// The ids that a bitmap holds.
pub uninterp spec fn ids_of(b: Bitmap64) -> Set<u64>;

/// The ids of a bitmap that is either borrowed or owned.
pub open spec fn cow_ids(c: Cow<'_, Bitmap64>) -> Set<u64> {
    match c {
        Cow::Borrowed(b) => ids_of(*b),
        Cow::Owned(b) => ids_of(b),
    }
}

/// `Bitmap64::new`: the new bitmap holds nothing.
pub assume_specification[ Bitmap64::new ]() -> (r: Bitmap64)
    ensures
        ids_of(r) == Set::<u64>::empty(),
;

/// `Bitmap64::add`: the value is in the bitmap afterwards, and nothing else changes.
pub assume_specification[ Bitmap64::add ](b: &mut Bitmap64, value: u64)
    ensures
        ids_of(*final(b)) == ids_of(*old(b)).insert(value),
;

/// `Bitmap64::add_many`: every value of the slice is in the bitmap afterwards, beside what was
/// there.
pub assume_specification[ Bitmap64::add_many ](b: &mut Bitmap64, values: &[u64])
    ensures
        ids_of(*final(b)) == ids_of(*old(b)).union(values@.to_set()),
;

/// `Bitmap64::remove`: the value is not in the bitmap afterwards, and nothing else changes.
pub assume_specification[ Bitmap64::remove ](b: &mut Bitmap64, value: u64)
    ensures
        ids_of(*final(b)) == ids_of(*old(b)).remove(value),
;

/// `Bitmap64::remove_checked`: as `remove`, and tells whether the value was there.
pub assume_specification[ Bitmap64::remove_checked ](b: &mut Bitmap64, value: u64) -> (r: bool)
    ensures
        r == ids_of(*old(b)).contains(value),
        ids_of(*final(b)) == ids_of(*old(b)).remove(value),
;

/// `Bitmap64::remove_many`: no value of the slice is in the bitmap afterwards, and nothing else
/// changes.
pub assume_specification[ Bitmap64::remove_many ](b: &mut Bitmap64, vals: &[u64])
    ensures
        ids_of(*final(b)) == ids_of(*old(b)).difference(vals@.to_set()),
;

/// `Bitmap64::clear`: the bitmap holds nothing afterwards.
pub assume_specification[ Bitmap64::clear ](b: &mut Bitmap64)
    ensures
        ids_of(*final(b)) == Set::<u64>::empty(),
;

/// `Bitmap64::cardinality`: the number of values, counted with 64 bits. That is the number itself
/// for every set but that of all 64-bit integers, for which the count starts over.
pub assume_specification[ Bitmap64::cardinality ](b: &Bitmap64) -> (r: u64)
    ensures
        r == ids_of(*b).len() % 0x1_0000_0000_0000_0000,
;

/// `Bitmap64::and_cardinality`: the number of values that both bitmaps hold, where that number
/// fits in 64 bits.
pub assume_specification[ Bitmap64::and_cardinality ](b: &Bitmap64, other: &Bitmap64) -> (r: u64)
    ensures
        ids_of(*b).intersect(ids_of(*other)).len() <= u64::MAX ==> r == ids_of(*b).intersect(
            ids_of(*other),
        ).len(),
;

/// `Bitmap64::is_empty`: whether the bitmap holds nothing.
pub assume_specification[ Bitmap64::is_empty ](b: &Bitmap64) -> (r: bool)
    ensures
        r == (ids_of(*b) == Set::<u64>::empty()),
;

/// `Bitmap64::contains`: whether the value is in the bitmap.
pub assume_specification[ Bitmap64::contains ](b: &Bitmap64, value: u64) -> (r: bool)
    ensures
        r == ids_of(*b).contains(value),
;

/// `Bitmap64::minimum`: the least value, or nothing for an empty bitmap.
pub assume_specification[ Bitmap64::minimum ](b: &Bitmap64) -> (r: Option<u64>)
    ensures
        match r {
            Some(v) => ids_of(*b).contains(v) && forall|w: u64| ids_of(*b).contains(w) ==> v <= w,
            None => ids_of(*b) == Set::<u64>::empty(),
        },
;

/// `Bitmap64::andnot`: the values of the first bitmap that the second does not hold.
pub assume_specification[ Bitmap64::andnot ](b: &Bitmap64, other: &Bitmap64) -> (r: Bitmap64)
    ensures
        ids_of(r) == ids_of(*b).difference(ids_of(*other)),
;

/// `Bitmap64::andnot_inplace`: takes the values of the other bitmap out.
pub assume_specification[ Bitmap64::andnot_inplace ](b: &mut Bitmap64, other: &Bitmap64)
    ensures
        ids_of(*final(b)) == ids_of(*old(b)).difference(ids_of(*other)),
;

/// `Bitmap64::and_inplace`: keeps the values that the other bitmap holds too.
pub assume_specification[ Bitmap64::and_inplace ](b: &mut Bitmap64, other: &Bitmap64)
    ensures
        ids_of(*final(b)) == ids_of(*old(b)).intersect(ids_of(*other)),
;

/// `Bitmap64::or_inplace`: adds the values of the other bitmap.
pub assume_specification[ Bitmap64::or_inplace ](b: &mut Bitmap64, other: &Bitmap64)
    ensures
        ids_of(*final(b)) == ids_of(*old(b)).union(ids_of(*other)),
;

/// `Bitmap64::run_optimize`: may change how the values are stored, never which they are. What
/// the returned flag tells of the storage is left unsaid.
pub assume_specification[ Bitmap64::run_optimize ](b: &mut Bitmap64) -> (r: bool)
    ensures
        ids_of(*final(b)) == ids_of(*old(b)),
;

/// `Bitmap64::shrink_to_fit`: may give memory back, never changes the values. How many bytes it
/// saved is left unsaid.
pub assume_specification[ Bitmap64::shrink_to_fit ](b: &mut Bitmap64) -> (r: usize)
    ensures
        ids_of(*final(b)) == ids_of(*old(b)),
;

/// `Bitmap64::clone`: a bitmap with the same values.
pub assume_specification[ <Bitmap64 as Clone>::clone ](b: &Bitmap64) -> (r: Bitmap64)
    ensures
        ids_of(r) == ids_of(*b),
;

/// `Bitmap64::iter`, collected: every value of the bitmap once, in increasing order.
#[verifier::external_body]
pub(crate) fn bitmap_values(b: &Bitmap64) -> (r: Vec<u64>)
    ensures
        r@.to_set() == ids_of(*b),
        forall|i: int, j: int| 0 <= i < j < r@.len() ==> r@[i] < r@[j],
{
    b.iter().collect()
}

/// The ids that the portable form of a bitmap stands for, or nothing where bytes are no such form.
pub uninterp spec fn portable_ids(bytes: Seq<u8>) -> Option<Set<u64>>;

/// `Bitmap64::serialize` in the portable format: bytes from which the values are read back.
#[verifier::external_body]
pub(crate) fn bitmap_to_portable(b: &Bitmap64) -> (r: Vec<u8>)
    ensures
        portable_ids(r@) == Some(ids_of(*b)),
{
    b.serialize::<Portable>()
}

/// `Bitmap64::try_deserialize` in the portable format: a bitmap with the values that the bytes
/// stand for.
#[verifier::external_body]
pub(crate) fn bitmap_from_portable(bytes: &[u8]) -> (r: Option<Bitmap64>)
    ensures
        match r {
            Some(b) => portable_ids(bytes@) == Some(ids_of(b)),
            None => portable_ids(bytes@) is None,
        },
{
    Bitmap64::try_deserialize::<Portable>(bytes)
}

/// The bitmap itself, copied only where it was borrowed.
pub fn cow_into_owned(c: Cow<'_, Bitmap64>) -> (r: Bitmap64)
    ensures
        ids_of(r) == cow_ids(c),
{
    match c {
        Cow::Borrowed(b) => b.clone(),
        Cow::Owned(b) => b,
    }
}

/// A reference to the bitmap inside.
pub fn cow_ref<'b>(c: &'b Cow<'_, Bitmap64>) -> (r: &'b Bitmap64)
    ensures
        ids_of(*r) == cow_ids(*c),
{
    match c {
        Cow::Borrowed(b) => *b,
        Cow::Owned(b) => b,
    }
}

/// Any set of 64-bit integers is finite.
pub proof fn lemma_ids_finite(s: Set<u64>)
    ensures
        s.finite(),
        s.len() <= u64::MAX + 1,
{
    let all = vstd::set_lib::set_int_range(0, u64::MAX + 1);
    vstd::set_lib::lemma_int_range(0, u64::MAX + 1);
    let image = s.map(|v: u64| v as int);
    assert forall|v: int| image.contains(v) implies all.contains(v) by {}
    vstd::set_lib::lemma_len_subset(image, all);
    let back = image.map(|v: int| v as u64);
    vstd::set_lib::lemma_map_size_bound(image, back, |v: int| v as u64);
    assert(back =~= s) by {
        assert forall|v: u64| s.contains(v) implies back.contains(v) by {
            assert(image.contains(v as int));
            assert((v as int) as u64 == v);
        }
        assert forall|v: u64| back.contains(v) implies s.contains(v) by {
            let i = choose|i: int| image.contains(i) && i as u64 == v;
            let w = choose|w: u64| s.contains(w) && w as int == i;
            assert(w == v);
        }
    }
}

/// The number of ids in a set, or the largest number where that does not hold it.
pub open spec fn capped(n: nat) -> u64 {
    if n > u64::MAX {
        u64::MAX
    } else {
        n as u64
    }
}

/// How many ids a posting list holds.
pub fn list_size(list: &Bitmap64) -> (r: u64)
    ensures
        r == capped(ids_of(*list).len()),
{
    let ghost ids = ids_of(*list);
    proof {
        lemma_ids_finite(ids);
    }
    if list.is_empty() {
        return 0;
    }
    let n: u64 = list.cardinality();
    if n == 0 {
        proof {
            if ids.len() == 0 {
                ids.lemma_len0_is_empty();
            }
        }
        u64::MAX
    } else {
        n
    }
}

} // verus!
