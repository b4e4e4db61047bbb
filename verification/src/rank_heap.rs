//! A heap of ranks, each with the number of what has the rank.
//!
//! It is a [`min_max_heap::MinMaxHeap`]. [`ranks_of`] names its contents, and the functions below
//! say what each operation does to them.
use min_max_heap::MinMaxHeap;
use vstd::multiset::Multiset;
use vstd::prelude::*;

verus! {

/// `min_max_heap::MinMaxHeap`, a queue with two ends.
#[verifier::external_type_specification]
#[verifier::external_body]
#[verifier::reject_recursive_types(T)]
pub struct ExMinMaxHeap<T>(MinMaxHeap<T>);

/// A rank, and the number of what has it.
pub type Rank = (i128, u64);

/// A heap of ranks.
pub type RankHeap = MinMaxHeap<(i128, u64)>;

/// What the heap holds.
pub uninterp spec fn ranks_of(h: MinMaxHeap<(i128, u64)>) -> Multiset<(i128, u64)>;

/// The order of ranks: by the first part, then by the second.
pub open spec fn rank_less(a: Rank, b: Rank) -> bool {
    a.0 < b.0 || (a.0 == b.0 && a.1 < b.1)
}

/// No rank in the heap is above this one, which is in the heap.
pub open spec fn is_top(m: Multiset<Rank>, t: Rank) -> bool {
    m.count(t) > 0 && forall|u: Rank| #[trigger] m.count(u) > 0 ==> !rank_less(t, u)
}

/// No rank comes after a larger one.
pub open spec fn ranks_ascend(s: Seq<Rank>) -> bool {
    forall|i: int, j: int| 0 <= i < j < s.len() ==> !rank_less(#[trigger] s[j], #[trigger] s[i])
}

/// `MinMaxHeap::new`: nothing is in the heap.
#[verifier::external_body]
pub(crate) fn empty_heap() -> (r: RankHeap)
    ensures
        ranks_of(r) == Multiset::<Rank>::empty(),
{
    MinMaxHeap::new()
}

/// `MinMaxHeap::len`: how many ranks there are.
#[verifier::external_body]
pub(crate) fn heap_len(h: &RankHeap) -> (r: usize)
    ensures
        r == ranks_of(*h).len(),
{
    h.len()
}

/// `MinMaxHeap::peek_max`: the largest rank.
#[verifier::external_body]
pub(crate) fn heap_top(h: &RankHeap) -> (r: Option<Rank>)
    ensures
        match r {
            Some(t) => is_top(ranks_of(*h), t),
            None => ranks_of(*h).len() == 0,
        },
{
    h.peek_max().copied()
}

/// `MinMaxHeap::pop_max`: takes the largest rank out, where there is one.
#[verifier::external_body]
pub(crate) fn pop_top(h: &mut RankHeap) -> (r: Option<Rank>)
    ensures
        match r {
            Some(t) => is_top(ranks_of(*old(h)), t) && ranks_of(*final(h)) == ranks_of(
                *old(h),
            ).remove(t),
            None => ranks_of(*old(h)).len() == 0 && ranks_of(*final(h)) == ranks_of(*old(h)),
        },
{
    h.pop_max()
}

/// `MinMaxHeap::push`: adds a rank.
#[verifier::external_body]
pub(crate) fn push_rank(h: &mut RankHeap, rank: Rank)
    ensures
        ranks_of(*final(h)) == ranks_of(*old(h)).insert(rank),
{
    h.push(rank);
}

/// `MinMaxHeap::into_vec_asc`: all ranks, the smallest first.
#[verifier::external_body]
pub(crate) fn heap_ranks(h: RankHeap) -> (r: Vec<Rank>)
    ensures
        r@.to_multiset() == ranks_of(h),
        ranks_ascend(r@),
{
    h.into_vec_asc()
}

} // verus!
