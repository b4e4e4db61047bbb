//! The best of many results.
//!
//! Which results are the best is worked out on their places in a list: of two results that neither
//! comes before the other, the one that stands first is the better one, so that no two are equally
//! good.
use crate::index::label_scan::lemma_ascending_unique;
use crate::index::label_search::{
    before, best_of, comes_before, found, insert_ranked, lemma_before, ranking, Found,
    LabelSearchResult, SearchResultOrdering,
};
use itertools::Itertools;
use std::cmp::Ordering;
use vstd::prelude::*;

verus! {

/// Whether the result at a place is better than the one at another.
pub open spec fn is_better(order: SearchResultOrdering, items: Seq<Found>, a: usize, b: usize) -> bool {
    before(order, items[a as int], items[b as int]) || (!before(
        order,
        items[b as int],
        items[a as int],
    ) && a < b)
}

/// The places of the best results, the best first: as many as are asked for, or all.
pub open spec fn are_best(
    order: SearchResultOrdering,
    items: Seq<Found>,
    k: usize,
    r: Seq<usize>,
) -> bool {
    &&& r.len() == if items.len() > k {
        k as nat
    } else {
        items.len()
    }
    &&& forall|i: int| 0 <= i < r.len() ==> #[trigger] r[i] < items.len()
    &&& forall|i: int, j: int|
        0 <= i < j < r.len() ==> is_better(order, items, #[trigger] r[i], #[trigger] r[j])
    &&& forall|p: usize, i: int|
        p < items.len() && !r.contains(p) && 0 <= i < r.len() ==> #[trigger] is_better(
            order,
            items,
            r[i],
            p,
        )
}

proof fn lemma_order(order: SearchResultOrdering, items: Seq<Found>, a: usize, b: usize)
    ensures
        is_better(order, items, a, b) ==> !is_better(order, items, b, a),
        a != b ==> is_better(order, items, a, b) || is_better(order, items, b, a),
        !is_better(order, items, a, a),
        before(order, items[a as int], items[b as int]) ==> is_better(order, items, a, b),
        !before(order, items[a as int], items[b as int]) && b < a ==> is_better(order, items, b, a),
{
    lemma_before(order, items[a as int], items[b as int], items[a as int]);
    lemma_before(order, items[b as int], items[a as int], items[b as int]);
}

/// Which of the results at two places is better.
fn compare_places(
    order: SearchResultOrdering,
    items: &Vec<LabelSearchResult>,
    a: usize,
    b: usize,
) -> (r: Ordering)
    requires
        a < items@.len(),
        b < items@.len(),
    ensures
        r == Ordering::Less <==> is_better(order, found(items@), a, b),
        r == Ordering::Greater <==> is_better(order, found(items@), b, a),
        r == Ordering::Equal <==> a == b,
{
    proof {
        lemma_order(order, found(items@), a, b);
    }
    if comes_before(order, &items[a], &items[b]) {
        Ordering::Less
    } else if comes_before(order, &items[b], &items[a]) {
        Ordering::Greater
    } else if a < b {
        Ordering::Less
    } else if b < a {
        Ordering::Greater
    } else {
        Ordering::Equal
    }
}

/// `Itertools::k_smallest_by`, on the places of a list: the places of the best results, the best
/// first. No two places are equally good, so which ones they are is settled.
#[verifier::external_body]
fn best_places(order: SearchResultOrdering, items: &Vec<LabelSearchResult>, k: usize) -> (r: Vec<
    usize,
>)
    ensures
        are_best(order, found(items@), k, r@),
{
    (0..items.len()).k_smallest_by(k, |a, b| compare_places(order, items, *a, *b)).collect()
}

/// The results at places.
spec fn at_places(items: Seq<Found>, places: Seq<usize>) -> Seq<Found> {
    places.map_values(|p: usize| items[p as int])
}

/// A place put among others: behind all whose results its own does not come before.
spec fn insert_place(order: SearchResultOrdering, items: Seq<Found>, s: Seq<usize>, x: usize) -> Seq<
    usize,
>
    decreases s.len(),
{
    if s.len() == 0 || !before(order, items[x as int], items[s.last() as int]) {
        s.push(x)
    } else {
        insert_place(order, items, s.drop_last(), x).push(s.last())
    }
}

/// The places of all results, the best first.
spec fn all_places(order: SearchResultOrdering, items: Seq<Found>) -> Seq<usize>
    decreases items.len(),
{
    if items.len() == 0 {
        Seq::empty()
    } else {
        insert_place(
            order,
            items,
            all_places(order, items.drop_last()),
            (items.len() - 1) as usize,
        )
    }
}

/// Places of a list, the best first.
spec fn places_descend(order: SearchResultOrdering, items: Seq<Found>, s: Seq<usize>) -> bool {
    forall|i: int, j: int|
        0 <= i < j < s.len() ==> is_better(order, items, #[trigger] s[i], #[trigger] s[j])
}

proof fn lemma_insert_place(order: SearchResultOrdering, items: Seq<Found>, s: Seq<usize>, x: usize)
    requires
        places_descend(order, items, s),
        forall|i: int| 0 <= i < s.len() ==> #[trigger] s[i] < x,
    ensures
        places_descend(order, items, insert_place(order, items, s, x)),
        insert_place(order, items, s, x).len() == s.len() + 1,
        forall|p: usize| #[trigger]
            insert_place(order, items, s, x).contains(p) <==> s.contains(p) || p == x,
        at_places(items, insert_place(order, items, s, x)) == insert_ranked(
            order,
            at_places(items, s),
            items[x as int],
        ),
    decreases s.len(),
{
    let out = insert_place(order, items, s, x);
    let values = at_places(items, s);
    if s.len() == 0 || !before(order, items[x as int], items[s.last() as int]) {
        assert forall|i: int, j: int| 0 <= i < j < out.len() implies is_better(
            order,
            items,
            #[trigger] out[i],
            #[trigger] out[j],
        ) by {
            if j == s.len() {
                let (e, last) = (s[i], s.last());
                if i < s.len() - 1 {
                    assert(is_better(order, items, s[i], s[s.len() - 1]));
                    lemma_order(order, items, e, last);
                    lemma_before(order, items[last as int], items[e as int], items[x as int]);
                }
                lemma_before(order, items[e as int], items[last as int], items[x as int]);
                lemma_order(order, items, x, e);
            }
        }
        assert forall|p: usize| #[trigger] out.contains(p) <==> s.contains(p) || p == x by {
            if s.contains(p) {
                let k = choose|k: int| 0 <= k < s.len() && s[k] == p;
                assert(out[k] == p);
            }
            assert(out[s.len() as int] == x);
        }
        assert(at_places(items, out) =~= values.push(items[x as int]));
    } else {
        let less = s.drop_last();
        assert forall|i: int, j: int| 0 <= i < j < less.len() implies is_better(
            order,
            items,
            #[trigger] less[i],
            #[trigger] less[j],
        ) by {
            assert(less[i] == s[i] && less[j] == s[j]);
        }
        assert forall|i: int| 0 <= i < less.len() implies #[trigger] less[i] < x by {
            assert(less[i] == s[i]);
        }
        lemma_insert_place(order, items, less, x);
        let inner = insert_place(order, items, less, x);
        let last = s.last();
        assert forall|i: int, j: int| 0 <= i < j < out.len() implies is_better(
            order,
            items,
            #[trigger] out[i],
            #[trigger] out[j],
        ) by {
            if j == out.len() - 1 {
                assert(out[i] == inner[i]);
                assert(inner.contains(inner[i]));
                if inner[i] != x {
                    let k = choose|k: int| 0 <= k < less.len() && less[k] == inner[i];
                    assert(is_better(order, items, s[k], s[s.len() - 1]));
                }
            } else {
                assert(out[i] == inner[i] && out[j] == inner[j]);
            }
        }
        assert forall|p: usize| #[trigger] out.contains(p) <==> s.contains(p) || p == x by {
            if out.contains(p) {
                let k = choose|k: int| 0 <= k < out.len() && out[k] == p;
                if k < inner.len() {
                    assert(inner[k] == p);
                    assert(inner.contains(p));
                    if p != x {
                        let m = choose|m: int| 0 <= m < less.len() && less[m] == p;
                        assert(s[m] == p);
                    }
                } else {
                    assert(s[s.len() - 1] == p);
                }
            }
            if s.contains(p) || p == x {
                if p != last || p == x {
                    if p != x {
                        let m = choose|m: int| 0 <= m < s.len() && s[m] == p;
                        assert(less[m] == p);
                    }
                    assert(inner.contains(p));
                    let k = choose|k: int| 0 <= k < inner.len() && inner[k] == p;
                    assert(out[k] == p);
                } else {
                    assert(out[out.len() - 1] == p);
                }
            }
        }
        assert(values.drop_last() =~= at_places(items, less));
        assert(values.last() == items[last as int]);
        assert(at_places(items, out) =~= at_places(items, inner).push(items[last as int]));
    }
}

proof fn lemma_all_places(order: SearchResultOrdering, items: Seq<Found>)
    requires
        items.len() <= usize::MAX,
    ensures
        places_descend(order, items, all_places(order, items)),
        all_places(order, items).len() == items.len(),
        forall|p: usize| #[trigger] all_places(order, items).contains(p) <==> p < items.len(),
        at_places(items, all_places(order, items)) == ranking(order, items),
    decreases items.len(),
{
    if items.len() == 0 {
        assert(at_places(items, all_places(order, items)) =~= items);
    } else {
        let less = items.drop_last();
        let x = (items.len() - 1) as usize;
        lemma_all_places(order, less);
        let s = all_places(order, less);
        assert forall|i: int| 0 <= i < s.len() implies #[trigger] s[i] < x by {
            assert(s.contains(s[i]));
        }
        assert forall|i: int, j: int| 0 <= i < j < s.len() implies is_better(
            order,
            items,
            #[trigger] s[i],
            #[trigger] s[j],
        ) by {
            assert(is_better(order, less, s[i], s[j]));
        }
        lemma_insert_place(order, items, s, x);
        assert(at_places(items, s) =~= at_places(less, s)) by {
            assert forall|i: int| 0 <= i < s.len() implies items[(#[trigger] s[i]) as int]
                == less[s[i] as int] by {}
        }
    }
}

/// The places of the best results are the first of all places.
proof fn lemma_best_places(order: SearchResultOrdering, items: Seq<Found>, k: usize, r: Seq<usize>)
    requires
        items.len() <= usize::MAX,
        are_best(order, items, k, r),
    ensures
        at_places(items, r) == best_of(order, items, k as nat),
{
    lemma_all_places(order, items);
    let all = all_places(order, items);
    let m = r.len() as int;
    let first = all.take(m);
    let less = |a: usize, b: usize| is_better(order, items, a, b);
    assert forall|a: usize, b: usize| #[trigger] less(a, b) implies !less(b, a) by {
        lemma_order(order, items, a, b);
    }
    lemma_apart(order, items, r);
    assert(places_descend(order, items, first)) by {
        assert forall|i: int, j: int| 0 <= i < j < first.len() implies is_better(
            order,
            items,
            #[trigger] first[i],
            #[trigger] first[j],
        ) by {
            assert(first[i] == all[i] && first[j] == all[j]);
        }
    }
    lemma_apart(order, items, first);
    r.unique_seq_to_set();
    first.unique_seq_to_set();
    assert(r.to_set().subset_of(first.to_set())) by {
        assert forall|y: usize| r.to_set().contains(y) implies first.to_set().contains(y) by {
            if !first.contains(y) {
                if first.to_set().subset_of(r.to_set()) {
                    vstd::set_lib::lemma_subset_equality(first.to_set(), r.to_set());
                    assert(first.to_set().contains(y));
                } else {
                    let x = choose|x: usize|
                        first.to_set().contains(x) && !r.to_set().contains(x);
                    let i = choose|i: int| 0 <= i < first.len() && first[i] == x;
                    assert(all[i] == x);
                    assert(all.contains(x));
                    let n = choose|n: int| 0 <= n < r.len() && r[n] == y;
                    assert(is_better(order, items, r[n], x));
                    assert(all.contains(y));
                    let j = choose|j: int| 0 <= j < all.len() && all[j] == y;
                    if j < m {
                        assert(first[j] == y);
                    }
                    assert(is_better(order, items, all[i], all[j]));
                    lemma_order(order, items, x, y);
                }
            }
        }
    }
    vstd::set_lib::lemma_subset_equality(r.to_set(), first.to_set());
    assert forall|p: usize| #[trigger] r.contains(p) == first.contains(p) by {
        assert(r.to_set().contains(p) == first.to_set().contains(p));
    }
    lemma_ascending_unique(r, first, less);
    assert(at_places(items, first) =~= at_places(items, all).take(m));
    if items.len() <= k {
        assert(first =~= all);
    }
}

/// No place comes twice where each is better than the next.
proof fn lemma_apart(order: SearchResultOrdering, items: Seq<Found>, s: Seq<usize>)
    requires
        places_descend(order, items, s),
    ensures
        s.no_duplicates(),
{
    assert forall|i: int, j: int| 0 <= i < s.len() && 0 <= j < s.len() && i != j implies s[i]
        != s[j] by {
        lemma_order(order, items, s[i], s[j]);
        if i < j {
            assert(is_better(order, items, s[i], s[j]));
        } else {
            assert(is_better(order, items, s[j], s[i]));
        }
    }
}

/// The best results of a list, in order.
pub fn keep_best(order: SearchResultOrdering, items: &Vec<LabelSearchResult>, limit: usize) -> (r: Vec<
    LabelSearchResult,
>)
    ensures
        found(r@) == best_of(order, found(items@), limit as nat),
{
    let places = best_places(order, items, limit);
    let mut out: Vec<LabelSearchResult> = Vec::new();
    let mut i: usize = 0;
    while i < places.len()
        invariant
            i <= places@.len(),
            forall|j: int| 0 <= j < places@.len() ==> #[trigger] places@[j] < items@.len(),
            out@.len() == i,
            forall|j: int| 0 <= j < i ==> (#[trigger] out@[j])@ == items@[places@[j] as int]@,
        decreases places.len() - i,
    {
        assert(places@[i as int] < items@.len());
        let item = &items[places[i]];
        out.push(
            LabelSearchResult {
                value: item.value.as_str().to_owned(),
                score: item.score,
                cardinality: item.cardinality,
            },
        );
        i += 1;
    }
    proof {
        assert(found(out@) =~= at_places(found(items@), places@));
        assert(items@.len() == items.len());
        lemma_best_places(order, found(items@), limit, places@);
    }
    out
}

} // verus!
