//! The best label names of the index.
//!
//! The names come in the order of their texts, so the number of a name settles a tie: the heap
//! holds no texts, only ranks and numbers.
use crate::bytes::{lemma_lex_asymmetric, lemma_lex_irreflexive, utf8};
use crate::index::label_filter::FuzzyFilter;
use crate::index::label_scan::{
    get_label_names_asc, get_label_names_desc, names_taken, results_ascend, scan_label_names,
};
use crate::index::label_search::{
    at_most, before, best_of, found, is_ranked, law_ranking, lemma_before, limit_of,
    normalize_limit, rank, rank_of, ranking, text_before, values_differ, Found, LabelQueryResult,
    LabelSearchResult, SearchHints, SearchResultOrdering, SEARCH_RESULT_DEFAULT_LIMIT,
    SEARCH_RESULT_LIMIT_MAX,
};
use crate::postings::Postings;
use crate::rank_heap::{
    empty_heap, heap_len, heap_ranks, heap_top, pop_top, push_rank, rank_less, ranks_ascend,
    ranks_of, Rank, RankHeap,
};
use vstd::multiset::Multiset;
use vstd::prelude::*;

verus! {

/// The rank of a result of a list, with its number.
pub open spec fn rank_at(order: SearchResultOrdering, items: Seq<Found>, i: int) -> Rank {
    if order == SearchResultOrdering::ValueDesc {
        ((-i) as i128, i as u64)
    } else {
        (rank(order, items[i]) as i128, i as u64)
    }
}

/// In a list that goes by its values, ranks are in the order of the results.
proof fn lemma_rank_order(order: SearchResultOrdering, items: Seq<Found>, i: int, j: int)
    requires
        results_ascend(items),
        items.len() <= u64::MAX,
        0 <= i < items.len(),
        0 <= j < items.len(),
        i != j,
    ensures
        before(order, items[i], items[j]) == rank_less(
            rank_at(order, items, i),
            rank_at(order, items, j),
        ),
{
    if i < j {
        assert(text_before(items[i].value, items[j].value));
        lemma_lex_asymmetric(utf8(items[i].value), utf8(items[j].value));
    } else {
        assert(text_before(items[j].value, items[i].value));
        lemma_lex_asymmetric(utf8(items[j].value), utf8(items[i].value));
    }
}

/// The heap holds the best of the first `n` results, as many as the limit lets through.
spec fn holds_best(
    order: SearchResultOrdering,
    items: Seq<Found>,
    n: int,
    limit: nat,
    m: Multiset<Rank>,
) -> bool {
    &&& m.len() == if n < limit {
        n
    } else {
        limit as int
    }
    &&& forall|t: Rank| #[trigger]
        m.count(t) > 0 ==> m.count(t) == 1 && t.1 < n && t == rank_at(order, items, t.1 as int)
    &&& forall|j: int, t: Rank|
        0 <= j < n && #[trigger] m.count(t) > 0 && m.count(#[trigger] rank_at(order, items, j)) == 0
            ==> rank_less(t, rank_at(order, items, j))
}

proof fn lemma_rank_total(a: Rank, b: Rank, c: Rank)
    ensures
        !rank_less(a, a),
        rank_less(a, b) || rank_less(b, a) || a == b,
        rank_less(a, b) ==> !rank_less(b, a),
        rank_less(a, b) && rank_less(b, c) ==> rank_less(a, c),
        !rank_less(b, a) && rank_less(b, c) ==> rank_less(a, c),
        rank_less(a, b) && !rank_less(c, b) ==> rank_less(a, c),
{
}

/// Offers a result to the heap, which keeps the best ones.
fn offer(
    heap: &mut RankHeap,
    candidate: Rank,
    limit: usize,
    Ghost(order): Ghost<SearchResultOrdering>,
    Ghost(items): Ghost<Seq<Found>>,
)
    requires
        limit > 0,
        candidate.1 < items.len() <= u64::MAX,
        candidate == rank_at(order, items, candidate.1 as int),
        holds_best(order, items, candidate.1 as int, limit as nat, ranks_of(*old(heap))),
    ensures
        holds_best(order, items, candidate.1 + 1, limit as nat, ranks_of(*final(heap))),
{
    let ghost n = candidate.1 as int;
    let ghost m = ranks_of(*heap);
    proof {
        assert(m.count(candidate) == 0) by {
            if m.count(candidate) > 0 {
                assert(candidate.1 < n);
            }
        }
    }
    if heap_len(heap) == limit {
        match heap_top(heap) {
            None => {
                return;
            },
            Some(worst) => {
                let better: bool = candidate.0 < worst.0 || (candidate.0 == worst.0 && candidate.1
                    < worst.1);
                if !better {
                    proof {
                        assert forall|j: int, t: Rank|
                            0 <= j < n + 1 && #[trigger] m.count(t) > 0 && m.count(
                                #[trigger] rank_at(order, items, j),
                            ) == 0 implies rank_less(t, rank_at(order, items, j)) by {
                            if j == n {
                                lemma_rank_total(t, worst, candidate);
                                lemma_rank_total(worst, candidate, t);
                                assert(worst != candidate);
                            }
                        }
                    }
                    return;
                }
                let popped = pop_top(heap);
                proof {
                    let w = popped->0;
                    lemma_rank_total(worst, w, w);
                    assert(w == worst);
                    let less = ranks_of(*heap);
                    assert(less == m.remove(worst));
                    let now = less.insert(candidate);
                    assert forall|t: Rank| #[trigger] now.count(t) > 0 implies now.count(t) == 1
                        && t.1 < n + 1 && t == rank_at(order, items, t.1 as int) by {
                        if t != candidate {
                            assert(m.count(t) > 0);
                        }
                    }
                    assert forall|j: int, t: Rank|
                        0 <= j < n + 1 && #[trigger] now.count(t) > 0 && now.count(
                            #[trigger] rank_at(order, items, j),
                        ) == 0 implies rank_less(t, rank_at(order, items, j)) by {
                        let r = rank_at(order, items, j);
                        if j < n {
                            if t == candidate {
                                if r == worst {
                                } else {
                                    assert(m.count(r) == 0);
                                    assert(m.count(worst) > 0);
                                    assert(rank_less(worst, r));
                                    lemma_rank_total(candidate, worst, r);
                                }
                            } else {
                                assert(m.count(t) > 0);
                                if r == worst {
                                    assert(t != worst) by {
                                        assert(m.count(worst) == 1);
                                    }
                                    lemma_rank_total(t, worst, worst);
                                } else {
                                    assert(m.count(r) == 0);
                                }
                            }
                        }
                    }
                }
            },
        }
    } else {
        proof {
            assert(m.len() == n);
            let now = m.insert(candidate);
            lemma_all_held(order, items, n, m);
            assert forall|j: int, t: Rank|
                0 <= j < n + 1 && #[trigger] now.count(t) > 0 && now.count(
                    #[trigger] rank_at(order, items, j),
                ) == 0 implies rank_less(t, rank_at(order, items, j)) by {
                if j < n {
                    assert(m.count(rank_at(order, items, j)) > 0);
                }
            }
            assert forall|t: Rank| #[trigger] now.count(t) > 0 implies now.count(t) == 1 && t.1 < n
                + 1 && t == rank_at(order, items, t.1 as int) by {
                if t != candidate {
                    assert(m.count(t) > 0);
                }
            }
        }
    }
    push_rank(heap, candidate);
}

/// A heap that holds as many ranks as there were results holds them all.
proof fn lemma_all_held(order: SearchResultOrdering, items: Seq<Found>, n: int, m: Multiset<Rank>)
    requires
        0 <= n <= items.len() <= u64::MAX,
        m.len() == n,
        forall|t: Rank| #[trigger]
            m.count(t) > 0 ==> m.count(t) == 1 && t.1 < n && t == rank_at(order, items, t.1 as int),
    ensures
        forall|j: int| 0 <= j < n ==> m.count(#[trigger] rank_at(order, items, j)) == 1,
    decreases n,
{
    if n > 0 {
        let last = rank_at(order, items, n - 1);
        if m.count(last) == 0 {
            assert forall|t: Rank| #[trigger] m.count(t) > 0 implies t.1 < n - 1 by {
                if t.1 == n - 1 {
                    assert(t == last);
                }
            }
            lemma_at_most(order, items, n - 1, m);
        } else {
            let less = m.remove(last);
            assert forall|t: Rank| #[trigger] less.count(t) > 0 implies less.count(t) == 1 && t.1 < n
                - 1 && t == rank_at(order, items, t.1 as int) by {
                assert(m.count(t) > 0);
                if t.1 == n - 1 {
                    assert(t == last);
                }
            }
            lemma_all_held(order, items, n - 1, less);
            assert forall|j: int| 0 <= j < n implies m.count(#[trigger] rank_at(order, items, j))
                == 1 by {
                if j < n - 1 {
                    assert(less.count(rank_at(order, items, j)) == 1);
                }
            }
        }
    }
}

/// There are no more ranks than numbers.
proof fn lemma_at_most(order: SearchResultOrdering, items: Seq<Found>, n: int, m: Multiset<Rank>)
    requires
        0 <= n <= items.len() <= u64::MAX,
        forall|t: Rank| #[trigger]
            m.count(t) > 0 ==> m.count(t) == 1 && t.1 < n && t == rank_at(order, items, t.1 as int),
    ensures
        m.len() <= n,
    decreases n,
{
    if n == 0 {
        assert(m =~= Multiset::<Rank>::empty()) by {
            assert forall|t: Rank| m.count(t) == 0 by {
                if m.count(t) > 0 {
                    assert(t.1 < 0);
                }
            }
        }
    } else {
        let last = rank_at(order, items, n - 1);
        let less = if m.count(last) > 0 {
            m.remove(last)
        } else {
            m
        };
        assert forall|t: Rank| #[trigger] less.count(t) > 0 implies less.count(t) == 1 && t.1 < n - 1
            && t == rank_at(order, items, t.1 as int) by {
            assert(m.count(t) > 0);
            if t.1 == n - 1 {
                assert(t == last);
            }
        }
        lemma_at_most(order, items, n - 1, less);
    }
}

/// A list of the right length that is in order, out of results with different values, and before
/// all that it leaves out, is that of the best.
proof fn lemma_best_unique(
    order: SearchResultOrdering,
    items: Seq<Found>,
    limit: nat,
    out: Seq<Found>,
)
    requires
        values_differ(items),
        out.len() == if items.len() > limit {
            limit
        } else {
            items.len()
        },
        values_differ(out),
        is_ranked(order, out),
        forall|i: int| 0 <= i < out.len() ==> items.contains(#[trigger] out[i]),
        forall|k: int, i: int|
            0 <= k < items.len() && 0 <= i < out.len() && !out.contains(#[trigger] items[k])
                ==> !before(order, items[k], #[trigger] out[i]),
    ensures
        out == best_of(order, items, limit),
{
    broadcast use vstd::seq_lib::group_to_multiset_ensures;

    law_ranking(order, items);
    let all = ranking(order, items);
    assert forall|i: int, j: int| 0 <= i < j < all.len() implies (#[trigger] all[i]).value != (
    #[trigger] all[j]).value by {
        lemma_ranking_differs(order, items, i, j);
    }
    let p = lemma_prefix_equal(order, items, out, all);
    assert(out =~= best_of(order, items, limit));
}

/// The values of a ranking differ as those of the results do.
proof fn lemma_ranking_differs(order: SearchResultOrdering, items: Seq<Found>, i: int, j: int)
    requires
        values_differ(items),
        0 <= i < j < ranking(order, items).len(),
    ensures
        ranking(order, items)[i].value != ranking(order, items)[j].value,
{
    broadcast use vstd::seq_lib::group_to_multiset_ensures;

    law_ranking(order, items);
    let all = ranking(order, items);
    let (x, y) = (all[i], all[j]);
    assert(all.contains(x) && all.contains(y));
    assert(items.to_multiset().count(x) > 0 && items.to_multiset().count(y) > 0);
    assert(items.contains(x) && items.contains(y));
    let a = choose|a: int| 0 <= a < items.len() && items[a] == x;
    let b = choose|b: int| 0 <= b < items.len() && items[b] == y;
    if x.value == y.value {
        if a < b {
            assert(items[a].value != items[b].value);
        } else if b < a {
            assert(items[b].value != items[a].value);
        }
        assert(x == y);
        assert(items.no_duplicates()) by {
            assert forall|k: int, l: int|
                0 <= k < items.len() && 0 <= l < items.len() && k != l implies items[k] != items[l] by {
                if k < l {
                    assert(items[k].value != items[l].value);
                } else {
                    assert(items[l].value != items[k].value);
                }
            }
        }
        items.lemma_multiset_has_no_duplicates();
        assert(items.to_multiset().count(x) == 1);
        let rest = all.remove(i);
        assert(rest.to_multiset() =~= all.to_multiset().remove(x));
        assert(rest[j - 1] == y);
        assert(rest.contains(x));
        assert(rest.to_multiset().count(x) > 0);
    }
}

proof fn lemma_prefix_equal(
    order: SearchResultOrdering,
    items: Seq<Found>,
    out: Seq<Found>,
    all: Seq<Found>,
) -> (p: int)
    requires
        values_differ(items),
        values_differ(out),
        values_differ(all),
        is_ranked(order, out),
        is_ranked(order, all),
        all.to_multiset() == items.to_multiset(),
        out.len() <= all.len(),
        forall|i: int| 0 <= i < out.len() ==> items.contains(#[trigger] out[i]),
        forall|k: int, i: int|
            0 <= k < items.len() && 0 <= i < out.len() && !out.contains(#[trigger] items[k])
                ==> !before(order, items[k], #[trigger] out[i]),
    ensures
        p == out.len(),
        out =~= all.take(out.len() as int),
{
    broadcast use vstd::seq_lib::group_to_multiset_ensures;

    let mut n: int = 0;
    lemma_prefix_step(order, items, out, all, out.len() as int);
    out.len() as int
}

proof fn lemma_prefix_step(
    order: SearchResultOrdering,
    items: Seq<Found>,
    out: Seq<Found>,
    all: Seq<Found>,
    n: int,
)
    requires
        0 <= n <= out.len(),
        values_differ(items),
        values_differ(out),
        values_differ(all),
        is_ranked(order, out),
        is_ranked(order, all),
        all.to_multiset() == items.to_multiset(),
        out.len() <= all.len(),
        forall|i: int| 0 <= i < out.len() ==> items.contains(#[trigger] out[i]),
        forall|k: int, i: int|
            0 <= k < items.len() && 0 <= i < out.len() && !out.contains(#[trigger] items[k])
                ==> !before(order, items[k], #[trigger] out[i]),
    ensures
        forall|i: int| 0 <= i < n ==> out[i] == all[i],
    decreases n,
{
    broadcast use vstd::seq_lib::group_to_multiset_ensures;

    if n > 0 {
        lemma_prefix_step(order, items, out, all, n - 1);
        let p = n - 1;
        assert(items.contains(out[p]));
        assert(items.to_multiset().count(out[p]) > 0);
        assert(all.contains(out[p]));
        let q = choose|q: int| 0 <= q < all.len() && all[q] == out[p];
        if q < p {
            assert(out[q] == all[q]);
            assert(out[q].value != out[p].value);
        }
        let x = all[p];
        if q > p {
            assert(!before(order, all[q], all[p]));
            assert(all[p].value != all[q].value);
            assert(all.contains(x));
            assert(items.to_multiset().count(x) > 0);
            assert(items.contains(x));
            let k = choose|k: int| 0 <= k < items.len() && items[k] == x;
            if out.contains(x) {
                let s = choose|s: int| 0 <= s < out.len() && out[s] == x;
                if s < p {
                    assert(out[s] == all[s]);
                    assert(all[s].value != all[p].value);
                }
                assert(s != p);
                assert(!before(order, out[s], out[p]));
            } else {
                assert(!before(order, items[k], out[p]));
            }
            lemma_before(order, x, out[p], x);
        }
    }
}

/// The best of the first names that a filter takes. Only so many of them are looked at.
pub fn get_label_names_top_k<F: FuzzyFilter>(
    postings: &Postings,
    filter: &F,
    order: SearchResultOrdering,
    limit: usize,
) -> (r: LabelQueryResult)
    requires
        postings.wf(),
    ensures
        ({
            let all = names_taken(postings.live_terms(), *filter);
            let most = if limit == 0 {
                SEARCH_RESULT_DEFAULT_LIMIT as nat
            } else {
                limit as nat
            };
            &&& found(r.results@) == best_of(
                order,
                at_most(all, SEARCH_RESULT_LIMIT_MAX as nat),
                most,
            )
            &&& r.has_more == (all.len() > r.results@.len())
        }),
{
    let most: usize = if limit == 0 {
        SEARCH_RESULT_DEFAULT_LIMIT
    } else {
        limit
    };
    let all = scan_label_names(postings, filter);
    let ghost names = found(all@);
    let n: usize = if all.len() > SEARCH_RESULT_LIMIT_MAX {
        SEARCH_RESULT_LIMIT_MAX
    } else {
        all.len()
    };
    let ghost items = names.take(n as int);
    proof {
        assert(items =~= at_most(names, SEARCH_RESULT_LIMIT_MAX as nat));
        assert(results_ascend(items)) by {
            assert forall|i: int, j: int| 0 <= i < j < items.len() implies text_before(
                (#[trigger] items[i]).value,
                (#[trigger] items[j]).value,
            ) by {
                assert(items[i] == names[i] && items[j] == names[j]);
            }
        }
    }
    let mut heap = empty_heap();
    let mut i: usize = 0;
    while i < n
        invariant
            i <= n <= all@.len(),
            n <= SEARCH_RESULT_LIMIT_MAX,
            most > 0,
            names == found(all@),
            items == names.take(n as int),
            holds_best(order, items, i as int, most as nat, ranks_of(heap)),
        decreases n - i,
    {
        let item = &all[i];
        let key: i128 = if let SearchResultOrdering::ValueDesc = order {
            -(i as i128)
        } else {
            rank_of(order, item.score, item.cardinality)
        };
        proof {
            assert(items[i as int] == item@);
            if order != SearchResultOrdering::ValueDesc {
                assert(key == rank(order, item@));
            }
        }
        offer(&mut heap, (key, i as u64), most, Ghost(order), Ghost(items));
        i += 1;
    }
    let ranks = heap_ranks(heap);
    proof {
        lemma_ranks(order, items, most as nat, ranks@, ranks_of(heap));
    }
    let mut results: Vec<LabelSearchResult> = Vec::new();
    let mut k: usize = 0;
    assert(found(results@) =~= Seq::<Found>::empty());
    while k < ranks.len()
        invariant
            k <= ranks@.len(),
            n <= all@.len(),
            n <= SEARCH_RESULT_LIMIT_MAX,
            names == found(all@),
            items == names.take(n as int),
            forall|i: int| 0 <= i < ranks@.len() ==> (#[trigger] ranks@[i]).1 < n,
            found(results@) == picked(items, ranks@.take(k as int)),
            results@.len() == k,
        decreases ranks.len() - k,
    {
        assert(ranks@[k as int].1 < n);
        let at: usize = ranks[k].1 as usize;
        let item = &all[at];
        let ghost was = results@;
        let copy = LabelSearchResult {
            value: item.value.as_str().to_owned(),
            score: item.score,
            cardinality: item.cardinality,
        };
        assert(copy@ == items[at as int]);
        results.push(copy);
        proof {
            assert(found(results@) =~= found(was).push(items[at as int]));
            assert(picked(items, ranks@.take(k + 1)) =~= picked(items, ranks@.take(k as int)).push(
                items[at as int],
            ));
        }
        k += 1;
    }
    assert(ranks@.take(k as int) =~= ranks@);
    let has_more: bool = all.len() > results.len();
    LabelQueryResult::new(results, has_more)
}

/// The results that ranks stand for.
spec fn picked(items: Seq<Found>, ranks: Seq<Rank>) -> Seq<Found> {
    ranks.map_values(|t: Rank| items[t.1 as int])
}

/// What the heap holds in the end stands for the best results, in order.
proof fn lemma_ranks(
    order: SearchResultOrdering,
    items: Seq<Found>,
    limit: nat,
    ranks: Seq<Rank>,
    m: Multiset<Rank>,
)
    requires
        results_ascend(items),
        items.len() <= u64::MAX,
        holds_best(order, items, items.len() as int, limit, m),
        ranks.to_multiset() == m,
        ranks_ascend(ranks),
    ensures
        picked(items, ranks) == best_of(order, items, limit),
        forall|i: int| 0 <= i < ranks.len() ==> (#[trigger] ranks[i]).1 < items.len(),
{
    broadcast use vstd::seq_lib::group_to_multiset_ensures;

    let out = picked(items, ranks);
    assert forall|i: int| 0 <= i < ranks.len() implies (#[trigger] ranks[i]).1 < items.len()
        && ranks[i] == rank_at(order, items, ranks[i].1 as int) by {
        assert(ranks.contains(ranks[i]));
        assert(m.count(ranks[i]) > 0);
    }
    assert(values_differ(items)) by {
        assert forall|i: int, j: int| 0 <= i < j < items.len() implies (#[trigger] items[i]).value
            != (#[trigger] items[j]).value by {
            assert(text_before(items[i].value, items[j].value));
            lemma_lex_irreflexive(utf8(items[i].value));
        }
    }
    assert forall|i: int, j: int| 0 <= i < j < ranks.len() implies (#[trigger] ranks[i]).1 != (
    #[trigger] ranks[j]).1 by {
        if ranks[i].1 == ranks[j].1 {
            assert(ranks[i] == rank_at(order, items, ranks[i].1 as int));
            assert(ranks[j] == rank_at(order, items, ranks[j].1 as int));
            assert(ranks[i] == ranks[j]);
            let rest = ranks.remove(i);
            assert(rest.to_multiset() =~= m.remove(ranks[i]));
            assert(rest[j - 1] == ranks[i]);
            assert(rest.contains(ranks[i]));
            assert(rest.to_multiset().count(ranks[i]) > 0);
            assert(ranks.contains(ranks[i]));
            assert(m.count(ranks[i]) == 1);
        }
    }
    assert forall|i: int, j: int| 0 <= i < j < out.len() implies (#[trigger] out[i]).value != (
    #[trigger] out[j]).value by {
        let (a, b) = (ranks[i].1 as int, ranks[j].1 as int);
        if a < b {
            assert(items[a].value != items[b].value);
        } else {
            assert(items[b].value != items[a].value);
        }
    }
    assert forall|i: int, j: int| 0 <= i < j < out.len() implies !before(
        order,
        #[trigger] out[j],
        #[trigger] out[i],
    ) by {
        assert(!rank_less(ranks[j], ranks[i]));
        lemma_rank_order(order, items, ranks[j].1 as int, ranks[i].1 as int);
    }
    assert forall|i: int| 0 <= i < out.len() implies items.contains(#[trigger] out[i]) by {
        assert(items[ranks[i].1 as int] == out[i]);
    }
    assert forall|k: int, i: int|
        0 <= k < items.len() && 0 <= i < out.len() && !out.contains(
            #[trigger] items[k],
        ) implies !before(order, items[k], #[trigger] out[i]) by {
        let r = rank_at(order, items, k);
        if m.count(r) > 0 {
            assert(ranks.contains(r));
            let s = choose|s: int| 0 <= s < ranks.len() && ranks[s] == r;
            assert(out[s] == items[k]);
        }
        assert(m.count(ranks[i]) > 0);
        assert(rank_less(ranks[i], r));
        assert(ranks[i].1 != k) by {
            if ranks[i].1 == k {
                assert(ranks[i] == r);
            }
        }
        lemma_rank_order(order, items, k, ranks[i].1 as int);
        lemma_rank_total(ranks[i], r, r);
    }
    lemma_best_unique(order, items, limit, out);
}

/// The names of labels, read off the index.
pub fn collect_unscoped_label_names<F: FuzzyFilter>(
    postings: &Postings,
    hints: &SearchHints,
    filter: &F,
) -> (r: LabelQueryResult)
    requires
        postings.wf(),
    ensures
        ({
            let all = names_taken(postings.live_terms(), *filter);
            &&& found(r.results@) == match hints.order_by {
                SearchResultOrdering::ValueAsc => at_most(all, hints.limit as nat),
                SearchResultOrdering::ValueDesc => at_most(all.reverse(), hints.limit as nat),
                _ => best_of(
                    hints.order_by,
                    at_most(all, SEARCH_RESULT_LIMIT_MAX as nat),
                    limit_of(hints.limit) as nat,
                ),
            }
            &&& r.has_more == (all.len() > found(r.results@).len())
        }),
{
    let limit: usize = normalize_limit(hints.limit);
    let ghost all = names_taken(postings.live_terms(), *filter);
    match hints.order_by {
        SearchResultOrdering::ValueAsc => {
            let r = get_label_names_asc(postings, filter, Some(hints.limit));
            assert(at_most(all, hints.limit as nat).len() <= hints.limit);
            r
        },
        SearchResultOrdering::ValueDesc => {
            let r = get_label_names_desc(postings, filter, Some(hints.limit));
            assert(all.reverse().len() == all.len());
            r
        },
        _ => get_label_names_top_k(postings, filter, hints.order_by, limit),
    }
}

} // verus!
