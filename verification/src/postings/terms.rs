//! Lookups in the term dictionary: from label values and prefixes to the ids under them.
//!
//! Every lookup hides the ids that are marked for removal.
use crate::bytes::{
    bytes_equal, bytes_less, lemma_lex_irreflexive, lemma_lex_total, lemma_lex_transitive,
    lex_less, starts_with, utf8, utf8_text,
};
use crate::labels::{list_has, matcher_accepts, Label, PredicateMatch};
use crate::postings::bitmap::{capped, cow_ids, cow_ref, ids_of, list_size};
use crate::postings::key::{
    is_sealed, is_term_key, key_name, key_value, prefix_for, split_key, term_key, term_prefix, value_prefix_for,
    IndexKey, SENTINEL,
};
use crate::postings::label_index::{is_entry, TermMap};
use crate::postings::mutation::label_key;
use crate::postings::stale::drained;
use crate::postings::{list_of, Postings, PostingsBitmap, SeriesRef};
use croaring::Bitmap64;
use std::borrow::Cow;
use vstd::prelude::*;

verus! {

/// The ids that carry a label with a value that satisfies a condition.
pub open spec fn with_value(
    terms: TermMap,
    name: Seq<u8>,
    p: spec_fn(Seq<u8>) -> bool,
) -> Set<u64> {
    Set::new(
        |id: u64|
            exists|v: Seq<u8>|
                p(v) && #[trigger] list_of(terms, term_key(name, v)).contains(id),
    )
}

/// The ids that carry a label, whatever its value.
pub open spec fn with_label(terms: TermMap, name: Seq<u8>) -> Set<u64> {
    with_value(terms, name, |v: Seq<u8>| true)
}

/// The value starts with a prefix, in the form in which keys are searched: closed by the final
/// NUL. For a prefix without NUL bytes that is to start with the prefix.
pub open spec fn value_has_prefix(v: Seq<u8>, prefix: Seq<u8>) -> bool {
    starts_with(v.push(SENTINEL), prefix)
}

/// For a prefix without NUL bytes, the closed form makes no difference.
pub proof fn lemma_value_has_prefix(v: Seq<u8>, prefix: Seq<u8>)
    requires
        crate::postings::key::nul_free(prefix),
    ensures
        value_has_prefix(v, prefix) == starts_with(v, prefix),
{
    let closed = v.push(SENTINEL);
    if value_has_prefix(v, prefix) {
        if prefix.len() > v.len() {
            assert(prefix[v.len() as int] == closed.subrange(0, prefix.len() as int)[v.len() as int]);
        } else {
            assert(v.subrange(0, prefix.len() as int) =~= closed.subrange(0, prefix.len() as int));
        }
    }
    if starts_with(v, prefix) {
        assert(v.subrange(0, prefix.len() as int) =~= closed.subrange(0, prefix.len() as int));
    }
}

/// The ids in the lists of all labels.
pub open spec fn in_all_lists(terms: TermMap, labels: Seq<Label>) -> Set<u64> {
    Set::new(
        |id: u64|
            forall|i: int|
                0 <= i < labels.len() ==> list_of(terms, label_key(#[trigger] labels[i])).contains(
                    id,
                ),
    )
}

/// The text has an encoding that is the name in some key with ids under it.
pub open spec fn is_name_in(terms: TermMap, name: Seq<u8>) -> bool {
    exists|k: Seq<u8>| #[trigger]
        terms.contains_key(k) && is_term_key(k) && key_name(k) == name && terms[k] != Set::<
            u64,
        >::empty()
}

/// A key that begins with a label's prefix is the key of a value of the label.
pub proof fn lemma_key_under_prefix(k: Seq<u8>, name: Seq<u8>)
    requires
        is_sealed(k),
        starts_with(k, term_prefix(name)),
    ensures
        k.len() >= name.len() + 2,
        k == term_key(name, k.subrange(name.len() as int + 1, k.len() - 1)),
{
    let prefix = term_prefix(name);
    assert(k.subrange(0, prefix.len() as int) == prefix);
    assert(prefix[name.len() as int] == crate::postings::key::SEPARATOR);
    assert(k[name.len() as int] == k.subrange(0, prefix.len() as int)[name.len() as int]);
    if k.len() == prefix.len() {
        assert(k.last() == SENTINEL);
    }
    let v = k.subrange(name.len() as int + 1, k.len() - 1);
    assert(k =~= term_key(name, v)) by {
        assert forall|i: int| 0 <= i < k.len() implies k[i] == term_key(name, v)[i] by {
            if i < prefix.len() {
                assert(k[i] == k.subrange(0, prefix.len() as int)[i]);
            }
        }
    }
}

/// The key of a value begins with the label's prefix, followed by any prefix of the value.
pub proof fn lemma_prefix_of_key(name: Seq<u8>, v: Seq<u8>, prefix: Seq<u8>)
    ensures
        starts_with(term_key(name, v), term_prefix(name)),
        term_key(name, v).subrange(name.len() as int + 1, term_key(name, v).len() - 1) == v,
        starts_with(term_key(name, v), term_prefix(name) + prefix) == value_has_prefix(v, prefix),
{
    let k = term_key(name, v);
    let p = term_prefix(name);
    assert(k.subrange(0, p.len() as int) =~= p);
    assert(k.subrange(name.len() as int + 1, k.len() - 1) =~= v);
    let closed = v.push(SENTINEL);
    assert(k =~= p + closed);
    if starts_with(k, p + prefix) {
        assert(closed.subrange(0, prefix.len() as int) =~= k.subrange(
            0,
            (p + prefix).len() as int,
        ).subrange(p.len() as int, (p + prefix).len() as int));
        assert((p + prefix).subrange(p.len() as int, (p + prefix).len() as int) =~= prefix);
    }
    if value_has_prefix(v, prefix) {
        assert(k.subrange(0, (p + prefix).len() as int) =~= p + closed.subrange(
            0,
            prefix.len() as int,
        ));
    }
}

impl Postings {
    /// The live ids under a key: borrowed where nothing is marked for removal.
    fn postings_for_key<'a>(&'a self, key: &[u8]) -> (r: Cow<'a, PostingsBitmap>)
        ensures
            cow_ids(r) == self.live_list(key@),
    {
        match self.label_index.get(key) {
            Some(list) => self.stale_ids.mask_cow(Cow::Borrowed(list)),
            None => {
                assert(self.live_list(key@) =~= Set::<u64>::empty());
                Cow::Owned(Bitmap64::new())
            },
        }
    }

    /// The live ids that carry a label with this value.
    pub fn postings_for_label_value<'a>(&'a self, name: &str, value: &str) -> (r: Cow<
        'a,
        PostingsBitmap,
    >)
        ensures
            cow_ids(r) == self.live_list(term_key(utf8(name@), utf8(value@))),
    {
        let key = IndexKey::for_label_value(name, value);
        self.postings_for_key(key.as_bytes())
    }

    /// The live ids that carry a label, whatever its value.
    pub fn postings_for_all_label_values(&self, label_name: &str) -> (r: PostingsBitmap)
        requires
            self.wf(),
        ensures
            ids_of(r) == with_label(self.terms(), utf8(label_name@)).difference(self.stale()),
    {
        let r = self.postings_for_label_matching(label_name, &PredicateMatch::MatchAll, true);
        proof {
            let name = utf8(label_name@);
            assert(with_value(
                self.terms(),
                name,
                |v: Seq<u8>| matcher_accepts(PredicateMatch::MatchAll, v) == true,
            ) =~= with_label(self.terms(), name));
        }
        r
    }

    /// The live ids that carry a label with one of these values.
    pub fn postings_for_label_values(&self, name: &str, values: &Vec<String>) -> (r: PostingsBitmap)
        ensures
            ids_of(r) == with_value(
                self.terms(),
                utf8(name@),
                |v: Seq<u8>| list_has(values@, v),
            ).difference(self.stale()),
    {
        let ghost n = utf8(name@);
        let mut result = Bitmap64::new();
        let mut i: usize = 0;
        proof {
            assert(with_value(
                self.terms(),
                n,
                |v: Seq<u8>| list_has(values@.subrange(0, 0), v),
            ) =~= Set::<u64>::empty());
        }
        while i < values.len()
            invariant
                i <= values.len(),
                n == utf8(name@),
                ids_of(result) == with_value(
                    self.terms(),
                    n,
                    |v: Seq<u8>| list_has(values@.subrange(0, i as int), v),
                ),
            decreases values.len() - i,
        {
            let key = IndexKey::for_label_value(name, values[i].as_str());
            let ghost before = ids_of(result);
            match self.label_index.get(key.as_bytes()) {
                Some(list) => {
                    result.or_inplace(list);
                },
                None => {},
            }
            proof {
                let done = values@.subrange(0, i as int);
                let more = values@.subrange(0, i + 1);
                let v0 = utf8(values@[i as int]@);
                assert(more =~= done.push(values@[i as int]));
                assert(ids_of(result) =~= before.union(list_of(self.terms(), key@)));
                let goal = with_value(self.terms(), n, |v: Seq<u8>| list_has(more, v));
                assert forall|id: u64| ids_of(result).contains(id) == goal.contains(id) by {
                    if before.contains(id) {
                        let v = choose|v: Seq<u8>|
                            list_has(done, v) && #[trigger] list_of(
                                self.terms(),
                                term_key(n, v),
                            ).contains(id);
                        let a = choose|a: int|
                            0 <= a < done.len() && utf8(#[trigger] done[a]@) == v;
                        assert(more[a] == done[a]);
                        assert(utf8(more[a]@) == v);
                        assert(list_has(more, v));
                    }
                    if list_of(self.terms(), key@).contains(id) {
                        assert(more[i as int] == values@[i as int]);
                        assert(utf8(more[i as int]@) == v0);
                        assert(list_has(more, v0));
                    }
                    if goal.contains(id) {
                        let v = choose|v: Seq<u8>|
                            list_has(more, v) && #[trigger] list_of(
                                self.terms(),
                                term_key(n, v),
                            ).contains(id);
                        let a = choose|a: int|
                            0 <= a < more.len() && utf8(#[trigger] more[a]@) == v;
                        if a < i {
                            assert(utf8(done[a]@) == v);
                            assert(list_has(done, v));
                        }
                    }
                }
                assert(ids_of(result) =~= goal);
            }
            i += 1;
        }
        assert(values@.subrange(0, i as int) =~= values@);
        self.stale_ids.mask(&mut result);
        result
    }

    /// The live ids that carry a label whose value a test accepts (with `wanted`) or rejects
    /// (without).
    pub fn postings_for_label_matching(
        &self,
        name: &str,
        matcher: &PredicateMatch,
        wanted: bool,
    ) -> (r: PostingsBitmap)
        requires
            self.wf(),
        ensures
            ids_of(r) == with_value(
                self.terms(),
                utf8(name@),
                |v: Seq<u8>| matcher_accepts(*matcher, v) == wanted,
            ).difference(self.stale()),
    {
        let r = self.union_matching(name, "", matcher, wanted);
        proof {
            reveal_strlit("");
            assert(utf8(""@) =~= Seq::<u8>::empty());
            let p = |v: Seq<u8>| matcher_accepts(*matcher, v) == wanted;
            let q = |v: Seq<u8>|
                value_has_prefix(v, utf8(""@)) && matcher_accepts(*matcher, v) == wanted;
            assert forall|v: Seq<u8>| #[trigger] p(v) == q(v) by {
                assert(v.push(SENTINEL).subrange(0, 0) =~= Seq::<u8>::empty());
            }
            lemma_with_value_same(self.terms(), utf8(name@), p, q);
        }
        r
    }

    /// The live ids that carry a label whose value starts with `prefix`.
    pub fn postings_by_prefix(&self, label: &str, prefix: &str) -> (r: PostingsBitmap)
        requires
            self.wf(),
        ensures
            ids_of(r) == with_value(
                self.terms(),
                utf8(label@),
                |v: Seq<u8>| value_has_prefix(v, utf8(prefix@)),
            ).difference(self.stale()),
    {
        let r = self.union_matching(label, prefix, &PredicateMatch::MatchAll, true);
        proof {
            let p = |v: Seq<u8>| value_has_prefix(v, utf8(prefix@));
            let q = |v: Seq<u8>|
                value_has_prefix(v, utf8(prefix@)) && matcher_accepts(PredicateMatch::MatchAll, v)
                    == true;
            lemma_with_value_same(self.terms(), utf8(label@), p, q);
        }
        r
    }

    /// The live ids that carry a label whose value starts with `prefix` and is accepted by a test.
    pub fn postings_by_prefix_and_predicate(
        &self,
        label: &str,
        prefix: &str,
        matcher: &PredicateMatch,
    ) -> (r: PostingsBitmap)
        requires
            self.wf(),
        ensures
            ids_of(r) == with_value(
                self.terms(),
                utf8(label@),
                |v: Seq<u8>| value_has_prefix(v, utf8(prefix@)) && matcher_accepts(*matcher, v),
            ).difference(self.stale()),
    {
        let r = self.union_matching(label, prefix, matcher, true);
        proof {
            let p = |v: Seq<u8>|
                value_has_prefix(v, utf8(prefix@)) && matcher_accepts(*matcher, v);
            let q = |v: Seq<u8>|
                value_has_prefix(v, utf8(prefix@)) && matcher_accepts(*matcher, v) == true;
            lemma_with_value_same(self.terms(), utf8(label@), p, q);
        }
        r
    }

    /// The live ids that carry a label whose value starts with `prefix` and is accepted or
    /// rejected by a test.
    fn union_matching(&self, name: &str, prefix: &str, matcher: &PredicateMatch, wanted: bool) -> (r:
        PostingsBitmap)
        requires
            self.wf(),
        ensures
            ids_of(r) == with_value(
                self.terms(),
                utf8(name@),
                |v: Seq<u8>|
                    value_has_prefix(v, utf8(prefix@)) && matcher_accepts(*matcher, v) == wanted,
            ).difference(self.stale()),
    {
        let ghost n = utf8(name@);
        let ghost p = utf8(prefix@);
        let search = value_prefix_for(name, prefix);
        let start_pos: usize = prefix_for(name).len();
        let entries = self.label_index.prefix(search.as_slice());
        let mut result = Bitmap64::new();
        let mut i: usize = 0;
        let ghost terms = self.terms();
        while i < entries.len()
            invariant
                i <= entries.len(),
                self.wf(),
                terms == self.terms(),
                n == utf8(name@),
                p == utf8(prefix@),
                start_pos == n.len() + 1,
                search@ == term_prefix(n) + p,
                forall|j: int|
                    0 <= j < entries@.len() ==> {
                        &&& starts_with((#[trigger] entries@[j]).0@, search@)
                        &&& is_entry(terms, entries@[j].0@, *entries@[j].1)
                    },
                forall|id: u64| #[trigger]
                    ids_of(result).contains(id) <==> exists|j: int|
                        0 <= j < i && selected_at(terms, n, (#[trigger] entries@[j]).0@, *matcher, wanted, id),
            decreases entries.len() - i,
        {
            let (k, list) = entries[i];
            proof {
                assert(is_entry(terms, entries@[i as int].0@, *entries@[i as int].1));
                assert(starts_with(entries@[i as int].0@, search@));
                assert(starts_with(k@, term_prefix(n))) by {
                    assert(k@.subrange(0, term_prefix(n).len() as int) =~= k@.subrange(
                        0,
                        search@.len() as int,
                    ).subrange(0, term_prefix(n).len() as int));
                    assert(search@.subrange(0, term_prefix(n).len() as int) =~= term_prefix(n));
                }
                lemma_key_under_prefix(k@, n);
            }
            let value = vstd::slice::slice_subrange(k.as_slice(), start_pos, k.len() - 1);
            let ghost before = ids_of(result);
            let hit: bool = matcher.matches(value) == wanted;
            if hit {
                result.or_inplace(list);
            }
            proof {
                assert forall|id: u64| #[trigger] ids_of(result).contains(id) <==> exists|j: int|
                    0 <= j < i + 1 && selected_at(
                        terms,
                        n,
                        (#[trigger] entries@[j]).0@,
                        *matcher,
                        wanted,
                        id,
                    ) by {
                    assert(selected_at(terms, n, entries@[i as int].0@, *matcher, wanted, id) == (hit
                        && ids_of(*list).contains(id)));
                    if before.contains(id) {
                        let j = choose|j: int|
                            0 <= j < i && selected_at(
                                terms,
                                n,
                                (#[trigger] entries@[j]).0@,
                                *matcher,
                                wanted,
                                id,
                            );
                        assert(selected_at(terms, n, entries@[j].0@, *matcher, wanted, id));
                    }
                }
            }
            i += 1;
        }
        proof {
            let cond = |v: Seq<u8>| value_has_prefix(v, p) && matcher_accepts(*matcher, v) == wanted;
            let goal = with_value(terms, n, cond);
            assert forall|id: u64| ids_of(result).contains(id) == goal.contains(id) by {
                if ids_of(result).contains(id) {
                    let j = choose|j: int|
                        0 <= j < i && selected_at(
                            terms,
                            n,
                            (#[trigger] entries@[j]).0@,
                            *matcher,
                            wanted,
                            id,
                        );
                    let k = entries@[j].0@;
                    assert(is_entry(terms, entries@[j].0@, *entries@[j].1));
                    let v = k.subrange(n.len() as int + 1, k.len() - 1);
                    assert(starts_with(k, term_prefix(n))) by {
                        assert(k.subrange(0, term_prefix(n).len() as int) =~= k.subrange(
                            0,
                            search@.len() as int,
                        ).subrange(0, term_prefix(n).len() as int));
                        assert(search@.subrange(0, term_prefix(n).len() as int) =~= term_prefix(n));
                    }
                    lemma_key_under_prefix(k, n);
                    lemma_prefix_of_key(n, v, p);
                    assert(cond(v));
                    assert(list_of(terms, term_key(n, v)).contains(id));
                }
                if goal.contains(id) {
                    let v = choose|v: Seq<u8>|
                        cond(v) && #[trigger] list_of(terms, term_key(n, v)).contains(id);
                    lemma_prefix_of_key(n, v, p);
                    let k = term_key(n, v);
                    assert(terms.contains_key(k) && starts_with(k, search@));
                    let j = choose|j: int| 0 <= j < entries@.len() && #[trigger] entries@[j].0@ == k;
                    assert(selected_at(terms, n, entries@[j].0@, *matcher, wanted, id));
                }
            }
            assert(ids_of(result) =~= goal);
        }
        self.stale_ids.mask(&mut result);
        result
    }

    /// The ids in the lists of all of some labels.
    fn common_ids(&self, labels: &Vec<Label>) -> (r: PostingsBitmap)
        requires
            labels@.len() > 0,
        ensures
            ids_of(r) == in_all_lists(self.terms(), labels@),
    {
        let ghost terms = self.terms();
        let first_key = IndexKey::for_label_value(
            labels[0].name.as_str(),
            labels[0].value.as_str(),
        );
        let mut acc = match self.label_index.get(first_key.as_bytes()) {
            Some(list) => list.clone(),
            None => {
                proof {
                    lemma_no_common(terms, labels@, 0);
                }
                return Bitmap64::new();
            },
        };
        let mut i: usize = 1;
        proof {
            let one = labels@.subrange(0, 1);
            assert(one[0] == labels@[0]);
            assert forall|id: u64| ids_of(acc).contains(id) == in_all_lists(terms, one).contains(
                id,
            ) by {
                if in_all_lists(terms, one).contains(id) {
                    assert(list_of(terms, label_key(one[0])).contains(id));
                }
            }
            assert(ids_of(acc) =~= in_all_lists(terms, one));
        }
        while i < labels.len()
            invariant
                1 <= i <= labels.len(),
                terms == self.terms(),
                ids_of(acc) == in_all_lists(terms, labels@.subrange(0, i as int)),
            decreases labels.len() - i,
        {
            let l = &labels[i];
            let key = IndexKey::for_label_value(l.name.as_str(), l.value.as_str());
            match self.label_index.get(key.as_bytes()) {
                Some(list) => {
                    acc.and_inplace(list);
                    proof {
                        let done = labels@.subrange(0, i as int);
                        let more = labels@.subrange(0, i + 1);
                        assert forall|id: u64| in_all_lists(terms, more).contains(id) == (
                        in_all_lists(terms, done).contains(id) && ids_of(*list).contains(id)) by {
                            if in_all_lists(terms, more).contains(id) {
                                assert(more[i as int] == labels@[i as int]);
                                assert forall|a: int| 0 <= a < done.len() implies list_of(
                                    terms,
                                    label_key(#[trigger] done[a]),
                                ).contains(id) by {
                                    assert(more[a] == done[a]);
                                }
                            }
                            if in_all_lists(terms, done).contains(id) && ids_of(*list).contains(
                                id,
                            ) {
                                assert forall|a: int| 0 <= a < more.len() implies list_of(
                                    terms,
                                    label_key(#[trigger] more[a]),
                                ).contains(id) by {
                                    if a < i {
                                        assert(more[a] == done[a]);
                                    }
                                }
                            }
                        }
                        assert(ids_of(acc) =~= in_all_lists(terms, more));
                    }
                    if acc.is_empty() {
                        proof {
                            lemma_fewer_common(terms, labels@, i + 1);
                        }
                        return acc;
                    }
                },
                None => {
                    proof {
                        lemma_no_common(terms, labels@, i as int);
                    }
                    return Bitmap64::new();
                },
            }
            i += 1;
        }
        assert(labels@.subrange(0, i as int) =~= labels@);
        acc
    }

    /// The live ids that carry all the labels. Without labels there are none.
    pub fn postings_by_labels(&self, labels: &Vec<Label>) -> (r: PostingsBitmap)
        ensures
            ids_of(r) == if labels@.len() == 0 {
                Set::<u64>::empty()
            } else {
                in_all_lists(self.terms(), labels@).difference(self.stale())
            },
    {
        if labels.len() == 0 {
            return Bitmap64::new();
        }
        let mut acc = self.common_ids(labels);
        self.stale_ids.mask(&mut acc);
        acc
    }

    /// The one live id that carries all the labels, if exactly one does.
    pub fn posting_id_by_labels(&self, labels: &Vec<Label>) -> (r: Option<SeriesRef>)
        ensures
            r matches Some(id) ==> labels@.len() > 0 && in_all_lists(
                self.terms(),
                labels@,
            ).difference(self.stale()) == set![id],
            r is None ==> labels@.len() == 0 || forall|id: u64|
                in_all_lists(self.terms(), labels@).difference(self.stale()) != set![id],
    {
        if labels.len() == 0 {
            return None;
        }
        let mut acc = self.postings_by_labels(labels);
        let ghost left = ids_of(acc);
        match acc.minimum() {
            Some(id) => {
                acc.remove(id);
                if acc.is_empty() {
                    assert(left =~= set![id]) by {
                        assert forall|x: u64| left.contains(x) implies x == id by {
                            if x != id {
                                assert(left.remove(id).contains(x));
                            }
                        }
                    }
                    Some(id)
                } else {
                    proof {
                        assert forall|x: u64| left != set![x] by {
                            if left == set![x] {
                                assert(x == id);
                                assert(left.remove(id) =~= Set::<u64>::empty());
                            }
                        }
                    }
                    None
                }
            },
            None => {
                proof {
                    assert forall|x: u64| left != set![x] by {
                        assert(set![x].contains(x));
                    }
                }
                None
            },
        }
    }

    /// The live ids that do not carry a label: borrowed where no live id carries it.
    pub fn postings_without_label<'a>(&'a self, label: &str) -> (r: Cow<'a, PostingsBitmap>)
        requires
            self.wf(),
        ensures
            cow_ids(r) == self.all().difference(with_label(self.terms(), utf8(label@))),
    {
        let to_remove = self.postings_for_all_label_values(label);
        proof {
            // No live id is marked for removal, so hiding marked ids makes no difference.
            assert(self.all().difference(ids_of(to_remove)) =~= self.all().difference(
                with_label(self.terms(), utf8(label@)),
            ));
        }
        if to_remove.is_empty() {
            assert(self.all() =~= self.all().difference(ids_of(to_remove)));
            Cow::Borrowed(&self.all_postings)
        } else {
            Cow::Owned(self.all_postings.andnot(&to_remove))
        }
    }

    /// The dictionary without the ids that are marked for removal, and without the keys that
    /// have no others under them: what reads see of it.
    pub open spec fn live_terms(&self) -> TermMap {
        drained(self.terms(), self.stale(), None, None)
    }

    /// The keys that begin with `prefix` and have live ids under them, in order, each with the
    /// number of these ids.
    pub(crate) fn live_entries<'a>(&'a self, prefix: &[u8]) -> (r: Vec<(&'a Vec<u8>, u64)>)
        ensures
            forall|i: int|
                0 <= i < r@.len() ==> {
                    &&& starts_with((#[trigger] r@[i]).0@, prefix@)
                    &&& is_counted(self.live_terms(), r@[i])
                },
            forall|k: Seq<u8>| #[trigger]
                self.live_terms().contains_key(k) && starts_with(k, prefix@) ==> exists|i: int|
                    0 <= i < r@.len() && #[trigger] r@[i].0@ == k,
            forall|i: int, j: int|
                0 <= i < j < r@.len() ==> lex_less((#[trigger] r@[i]).0@, (#[trigger] r@[j]).0@),
    {
        let ghost live = self.live_terms();
        let entries = self.label_index.prefix(prefix);
        let mut out: Vec<(&'a Vec<u8>, u64)> = Vec::new();
        let mut i: usize = 0;
        while i < entries.len()
            invariant
                i <= entries@.len(),
                live == self.live_terms(),
                forall|j: int|
                    0 <= j < entries@.len() ==> {
                        &&& starts_with((#[trigger] entries@[j]).0@, prefix@)
                        &&& is_entry(self.terms(), entries@[j].0@, *entries@[j].1)
                    },
                forall|a: int, b: int|
                    0 <= a < b < entries@.len() ==> lex_less(
                        (#[trigger] entries@[a]).0@,
                        (#[trigger] entries@[b]).0@,
                    ),
                forall|a: int|
                    0 <= a < out@.len() ==> {
                        &&& is_counted(live, #[trigger] out@[a])
                        &&& exists|j: int|
                            0 <= j < i && (#[trigger] entries@[j]).0@ == out@[a].0@
                    },
                forall|a: int, b: int|
                    0 <= a < b < out@.len() ==> lex_less(
                        (#[trigger] out@[a]).0@,
                        (#[trigger] out@[b]).0@,
                    ),
                forall|j: int|
                    0 <= j < i && live.contains_key((#[trigger] entries@[j]).0@) ==> exists|a: int|
                        0 <= a < out@.len() && (#[trigger] out@[a]).0@ == entries@[j].0@,
            decreases entries.len() - i,
        {
            let (k, list) = entries[i];
            assert(is_entry(self.terms(), entries@[i as int].0@, *entries@[i as int].1));
            let shown = self.stale_ids.mask_cow(Cow::Borrowed(list));
            let ghost before = out@;
            let shown_list = cow_ref(&shown);
            if !shown_list.is_empty() {
                out.push((k, list_size(shown_list)));
            }
            proof {
                assert forall|a: int| 0 <= a < out@.len() implies is_counted(
                    live,
                    #[trigger] out@[a],
                ) && exists|j: int| 0 <= j < i + 1 && (#[trigger] entries@[j]).0@ == out@[a].0@ by {
                    if a < before.len() {
                        assert(before[a] == out@[a]);
                        let j = choose|j: int|
                            0 <= j < i && (#[trigger] entries@[j]).0@ == before[a].0@;
                        assert(0 <= j < i + 1);
                    } else {
                        assert(entries@[i as int].0@ == out@[a].0@);
                    }
                }
                assert forall|a: int, b: int| 0 <= a < b < out@.len() implies lex_less(
                    (#[trigger] out@[a]).0@,
                    (#[trigger] out@[b]).0@,
                ) by {
                    assert(before[a] == out@[a]);
                    if b < before.len() {
                        assert(before[b] == out@[b]);
                    } else {
                        let j = choose|j: int|
                            0 <= j < i && (#[trigger] entries@[j]).0@ == before[a].0@;
                        assert(lex_less(entries@[j].0@, entries@[i as int].0@));
                    }
                }
                assert forall|j: int|
                    0 <= j < i + 1 && live.contains_key(
                        (#[trigger] entries@[j]).0@,
                    ) implies exists|a: int|
                    0 <= a < out@.len() && (#[trigger] out@[a]).0@ == entries@[j].0@ by {
                    if j < i {
                        let a = choose|a: int|
                            0 <= a < before.len() && (#[trigger] before[a]).0@ == entries@[j].0@;
                        assert(out@[a] == before[a]);
                    } else {
                        assert(out@[before.len() as int].0@ == entries@[j].0@);
                    }
                }
            }
            i += 1;
        }
        proof {
            assert forall|a: int| 0 <= a < out@.len() implies starts_with(
                (#[trigger] out@[a]).0@,
                prefix@,
            ) by {
                let j = choose|j: int|
                    0 <= j < i && (#[trigger] entries@[j]).0@ == out@[a].0@;
                assert(starts_with(entries@[j].0@, prefix@));
            }
            assert forall|k: Seq<u8>| #[trigger]
                live.contains_key(k) && starts_with(k, prefix@) implies exists|a: int|
                0 <= a < out@.len() && #[trigger] out@[a].0@ == k by {
                assert(self.terms().contains_key(k));
                let j = choose|j: int| 0 <= j < entries@.len() && #[trigger] entries@[j].0@ == k;
                assert(live.contains_key(entries@[j].0@));
            }
        }
        out
    }

    /// The names of the labels that have live ids under them, in order.
    pub fn get_label_names(&self) -> (r: Vec<String>)
        requires
            self.wf(),
        ensures
            forall|i: int, j: int|
                0 <= i < j < r@.len() ==> lex_less(
                    utf8((#[trigger] r@[i])@),
                    utf8((#[trigger] r@[j])@),
                ),
            forall|i: int| 0 <= i < r@.len() ==> is_name_in(self.live_terms(), utf8((#[trigger] r@[i])@)),
            forall|name: Seq<u8>| #[trigger]
                is_name_in(self.live_terms(), name) && vstd::utf8::valid_utf8(name) ==> exists|i: int|
                    0 <= i < r@.len() && utf8((#[trigger] r@[i])@) == name,
    {
        let ghost terms = self.live_terms();
        let none: Vec<u8> = Vec::new();
        let entries = self.live_entries(none.as_slice());
        let mut names: Vec<String> = Vec::new();
        let mut i: usize = 0;
        while i < entries.len()
            invariant
                i <= entries.len(),
                self.wf(),
                terms == self.live_terms(),
                forall|j: int|
                    0 <= j < entries@.len() ==> is_counted(terms, #[trigger] entries@[j]),
                texts_increase(names@),
                forall|a: int|
                    0 <= a < names@.len() ==> is_name_in(terms, utf8((#[trigger] names@[a])@)),
                forall|j: int|
                    0 <= j < i && is_term_key((#[trigger] entries@[j]).0@) && terms[entries@[j].0@]
                        != Set::<u64>::empty() && vstd::utf8::valid_utf8(key_name(entries@[j].0@)) ==> has_text(
                        names@,
                        key_name(entries@[j].0@),
                    ),
            decreases entries.len() - i,
        {
            let k = entries[i].0;
            assert(is_counted(terms, entries@[i as int]));
            match split_key(k.as_slice()) {
                Some((name, _)) => {
                    match utf8_text(name) {
                        Some(text) => {
                            let ghost before = names@;
                            insert_text(&mut names, text);
                            proof {
                                assert(is_name_in(terms, utf8(text@)));
                                assert forall|a: int| 0 <= a < names@.len() implies is_name_in(
                                    terms,
                                    utf8((#[trigger] names@[a])@),
                                ) by {
                                    assert(has_text(names@, utf8(names@[a]@)));
                                    if utf8(names@[a]@) != utf8(text@) {
                                        assert(has_text(before, utf8(names@[a]@)));
                                    }
                                }
                            }
                        },
                        None => {},
                    }
                },
                None => {},
            }
            i += 1;
        }
        proof {
            assert forall|name: Seq<u8>| #[trigger]
                is_name_in(terms, name) && vstd::utf8::valid_utf8(name) implies exists|a: int|
                0 <= a < names@.len() && utf8((#[trigger] names@[a])@) == name by {
                let k = choose|k: Seq<u8>| #[trigger]
                    terms.contains_key(k) && is_term_key(k) && key_name(k) == name && terms[k]
                        != Set::<u64>::empty();
                assert(k.subrange(0, 0) =~= none@);
                let j = choose|j: int| 0 <= j < entries@.len() && #[trigger] entries@[j].0@ == k;
                assert(has_text(names@, key_name(entries@[j].0@)));
            }
        }
        names
    }

    /// The non-empty values of a label that have live ids under them, in the order of their keys.
    pub fn get_label_values(&self, label_name: &str) -> (r: Vec<String>)
        requires
            self.wf(),
        ensures
            forall|i: int|
                0 <= i < r@.len() ==> is_value_in(
                    self.live_terms(),
                    utf8(label_name@),
                    utf8((#[trigger] r@[i])@),
                ),
            forall|value: Seq<u8>| #[trigger]
                is_value_in(self.live_terms(), utf8(label_name@), value) && vstd::utf8::valid_utf8(value)
                    ==> has_text(r@, value),
            !utf8(label_name@).contains(crate::postings::key::SEPARATOR) ==> texts_increase(r@),
    {
        let ghost terms = self.live_terms();
        let ghost n = utf8(label_name@);
        let prefix = prefix_for(label_name);
        let entries = self.live_entries(prefix.as_slice());
        let mut values: Vec<String> = Vec::new();
        let mut i: usize = 0;
        while i < entries.len()
            invariant
                i <= entries.len(),
                self.wf(),
                terms == self.live_terms(),
                n == utf8(label_name@),
                prefix@ == term_prefix(n),
                forall|j: int|
                    0 <= j < entries@.len() ==> {
                        &&& starts_with((#[trigger] entries@[j]).0@, prefix@)
                        &&& is_counted(terms, entries@[j])
                    },
                forall|a: int, b: int|
                    0 <= a < b < entries@.len() ==> lex_less(
                        (#[trigger] entries@[a]).0@,
                        (#[trigger] entries@[b]).0@,
                    ),
                forall|a: int|
                    0 <= a < values@.len() ==> is_value_in(terms, n, utf8((#[trigger] values@[a])@)),
                forall|a: int|
                    0 <= a < values@.len() ==> came_from(
                        entries@,
                        i as int,
                        utf8((#[trigger] values@[a])@),
                    ),
                !n.contains(crate::postings::key::SEPARATOR) ==> texts_increase(values@),
                forall|j: int|
                    0 <= j < i && is_term_key((#[trigger] entries@[j]).0@) && terms[entries@[j].0@]
                        != Set::<u64>::empty() && key_value(entries@[j].0@).len() > 0 && vstd::utf8::valid_utf8(
                        key_value(entries@[j].0@),
                    ) ==> has_text(values@, key_value(entries@[j].0@)),
            decreases entries.len() - i,
        {
            let k = entries[i].0;
            assert(is_counted(terms, entries@[i as int]));
            let ghost before = values@;
            proof {
                assert forall|a: int| 0 <= a < before.len() implies came_from(
                    entries@,
                    i + 1,
                    utf8((#[trigger] before[a])@),
                ) by {
                    assert(came_from(entries@, i as int, utf8(before[a]@)));
                }
            }
            match split_key(k.as_slice()) {
                Some((_, value)) => {
                    match utf8_text(value) {
                        Some(text) => {
                            if !text.is_empty() {
                                proof {
                                    crate::bytes::lemma_utf8_empty(text@);
                                    assert(is_value_in(terms, n, utf8(text@)));
                                    assert(came_from(entries@, i + 1, utf8(text@))) by {
                                        assert(key_value(entries@[i as int].0@) == utf8(text@));
                                    }
                                    if !n.contains(crate::postings::key::SEPARATOR) {
                                        assert forall|a: int|
                                            0 <= a < before.len() implies lex_less(
                                            utf8((#[trigger] before[a])@),
                                            utf8(text@),
                                        ) by {
                                            assert(came_from(
                                                entries@,
                                                i as int,
                                                utf8(before[a]@),
                                            ));
                                            let j = choose|j: int|
                                                0 <= j < i && key_value(
                                                    (#[trigger] entries@[j]).0@,
                                                ) == utf8(before[a]@);
                                            lemma_value_order(
                                                n,
                                                entries@[j].0@,
                                                entries@[i as int].0@,
                                            );
                                        }
                                    }
                                }
                                values.push(text.to_owned());
                                proof {
                                    lemma_push_text(before, values@, utf8(text@));
                                }
                            } else {
                                proof {
                                    crate::bytes::lemma_utf8_empty(text@);
                                }
                            }
                        },
                        None => {},
                    }
                },
                None => {},
            }
            i += 1;
        }
        proof {
            assert forall|value: Seq<u8>| #[trigger]
                is_value_in(terms, n, value) && vstd::utf8::valid_utf8(value) implies has_text(
                values@,
                value,
            ) by {
                let k = choose|k: Seq<u8>| #[trigger]
                    terms.contains_key(k) && is_term_key(k) && starts_with(k, term_prefix(n))
                        && key_value(k) == value && terms[k] != Set::<u64>::empty();
                let j = choose|j: int| 0 <= j < entries@.len() && #[trigger] entries@[j].0@ == k;
                assert(has_text(values@, key_value(entries@[j].0@)));
            }
        }
        values
    }
}

/// A key with ids under it, and their number.
pub open spec fn is_counted(terms: TermMap, e: (&Vec<u8>, u64)) -> bool {
    &&& terms.contains_key(e.0@)
    &&& terms[e.0@] != Set::<u64>::empty()
    &&& e.1 == capped(terms[e.0@].len())
}

/// A non-empty value of a label with ids under it.
pub open spec fn is_value_in(terms: TermMap, name: Seq<u8>, value: Seq<u8>) -> bool {
    value.len() > 0 && exists|k: Seq<u8>| #[trigger]
        terms.contains_key(k) && is_term_key(k) && starts_with(k, term_prefix(name)) && key_value(k)
            == value && terms[k] != Set::<u64>::empty()
}

/// A list of texts holds one with this encoding.
pub open spec fn has_text(texts: Seq<String>, encoded: Seq<u8>) -> bool {
    exists|i: int| 0 <= i < texts.len() && utf8((#[trigger] texts[i])@) == encoded
}

/// The texts are in strictly increasing order of their encodings.
pub open spec fn texts_increase(texts: Seq<String>) -> bool {
    forall|i: int, j: int|
        0 <= i < j < texts.len() ==> lex_less(
            utf8((#[trigger] texts[i])@),
            utf8((#[trigger] texts[j])@),
        )
}

/// A value stands in the key of one of the first `i` entries.
spec fn came_from(entries: Seq<(&Vec<u8>, u64)>, i: int, value: Seq<u8>) -> bool {
    exists|j: int| 0 <= j < i && key_value((#[trigger] entries[j]).0@) == value
}

/// An entry is among those that a scan selects.
spec fn selected_at(
    terms: TermMap,
    name: Seq<u8>,
    k: Seq<u8>,
    matcher: PredicateMatch,
    wanted: bool,
    id: u64,
) -> bool {
    matcher_accepts(matcher, k.subrange(name.len() as int + 1, k.len() - 1)) == wanted
        && terms[k].contains(id)
}

/// Two conditions that agree select the same ids.
pub proof fn lemma_with_value_same(
    terms: TermMap,
    name: Seq<u8>,
    p: spec_fn(Seq<u8>) -> bool,
    q: spec_fn(Seq<u8>) -> bool,
)
    requires
        forall|v: Seq<u8>| #[trigger] p(v) == q(v),
    ensures
        with_value(terms, name, p) == with_value(terms, name, q),
{
    assert forall|id: u64| with_value(terms, name, p).contains(id) == with_value(
        terms,
        name,
        q,
    ).contains(id) by {
        if with_value(terms, name, p).contains(id) {
            let v = choose|v: Seq<u8>|
                p(v) && #[trigger] list_of(terms, term_key(name, v)).contains(id);
            assert(q(v) && list_of(terms, term_key(name, v)).contains(id));
        }
        if with_value(terms, name, q).contains(id) {
            let v = choose|v: Seq<u8>|
                q(v) && #[trigger] list_of(terms, term_key(name, v)).contains(id);
            assert(p(v) && list_of(terms, term_key(name, v)).contains(id));
        }
    }
    assert(with_value(terms, name, p) =~= with_value(terms, name, q));
}

proof fn lemma_no_common(terms: TermMap, labels: Seq<Label>, i: int)
    requires
        0 <= i < labels.len(),
        !terms.contains_key(label_key(labels[i])),
    ensures
        in_all_lists(terms, labels) == Set::<u64>::empty(),
{
    assert forall|id: u64| !in_all_lists(terms, labels).contains(id) by {
        assert(!list_of(terms, label_key(labels[i])).contains(id));
    }
    assert(in_all_lists(terms, labels) =~= Set::<u64>::empty());
}

proof fn lemma_fewer_common(terms: TermMap, labels: Seq<Label>, n: int)
    requires
        0 <= n <= labels.len(),
        in_all_lists(terms, labels.subrange(0, n)) == Set::<u64>::empty(),
    ensures
        in_all_lists(terms, labels) == Set::<u64>::empty(),
{
    let some = labels.subrange(0, n);
    assert forall|id: u64| !in_all_lists(terms, labels).contains(id) by {
        if in_all_lists(terms, labels).contains(id) {
            assert forall|a: int| 0 <= a < some.len() implies list_of(
                terms,
                label_key(#[trigger] some[a]),
            ).contains(id) by {
                assert(some[a] == labels[a]);
            }
            assert(in_all_lists(terms, some).contains(id));
        }
    }
    assert(in_all_lists(terms, labels) =~= Set::<u64>::empty());
}

/// Keys of one label are ordered as their values are.
pub proof fn lemma_value_order(name: Seq<u8>, a: Seq<u8>, b: Seq<u8>)
    requires
        !name.contains(crate::postings::key::SEPARATOR),
        is_sealed(a),
        is_sealed(b),
        starts_with(a, term_prefix(name)),
        starts_with(b, term_prefix(name)),
        lex_less(a, b),
    ensures
        lex_less(key_value(a), key_value(b)),
{
    let p = term_prefix(name);
    lemma_key_under_prefix(a, name);
    lemma_key_under_prefix(b, name);
    let va = a.subrange(name.len() as int + 1, a.len() - 1);
    let vb = b.subrange(name.len() as int + 1, b.len() - 1);
    assert forall|i: int| 0 <= i < name.len() implies a[i] != crate::postings::key::SEPARATOR && b[i]
        != crate::postings::key::SEPARATOR by {
        assert(name.contains(name[i]));
        assert(a[i] == name[i] && b[i] == name[i]);
    }
    crate::postings::key::lemma_separator_is(a, name.len() as int);
    crate::postings::key::lemma_separator_is(b, name.len() as int);
    assert(key_value(a) == va && key_value(b) == vb);
    // The common prefix decides nothing.
    lemma_lex_skip(a, b, p.len() as int);
    assert(a.subrange(p.len() as int, a.len() as int) =~= va.push(SENTINEL));
    assert(b.subrange(p.len() as int, b.len() as int) =~= vb.push(SENTINEL));
    assert forall|i: int| 0 <= i < va.len() implies va[i] != SENTINEL by {
        assert(va[i] == a.drop_last()[i + name.len() + 1]);
    }
    assert forall|i: int| 0 <= i < vb.len() implies vb[i] != SENTINEL by {
        assert(vb[i] == b.drop_last()[i + name.len() + 1]);
    }
    lemma_lex_closed(va, vb);
}

proof fn lemma_lex_skip(a: Seq<u8>, b: Seq<u8>, n: int)
    requires
        0 <= n <= a.len(),
        n <= b.len(),
        a.subrange(0, n) == b.subrange(0, n),
    ensures
        lex_less(a, b) == lex_less(
            a.subrange(n, a.len() as int),
            b.subrange(n, b.len() as int),
        ),
    decreases n,
{
    if n == 0 {
        assert(a.subrange(0, a.len() as int) =~= a);
        assert(b.subrange(0, b.len() as int) =~= b);
    } else {
        assert(a[0] == a.subrange(0, n)[0] && b[0] == b.subrange(0, n)[0]);
        let a1 = a.drop_first();
        let b1 = b.drop_first();
        assert(a1.subrange(0, n - 1) =~= a.subrange(0, n).drop_first());
        assert(b1.subrange(0, n - 1) =~= b.subrange(0, n).drop_first());
        lemma_lex_skip(a1, b1, n - 1);
        assert(a1.subrange(n - 1, a1.len() as int) =~= a.subrange(n, a.len() as int));
        assert(b1.subrange(n - 1, b1.len() as int) =~= b.subrange(n, b.len() as int));
    }
}

proof fn lemma_lex_closed(a: Seq<u8>, b: Seq<u8>)
    requires
        lex_less(a.push(SENTINEL), b.push(SENTINEL)),
        crate::postings::key::nul_free(a),
        crate::postings::key::nul_free(b),
    ensures
        lex_less(a, b),
    decreases a.len(),
{
    let a1 = a.push(SENTINEL);
    let b1 = b.push(SENTINEL);
    if a.len() == 0 {
        if b.len() == 0 {
            assert(a1 =~= b1);
            lemma_lex_irreflexive(a1);
        }
    } else if b.len() == 0 {
        assert(a1[0] == a[0] && b1[0] == SENTINEL);
        assert(a[0] != SENTINEL);
    } else {
        assert(a1[0] == a[0] && b1[0] == b[0]);
        if a[0] == b[0] {
            assert(a1.drop_first() =~= a.drop_first().push(SENTINEL));
            assert(b1.drop_first() =~= b.drop_first().push(SENTINEL));
            assert forall|i: int| 0 <= i < a.drop_first().len() implies a.drop_first()[i]
                != SENTINEL by {
                assert(a.drop_first()[i] == a[i + 1]);
            }
            assert forall|i: int| 0 <= i < b.drop_first().len() implies b.drop_first()[i]
                != SENTINEL by {
                assert(b.drop_first()[i] == b[i + 1]);
            }
            lemma_lex_closed(a.drop_first(), b.drop_first());
        }
    }
}

proof fn lemma_push_text(before: Seq<String>, after: Seq<String>, encoded: Seq<u8>)
    requires
        after.len() == before.len() + 1,
        forall|i: int| 0 <= i < before.len() ==> after[i] == before[i],
        utf8(after.last()@) == encoded,
    ensures
        has_text(after, encoded),
        forall|e: Seq<u8>| #[trigger] has_text(before, e) ==> has_text(after, e),
{
    assert(utf8(after[before.len() as int]@) == encoded);
    assert forall|e: Seq<u8>| #[trigger] has_text(before, e) implies has_text(after, e) by {
        let i = choose|i: int| 0 <= i < before.len() && utf8((#[trigger] before[i])@) == e;
        assert(utf8(after[i]@) == e);
    }
}

/// Puts a text in its place in an ordered list, unless the list already holds it.
pub(crate) fn insert_text(texts: &mut Vec<String>, text: &str)
    requires
        texts_increase(old(texts)@),
    ensures
        texts_increase(final(texts)@),
        forall|e: Seq<u8>| #[trigger]
            has_text(final(texts)@, e) <==> has_text(old(texts)@, e) || e == utf8(text@),
{
    let ghost before = texts@;
    let ghost e0 = utf8(text@);
    let mut at: usize = 0;
    while at < texts.len() && bytes_less(texts[at].as_str().as_bytes(), text.as_bytes())
        invariant
            at <= texts.len(),
            texts@ == before,
            e0 == utf8(text@),
            forall|i: int| 0 <= i < at ==> lex_less(utf8((#[trigger] before[i])@), e0),
        decreases texts.len() - at,
    {
        at += 1;
    }
    if at < texts.len() && bytes_equal(texts[at].as_str().as_bytes(), text.as_bytes()) {
        assert(utf8(before[at as int]@) == e0);
        return;
    }
    texts.insert(at, text.to_owned());
    proof {
        let after = texts@;
        assert forall|i: int| at <= i < before.len() implies lex_less(
            e0,
            utf8((#[trigger] before[i])@),
        ) by {
            lemma_lex_total(e0, utf8(before[at as int]@));
            if i > at {
                assert(lex_less(utf8(before[at as int]@), utf8(before[i]@)));
                lemma_lex_transitive(e0, utf8(before[at as int]@), utf8(before[i]@));
            }
        }
        assert forall|i: int, j: int| 0 <= i < j < after.len() implies lex_less(
            utf8((#[trigger] after[i])@),
            utf8((#[trigger] after[j])@),
        ) by {
            if j < at {
                assert(after[i] == before[i] && after[j] == before[j]);
            } else if j == at {
                assert(after[i] == before[i]);
            } else if i < at {
                assert(after[i] == before[i] && after[j] == before[j - 1]);
            } else if i == at {
                assert(after[j] == before[j - 1]);
            } else {
                assert(after[i] == before[i - 1] && after[j] == before[j - 1]);
            }
        }
        assert forall|e: Seq<u8>| #[trigger] has_text(after, e) <==> has_text(before, e) || e
            == e0 by {
            if has_text(after, e) {
                let i = choose|i: int| 0 <= i < after.len() && utf8((#[trigger] after[i])@) == e;
                if i < at {
                    assert(utf8(before[i]@) == e);
                } else if i > at {
                    assert(utf8(before[i - 1]@) == e);
                }
            }
            if has_text(before, e) {
                let i = choose|i: int| 0 <= i < before.len() && utf8((#[trigger] before[i])@) == e;
                if i < at {
                    assert(utf8(after[i]@) == e);
                } else {
                    assert(utf8(after[i + 1]@) == e);
                }
            }
            if e == e0 {
                assert(utf8(after[at as int]@) == e);
            }
        }
    }
}

} // verus!
