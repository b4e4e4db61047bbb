//! Chains of compactions must not run in circles.
use crate::error::TsdbError;
use crate::postings::stale::lemma_push_to_set;
use crate::postings::SeriesRef;
use std::hash::Hash;
use topo_sort::TopoSort;
use vstd::prelude::*;

verus! {

/// Which series feed which others: the destinations of each.
pub type Links = Map<u64, Set<u64>>;

/// `topo_sort::TopoSort`: nodes, each with the nodes that it depends on.
#[verifier::external_type_specification]
#[verifier::external_body]
#[verifier::reject_recursive_types(T)]
pub struct ExTopoSort<T: Eq + Hash>(TopoSort<T>);

/// What a graph holds: its nodes, each with the nodes that it points to.
pub uninterp spec fn links_of(g: TopoSort<u64>) -> Links;

/// A graph without nodes.
pub open spec fn no_links() -> Links {
    Map::empty()
}

/// Whether nodes can be ranked such that every node points to lower ones only: there is no way
/// round in a circle. A node that points to itself, and one that points to something that is no
/// node, do not count.
pub open spec fn is_ranking(m: Links, rank: spec_fn(u64) -> nat) -> bool {
    forall|a: u64, b: u64|
        #![trigger m[a].contains(b)]
        m.contains_key(a) && m.contains_key(b) && a != b && m[a].contains(b) ==> rank(a) > rank(b)
}

/// Whether no way through a graph runs in a circle.
pub open spec fn is_acyclic(m: Links) -> bool {
    exists|rank: spec_fn(u64) -> nat| is_ranking(m, rank)
}

/// A graph without nodes, by `TopoSort::with_capacity`.
#[verifier::external_body]
fn empty_graph() -> (g: TopoSort<u64>)
    ensures
        links_of(g) == no_links(),
{
    TopoSort::with_capacity(10)
}

/// `TopoSort::insert` sets the nodes that a node points to, in place of those that it pointed to
/// before.
#[verifier::external_body]
fn insert_node(g: &mut TopoSort<u64>, node: u64, to: Vec<u64>)
    ensures
        links_of(*final(g)) == links_of(*old(g)).insert(node, to@.to_set()),
{
    g.insert(node, to);
}

/// `TopoSort::cycle_detected` says whether the nodes, without what points to itself or to no
/// node, cannot be sorted.
#[verifier::external_body]
fn cycle_detected(g: &TopoSort<u64>) -> (r: bool)
    ensures
        r == !is_acyclic(links_of(*g)),
{
    g.cycle_detected()
}

/// The links of a list of series with their destinations. A series that comes twice has the
/// destinations that it has last.
pub open spec fn links_in(list: Seq<(SeriesRef, Vec<SeriesRef>)>) -> Links
    decreases list.len(),
{
    if list.len() == 0 {
        no_links()
    } else {
        links_in(list.drop_last()).insert(list.last().0, list.last().1@.to_set())
    }
}

/// The links with one more.
pub open spec fn with_link(m: Links, from: SeriesRef, to: SeriesRef) -> Links {
    m.insert(
        from,
        if m.contains_key(from) {
            m[from].insert(to)
        } else {
            set![to]
        },
    )
}

fn copy_ids(v: &Vec<SeriesRef>) -> (r: Vec<SeriesRef>)
    ensures
        r@ == v@,
{
    let mut out: Vec<SeriesRef> = Vec::new();
    let mut i: usize = 0;
    while i < v.len()
        invariant
            i <= v@.len(),
            out@ == v@.take(i as int),
        decreases v.len() - i,
    {
        out.push(v[i]);
        assert(out@ =~= v@.take(i + 1));
        i += 1;
    }
    assert(v@.take(i as int) =~= v@);
    out
}

/// The graph of the compactions that a series takes part in, unless they run in a circle.
pub fn build_dependency_graph(links: &Vec<(SeriesRef, Vec<SeriesRef>)>) -> (r: Result<
    TopoSort<u64>,
    TsdbError,
>)
    ensures
        match r {
            Ok(g) => links_of(g) == links_in(links@) && is_acyclic(links_in(links@)),
            Err(e) => e == TsdbError::CircularDependency && !is_acyclic(links_in(links@)),
        },
{
    let mut g = empty_graph();
    let mut i: usize = 0;
    assert(links@.take(0) =~= Seq::<(SeriesRef, Vec<SeriesRef>)>::empty());
    while i < links.len()
        invariant
            i <= links@.len(),
            links_of(g) == links_in(links@.take(i as int)),
        decreases links.len() - i,
    {
        assert(links@.take(i + 1).drop_last() =~= links@.take(i as int));
        let to = copy_ids(&links[i].1);
        insert_node(&mut g, links[i].0, to);
        i += 1;
    }
    assert(links@.take(i as int) =~= links@);
    if cycle_detected(&g) {
        Err(TsdbError::CircularDependency)
    } else {
        Ok(g)
    }
}

/// Whether the compactions that a series takes part in run in no circle.
pub fn check_circular_dependencies(links: &Vec<(SeriesRef, Vec<SeriesRef>)>) -> (r: Result<
    (),
    TsdbError,
>)
    ensures
        r is Ok <==> is_acyclic(links_in(links@)),
        r is Err ==> r->Err_0 == TsdbError::CircularDependency,
{
    match build_dependency_graph(links) {
        Ok(_) => Ok(()),
        Err(e) => Err(e),
    }
}

/// Whether a rule from one series to another can be added without making the compactions run in
/// a circle. `links` are those that the two series take part in.
pub fn check_new_rule_circular_dependency(
    links: &Vec<(SeriesRef, Vec<SeriesRef>)>,
    series: SeriesRef,
    dest: SeriesRef,
) -> (r: Result<(), TsdbError>)
    ensures
        r is Ok <==> series != dest && is_acyclic(with_link(links_in(links@), series, dest)),
        r is Err ==> r->Err_0 == TsdbError::CircularDependency,
{
    if series == dest {
        return Err(TsdbError::CircularDependency);
    }
    let mut g = match build_dependency_graph(links) {
        Ok(g) => g,
        Err(e) => {
            proof {
                lemma_link_keeps_circles(links_in(links@), series, dest);
            }
            return Err(e);
        },
    };
    let ghost m = links_in(links@);
    let mut to: Vec<SeriesRef> = Vec::new();
    let mut i: usize = links.len();
    let mut found: bool = false;
    assert(links@.take(i as int) =~= links@);
    while i > 0
        invariant
            i <= links@.len(),
            m == links_in(links@),
            found ==> m.contains_key(series) && to@.to_set() == m[series],
            !found ==> to@.len() == 0 && (m.contains_key(series) <==> links_in(
                links@.take(i as int),
            ).contains_key(series)) && (m.contains_key(series) ==> m[series] == links_in(
                links@.take(i as int),
            )[series]),
        decreases i,
    {
        assert(links@.take(i as int).drop_last() =~= links@.take(i - 1));
        if !found && links[i - 1].0 == series {
            to = copy_ids(&links[i - 1].1);
            found = true;
        }
        i -= 1;
    }
    let ghost before = to@;
    to.push(dest);
    proof {
        assert(links@.take(0) =~= Seq::<(SeriesRef, Vec<SeriesRef>)>::empty());
        assert forall|x: u64| #[trigger]
            to@.to_set().contains(x) == before.to_set().insert(dest).contains(x) by {
            lemma_push_to_set(before, dest, x);
        }
        assert(to@.to_set() =~= before.to_set().insert(dest));
        if !found {
            assert(before =~= Seq::<SeriesRef>::empty());
            assert(before.to_set() =~= Set::<u64>::empty());
            assert(to@.to_set() =~= set![dest]);
        }
    }
    insert_node(&mut g, series, to);
    assert(links_of(g) =~= with_link(m, series, dest));
    if cycle_detected(&g) {
        Err(TsdbError::CircularDependency)
    } else {
        Ok(())
    }
}

/// One more link breaks no circle.
proof fn lemma_link_keeps_circles(m: Links, from: SeriesRef, to: SeriesRef)
    ensures
        is_acyclic(with_link(m, from, to)) ==> is_acyclic(m),
{
    let n = with_link(m, from, to);
    if is_acyclic(n) {
        let rank = choose|rank: spec_fn(u64) -> nat| is_ranking(n, rank);
        assert forall|a: u64, b: u64|
            #![trigger m[a].contains(b)]
            m.contains_key(a) && m.contains_key(b) && a != b && m[a].contains(b) implies rank(a)
            > rank(b) by {
            assert(n[a].contains(b));
        }
        assert(is_ranking(m, rank));
    }
}

/// A walk along the compactions of some series: which series to ask next for its destinations, and
/// what the others said.
#[derive(Debug)]
pub struct LinkWalk {
    links: Vec<(SeriesRef, Vec<SeriesRef>)>,
    pending: Vec<SeriesRef>,
}

/// Every series of a set, and every destination of one that was asked, was asked itself or is still
/// to be asked.
pub open spec fn is_covered(start: Set<u64>, links: Links, waiting: Set<u64>) -> bool {
    &&& start.subset_of(links.dom().union(waiting))
    &&& forall|a: u64, b: u64|
        #![trigger links[a].contains(b)]
        links.contains_key(a) && links[a].contains(b) ==> links.contains_key(b) || waiting.contains(b)
}

fn has_ref(v: &Vec<SeriesRef>, id: SeriesRef) -> (r: bool)
    ensures
        r == v@.contains(id),
{
    let mut i: usize = 0;
    while i < v.len()
        invariant
            i <= v@.len(),
            forall|k: int| 0 <= k < i ==> v@[k] != id,
        decreases v.len() - i,
    {
        if v[i] == id {
            assert(v@[i as int] == id);
            return true;
        }
        i += 1;
    }
    false
}

proof fn lemma_links_dom(list: Seq<(SeriesRef, Vec<SeriesRef>)>, id: SeriesRef)
    ensures
        links_in(list).contains_key(id) <==> exists|k: int|
            0 <= k < list.len() && (#[trigger] list[k]).0 == id,
    decreases list.len(),
{
    if list.len() > 0 {
        let less = list.drop_last();
        lemma_links_dom(less, id);
        if exists|k: int| 0 <= k < list.len() && (#[trigger] list[k]).0 == id {
            let k = choose|k: int| 0 <= k < list.len() && (#[trigger] list[k]).0 == id;
            if k < less.len() {
                assert(less[k].0 == id);
            }
        }
        if links_in(list).contains_key(id) {
            if id == list.last().0 {
                assert(list[list.len() - 1].0 == id);
            } else {
                let k = choose|k: int| 0 <= k < less.len() && (#[trigger] less[k]).0 == id;
                assert(list[k].0 == id);
            }
        }
    }
}

impl LinkWalk {
    /// What the series that were asked said.
    pub closed spec fn links(&self) -> Links {
        links_in(self.links@)
    }

    /// The series that are still to be asked.
    pub closed spec fn waiting(&self) -> Set<u64> {
        self.pending@.to_set()
    }

    /// The series to ask next.
    pub closed spec fn upcoming(&self) -> Option<u64> {
        if self.pending@.len() == 0 {
            None
        } else {
            Some(self.pending@.last())
        }
    }

    /// No series is asked twice.
    pub closed spec fn wf(&self) -> bool {
        &&& self.waiting().disjoint(self.links().dom())
        &&& self.pending@.no_duplicates()
    }

    /// Nothing was asked and nothing is to be asked.
    pub fn new() -> (r: Self)
        ensures
            r.wf(),
            r.links() == no_links(),
            r.waiting() == Set::<u64>::empty(),
    {
        let r = LinkWalk { links: Vec::new(), pending: Vec::new() };
        assert(r.pending@.to_set() =~= Set::<u64>::empty());
        r
    }

    /// Notes a series that is to be asked, unless it was asked.
    pub fn visit(&mut self, id: SeriesRef)
        requires
            old(self).wf(),
        ensures
            final(self).wf(),
            final(self).links() == old(self).links(),
            final(self).waiting() == if old(self).links().contains_key(id) {
                old(self).waiting()
            } else {
                old(self).waiting().insert(id)
            },
    {
        let ghost waiting = self.waiting();
        let mut i: usize = 0;
        while i < self.links.len()
            invariant
                i <= self.links@.len(),
                *self == *old(self),
                old(self).wf(),
                forall|k: int| 0 <= k < i ==> (#[trigger] self.links@[k]).0 != id,
            decreases self.links.len() - i,
        {
            if self.links[i].0 == id {
                proof {
                    assert(self.links@[i as int].0 == id);
                    lemma_links_dom(self.links@, id);
                }
                return;
            }
            i += 1;
        }
        proof {
            lemma_links_dom(self.links@, id);
        }
        if has_ref(&self.pending, id) {
            assert(waiting =~= waiting.insert(id));
            return;
        }
        let ghost before = self.pending@;
        self.pending.push(id);
        proof {
            assert forall|x: u64| #[trigger]
                self.pending@.to_set().contains(x) == before.to_set().insert(id).contains(x) by {
                lemma_push_to_set(before, id, x);
            }
            assert(self.waiting() =~= waiting.insert(id));
        }
    }

    /// The series to ask next for its destinations, if one is left.
    pub fn next(&self) -> (r: Option<SeriesRef>)
        ensures
            r == self.upcoming(),
            match r {
                Some(id) => self.waiting().contains(id),
                None => self.waiting() == Set::<u64>::empty(),
            },
    {
        if self.pending.len() == 0 {
            assert(self.pending@.to_set() =~= Set::<u64>::empty());
            None
        } else {
            let id: SeriesRef = self.pending[self.pending.len() - 1];
            assert(self.pending@.contains(id));
            Some(id)
        }
    }

    /// Takes what the series that was to be asked next says: its destinations. Those that were not
    /// asked yet are to be asked.
    pub fn answer(&mut self, destinations: Vec<SeriesRef>)
        requires
            old(self).wf(),
        ensures
            final(self).wf(),
            match old(self).upcoming() {
                Some(id) => {
                    &&& final(self).links() == old(self).links().insert(
                        id,
                        destinations@.to_set(),
                    )
                    &&& final(self).waiting() == old(self).waiting().union(
                        destinations@.to_set(),
                    ).difference(final(self).links().dom())
                },
                None => *final(self) == *old(self),
            },
            forall|start: Set<u64>| #[trigger]
                is_covered(start, old(self).links(), old(self).waiting()) ==> is_covered(
                    start,
                    final(self).links(),
                    final(self).waiting(),
                ),
    {
        let ghost links0 = self.links();
        let ghost waiting0 = self.waiting();
        let ghost pending0 = self.pending@;
        if self.pending.len() == 0 {
            assert(self.pending@.to_set() =~= Set::<u64>::empty());
            return;
        }
        let id: SeriesRef = match self.pending.pop() {
            Some(id) => id,
            None => {
                return;
            },
        };
        let to = copy_ids(&destinations);
        let ghost list0 = self.links@;
        self.links.push((id, to));
        let ghost links1 = self.links();
        proof {
            assert(pending0[pending0.len() - 1] == id);
            assert(pending0.contains(id));
            assert(self.links@.drop_last() =~= list0);
            assert(links1 == links0.insert(id, destinations@.to_set()));
            assert(self.pending@ =~= pending0.drop_last());
            assert forall|x: u64| #[trigger]
                self.pending@.to_set().contains(x) == waiting0.remove(id).contains(x) by {
                if self.pending@.contains(x) {
                    let k = choose|k: int| 0 <= k < self.pending@.len() && self.pending@[k] == x;
                    assert(pending0[k] == x);
                    assert(pending0[k] != pending0[pending0.len() - 1]);
                }
                if waiting0.remove(id).contains(x) {
                    let k = choose|k: int| 0 <= k < pending0.len() && pending0[k] == x;
                    assert(self.pending@[k] == x);
                }
            }
            assert(self.waiting() =~= waiting0.remove(id));
        }
        let mut i: usize = 0;
        proof {
            assert(destinations@.take(0).to_set() =~= Set::<u64>::empty());
            assert(self.waiting() =~= waiting0.union(destinations@.take(0).to_set()).difference(
                links1.dom(),
            ));
        }
        while i < destinations.len()
            invariant
                i <= destinations@.len(),
                self.wf(),
                self.links() == links1,
                self.waiting() == waiting0.union(
                    destinations@.take(i as int).to_set(),
                ).difference(links1.dom()),
            decreases destinations.len() - i,
        {
            let ghost done = destinations@.take(i as int);
            let ghost before = self.waiting();
            self.visit(destinations[i]);
            proof {
                let d = destinations@[i as int];
                let more = destinations@.take(i + 1);
                assert(more =~= done.push(d));
                assert forall|x: u64| #[trigger]
                    self.waiting().contains(x) == waiting0.union(more.to_set()).difference(
                        links1.dom(),
                    ).contains(x) by {
                    lemma_push_to_set(done, d, x);
                }
                assert(self.waiting() =~= waiting0.union(more.to_set()).difference(links1.dom()));
            }
            i += 1;
        }
        proof {
            assert(destinations@.take(i as int) =~= destinations@);
            assert(waiting0.contains(id));
            assert forall|start: Set<u64>| #[trigger]
                is_covered(start, links0, waiting0) implies is_covered(
                start,
                self.links(),
                self.waiting(),
            ) by {
                assert forall|a: u64, b: u64|
                    #![trigger links1[a].contains(b)]
                    links1.contains_key(a) && links1[a].contains(b) implies links1.contains_key(b)
                    || self.waiting().contains(b) by {
                    if a != id {
                        assert(links0[a].contains(b));
                    }
                }
            }
        }
    }

    /// What the series that were asked said.
    pub fn gathered(&self) -> (r: &Vec<(SeriesRef, Vec<SeriesRef>)>)
        ensures
            links_in(r@) == self.links(),
    {
        &self.links
    }
}

/// Whether each series of a way is a destination of the one before it.
pub open spec fn is_way(links: Links, way: Seq<u64>) -> bool {
    forall|i: int| 0 <= i < way.len() - 1 ==> links.contains_key(way[i]) && links[way[i]].contains(
        #[trigger] way[i + 1],
    )
}

/// Once no series is left to be asked, every series that a way from the first ones leads to was
/// asked.
pub proof fn law_walk_is_complete(start: Set<u64>, links: Links, way: Seq<u64>, i: int)
    requires
        is_covered(start, links, Set::empty()),
        is_way(links, way),
        0 <= i < way.len(),
        start.contains(way[0]),
    ensures
        links.contains_key(way[i]),
    decreases i,
{
    if i > 0 {
        law_walk_is_complete(start, links, way, i - 1);
        assert(links[way[i - 1]].contains(way[i - 1 + 1]));
    } else {
        assert(links.dom().union(Set::empty()).contains(way[0]));
    }
}

} // verus!
