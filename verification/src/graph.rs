use vstd::prelude::*;
use std::collections::HashMap;
use std::collections::HashSet;

use crate::wrappers::Node;

verus! {

broadcast use vstd::std_specs::hash::group_hash_axioms;

/// The ids of a sequence of nodes, in the same order.
pub open spec fn ids(s: Seq<Node>) -> Seq<u64> {
    s.map_values(|n: Node| n.id_of())
}

/// A finite set of node ids, kept with a list of its members.
pub struct IdSet {
    members: HashSet<u64>,
    order: Vec<u64>,
}

impl IdSet {
    /// The members of the set.
    pub closed spec fn view(self) -> Set<u64> {
        self.members@
    }

    /// Well-formedness: the list holds each member exactly once.
    pub closed spec fn wf(self) -> bool {
        &&& self.order@.to_set() == self.members@
        &&& self.order@.no_duplicates()
    }

    /// A well-formed set is finite.
    pub proof fn lemma_finite(self)
        requires
            self.wf(),
        ensures
            self.view().finite(),
    {
    }

    /// The empty set.
    pub fn new() -> (s: IdSet)
        ensures
            s.wf(),
            s.view() == Set::<u64>::empty(),
    {
        let s = IdSet { members: HashSet::new(), order: Vec::new() };
        assert(s.order@.to_set() =~= Set::<u64>::empty());
        s
    }

    /// Adds `id` to the set.
    pub fn insert(&mut self, id: u64)
        requires
            old(self).wf(),
        ensures
            final(self).wf(),
            final(self).view() == old(self).view().insert(id),
    {
        if !self.members.contains(&id) {
            let ghost before = self.order@;
            self.members.insert(id);
            self.order.push(id);
            proof {
                before.lemma_push_to_set_commute(id);
                assert(self.order@.no_duplicates()) by {
                    assert forall|i: int, j: int|
                        0 <= i < self.order@.len() && 0 <= j < self.order@.len() && i != j
                            implies self.order@[i] != self.order@[j] by {
                        if i == before.len() as int {
                            assert(before.to_set().contains(before[j]));
                        } else if j == before.len() as int {
                            assert(before.to_set().contains(before[i]));
                        }
                    }
                }
            }
        } else {
            assert(self.members@.insert(id) =~= self.members@);
        }
    }

    /// Whether `id` is a member.
    pub fn contains(&self, id: u64) -> (b: bool)
        requires
            self.wf(),
        ensures
            b == self.view().contains(id),
    {
        self.members.contains(&id)
    }

    /// The number of members.
    pub fn len(&self) -> (n: usize)
        requires
            self.wf(),
        ensures
            n == self.view().len(),
            self.view().finite(),
    {
        proof {
            self.order@.unique_seq_to_set();
        }
        self.members.len()
    }

    /// The number of ids that belong to both sets.
    pub fn shared_count(&self, other: &IdSet) -> (n: usize)
        requires
            self.wf(),
            other.wf(),
        ensures
            n == self.view().intersect(other.view()).len(),
    {
        let mut count: usize = 0;
        let mut i: usize = 0;
        let len = self.order.len();
        let ghost seen = Set::<u64>::empty();
        assert(self.order@.take(0).to_set() =~= Set::<u64>::empty());
        while i < len
            invariant
                len == self.order@.len(),
                i <= len,
                self.wf(),
                other.wf(),
                seen == self.order@.take(i as int).to_set().intersect(other.view()),
                seen.finite(),
                count == seen.len(),
                count <= i,
            decreases len - i,
        {
            let x = self.order[i];
            proof {
                assert(self.order@.take(i + 1) =~= self.order@.take(i as int).push(x));
                self.order@.take(i as int).lemma_push_to_set_commute(x);
                assert(!self.order@.take(i as int).to_set().contains(x)) by {
                    if self.order@.take(i as int).to_set().contains(x) {
                        let k = choose|k: int| 0 <= k < i && self.order@.take(i as int)[k] == x;
                        assert(self.order@[k] == self.order@[i as int]);
                    }
                }
            }
            if other.contains(x) {
                proof {
                    assert(seen.insert(x) =~= self.order@.take(i + 1).to_set().intersect(
                        other.view(),
                    ));
                    seen = seen.insert(x);
                }
                count = count + 1;
            } else {
                proof {
                    assert(seen =~= self.order@.take(i + 1).to_set().intersect(other.view()));
                }
            }
            i = i + 1;
        }
        assert(self.order@.take(len as int) =~= self.order@);
        count
    }

    /// The number of ids that belong to either set.
    pub fn union_count(&self, other: &IdSet) -> (n: usize)
        requires
            self.wf(),
            other.wf(),
        ensures
            n == self.view().union(other.view()).len(),
    {
        let mut all = IdSet::new();
        let mut i: usize = 0;
        assert(self.order@.take(0).to_set() =~= Set::<u64>::empty());
        while i < self.order.len()
            invariant
                i <= self.order@.len(),
                all.wf(),
                all.view() == self.order@.take(i as int).to_set(),
            decreases self.order@.len() - i,
        {
            let x = self.order[i];
            assert(self.order@.take(i + 1) =~= self.order@.take(i as int).push(x));
            proof {
                self.order@.take(i as int).lemma_push_to_set_commute(x);
            }
            all.insert(x);
            i = i + 1;
        }
        assert(self.order@.take(i as int) =~= self.order@);
        let mut j: usize = 0;
        assert(other.order@.take(0).to_set() =~= Set::<u64>::empty());
        while j < other.order.len()
            invariant
                j <= other.order@.len(),
                all.wf(),
                self.wf(),
                other.wf(),
                all.view() == self.view().union(other.order@.take(j as int).to_set()),
            decreases other.order@.len() - j,
        {
            let x = other.order[j];
            assert(other.order@.take(j + 1) =~= other.order@.take(j as int).push(x));
            proof {
                other.order@.take(j as int).lemma_push_to_set_commute(x);
            }
            all.insert(x);
            assert(all.view() =~= self.view().union(other.order@.take(j + 1).to_set()));
            j = j + 1;
        }
        assert(other.order@.take(j as int) =~= other.order@);
        all.len()
    }
}

/// How alike two nodes are, as the whole numbers that the similarity
/// measure is made of.
#[derive(Debug, Clone, Copy, PartialEq, Eq, Structural)]
pub enum Similarity {
    /// The first node is a first-order neighbour of the second.
    Adjacent,
    /// Sizes of the intersection and union of the two first-order neighbour
    /// sets, and of the two second-order neighbour sets.
    Overlap {
        first_shared: usize,
        first_total: usize,
        second_shared: usize,
        second_total: usize,
    },
}

/// For each node, the list of nodes it points to, in the order the edges
/// were added, repeats included.
pub struct NeighborList {
    lists: HashMap<u64, Vec<Node>>,
}

impl NeighborList {
    /// The nodes that the node with id `u` points to.
    pub closed spec fn neighbors_of(self, u: u64) -> Seq<Node> {
        if self.lists@.contains_key(u) {
            self.lists@[u]@
        } else {
            Seq::<Node>::empty()
        }
    }

    /// The ids of the nodes that `u` points to: its first-order neighbours.
    pub open spec fn first_order(self, u: u64) -> Set<u64> {
        ids(self.neighbors_of(u)).to_set()
    }

    /// The ids that a first-order neighbour of `u` points to: its
    /// second-order neighbours.
    pub open spec fn second_order(self, u: u64) -> Set<u64> {
        Set::new(
            |x: u64|
                exists|n: u64| #[trigger]
                    self.first_order(u).contains(n) && self.first_order(n).contains(x),
        )
    }

    /// The similarity of `u` to `v`: `Adjacent` when `u` is a first-order
    /// neighbour of `v`, else the overlap of their neighbourhoods.
    pub open spec fn spec_similarity(self, u: u64, v: u64) -> Similarity {
        if self.first_order(v).contains(u) {
            Similarity::Adjacent
        } else {
            Similarity::Overlap {
                first_shared: self.first_order(u).intersect(self.first_order(v)).len() as usize,
                first_total: self.first_order(u).union(self.first_order(v)).len() as usize,
                second_shared: self.second_order(u).intersect(self.second_order(v)).len() as usize,
                second_total: self.second_order(u).union(self.second_order(v)).len() as usize,
            }
        }
    }

    /// The list with no edges.
    pub fn new() -> (g: NeighborList)
        ensures
            forall|u: u64| #[trigger] g.neighbors_of(u) == Seq::<Node>::empty(),
    {
        NeighborList { lists: HashMap::new() }
    }

    /// Records the edge from `u` to `v`: `v` is appended to the list of `u`.
    pub fn add_neighbor(&mut self, u: Node, v: Node)
        ensures
            final(self).neighbors_of(u.id_of()) == old(self).neighbors_of(u.id_of()).push(v),
            forall|w: u64|
                w != u.id_of() ==> #[trigger] final(self).neighbors_of(w) == old(
                    self,
                ).neighbors_of(w),
    {
        let key = u.get_id();
        let mut list = match self.lists.remove(&key) {
            Some(l) => l,
            None => Vec::new(),
        };
        list.push(v);
        self.lists.insert(key, list);
    }

    /// A copy of the list of nodes that `node` points to (empty if none).
    pub fn get_node_neighbors(&self, node: &Node) -> (r: Vec<Node>)
        ensures
            r@ == self.neighbors_of(node.id_of()),
    {
        match self.lists.get(&node.get_id()) {
            Some(l) => {
                let mut out: Vec<Node> = Vec::new();
                let mut i: usize = 0;
                while i < l.len()
                    invariant
                        i <= l@.len(),
                        out@ == l@.take(i as int),
                    decreases l@.len() - i,
                {
                    out.push(l[i]);
                    assert(out@ =~= l@.take(i + 1));
                    i = i + 1;
                }
                assert(out@ =~= l@);
                out
            },
            None => Vec::new(),
        }
    }

    /// Adds the ids of `list` to `acc`.
    fn insert_ids(list: &Vec<Node>, acc: &mut IdSet)
        requires
            old(acc).wf(),
        ensures
            final(acc).wf(),
            final(acc).view() == old(acc).view().union(ids(list@).to_set()),
    {
        let mut i: usize = 0;
        assert(ids(list@.take(0)).to_set() =~= Set::<u64>::empty());
        assert(acc.view() =~= old(acc).view().union(Set::<u64>::empty()));
        while i < list.len()
            invariant
                i <= list@.len(),
                acc.wf(),
                acc.view() == old(acc).view().union(ids(list@.take(i as int)).to_set()),
            decreases list@.len() - i,
        {
            let n = list[i];
            let id = n.get_id();
            proof {
                assert(ids(list@.take(i + 1)) =~= ids(list@.take(i as int)).push(id));
                ids(list@.take(i as int)).lemma_push_to_set_commute(id);
            }
            acc.insert(id);
            assert(acc.view() =~= old(acc).view().union(ids(list@.take(i + 1)).to_set()));
            i = i + 1;
        }
        assert(list@.take(i as int) =~= list@);
    }

    /// The first-order neighbours of `w`.
    pub fn first_order_neighbors(&self, w: &Node) -> (s: IdSet)
        ensures
            s.wf(),
            s.view() == self.first_order(w.id_of()),
    {
        let mut s = IdSet::new();
        match self.lists.get(&w.get_id()) {
            Some(l) => {
                Self::insert_ids(l, &mut s);
                assert(s.view() =~= self.first_order(w.id_of()));
            },
            None => {
                assert(ids(Seq::<Node>::empty()).to_set() =~= Set::<u64>::empty());
            },
        }
        s
    }

    /// The second-order neighbours of `w`.
    pub fn second_order_neighbors(&self, w: &Node) -> (s: IdSet)
        ensures
            s.wf(),
            s.view() == self.second_order(w.id_of()),
    {
        let mut s = IdSet::new();
        let firsts = self.get_node_neighbors(w);
        let ghost fo = ids(firsts@);
        let mut i: usize = 0;
        while i < firsts.len()
            invariant
                i <= firsts@.len(),
                fo == ids(firsts@),
                firsts@ == self.neighbors_of(w.id_of()),
                s.wf(),
                forall|x: u64|
                    s.view().contains(x) <==> exists|j: int|
                        0 <= j < i && #[trigger] self.first_order(fo[j]).contains(x),
            decreases firsts@.len() - i,
        {
            let n = firsts[i];
            let ghost before = s.view();
            match self.lists.get(&n.get_id()) {
                Some(l) => {
                    Self::insert_ids(l, &mut s);
                },
                None => {
                    assert(ids(Seq::<Node>::empty()).to_set() =~= Set::<u64>::empty());
                    assert(before.union(Set::<u64>::empty()) =~= before);
                },
            }
            assert(s.view() == before.union(self.first_order(fo[i as int])));
            assert forall|x: u64|
                s.view().contains(x) <==> exists|j: int|
                    0 <= j < i + 1 && #[trigger] self.first_order(fo[j]).contains(x) by {
                if s.view().contains(x) && !before.contains(x) {
                    assert(self.first_order(fo[i as int]).contains(x));
                }
            }
            i = i + 1;
        }
        assert forall|x: u64| s.view().contains(x) <==> self.second_order(w.id_of()).contains(x) by {
            if s.view().contains(x) {
                let j = choose|j: int| 0 <= j < i && #[trigger] self.first_order(fo[j]).contains(x);
                assert(ids(firsts@).to_set().contains(fo[j]));
            }
            if self.second_order(w.id_of()).contains(x) {
                let n = choose|n: u64|
                    #[trigger] self.first_order(w.id_of()).contains(n) && self.first_order(
                        n,
                    ).contains(x);
                let j = choose|j: int| 0 <= j < fo.len() && fo[j] == n;
                assert(self.first_order(fo[j]).contains(x));
            }
        }
        assert(s.view() =~= self.second_order(w.id_of()));
        s
    }

    /// The similarity of `u` to `v`, in whole numbers; no shared count
    /// exceeds its total.
    pub fn similarity_counts(&self, u: &Node, v: &Node) -> (s: Similarity)
        ensures
            s == self.spec_similarity(u.id_of(), v.id_of()),
            s matches Similarity::Overlap { first_shared, first_total, second_shared, second_total }
                ==> first_shared <= first_total && second_shared <= second_total,
    {
        let v_fon = self.first_order_neighbors(v);
        if v_fon.contains(u.get_id()) {
            return Similarity::Adjacent;
        }
        let v_son = self.second_order_neighbors(v);
        let u_fon = self.first_order_neighbors(u);
        let u_son = self.second_order_neighbors(u);
        let first_shared = u_fon.shared_count(&v_fon);
        let first_total = u_fon.union_count(&v_fon);
        let second_shared = u_son.shared_count(&v_son);
        let second_total = u_son.union_count(&v_son);
        proof {
            u_fon.lemma_finite();
            v_fon.lemma_finite();
            u_son.lemma_finite();
            v_son.lemma_finite();
            lemma_intersect_within_union(u_fon.view(), v_fon.view());
            lemma_intersect_within_union(u_son.view(), v_son.view());
        }
        Similarity::Overlap { first_shared, first_total, second_shared, second_total }
    }
}

impl IdSet {
    /// The members, as nodes, each once.
    pub fn to_nodes(&self) -> (r: Vec<Node>)
        requires
            self.wf(),
        ensures
            r@.no_duplicates(),
            ids(r@).to_set() == self.view(),
            r@.len() == self.view().len(),
    {
        let mut r: Vec<Node> = Vec::new();
        let mut i: usize = 0;
        while i < self.order.len()
            invariant
                i <= self.order@.len(),
                self.wf(),
                ids(r@) == self.order@.take(i as int),
            decreases self.order@.len() - i,
        {
            let n = Node::new(self.order[i]);
            assert(ids(r@.push(n)) =~= ids(r@).push(n.id_of()));
            r.push(n);
            assert(self.order@.take(i + 1) =~= self.order@.take(i as int).push(self.order@[i as int]));
            i = i + 1;
        }
        assert(self.order@.take(i as int) =~= self.order@);
        proof {
            assert forall|a: int, b: int| 0 <= a < r@.len() && 0 <= b < r@.len() && a != b implies r@[a]
                != r@[b] by {
                assert(ids(r@)[a] == r@[a].id_of());
                assert(ids(r@)[b] == r@[b].id_of());
            }
            self.order@.unique_seq_to_set();
        }
        r
    }
}

/// A directed graph given by its edges: every endpoint is a node, and each
/// node keeps the list of the nodes it points to.
pub struct SocialGraph {
    neighbors: NeighborList,
    nodes: IdSet,
}

impl SocialGraph {
    /// The neighbour lists of the graph.
    pub closed spec fn adjacency(self) -> NeighborList {
        self.neighbors
    }

    /// The ids of the nodes of the graph.
    pub closed spec fn node_ids(self) -> Set<u64> {
        self.nodes.view()
    }

    /// Well-formedness of the node set.
    pub closed spec fn wf(self) -> bool {
        self.nodes.wf()
    }

    /// The graph with no nodes.
    pub fn new() -> (g: SocialGraph)
        ensures
            g.wf(),
            g.node_ids() == Set::<u64>::empty(),
            forall|u: u64| #[trigger] g.adjacency().neighbors_of(u) == Seq::<Node>::empty(),
    {
        SocialGraph { neighbors: NeighborList::new(), nodes: IdSet::new() }
    }

    /// Adds the edge from `u` to `v`: both become nodes, and `v` is appended
    /// to the list of `u`.
    pub fn add_edge(&mut self, u: Node, v: Node)
        requires
            old(self).wf(),
        ensures
            final(self).wf(),
            final(self).node_ids() == old(self).node_ids().insert(u.id_of()).insert(v.id_of()),
            final(self).adjacency().neighbors_of(u.id_of()) == old(
                self,
            ).adjacency().neighbors_of(u.id_of()).push(v),
            forall|w: u64|
                w != u.id_of() ==> #[trigger] final(self).adjacency().neighbors_of(w) == old(
                    self,
                ).adjacency().neighbors_of(w),
    {
        self.nodes.insert(u.get_id());
        self.nodes.insert(v.get_id());
        self.neighbors.add_neighbor(u, v);
    }

    /// The nodes of the graph, each once.
    pub fn node_list(&self) -> (r: Vec<Node>)
        requires
            self.wf(),
        ensures
            r@.no_duplicates(),
            ids(r@).to_set() == self.node_ids(),
    {
        self.nodes.to_nodes()
    }

    /// The list of nodes that `node` points to (empty if none).
    pub fn get_node_neighbors(&self, node: &Node) -> (r: Vec<Node>)
        ensures
            r@ == self.adjacency().neighbors_of(node.id_of()),
    {
        self.neighbors.get_node_neighbors(node)
    }

    /// The similarity of `u` to `v`; see [`NeighborList::similarity_counts`].
    pub fn similarity_counts(&self, u: &Node, v: &Node) -> (s: Similarity)
        ensures
            s == self.adjacency().spec_similarity(u.id_of(), v.id_of()),
            s matches Similarity::Overlap { first_shared, first_total, second_shared, second_total }
                ==> first_shared <= first_total && second_shared <= second_total,
    {
        self.neighbors.similarity_counts(u, v)
    }
}

/// The ids that the node with id `u` points to, read off its list.
proof fn lemma_first_order_members(g: NeighborList, u: u64)
    ensures
        forall|x: u64|
            g.first_order(u).contains(x) <==> exists|i: int|
                0 <= i < g.neighbors_of(u).len() && #[trigger] g.neighbors_of(u)[i].id_of() == x,
{
    assert forall|x: u64|
        g.first_order(u).contains(x) <==> exists|i: int|
            0 <= i < g.neighbors_of(u).len() && #[trigger] g.neighbors_of(u)[i].id_of() == x by {
        if g.first_order(u).contains(x) {
            let i = choose|i: int| 0 <= i < ids(g.neighbors_of(u)).len() && ids(g.neighbors_of(u))[i] == x;
            assert(g.neighbors_of(u)[i].id_of() == x);
        }
        if exists|i: int| 0 <= i < g.neighbors_of(u).len() && #[trigger] g.neighbors_of(u)[i].id_of() == x {
            let i = choose|i: int| 0 <= i < g.neighbors_of(u).len() && #[trigger] g.neighbors_of(u)[i].id_of() == x;
            assert(ids(g.neighbors_of(u))[i] == x);
            assert(ids(g.neighbors_of(u)).contains(x));
        }
    }
}

/// Law: what the similarity of `u` to `v` is made of, read off the
/// neighbour lists. It is `Adjacent` exactly when `u` is on the list of `v`.
/// Otherwise its first counts are the sizes of the intersection and union of
/// the ids on the lists of `u` and of `v`, and its second counts those of the
/// ids on the lists of the nodes on those lists.
pub proof fn lemma_similarity_from_lists(g: NeighborList, u: u64, v: u64)
    ensures
        (g.spec_similarity(u, v) == Similarity::Adjacent) == (exists|i: int|
            0 <= i < g.neighbors_of(v).len() && #[trigger] g.neighbors_of(v)[i].id_of() == u),
        !(exists|i: int|
            0 <= i < g.neighbors_of(v).len() && #[trigger] g.neighbors_of(v)[i].id_of() == u) ==> {
            let fu = Set::new(
                |x: u64|
                    exists|i: int|
                        0 <= i < g.neighbors_of(u).len() && #[trigger] g.neighbors_of(u)[i].id_of()
                            == x,
            );
            let fv = Set::new(
                |x: u64|
                    exists|i: int|
                        0 <= i < g.neighbors_of(v).len() && #[trigger] g.neighbors_of(v)[i].id_of()
                            == x,
            );
            let su = Set::new(
                |x: u64|
                    exists|i: int, j: int|
                        0 <= i < g.neighbors_of(u).len() && 0 <= j < g.neighbors_of(
                            g.neighbors_of(u)[i].id_of(),
                        ).len() && #[trigger] g.neighbors_of(
                            #[trigger] g.neighbors_of(u)[i].id_of(),
                        )[j].id_of() == x,
            );
            let sv = Set::new(
                |x: u64|
                    exists|i: int, j: int|
                        0 <= i < g.neighbors_of(v).len() && 0 <= j < g.neighbors_of(
                            g.neighbors_of(v)[i].id_of(),
                        ).len() && #[trigger] g.neighbors_of(
                            #[trigger] g.neighbors_of(v)[i].id_of(),
                        )[j].id_of() == x,
            );
            g.spec_similarity(u, v) == Similarity::Overlap {
                first_shared: fu.intersect(fv).len() as usize,
                first_total: fu.union(fv).len() as usize,
                second_shared: su.intersect(sv).len() as usize,
                second_total: su.union(sv).len() as usize,
            }
        },
{
    lemma_first_order_members(g, u);
    lemma_first_order_members(g, v);
    if !(exists|i: int|
        0 <= i < g.neighbors_of(v).len() && #[trigger] g.neighbors_of(v)[i].id_of() == u) {
        let fu = Set::new(
            |x: u64|
                exists|i: int|
                    0 <= i < g.neighbors_of(u).len() && #[trigger] g.neighbors_of(u)[i].id_of() == x,
        );
        let fv = Set::new(
            |x: u64|
                exists|i: int|
                    0 <= i < g.neighbors_of(v).len() && #[trigger] g.neighbors_of(v)[i].id_of() == x,
        );
        assert(fu =~= g.first_order(u));
        assert(fv =~= g.first_order(v));
        lemma_second_order_members(g, u);
        lemma_second_order_members(g, v);
    }
}

/// The second-order neighbours of `w`, read off the lists.
proof fn lemma_second_order_members(g: NeighborList, w: u64)
    ensures
        Set::new(
            |x: u64|
                exists|i: int, j: int|
                    0 <= i < g.neighbors_of(w).len() && 0 <= j < g.neighbors_of(
                        g.neighbors_of(w)[i].id_of(),
                    ).len() && #[trigger] g.neighbors_of(
                        #[trigger] g.neighbors_of(w)[i].id_of(),
                    )[j].id_of() == x,
        ) == g.second_order(w),
{
    let sw = Set::new(
        |x: u64|
            exists|i: int, j: int|
                0 <= i < g.neighbors_of(w).len() && 0 <= j < g.neighbors_of(
                    g.neighbors_of(w)[i].id_of(),
                ).len() && #[trigger] g.neighbors_of(#[trigger] g.neighbors_of(w)[i].id_of())[j].id_of()
                    == x,
    );
    lemma_first_order_members(g, w);
    assert forall|x: u64| sw.contains(x) <==> g.second_order(w).contains(x) by {
        if sw.contains(x) {
            let (i, j) = choose|i: int, j: int|
                0 <= i < g.neighbors_of(w).len() && 0 <= j < g.neighbors_of(
                    g.neighbors_of(w)[i].id_of(),
                ).len() && #[trigger] g.neighbors_of(#[trigger] g.neighbors_of(w)[i].id_of())[j].id_of()
                    == x;
            let n = g.neighbors_of(w)[i].id_of();
            lemma_first_order_members(g, n);
            assert(g.first_order(w).contains(n));
            assert(g.first_order(n).contains(x));
        }
        if g.second_order(w).contains(x) {
            let n = choose|n: u64| #[trigger]
                g.first_order(w).contains(n) && g.first_order(n).contains(x);
            let i = choose|i: int|
                0 <= i < g.neighbors_of(w).len() && #[trigger] g.neighbors_of(w)[i].id_of() == n;
            lemma_first_order_members(g, n);
            let j = choose|j: int|
                0 <= j < g.neighbors_of(n).len() && #[trigger] g.neighbors_of(n)[j].id_of() == x;
            assert(g.neighbors_of(g.neighbors_of(w)[i].id_of())[j].id_of() == x);
        }
    }
    assert(sw =~= g.second_order(w));
}

/// An intersection is no larger than the union of the same two finite sets.
proof fn lemma_intersect_within_union(a: Set<u64>, b: Set<u64>)
    requires
        a.finite(),
        b.finite(),
    ensures
        a.intersect(b).len() <= a.union(b).len(),
{
    vstd::set_lib::lemma_len_subset(a.intersect(b), a.union(b));
}

/// Law: the overlap measure does not depend on the order of the two nodes.
/// When neither node is a first-order neighbour of the other, the shared and
/// total counts of `u` against `v` are those of `v` against `u`.
pub proof fn lemma_similarity_overlap_symmetric(g: NeighborList, u: u64, v: u64)
    requires
        !g.first_order(v).contains(u),
        !g.first_order(u).contains(v),
    ensures
        g.spec_similarity(u, v) == g.spec_similarity(v, u),
{
    assert(g.first_order(u).intersect(g.first_order(v)) =~= g.first_order(v).intersect(
        g.first_order(u),
    ));
    assert(g.first_order(u).union(g.first_order(v)) =~= g.first_order(v).union(
        g.first_order(u),
    ));
    assert(g.second_order(u).intersect(g.second_order(v)) =~= g.second_order(v).intersect(
        g.second_order(u),
    ));
    assert(g.second_order(u).union(g.second_order(v)) =~= g.second_order(v).union(
        g.second_order(u),
    ));
}

} // verus!
