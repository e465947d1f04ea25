use vstd::prelude::*;
use rand::rngs::StdRng;

use crate::ordering::sort_by_id;
use crate::random::{random_index, shuffle_nodes};
use crate::wrappers::{Edge, Node};

verus! {

broadcast use {
    vstd::seq_lib::group_to_multiset_ensures,
    vstd::seq_lib::lemma_multiset_commutative,
    vstd::multiset::group_multiset_axioms,
};

/// The nodes of `nodes`, ordered by id and then shuffled by the generator.
/// Which order comes out depends on the generator; it is always a
/// rearrangement of the same nodes.
pub fn sorted_shuffle(nodes: &Vec<Node>, rng: &mut StdRng) -> (r: Vec<Node>)
    ensures
        r@.to_multiset() == nodes@.to_multiset(),
{
    let mut v = sort_by_id(nodes);
    shuffle_nodes(&mut v, rng);
    v
}

/// The indices that one greedy step looks at, in the order they are drawn:
/// first the fallback index, then `maximum_greed_iteration - 1` candidates
/// (none when the limit is 0 or 1), all below `len`.
pub fn draw_greedy_candidates(rng: &mut StdRng, len: usize, maximum_greed_iteration: u32) -> (r: (
    usize,
    Vec<usize>,
))
    requires
        len > 0,
    ensures
        r.0 < len,
        r.1@.len() == (if maximum_greed_iteration >= 1 {
            maximum_greed_iteration - 1
        } else {
            0
        }),
        forall|i: int| 0 <= i < r.1@.len() ==> #[trigger] r.1@[i] < len,
{
    let first = random_index(rng, len);
    let mut candidates: Vec<usize> = Vec::new();
    let mut t: u32 = 1;
    while t < maximum_greed_iteration
        invariant
            len > 0,
            1 <= t,
            t <= maximum_greed_iteration || (maximum_greed_iteration == 0 && t == 1),
            candidates@.len() == t - 1,
            forall|i: int| 0 <= i < candidates@.len() ==> #[trigger] candidates@[i] < len,
        decreases maximum_greed_iteration - t,
    {
        let c = random_index(rng, len);
        candidates.push(c);
        t = t + 1;
    }
    (first, candidates)
}

/// The consecutive edges of `path`: from `path[i]` to `path[i + 1]`.
pub open spec fn spec_path_edge(path: Seq<Node>, i: int) -> (Node, Node) {
    (path[i], path[i + 1])
}

/// The walk of one ant. The ant starts from a fresh shuffle of all nodes,
/// takes its first node from the end of that order, then moves chosen nodes
/// one by one from the remaining ones onto its path.
pub struct AntWalk {
    nodes: Vec<Node>,
    path: Vec<Node>,
    remaining: Vec<Node>,
}

impl AntWalk {
    /// All nodes of the graph.
    pub closed spec fn nodes(self) -> Seq<Node> {
        self.nodes@
    }

    /// The path of the current ant.
    pub closed spec fn path(self) -> Seq<Node> {
        self.path@
    }

    /// The nodes the current ant has not taken.
    pub closed spec fn remaining(self) -> Seq<Node> {
        self.remaining@
    }

    /// The path and the remaining nodes are together exactly the nodes of the
    /// graph.
    pub open spec fn wf(self) -> bool {
        (self.path() + self.remaining()).to_multiset() == self.nodes().to_multiset()
    }

    /// A walk over `nodes` that has not started.
    pub fn new(nodes: Vec<Node>) -> (w: AntWalk)
        ensures
            w.wf(),
            w.nodes() == nodes@,
            w.path() == Seq::<Node>::empty(),
    {
        let remaining = sort_by_id(&nodes);
        let w = AntWalk { nodes, path: Vec::new(), remaining };
        assert(w.path() + w.remaining() =~= w.remaining());
        w
    }

    /// Starts a new ant on the node order `order`, a rearrangement of all
    /// nodes: its last node becomes the whole path, the others remain.
    pub fn place_ant(&mut self, order: Vec<Node>)
        requires
            old(self).wf(),
            order@.len() > 0,
            order@.to_multiset() == old(self).nodes().to_multiset(),
        ensures
            final(self).wf(),
            final(self).nodes() == old(self).nodes(),
            final(self).path() == seq![order@.last()],
            final(self).remaining() == order@.drop_last(),
    {
        let mut order = order;
        let ghost before = order@;
        let initial = order.pop().unwrap();
        assert(before =~= order@.push(initial));
        self.path = Vec::new();
        self.path.push(initial);
        self.remaining = order;
        proof {
            assert(seq![initial] + self.remaining@ =~= self.remaining@.insert(0, initial));
            vstd::seq_lib::to_multiset_insert(self.remaining@, 0, initial);
            assert(before.to_multiset() =~= self.remaining@.to_multiset().insert(initial));
            assert(self.path@ =~= seq![initial]);
            assert(before.drop_last() =~= self.remaining@);
        }
    }

    /// Starts a new ant: the nodes are ordered by id and shuffled afresh,
    /// and the ant is placed on that order.
    pub fn start_ant(&mut self, rng: &mut StdRng)
        requires
            old(self).wf(),
            old(self).nodes().len() > 0,
        ensures
            final(self).wf(),
            final(self).nodes() == old(self).nodes(),
            final(self).path().len() == 1,
            old(self).nodes().contains(final(self).path()[0]),
            final(self).remaining().len() + 1 == old(self).nodes().len(),
    {
        let shuffled = sorted_shuffle(&self.nodes, rng);
        assert(shuffled@.len() == self.nodes@.len()) by {
            assert(shuffled@.to_multiset().len() == self.nodes@.to_multiset().len());
        }
        let ghost order = shuffled@;
        self.place_ant(shuffled);
        proof {
            assert(order.contains(order.last())) by {
                assert(order[order.len() - 1] == order.last());
            }
            assert(self.nodes@.to_multiset().count(order.last()) > 0);
        }
    }

    /// The index of the fallback and the candidate indices into the
    /// remaining nodes for the next greedy step.
    pub fn draw_candidates(&self, rng: &mut StdRng, maximum_greed_iteration: u32) -> (r: (
        usize,
        Vec<usize>,
    ))
        requires
            self.remaining().len() > 0,
        ensures
            r.0 < self.remaining().len(),
            r.1@.len() == (if maximum_greed_iteration >= 1 {
                maximum_greed_iteration - 1
            } else {
                0
            }),
            forall|i: int| 0 <= i < r.1@.len() ==> #[trigger] r.1@[i] < self.remaining().len(),
    {
        draw_greedy_candidates(rng, self.remaining.len(), maximum_greed_iteration)
    }

    /// Moves the remaining node at `index` onto the path.
    pub fn take_node(&mut self, index: usize) -> (n: Node)
        requires
            old(self).wf(),
            index < old(self).remaining().len(),
        ensures
            final(self).wf(),
            n == old(self).remaining()[index as int],
            final(self).nodes() == old(self).nodes(),
            final(self).path() == old(self).path().push(n),
            final(self).remaining() == old(self).remaining().remove(index as int),
    {
        let ghost old_part = self.path@;
        let ghost old_rem = self.remaining@;
        let n = self.remaining.remove(index);
        self.path.push(n);
        proof {
            assert(old_rem.to_multiset() =~= self.remaining@.to_multiset().insert(n)) by {
                assert(old_rem.remove(index as int).to_multiset() =~= old_rem.to_multiset().remove(
                    old_rem[index as int],
                ));
                assert(old_rem.to_multiset().count(n) > 0);
            }
            assert(old_part.push(n).to_multiset() =~= old_part.to_multiset().insert(n));
            assert((self.path@ + self.remaining@).to_multiset() =~= (old_part
                + old_rem).to_multiset());
        }
        n
    }

    /// The number of nodes of the graph.
    pub fn node_count(&self) -> (n: usize)
        ensures
            n == self.nodes().len(),
    {
        self.nodes.len()
    }

    /// The remaining nodes of the current ant.
    pub fn get_remaining(&self) -> (r: &Vec<Node>)
        ensures
            r@ == self.remaining(),
    {
        &self.remaining
    }

    /// The path so far.
    pub fn get_path(&self) -> (r: &Vec<Node>)
        ensures
            r@ == self.path(),
    {
        &self.path
    }

    /// The edges along the path, from each node to the next.
    pub fn path_edges(&self) -> (r: Vec<Edge>)
        ensures
            r@.len() == (if self.path().len() > 0 {
                self.path().len() - 1
            } else {
                0
            }),
            forall|i: int|
                0 <= i < r@.len() ==> (#[trigger] r@[i].source(), r@[i].target())
                    == spec_path_edge(self.path(), i),
    {
        let mut r: Vec<Edge> = Vec::new();
        let mut i: usize = 1;
        while i < self.path.len()
            invariant
                1 <= i,
                i <= self.path@.len() || (self.path@.len() == 0 && i == 1),
                r@.len() == i - 1,
                forall|k: int|
                    0 <= k < r@.len() ==> (#[trigger] r@[k].source(), r@[k].target())
                        == spec_path_edge(self.path(), k),
            decreases self.path@.len() - i,
        {
            r.push(Edge::new(self.path[i - 1], self.path[i]));
            i = i + 1;
        }
        r
    }

    /// Law: when the graph's nodes are distinct, an ant never visits a node
    /// twice, every node it visits is a node of the graph, and its path is
    /// never longer than the graph has nodes.
    pub proof fn lemma_path_distinct(self)
        requires
            self.wf(),
            self.nodes().no_duplicates(),
        ensures
            self.path().no_duplicates(),
            forall|x: Node| #[trigger] self.path().contains(x) ==> self.nodes().contains(x),
            self.path().len() <= self.nodes().len(),
    {
        let a = self.path();
        let b = self.remaining();
        self.nodes().lemma_multiset_has_no_duplicates();
        assert forall|x: Node| a.to_multiset().contains(x) implies a.to_multiset().count(x)
            == 1 by {
            assert((a + b).to_multiset().count(x) == a.to_multiset().count(x) + b.to_multiset().count(x));
        }
        a.lemma_multiset_has_no_duplicates_conv();
        assert forall|x: Node| #[trigger] a.contains(x) implies self.nodes().contains(x) by {
            assert(a.to_multiset().count(x) > 0);
            assert((a + b).to_multiset().count(x) > 0);
        }
        assert((a + b).to_multiset().len() == a.len() + b.len());
    }
}

} // verus!
