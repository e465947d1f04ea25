use vstd::prelude::*;
use std::collections::HashMap;
use std::collections::HashSet;
use rand::rngs::StdRng;

use crate::graph::{ids, NeighborList};
use crate::ordering::{sort_by_id, sorted_by_id};
use crate::random::random_index;
use crate::wrappers::{Edge, Node};

verus! {

broadcast use {
    vstd::std_specs::hash::group_hash_axioms,
    vstd::seq::Seq::lemma_filter_push,
    vstd::seq::Seq::lemma_push_map_commute,
    vstd::seq_lib::group_to_multiset_ensures,
};

/// One line of a relation file: two user ids and a small signed value.
pub type Row = (u64, u64, i8);

/// The weight that a star rating adds to the edge from rater to author, in
/// quarter points: 5 or 6 stars give 1, 4 give 0.75, 3 give 0.25, 1 or 2 give
/// -1, anything else 0.
pub open spec fn rating_quarters(rating: i8) -> i8 {
    if rating == 5 || rating == 6 {
        4
    } else if rating == 4 {
        3
    } else if rating == 3 {
        1
    } else if rating == 1 || rating == 2 {
        -4i8
    } else {
        0
    }
}

/// A rating row counts only when a user rates someone else.
pub open spec fn is_cross_rating(r: Row) -> bool {
    r.0 != r.1
}

/// The users who rate someone else in `rows`.
pub open spec fn rater_ids(rows: Seq<Row>) -> Set<u64> {
    Set::new(|u: u64| exists|k: int| 0 <= k < rows.len() && is_cross_rating(rows[k]) && rows[k].0 == u)
}

/// The authors that `u` rates, one entry per row, in row order.
pub open spec fn authors_of(rows: Seq<Row>, u: u64) -> Seq<u64> {
    rows.filter(|r: Row| is_cross_rating(r) && r.0 == u).map_values(|r: Row| r.1)
}

/// The quarter-point weights of the ratings from `u` to `v`, in row order.
pub open spec fn quarters_of(rows: Seq<Row>, u: u64, v: u64) -> Seq<i8> {
    rows.filter(|r: Row| is_cross_rating(r) && r.0 == u && r.1 == v).map_values(
        |r: Row| rating_quarters(r.2),
    )
}

/// The trust decision of the last row for `u` and `v`, if any.
pub open spec fn last_decision(rows: Seq<Row>, u: u64, v: u64) -> Option<i8>
    decreases rows.len(),
{
    if rows.len() == 0 {
        None
    } else if rows.last().0 == u && rows.last().1 == v {
        Some(rows.last().2)
    } else {
        last_decision(rows.drop_last(), u, v)
    }
}

/// The sum of a sequence of quarter-point weights.
pub open spec fn quarter_sum(s: Seq<i8>) -> int
    decreases s.len(),
{
    if s.len() == 0 {
        0
    } else {
        quarter_sum(s.drop_last()) + s.last()
    }
}

/// Where the weight of an edge comes from.
#[derive(Debug, Clone, Copy, PartialEq, Eq, Structural)]
pub enum EdgeWeight {
    /// The trust decision recorded for the pair.
    Trust(i8),
    /// No trust decision: the sum of the pair's ratings, in quarter points.
    Rating(i128),
}

/// A weight is zero when the decision is 0 or the ratings sum to 0; the
/// real-valued weight `(1 - e^-x) / (1 + e^-x)` of a rating sum `x` is zero
/// exactly then.
pub open spec fn weight_is_zero(w: EdgeWeight) -> bool {
    match w {
        EdgeWeight::Trust(d) => d == 0,
        EdgeWeight::Rating(q) => q == 0,
    }
}

/// Law: a weight is zero only when it is a trust decision of 0 or a rating
/// sum of 0; any other decision or sum, however small, is not zero.
pub proof fn lemma_zero_weights(w: EdgeWeight)
    ensures
        weight_is_zero(w) <==> (w == EdgeWeight::Trust(0) || w == EdgeWeight::Rating(0)),
{
}

/// Law: the weight of each star rating, in quarter points: 5 and 6 stars
/// give 4, 4 stars give 3, 3 stars give 1, 1 and 2 stars give -4, and any
/// other value gives 0.
pub proof fn lemma_star_weights()
    ensures
        rating_quarters(6) == 4,
        rating_quarters(5) == 4,
        rating_quarters(4) == 3,
        rating_quarters(3) == 1,
        rating_quarters(2) == -4,
        rating_quarters(1) == -4,
        forall|r: i8| !(1 <= r <= 6) ==> #[trigger] rating_quarters(r) == 0,
{
}

/// The key under which the pair (`u`, `v`) is stored.
pub open spec fn edge_key(u: u64, v: u64) -> u128 {
    (u as int * 0x1_0000_0000_0000_0000 + v as int) as u128
}

/// The two endpoint ids of an edge.
pub open spec fn edge_ids(e: Edge) -> (u64, u64) {
    (e.source().id_of(), e.target().id_of())
}

proof fn lemma_edge_key_injective(u1: u64, v1: u64, u2: u64, v2: u64)
    ensures
        edge_key(u1, v1) == edge_key(u2, v2) ==> u1 == u2 && v1 == v2,
{
}

fn key_of(u: u64, v: u64) -> (k: u128)
    ensures
        k == edge_key(u, v),
{
    (u as u128) * 0x1_0000_0000_0000_0000u128 + (v as u128)
}

/// The relations of the Epinions data set that the sampler reads: who rates
/// whom, how, and whom each user trusts or distrusts.
pub struct EpinionsGraphGenerator {
    nodes_list: Vec<Node>,
    rating_relation: HashMap<u128, Vec<i8>>,
    trust_list: HashMap<u128, i8>,
    neighbor_list: NeighborList,
}

impl EpinionsGraphGenerator {
    /// The users who rate someone else, each once.
    pub closed spec fn raters(self) -> Seq<Node> {
        self.nodes_list@
    }

    /// Who rates whom: for each rater, the rated authors.
    pub closed spec fn graph(self) -> NeighborList {
        self.neighbor_list
    }

    /// The quarter-point ratings from `u` to `v`.
    pub closed spec fn ratings_of(self, u: u64, v: u64) -> Seq<i8> {
        if self.rating_relation@.contains_key(edge_key(u, v)) {
            self.rating_relation@[edge_key(u, v)]@
        } else {
            Seq::<i8>::empty()
        }
    }

    /// The trust decision of `u` about `v`, if recorded.
    pub closed spec fn trust_of(self, u: u64, v: u64) -> Option<i8> {
        if self.trust_list@.contains_key(edge_key(u, v)) {
            Some(self.trust_list@[edge_key(u, v)])
        } else {
            None
        }
    }

    /// The weight of the edge from `u` to `v`: the trust decision when one is
    /// recorded, else the sum of the ratings.
    pub open spec fn spec_edge_weight(self, u: u64, v: u64) -> EdgeWeight {
        match self.trust_of(u, v) {
            Some(d) => EdgeWeight::Trust(d),
            None => EdgeWeight::Rating(quarter_sum(self.ratings_of(u, v)) as i128),
        }
    }

    /// What the generator holds after reading `ratings` and `trusts`.
    pub open spec fn built_from(self, ratings: Seq<Row>, trusts: Seq<Row>) -> bool {
        &&& self.raters().no_duplicates()
        &&& ids(self.raters()).to_set() == rater_ids(ratings)
        &&& forall|u: u64| #[trigger] ids(self.graph().neighbors_of(u)) == authors_of(ratings, u)
        &&& forall|u: u64, v: u64| #[trigger] self.ratings_of(u, v) == quarters_of(ratings, u, v)
        &&& forall|u: u64, v: u64| #[trigger] self.trust_of(u, v) == last_decision(trusts, u, v)
    }

    /// Builds the relations from the rows of the rating file (rater, author,
    /// stars) and of the trust file (user, other, decision). Self-ratings are
    /// left out; a later trust row for the same pair replaces an earlier one.
    pub fn new(ratings: &Vec<Row>, trusts: &Vec<Row>) -> (g: EpinionsGraphGenerator)
        ensures
            g.built_from(ratings@, trusts@),
    {
        let mut nodes_list: Vec<Node> = Vec::new();
        let mut seen: HashSet<u64> = HashSet::new();
        let mut rating_relation: HashMap<u128, Vec<i8>> = HashMap::new();
        let mut neighbor_list = NeighborList::new();
        let mut i: usize = 0;
        while i < ratings.len()
            invariant
                i <= ratings@.len(),
                nodes_list@.no_duplicates(),
                ids(nodes_list@).to_set() == rater_ids(ratings@.take(i as int)),
                seen@ == ids(nodes_list@).to_set(),
                forall|u: u64|
                    #[trigger] ids(neighbor_list.neighbors_of(u)) == authors_of(
                        ratings@.take(i as int),
                        u,
                    ),
                forall|u: u64, v: u64|
                    #[trigger] rating_relation@.contains_key(edge_key(u, v))
                        ==> rating_relation@[edge_key(u, v)]@ == quarters_of(
                        ratings@.take(i as int),
                        u,
                        v,
                    ),
                forall|u: u64, v: u64|
                    !#[trigger] rating_relation@.contains_key(edge_key(u, v)) ==> quarters_of(
                        ratings@.take(i as int),
                        u,
                        v,
                    ) == Seq::<i8>::empty(),
            decreases ratings@.len() - i,
        {
            let (rater, author, stars) = ratings[i];
            let ghost pre = ratings@.take(i as int);
            let ghost row = ratings@[i as int];
            assert(ratings@.take(i + 1) =~= pre.push(row));
            let ghost old_graph = neighbor_list;
            let u = Node::new(rater);
            let v = Node::new(author);
            if rater != author {
                // raters
                if !seen.contains(&rater) {
                    let ghost before = nodes_list@;
                    nodes_list.push(u);
                    seen.insert(rater);
                    proof {
                        lemma_push_keeps_distinct(before, u);
                    }
                }
                // neighbour list
                neighbor_list.add_neighbor(u, v);
                // ratings
                let q = quarters(stars);
                let key = key_of(rater, author);
                let mut list = match rating_relation.remove(&key) {
                    Some(l) => l,
                    None => Vec::new(),
                };
                list.push(q);
                rating_relation.insert(key, list);
            }
            proof {
                lemma_rows_step(pre, row);
                assert(ids(nodes_list@).to_set() =~= rater_ids(ratings@.take(i + 1)));
                assert forall|uu: u64|
                    #[trigger] ids(neighbor_list.neighbors_of(uu)) == authors_of(
                        ratings@.take(i + 1),
                        uu,
                    ) by {
                    if rater != author && uu == rater {
                        assert(ids(old_graph.neighbors_of(uu).push(v))
                            =~= ids(old_graph.neighbors_of(uu)).push(author));
                    }
                }
                assert forall|uu: u64, vv: u64|
                    #[trigger] rating_relation@.contains_key(edge_key(uu, vv))
                        implies rating_relation@[edge_key(uu, vv)]@ == quarters_of(
                        ratings@.take(i + 1),
                        uu,
                        vv,
                    ) by {
                    lemma_edge_key_injective(uu, vv, row.0, row.1);
                }
                assert forall|uu: u64, vv: u64|
                    !#[trigger] rating_relation@.contains_key(edge_key(uu, vv))
                        implies quarters_of(ratings@.take(i + 1), uu, vv)
                        == Seq::<i8>::empty() by {
                    lemma_edge_key_injective(uu, vv, row.0, row.1);
                }
            }
            i = i + 1;
        }
        assert(ratings@.take(i as int) =~= ratings@);
        let mut trust_list: HashMap<u128, i8> = HashMap::new();
        let mut j: usize = 0;
        while j < trusts.len()
            invariant
                j <= trusts@.len(),
                forall|u: u64, v: u64|
                    #[trigger] trust_list@.contains_key(edge_key(u, v)) == last_decision(
                        trusts@.take(j as int),
                        u,
                        v,
                    ) is Some,
                forall|u: u64, v: u64|
                    #[trigger] trust_list@.contains_key(edge_key(u, v)) ==> Some(
                        trust_list@[edge_key(u, v)],
                    ) == last_decision(trusts@.take(j as int), u, v),
            decreases trusts@.len() - j,
        {
            let (me, other, decision) = trusts[j];
            let ghost pre = trusts@.take(j as int);
            assert(trusts@.take(j + 1) =~= pre.push(trusts@[j as int]));
            assert(trusts@.take(j + 1).drop_last() =~= pre);
            trust_list.insert(key_of(me, other), decision);
            proof {
                assert forall|u: u64, v: u64|
                    #[trigger] trust_list@.contains_key(edge_key(u, v)) == last_decision(
                        trusts@.take(j + 1),
                        u,
                        v,
                    ) is Some by {
                    lemma_edge_key_injective(u, v, me, other);
                }
                assert forall|u: u64, v: u64|
                    #[trigger] trust_list@.contains_key(edge_key(u, v)) implies Some(
                        trust_list@[edge_key(u, v)],
                    ) == last_decision(trusts@.take(j + 1), u, v) by {
                    lemma_edge_key_injective(u, v, me, other);
                }
            }
            j = j + 1;
        }
        assert(trusts@.take(j as int) =~= trusts@);
        let g = EpinionsGraphGenerator { nodes_list, rating_relation, trust_list, neighbor_list };
        assert forall|u: u64, v: u64| #[trigger] g.trust_of(u, v) == last_decision(trusts@, u, v) by {
        }
        assert forall|u: u64, v: u64| #[trigger] g.ratings_of(u, v) == quarters_of(ratings@, u, v) by {
        }
        g
    }
}

impl EpinionsGraphGenerator {
    /// `b` is among the nodes that `a` rates.
    pub open spec fn links(self, a: Node, b: Node) -> bool {
        self.graph().neighbors_of(a.id_of()).contains(b)
    }

    /// Some node of `s` before position `i` rates the node at `i`.
    pub open spec fn rated_before(self, s: Seq<Node>, i: int) -> bool {
        exists|j: int| 0 <= j < i && #[trigger] self.links(s[j], s[i])
    }

    /// Some node of `s` rates `x`.
    pub open spec fn rated_by_member(self, s: Seq<Node>, x: Node) -> bool {
        exists|j: int| 0 <= j < s.len() && #[trigger] self.links(s[j], x)
    }

    /// `s` starts at a rater and every later node is rated by an earlier one.
    pub open spec fn is_connected_sample(self, s: Seq<Node>) -> bool {
        &&& s.len() > 0 ==> self.raters().contains(s[0])
        &&& forall|i: int| 0 < i < s.len() ==> #[trigger] self.rated_before(s, i)
    }

    /// Everything that a node of `s` rates is in `s` too.
    pub open spec fn is_closed(self, s: Seq<Node>) -> bool {
        forall|j: int, y: Node| 0 <= j < s.len() && #[trigger] self.links(s[j], y) ==> s.contains(y)
    }

    /// The number of users who rate someone else.
    pub fn raters_len(&self) -> (n: usize)
        ensures
            n == self.raters().len(),
    {
        self.nodes_list.len()
    }

    /// The list of nodes that `node` rates (empty if none).
    pub fn get_node_neighbors(&self, node: &Node) -> (r: Vec<Node>)
        ensures
            r@ == self.graph().neighbors_of(node.id_of()),
    {
        self.neighbor_list.get_node_neighbors(node)
    }

    /// The weight of edge `e`: its trust decision if one is recorded, else
    /// the sum of its ratings in quarter points (0 when there are none).
    pub fn get_edge_weight(&self, e: &Edge) -> (w: EdgeWeight)
        ensures
            w == self.spec_edge_weight(edge_ids(*e).0, edge_ids(*e).1),
    {
        let u = e.get_u().get_id();
        let v = e.get_v().get_id();
        let key = key_of(u, v);
        match self.trust_list.get(&key) {
            Some(d) => EdgeWeight::Trust(*d),
            None => match self.rating_relation.get(&key) {
                Some(list) => EdgeWeight::Rating(sum_quarters(list)),
                None => EdgeWeight::Rating(0),
            },
        }
    }

    /// The rater at position `index` when the raters are ordered by id.
    pub fn rater_by_rank(&self, index: usize) -> (n: Node)
        requires
            index < self.raters().len(),
        ensures
            exists|s: Seq<Node>|
                #[trigger] sorted_by_id(s) && s.to_multiset() == self.raters().to_multiset() && n
                    == s[index as int],
            self.raters().contains(n),
    {
        let sorted = sort_by_id(&self.nodes_list);
        proof {
            assert(sorted@.to_multiset().len() == self.nodes_list@.to_multiset().len());
        }
        let n = sorted[index];
        proof {
            assert(sorted@.contains(n));
            assert(self.nodes_list@.to_multiset().count(n) > 0);
        }
        n
    }

    /// One step of the sampler: the frontier node at `index` leaves the
    /// frontier. If the sample does not hold it yet, it joins the sample and
    /// the nodes it rates join the frontier.
    pub fn sample_step(&self, sample: &mut Vec<Node>, frontier: &mut Vec<Node>, index: usize)
        requires
            index < old(frontier)@.len(),
        ensures
            ({
                let x = old(frontier)@[index as int];
                if old(sample)@.contains(x) {
                    &&& final(sample)@ == old(sample)@
                    &&& final(frontier)@ == old(frontier)@.remove(index as int)
                } else {
                    &&& final(sample)@ == old(sample)@.push(x)
                    &&& final(frontier)@ == old(frontier)@.remove(index as int)
                        + self.graph().neighbors_of(x.id_of())
                }
            }),
    {
        let x = frontier.remove(index);
        if !node_in(sample, x) {
            sample.push(x);
            let mut neighbors = self.get_node_neighbors(&x);
            frontier.append(&mut neighbors);
        }
    }

    /// One attempt at a connected sample of `number_nodes` distinct users:
    /// start at the rater of a randomly drawn rank (raters ordered by id),
    /// then repeatedly take a randomly drawn frontier node into the sample,
    /// skipping nodes already taken, until the sample is full or the frontier
    /// is empty. Which nodes come out depends on the generator; every outcome
    /// is a connected sample without repeats, and one that falls short has
    /// reached every node its members rate.
    pub fn sample_connected_nodes(&self, rng: &mut StdRng, number_nodes: u64) -> (r: Vec<Node>)
        requires
            self.raters().len() > 0,
        ensures
            r@.len() <= number_nodes,
            number_nodes > 0 ==> r@.len() > 0,
            r@.no_duplicates(),
            self.is_connected_sample(r@),
            r@.len() < number_nodes ==> self.is_closed(r@),
    {
        let initial_index = random_index(rng, self.nodes_list.len());
        let initial = self.rater_by_rank(initial_index);
        let mut graph_nodes: Vec<Node> = Vec::new();
        let mut search_list: Vec<Node> = Vec::new();
        search_list.push(initial);
        let mut vertex_count: u64 = 0;
        while vertex_count < number_nodes && search_list.len() > 0
            invariant
                self.raters().contains(initial),
                vertex_count as int == graph_nodes@.len(),
                vertex_count <= number_nodes,
                graph_nodes@.no_duplicates(),
                graph_nodes@.len() == 0 ==> search_list@ == seq![initial],
                graph_nodes@.len() > 0 ==> graph_nodes@[0] == initial,
                forall|i: int|
                    0 < i < graph_nodes@.len() ==> #[trigger] self.rated_before(graph_nodes@, i),
                graph_nodes@.len() > 0 ==> forall|k: int|
                    0 <= k < search_list@.len() ==> self.rated_by_member(
                        graph_nodes@,
                        #[trigger] search_list@[k],
                    ),
                forall|j: int, y: Node|
                    0 <= j < graph_nodes@.len() && #[trigger] self.links(graph_nodes@[j], y)
                        ==> graph_nodes@.contains(y) || search_list@.contains(y),
            decreases number_nodes - vertex_count, search_list@.len(),
        {
            let ghost old_graph = graph_nodes@;
            let ghost old_search = search_list@;
            let before_len = graph_nodes.len();
            let next_index = random_index(rng, search_list.len());
            let ghost x = old_search[next_index as int];
            let ghost removed = old_search.remove(next_index as int);
            self.sample_step(&mut graph_nodes, &mut search_list, next_index);
            if graph_nodes.len() > before_len {
                vertex_count = vertex_count + 1;
            }
            proof {
                let len = old_graph.len() as int;
                if old_graph.contains(x) {
                    assert(graph_nodes@ == old_graph);
                    assert(search_list@ == removed);
                    assert(len > 0);
                    assert forall|k: int|
                        0 <= k < search_list@.len() implies self.rated_by_member(
                        graph_nodes@,
                        #[trigger] search_list@[k],
                    ) by {
                        let k0 = if k < next_index { k } else { k + 1 };
                        assert(removed[k] == old_search[k0]);
                    }
                    assert forall|j: int, y: Node|
                        0 <= j < graph_nodes@.len() && #[trigger] self.links(graph_nodes@[j], y)
                            implies graph_nodes@.contains(y) || search_list@.contains(y) by {
                        if !old_graph.contains(y) {
                            let t = choose|t: int| 0 <= t < old_search.len() && old_search[t] == y;
                            if t != next_index {
                                let t0 = if t < next_index { t } else { t - 1 };
                                assert(removed[t0] == y);
                            }
                        }
                    }
                } else {
                    let nb = self.graph().neighbors_of(x.id_of());
                    assert(graph_nodes@ == old_graph.push(x));
                    assert(search_list@ == removed + nb);
                    assert(graph_nodes@[len] == x);
                    assert(graph_nodes@.no_duplicates()) by {
                        assert forall|p: int, q: int|
                            0 <= p < graph_nodes@.len() && 0 <= q < graph_nodes@.len() && p != q
                                implies graph_nodes@[p] != graph_nodes@[q] by {
                            if p == len {
                                assert(old_graph[q] == graph_nodes@[q]);
                            } else if q == len {
                                assert(old_graph[p] == graph_nodes@[p]);
                            }
                        }
                    }
                    if len > 0 {
                        assert(self.rated_by_member(old_graph, old_search[next_index as int]));
                        let j = choose|j: int| 0 <= j < len && #[trigger] self.links(old_graph[j], x);
                        assert(graph_nodes@[j] == old_graph[j]);
                        assert(self.links(graph_nodes@[j], graph_nodes@[len]));
                        assert(self.rated_before(graph_nodes@, len));
                    }
                    assert forall|i: int|
                        0 < i < graph_nodes@.len() implies #[trigger] self.rated_before(
                        graph_nodes@,
                        i,
                    ) by {
                        if i < len {
                            assert(self.rated_before(old_graph, i));
                            let j = choose|j: int|
                                0 <= j < i && #[trigger] self.links(old_graph[j], old_graph[i]);
                            assert(graph_nodes@[j] == old_graph[j]);
                            assert(graph_nodes@[i] == old_graph[i]);
                            assert(self.links(graph_nodes@[j], graph_nodes@[i]));
                        }
                    }
                    assert forall|k: int|
                        0 <= k < search_list@.len() implies self.rated_by_member(
                        graph_nodes@,
                        #[trigger] search_list@[k],
                    ) by {
                        if k < removed.len() {
                            let k0 = if k < next_index { k } else { k + 1 };
                            assert(removed[k] == old_search[k0]);
                            assert(len > 0);
                            assert(self.rated_by_member(old_graph, old_search[k0]));
                            let j = choose|j: int|
                                0 <= j < len && #[trigger] self.links(old_graph[j], old_search[k0]);
                            assert(graph_nodes@[j] == old_graph[j]);
                            assert(self.links(graph_nodes@[j], search_list@[k]));
                        } else {
                            assert(search_list@[k] == nb[k - removed.len()]);
                            assert(nb.contains(nb[k - removed.len()]));
                            assert(self.links(graph_nodes@[len], search_list@[k]));
                        }
                    }
                    assert forall|j: int, y: Node|
                        0 <= j < graph_nodes@.len() && #[trigger] self.links(graph_nodes@[j], y)
                            implies graph_nodes@.contains(y) || search_list@.contains(y) by {
                        if j < len {
                            assert(graph_nodes@[j] == old_graph[j]);
                            if old_graph.contains(y) {
                                let t = choose|t: int| 0 <= t < old_graph.len() && old_graph[t] == y;
                                assert(graph_nodes@[t] == y);
                            } else {
                                let t = choose|t: int| 0 <= t < old_search.len() && old_search[t] == y;
                                if t == next_index {
                                    assert(graph_nodes@[len] == y);
                                } else {
                                    let t0 = if t < next_index { t } else { t - 1 };
                                    assert(removed[t0] == y);
                                    assert(search_list@[t0] == y);
                                }
                            }
                        } else {
                            let t = choose|t: int| 0 <= t < nb.len() && nb[t] == y;
                            assert(search_list@[removed.len() + t] == y);
                        }
                    }
                }
            }
        }
        graph_nodes
    }

    /// Some entry of `edges` is the edge from id `u` to id `v`.
    pub open spec fn emitted(edges: Seq<(Edge, EdgeWeight)>, u: u64, v: u64) -> bool {
        exists|k: int| 0 <= k < edges.len() && edge_ids(#[trigger] edges[k].0) == (u, v)
    }

    /// The weighted edges of the sub-graph on `nodes`: for every pair of
    /// positions `a < b`, the edge from `nodes[a]` to `nodes[b]` when its
    /// weight is not zero, each edge once.
    pub fn generate_graph(&self, nodes: &Vec<Node>) -> (edges: Vec<(Edge, EdgeWeight)>)
        requires
            nodes@.len() > 0,
        ensures
            forall|k: int|
                0 <= k < edges@.len() ==> {
                    let (e, w) = #[trigger] edges@[k];
                    &&& w == self.spec_edge_weight(edge_ids(e).0, edge_ids(e).1)
                    &&& !weight_is_zero(w)
                    &&& exists|a: int, b: int|
                        0 <= a < b < nodes@.len() && edge_ids(e) == (
                            nodes@[a].id_of(),
                            nodes@[b].id_of(),
                        )
                },
            forall|a: int, b: int|
                0 <= a < b < nodes@.len() && !weight_is_zero(
                    #[trigger] self.spec_edge_weight(nodes@[a].id_of(), nodes@[b].id_of()),
                ) ==> Self::emitted(edges@, nodes@[a].id_of(), nodes@[b].id_of()),
            forall|k1: int, k2: int|
                0 <= k1 < edges@.len() && 0 <= k2 < edges@.len() && k1 != k2 ==> edge_ids(
                    #[trigger] edges@[k1].0,
                ) != edge_ids(#[trigger] edges@[k2].0),
            forall|k: int|
                0 <= k < edges@.len() ==> #[trigger] edges@[k].1 != EdgeWeight::Trust(0)
                    && edges@[k].1 != EdgeWeight::Rating(0),
            forall|a: int, b: int|
                0 <= a < b < nodes@.len() && #[trigger] self.spec_edge_weight(
                    nodes@[a].id_of(),
                    nodes@[b].id_of(),
                ) != EdgeWeight::Trust(0) && self.spec_edge_weight(
                    nodes@[a].id_of(),
                    nodes@[b].id_of(),
                ) != EdgeWeight::Rating(0) ==> Self::emitted(
                    edges@,
                    nodes@[a].id_of(),
                    nodes@[b].id_of(),
                ),
    {
        let n = nodes.len();
        let mut edges: Vec<(Edge, EdgeWeight)> = Vec::new();
        let mut seen: HashSet<u128> = HashSet::new();
        let mut i: usize = 0;
        while i < n - 1
            invariant
                n == nodes@.len(),
                n > 0,
                i <= n - 1,
                forall|u: u64, v: u64|
                    #[trigger] seen@.contains(edge_key(u, v)) == Self::emitted(edges@, u, v),
                forall|k: int|
                    0 <= k < edges@.len() ==> {
                        let (e, w) = #[trigger] edges@[k];
                        &&& w == self.spec_edge_weight(edge_ids(e).0, edge_ids(e).1)
                        &&& !weight_is_zero(w)
                        &&& exists|a: int, b: int|
                            0 <= a < b < nodes@.len() && edge_ids(e) == (
                                nodes@[a].id_of(),
                                nodes@[b].id_of(),
                            )
                    },
                forall|a: int, b: int|
                    0 <= a < i && a < b < nodes@.len() && !weight_is_zero(
                        #[trigger] self.spec_edge_weight(nodes@[a].id_of(), nodes@[b].id_of()),
                    ) ==> Self::emitted(edges@, nodes@[a].id_of(), nodes@[b].id_of()),
                forall|k1: int, k2: int|
                    0 <= k1 < edges@.len() && 0 <= k2 < edges@.len() && k1 != k2 ==> edge_ids(
                        #[trigger] edges@[k1].0,
                    ) != edge_ids(#[trigger] edges@[k2].0),
            decreases n - 1 - i,
        {
            let mut j: usize = i + 1;
            while j < n
                invariant
                    n == nodes@.len(),
                    n > 0,
                    i < n - 1,
                    i < j <= n,
                    forall|u: u64, v: u64|
                        #[trigger] seen@.contains(edge_key(u, v)) == Self::emitted(edges@, u, v),
                    forall|k: int|
                        0 <= k < edges@.len() ==> {
                            let (e, w) = #[trigger] edges@[k];
                            &&& w == self.spec_edge_weight(edge_ids(e).0, edge_ids(e).1)
                            &&& !weight_is_zero(w)
                            &&& exists|a: int, b: int|
                                0 <= a < b < nodes@.len() && edge_ids(e) == (
                                    nodes@[a].id_of(),
                                    nodes@[b].id_of(),
                                )
                        },
                    forall|a: int, b: int|
                        ((0 <= a < i && a < b < nodes@.len()) || (a == i && i < b < j))
                            && !weight_is_zero(
                            #[trigger] self.spec_edge_weight(nodes@[a].id_of(), nodes@[b].id_of()),
                        ) ==> Self::emitted(edges@, nodes@[a].id_of(), nodes@[b].id_of()),
                    forall|k1: int, k2: int|
                        0 <= k1 < edges@.len() && 0 <= k2 < edges@.len() && k1 != k2 ==> edge_ids(
                            #[trigger] edges@[k1].0,
                        ) != edge_ids(#[trigger] edges@[k2].0),
                decreases n - j,
            {
                let ghost seen_before = seen@;
                let ghost edges_before = edges@;
                let u = nodes[i];
                let v = nodes[j];
                let e = Edge::new(u, v);
                let w = self.get_edge_weight(&e);
                let zero = match w {
                    EdgeWeight::Trust(d) => d == 0,
                    EdgeWeight::Rating(q) => q == 0,
                };
                if !zero {
                    let uid = u.get_id();
                    let vid = v.get_id();
                    let key = key_of(uid, vid);
                    if !seen.contains(&key) {
                        let ghost before = edges@;
                        seen.insert(key);
                        edges.push((e, w));
                        proof {
                            let last = before.len() as int;
                            assert(edges@[last] == (e, w));
                            assert(edge_ids(e) == (uid, vid));
                            assert forall|uu: u64, vv: u64|
                                #[trigger] seen@.contains(edge_key(uu, vv)) == Self::emitted(
                                    edges@,
                                    uu,
                                    vv,
                                ) by {
                                lemma_edge_key_injective(uu, vv, uid, vid);
                                if uu == uid && vv == vid {
                                    assert(edge_ids(edges@[last].0) == (uid, vid));
                                }
                                if Self::emitted(before, uu, vv) {
                                    let k = choose|k: int|
                                        0 <= k < before.len() && edge_ids(#[trigger] before[k].0)
                                            == (uu, vv);
                                    assert(edges@[k] == before[k]);
                                }
                                if Self::emitted(edges@, uu, vv) && !(uu == uid && vv == vid) {
                                    let k = choose|k: int|
                                        0 <= k < edges@.len() && edge_ids(#[trigger] edges@[k].0)
                                            == (uu, vv);
                                    assert(before[k] == edges@[k]);
                                }
                            }
                            assert forall|k: int|
                                0 <= k < edges@.len() implies {
                                    let (e2, w2) = #[trigger] edges@[k];
                                    &&& w2 == self.spec_edge_weight(edge_ids(e2).0, edge_ids(e2).1)
                                    &&& !weight_is_zero(w2)
                                    &&& exists|a: int, b: int|
                                        0 <= a < b < nodes@.len() && edge_ids(e2) == (
                                            nodes@[a].id_of(),
                                            nodes@[b].id_of(),
                                        )
                                } by {
                                if k == last {
                                    assert(edge_ids(e) == (nodes@[i as int].id_of(), nodes@[j as int].id_of()));
                                } else {
                                    assert(edges@[k] == before[k]);
                                }
                            }
                            assert forall|k1: int, k2: int|
                                0 <= k1 < edges@.len() && 0 <= k2 < edges@.len() && k1 != k2
                                    implies edge_ids(#[trigger] edges@[k1].0) != edge_ids(
                                    #[trigger] edges@[k2].0,
                                ) by {
                                if k1 == last {
                                    assert(edges@[k2] == before[k2]);
                                } else if k2 == last {
                                    assert(edges@[k1] == before[k1]);
                                } else {
                                    assert(edges@[k1] == before[k1]);
                                    assert(edges@[k2] == before[k2]);
                                }
                            }
                        }
                    }
                }
                proof {
                    assert forall|a: int, b: int|
                        ((0 <= a < i && a < b < nodes@.len()) || (a == i && i < b < j + 1))
                            && !weight_is_zero(
                            #[trigger] self.spec_edge_weight(nodes@[a].id_of(), nodes@[b].id_of()),
                        ) implies Self::emitted(edges@, nodes@[a].id_of(), nodes@[b].id_of()) by {
                        if a == i && b == j {
                            assert(w == self.spec_edge_weight(nodes@[a].id_of(), nodes@[b].id_of()));
                            assert(!zero);
                            assert(seen@.contains(edge_key(nodes@[a].id_of(), nodes@[b].id_of())));
                        } else {
                            assert(Self::emitted(edges_before, nodes@[a].id_of(), nodes@[b].id_of()));
                            assert(seen_before.contains(edge_key(nodes@[a].id_of(), nodes@[b].id_of())));
                            assert(seen@.contains(edge_key(nodes@[a].id_of(), nodes@[b].id_of())));
                        }
                    }
                }
                j = j + 1;
            }
            i = i + 1;
        }
        edges
    }

    /// A connected sample of exactly `number_nodes` users, or `None` when the
    /// attempt reached a closed group of fewer users; the caller draws again.
    pub fn get_conected_nodes(&self, rng: &mut StdRng, number_nodes: u64) -> (r: Option<Vec<Node>>)
        requires
            self.raters().len() > 0,
        ensures
            r matches Some(s) ==> s@.len() == number_nodes && s@.no_duplicates()
                && self.is_connected_sample(s@),
            r is None ==> exists|s: Seq<Node>|
                #[trigger] self.is_closed(s) && 0 < s.len() < number_nodes
                    && self.is_connected_sample(s),
            number_nodes <= 1 ==> r is Some,
    {
        let graph_nodes = self.sample_connected_nodes(rng, number_nodes);
        if graph_nodes.len() as u64 == number_nodes {
            Some(graph_nodes)
        } else {
            assert(self.is_closed(graph_nodes@));
            None
        }
    }
}

/// Whether `x` occurs in `s`.
fn node_in(s: &Vec<Node>, x: Node) -> (b: bool)
    ensures
        b == s@.contains(x),
{
    let mut i: usize = 0;
    while i < s.len()
        invariant
            i <= s@.len(),
            forall|k: int| 0 <= k < i ==> s@[k] != x,
        decreases s@.len() - i,
    {
        if s[i] == x {
            return true;
        }
        i = i + 1;
    }
    false
}

/// The sum of a list of quarter-point weights.
fn sum_quarters(list: &Vec<i8>) -> (s: i128)
    ensures
        s == quarter_sum(list@),
{
    let mut acc: i128 = 0;
    let mut i: usize = 0;
    while i < list.len()
        invariant
            i <= list@.len(),
            acc == quarter_sum(list@.take(i as int)),
            -128 * (i as int) <= acc <= 128 * (i as int),
        decreases list@.len() - i,
    {
        assert(list@.take(i + 1).drop_last() =~= list@.take(i as int));
        acc = acc + list[i] as i128;
        i = i + 1;
    }
    assert(list@.take(i as int) =~= list@);
    acc
}

/// Law: the relations a generator holds agree with each other. A user has
/// rated authors exactly when it is a rater; an author appears in a rater's
/// list as often as there are ratings for that pair; and no user has ratings
/// about itself.
pub proof fn lemma_relations_agree(g: EpinionsGraphGenerator, ratings: Seq<Row>, trusts: Seq<Row>)
    requires
        g.built_from(ratings, trusts),
    ensures
        forall|u: u64|
            (#[trigger] g.graph().neighbors_of(u)).len() > 0 <==> ids(g.raters()).to_set().contains(
                u,
            ),
        forall|u: u64, v: u64|
            #[trigger] ids(g.graph().neighbors_of(u)).to_multiset().count(v) == g.ratings_of(
                u,
                v,
            ).len(),
        forall|u: u64| #[trigger] g.ratings_of(u, u) == Seq::<i8>::empty(),
{
    assert forall|u: u64|
        (#[trigger] g.graph().neighbors_of(u)).len() > 0 <==> ids(g.raters()).to_set().contains(u) by {
        lemma_rows_agree(ratings, u, u);
        assert(ids(g.graph().neighbors_of(u)).len() == g.graph().neighbors_of(u).len());
    }
    assert forall|u: u64, v: u64|
        #[trigger] ids(g.graph().neighbors_of(u)).to_multiset().count(v) == g.ratings_of(
            u,
            v,
        ).len() by {
        lemma_rows_agree(ratings, u, v);
    }
    assert forall|u: u64| #[trigger] g.ratings_of(u, u) == Seq::<i8>::empty() by {
        lemma_rows_agree(ratings, u, u);
        assert(g.ratings_of(u, u) =~= Seq::<i8>::empty());
    }
}

/// The quarter-point weight of a star rating.
fn quarters(rating: i8) -> (q: i8)
    ensures
        q == rating_quarters(rating),
{
    if rating == 5 || rating == 6 {
        4
    } else if rating == 4 {
        3
    } else if rating == 3 {
        1
    } else if rating == 1 || rating == 2 {
        -4
    } else {
        0
    }
}

proof fn lemma_push_keeps_distinct(s: Seq<Node>, x: Node)
    requires
        s.no_duplicates(),
        !ids(s).to_set().contains(x.id_of()),
    ensures
        s.push(x).no_duplicates(),
        ids(s.push(x)).to_set() == ids(s).to_set().insert(x.id_of()),
{
    assert(ids(s.push(x)) =~= ids(s).push(x.id_of()));
    ids(s).lemma_push_to_set_commute(x.id_of());
    assert forall|a: int, b: int|
        0 <= a < s.push(x).len() && 0 <= b < s.push(x).len() && a != b implies s.push(x)[a]
        != s.push(x)[b] by {
        if a == s.len() {
            assert(ids(s)[b] == s[b].id_of());
            assert(ids(s).to_set().contains(ids(s)[b]));
        } else if b == s.len() {
            assert(ids(s)[a] == s[a].id_of());
            assert(ids(s).to_set().contains(ids(s)[a]));
        }
    }
}

proof fn lemma_rows_agree(rows: Seq<Row>, u: u64, v: u64)
    ensures
        authors_of(rows, u).len() > 0 <==> rater_ids(rows).contains(u),
        authors_of(rows, u).to_multiset().count(v) == quarters_of(rows, u, v).len(),
        quarters_of(rows, u, u).len() == 0,
    decreases rows.len(),
{
    if rows.len() == 0 {
        assert(rows.filter(|r: Row| is_cross_rating(r) && r.0 == u) =~= Seq::<Row>::empty()) by {
            reveal_with_fuel(Seq::filter, 1);
        }
        assert(rows.filter(|r: Row| is_cross_rating(r) && r.0 == u && r.1 == v)
            =~= Seq::<Row>::empty()) by {
            reveal_with_fuel(Seq::filter, 1);
        }
        assert(rows.filter(|r: Row| is_cross_rating(r) && r.0 == u && r.1 == u)
            =~= Seq::<Row>::empty()) by {
            reveal_with_fuel(Seq::filter, 1);
        }
        assert(rater_ids(rows) =~= Set::<u64>::empty());
        assert(authors_of(rows, u).to_multiset() =~= vstd::multiset::Multiset::<u64>::empty());
    } else {
        let pre = rows.drop_last();
        let row = rows.last();
        assert(rows =~= pre.push(row));
        lemma_rows_agree(pre, u, v);
        lemma_rows_step(pre, row);
        assert(authors_of(rows, u) == authors_of(pre.push(row), u));
        if is_cross_rating(row) && row.0 == u {
            assert(authors_of(pre, u).push(row.1).to_multiset() =~= authors_of(
                pre,
                u,
            ).to_multiset().insert(row.1));
            assert(rater_ids(rows).contains(u));
        }
    }
}

/// How the rating specs move when one row is appended.
proof fn lemma_rows_step(pre: Seq<Row>, row: Row)
    ensures
        rater_ids(pre.push(row)) == if is_cross_rating(row) {
            rater_ids(pre).insert(row.0)
        } else {
            rater_ids(pre)
        },
        forall|u: u64|
            #[trigger] authors_of(pre.push(row), u) == if is_cross_rating(row) && row.0 == u {
                authors_of(pre, u).push(row.1)
            } else {
                authors_of(pre, u)
            },
        forall|u: u64, v: u64|
            #[trigger] quarters_of(pre.push(row), u, v) == if is_cross_rating(row) && row.0 == u
                && row.1 == v {
                quarters_of(pre, u, v).push(rating_quarters(row.2))
            } else {
                quarters_of(pre, u, v)
            },
{
    let s = pre.push(row);
    assert forall|u: u64| #[trigger] rater_ids(s).contains(u) == (if is_cross_rating(row) {
        rater_ids(pre).insert(row.0)
    } else {
        rater_ids(pre)
    }).contains(u) by {
        if rater_ids(s).contains(u) {
            let k = choose|k: int| 0 <= k < s.len() && is_cross_rating(s[k]) && s[k].0 == u;
            if k < pre.len() {
                assert(pre[k] == s[k]);
            }
        }
        if rater_ids(pre).contains(u) {
            let k = choose|k: int| 0 <= k < pre.len() && is_cross_rating(pre[k]) && pre[k].0 == u;
            assert(s[k] == pre[k]);
        }
        if is_cross_rating(row) && u == row.0 {
            assert(s[pre.len() as int] == row);
        }
    }
    assert(rater_ids(s) =~= (if is_cross_rating(row) {
        rater_ids(pre).insert(row.0)
    } else {
        rater_ids(pre)
    }));
}

} // verus!
