use influence_maximization::graph::{IdSet, NeighborList, Similarity, SocialGraph};
use influence_maximization::wrappers::{Edge, Node};

#[test]
fn node_keeps_its_id() {
    let n = Node::new(77);
    assert_eq!(n.get_id(), 77);
    assert_eq!(Node::new(3), Node::new(3));
    assert_ne!(Node::new(3), Node::new(4));
}

#[test]
fn edge_keeps_its_endpoints() {
    let e = Edge::new(Node::new(1), Node::new(2));
    assert_eq!(e.get_u().get_id(), 1);
    assert_eq!(e.get_v().get_id(), 2);
    assert_ne!(e, Edge::new(Node::new(2), Node::new(1)));
}

#[test]
fn id_set_counts() {
    let mut a = IdSet::new();
    let mut b = IdSet::new();
    for x in [1u64, 2, 3, 3, 4].iter() {
        a.insert(*x);
    }
    for x in [3u64, 4, 5].iter() {
        b.insert(*x);
    }
    assert_eq!(a.len(), 4);
    assert!(a.contains(3));
    assert!(!a.contains(5));
    assert_eq!(a.shared_count(&b), 2);
    assert_eq!(a.union_count(&b), 5);
    assert_eq!(b.shared_count(&a), 2);
    let nodes = a.to_nodes();
    let ids: Vec<u64> = nodes.iter().map(|n| n.get_id()).collect();
    assert_eq!(ids, vec![1, 2, 3, 4]);
}

fn n(id: u64) -> Node {
    Node::new(id)
}

fn sample_list() -> NeighborList {
    // 1 -> 2, 1 -> 3, 2 -> 3, 3 -> 4, 4 -> 1, 5 -> 3, 5 -> 4, 1 -> 2 (repeat)
    let mut g = NeighborList::new();
    g.add_neighbor(n(1), n(2));
    g.add_neighbor(n(1), n(3));
    g.add_neighbor(n(2), n(3));
    g.add_neighbor(n(3), n(4));
    g.add_neighbor(n(4), n(1));
    g.add_neighbor(n(5), n(3));
    g.add_neighbor(n(5), n(4));
    g.add_neighbor(n(1), n(2));
    g
}

fn sorted(s: &IdSet) -> Vec<u64> {
    let mut v: Vec<u64> = s.to_nodes().iter().map(|x| x.get_id()).collect();
    v.sort();
    v
}

#[test]
fn neighbor_lists_keep_order_and_repeats() {
    let g = sample_list();
    let l: Vec<u64> = g.get_node_neighbors(&n(1)).iter().map(|x| x.get_id()).collect();
    assert_eq!(l, vec![2, 3, 2]);
    assert!(g.get_node_neighbors(&n(9)).is_empty());
}

#[test]
fn first_and_second_order_neighbors() {
    let g = sample_list();
    assert_eq!(sorted(&g.first_order_neighbors(&n(1))), vec![2, 3]);
    assert_eq!(sorted(&g.second_order_neighbors(&n(1))), vec![3, 4]);
    assert_eq!(sorted(&g.second_order_neighbors(&n(5))), vec![1, 4]);
    assert_eq!(sorted(&g.first_order_neighbors(&n(9))), Vec::<u64>::new());
    assert_eq!(sorted(&g.second_order_neighbors(&n(9))), Vec::<u64>::new());
}

#[test]
fn similarity_of_a_neighbour_is_adjacent() {
    let g = sample_list();
    // 2 is a first-order neighbour of 1
    assert_eq!(g.similarity_counts(&n(2), &n(1)), Similarity::Adjacent);
}

#[test]
fn similarity_counts_overlaps() {
    let g = sample_list();
    // fon(1) = {2,3}, fon(5) = {3,4}; son(1) = {3,4}, son(5) = {4,1}
    let s = g.similarity_counts(&n(1), &n(5));
    assert_eq!(
        s,
        Similarity::Overlap { first_shared: 1, first_total: 3, second_shared: 1, second_total: 3 }
    );
    assert_eq!(g.similarity_counts(&n(5), &n(1)), s);
}

#[test]
fn social_graph_collects_both_endpoints() {
    let mut g = SocialGraph::new();
    g.add_edge(n(10), n(20));
    g.add_edge(n(30), n(10));
    g.add_edge(n(10), n(30));
    let ids: Vec<u64> = g.node_list().iter().map(|x| x.get_id()).collect();
    assert_eq!(ids, vec![10, 20, 30]);
    let l: Vec<u64> = g.get_node_neighbors(&n(10)).iter().map(|x| x.get_id()).collect();
    assert_eq!(l, vec![20, 30]);
    assert_eq!(g.similarity_counts(&n(30), &n(10)), Similarity::Adjacent);
}
