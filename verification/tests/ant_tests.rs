use influence_maximization::ant::{draw_greedy_candidates, sorted_shuffle, AntWalk};
use influence_maximization::ordering::sort_by_id;
use influence_maximization::wrappers::Node;
use rand::rngs::StdRng;
use rand::SeedableRng;

fn nodes(ids: &[u64]) -> Vec<Node> {
    ids.iter().map(|i| Node::new(*i)).collect()
}

fn ids(v: &[Node]) -> Vec<u64> {
    v.iter().map(|n| n.get_id()).collect()
}

#[test]
fn sort_orders_by_id() {
    let v = nodes(&[5, 3, 9, 1, 3]);
    assert_eq!(ids(&sort_by_id(&v)), vec![1, 3, 3, 5, 9]);
    assert!(sort_by_id(&Vec::new()).is_empty());
}

#[test]
fn shuffle_rearranges_the_same_nodes() {
    let v = nodes(&(0..30).collect::<Vec<u64>>());
    let mut rng = StdRng::seed_from_u64(1);
    let s = sorted_shuffle(&v, &mut rng);
    let mut back = ids(&s);
    assert_ne!(back, ids(&v));
    back.sort();
    assert_eq!(back, ids(&v));
}

#[test]
fn candidates_are_in_range() {
    let mut rng = StdRng::seed_from_u64(3);
    let (first, c) = draw_greedy_candidates(&mut rng, 4, 10);
    assert!(first < 4);
    assert_eq!(c.len(), 9);
    assert!(c.iter().all(|x| *x < 4));
    let (_, c) = draw_greedy_candidates(&mut rng, 1, 0);
    assert!(c.is_empty());
    let (first, c) = draw_greedy_candidates(&mut rng, 1, 1);
    assert_eq!(first, 0);
    assert!(c.is_empty());
}

#[test]
fn candidates_are_not_all_the_bound() {
    let mut rng = StdRng::seed_from_u64(11);
    let (_, c) = draw_greedy_candidates(&mut rng, 1000, 50);
    assert!(c.iter().any(|x| *x != c[0]));
}

#[test]
fn an_ant_visits_distinct_nodes() {
    let v = nodes(&[4, 8, 15, 16, 23, 42]);
    let mut w = AntWalk::new(v.clone());
    let mut rng = StdRng::seed_from_u64(7);
    w.start_ant(&mut rng);
    assert_eq!(w.get_path().len(), 1);
    assert_eq!(w.get_remaining().len(), 5);
    for _ in 1..4 {
        let (first, _) = w.draw_candidates(&mut rng, 3);
        let before = w.get_remaining()[first];
        let taken = w.take_node(first);
        assert_eq!(taken, before);
    }
    let p = ids(w.get_path());
    assert_eq!(p.len(), 4);
    let mut all = p.clone();
    all.extend(ids(w.get_remaining()));
    all.sort();
    assert_eq!(all, vec![4, 8, 15, 16, 23, 42]);
}

#[test]
fn each_ant_starts_a_fresh_path() {
    let v = nodes(&[1, 2, 3]);
    let mut w = AntWalk::new(v);
    let mut rng = StdRng::seed_from_u64(2);
    w.start_ant(&mut rng);
    w.take_node(0);
    w.take_node(0);
    assert_eq!(w.get_path().len(), 3);
    let edges = w.path_edges();
    assert_eq!(edges.len(), 2);
    let p = w.get_path().clone();
    assert_eq!(*edges[0].get_u(), p[0]);
    assert_eq!(*edges[0].get_v(), p[1]);
    assert_eq!(*edges[1].get_u(), p[1]);
    assert_eq!(*edges[1].get_v(), p[2]);
    w.start_ant(&mut rng);
    assert_eq!(w.get_path().len(), 1);
    assert_eq!(w.get_remaining().len(), 2);
    assert!(w.path_edges().is_empty());
}

#[test]
fn an_ant_is_placed_on_the_last_node_of_its_order() {
    let mut w = AntWalk::new(nodes(&[5, 6, 7]));
    w.place_ant(nodes(&[7, 5, 6]));
    assert_eq!(ids(w.get_path()), vec![6]);
    assert_eq!(ids(w.get_remaining()), vec![7, 5]);
}

#[test]
fn sorting_forgets_the_given_order() {
    let a = nodes(&[7, 2, 9, 2, 5]);
    let b = nodes(&[2, 9, 5, 7, 2]);
    assert_eq!(sort_by_id(&a), sort_by_id(&b));
}

#[test]
fn large_inputs_sort() {
    let v = nodes(&(0..5000u64).rev().collect::<Vec<u64>>());
    let s = sort_by_id(&v);
    assert_eq!(ids(&s), (0..5000u64).collect::<Vec<u64>>());
}
