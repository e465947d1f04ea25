use influence_maximization::epinions::{EdgeWeight, EpinionsGraphGenerator};
use influence_maximization::wrappers::{Edge, Node};
use rand::rngs::StdRng;
use rand::SeedableRng;

fn n(id: u64) -> Node {
    Node::new(id)
}

fn sample() -> EpinionsGraphGenerator {
    let ratings: Vec<(u64, u64, i8)> = vec![
        (1, 2, 5),
        (1, 2, 4),
        (1, 3, 1),
        (2, 3, 3),
        (3, 1, 6),
        (4, 4, 5), // self-rating, left out
        (3, 4, 2),
        (2, 1, 0),
    ];
    let trusts: Vec<(u64, u64, i8)> = vec![(2, 3, 1), (1, 3, 1), (1, 3, -1), (3, 2, 0)];
    EpinionsGraphGenerator::new(&ratings, &trusts)
}

#[test]
fn ratings_sum_in_quarter_points() {
    let g = sample();
    // 5 stars = 1.0, 4 stars = 0.75: 1.75 = 7 quarters
    assert_eq!(g.get_edge_weight(&Edge::new(n(1), n(2))), EdgeWeight::Rating(7));
    // 0 stars weigh nothing
    assert_eq!(g.get_edge_weight(&Edge::new(n(2), n(1))), EdgeWeight::Rating(0));
    // 2 stars = -1.0
    assert_eq!(g.get_edge_weight(&Edge::new(n(3), n(4))), EdgeWeight::Rating(-4));
    // no rating at all
    assert_eq!(g.get_edge_weight(&Edge::new(n(4), n(1))), EdgeWeight::Rating(0));
    // self-ratings are dropped
    assert_eq!(g.get_edge_weight(&Edge::new(n(4), n(4))), EdgeWeight::Rating(0));
}

#[test]
fn trust_overrides_ratings_and_last_decision_wins() {
    let g = sample();
    assert_eq!(g.get_edge_weight(&Edge::new(n(2), n(3))), EdgeWeight::Trust(1));
    assert_eq!(g.get_edge_weight(&Edge::new(n(1), n(3))), EdgeWeight::Trust(-1));
    assert_eq!(g.get_edge_weight(&Edge::new(n(3), n(2))), EdgeWeight::Trust(0));
}

#[test]
fn neighbours_follow_the_rating_rows() {
    let g = sample();
    let l: Vec<u64> = g.get_node_neighbors(&n(1)).iter().map(|x| x.get_id()).collect();
    assert_eq!(l, vec![2, 2, 3]);
    assert!(g.get_node_neighbors(&n(4)).is_empty());
}

#[test]
fn generated_edges_are_the_nonzero_pairs() {
    let g = sample();
    let nodes = vec![n(1), n(2), n(3), n(4)];
    let edges = g.generate_graph(&nodes);
    let got: Vec<(u64, u64, EdgeWeight)> =
        edges.iter().map(|(e, w)| (e.get_u().get_id(), e.get_v().get_id(), *w)).collect();
    assert_eq!(
        got,
        vec![
            (1, 2, EdgeWeight::Rating(7)),
            (1, 3, EdgeWeight::Trust(-1)),
            (2, 3, EdgeWeight::Trust(1)),
            (3, 4, EdgeWeight::Rating(-4)),
        ]
    );
}

#[test]
fn generated_edges_appear_once_for_repeated_nodes() {
    let g = sample();
    let nodes = vec![n(1), n(2), n(1), n(2)];
    let edges = g.generate_graph(&nodes);
    let got: Vec<(u64, u64)> =
        edges.iter().map(|(e, _)| (e.get_u().get_id(), e.get_v().get_id())).collect();
    assert_eq!(got, vec![(1, 2)]);
}

#[test]
fn single_node_gives_no_edges() {
    let g = sample();
    assert!(g.generate_graph(&vec![n(1)]).is_empty());
}

#[test]
fn samples_are_connected() {
    let g = sample();
    for seed in 0..20u64 {
        let mut rng = StdRng::seed_from_u64(seed);
        let s = g.sample_connected_nodes(&mut rng, 3);
        assert!(!s.is_empty() && s.len() <= 3);
        assert!([1u64, 2, 3].contains(&s[0].get_id()));
        for i in 1..s.len() {
            let linked = (0..i).any(|j| g.get_node_neighbors(&s[j]).contains(&s[i]));
            assert!(linked, "seed {} position {}", seed, i);
        }
    }
}

#[test]
fn too_large_samples_are_refused() {
    // user 1 rates user 2, who rates nobody: a walk ends after two users
    let g = EpinionsGraphGenerator::new(&vec![(1, 2, 4)], &vec![]);
    let mut rng = StdRng::seed_from_u64(5);
    assert!(g.get_conected_nodes(&mut rng, 10).is_none());
    let mut rng = StdRng::seed_from_u64(5);
    let s = g.sample_connected_nodes(&mut rng, 10);
    assert_eq!(s, vec![n(1), n(2)]);
}

#[test]
fn samples_hold_distinct_users() {
    // only four users are reachable, so ten distinct ones cannot be found
    let g = sample();
    for seed in 0..10u64 {
        let mut rng = StdRng::seed_from_u64(seed);
        assert!(g.get_conected_nodes(&mut rng, 10).is_none());
        let mut rng = StdRng::seed_from_u64(seed);
        let s = g.sample_connected_nodes(&mut rng, 4);
        let mut ids: Vec<u64> = s.iter().map(|x| x.get_id()).collect();
        ids.sort();
        ids.dedup();
        assert_eq!(ids.len(), s.len());
    }
}

#[test]
fn rater_ranks_follow_ids() {
    let g = sample();
    assert_eq!(g.rater_by_rank(0), n(1));
    assert_eq!(g.rater_by_rank(1), n(2));
    assert_eq!(g.rater_by_rank(2), n(3));
}

#[test]
fn sample_step_moves_a_frontier_node() {
    let g = sample();
    let mut sample_nodes: Vec<Node> = vec![];
    let mut frontier: Vec<Node> = vec![n(4), n(3)];
    g.sample_step(&mut sample_nodes, &mut frontier, 1);
    assert_eq!(sample_nodes, vec![n(3)]);
    assert_eq!(frontier, vec![n(4), n(1), n(4)]);
    // a node already taken only leaves the frontier
    let mut frontier2: Vec<Node> = vec![n(3), n(2)];
    g.sample_step(&mut sample_nodes, &mut frontier2, 0);
    assert_eq!(sample_nodes, vec![n(3)]);
    assert_eq!(frontier2, vec![n(2)]);
}

#[test]
fn different_seeds_give_different_samples() {
    let g = sample();
    let mut seen: Vec<Vec<Node>> = Vec::new();
    for seed in 0..20u64 {
        let mut rng = StdRng::seed_from_u64(seed);
        let s = g.sample_connected_nodes(&mut rng, 3);
        if !seen.contains(&s) {
            seen.push(s);
        }
    }
    assert!(seen.len() > 1);
}

#[test]
fn the_same_seed_gives_the_same_sample() {
    let g = sample();
    let mut r1 = StdRng::seed_from_u64(42);
    let mut r2 = StdRng::seed_from_u64(42);
    assert_eq!(g.sample_connected_nodes(&mut r1, 3), g.sample_connected_nodes(&mut r2, 3));
}

#[test]
fn exact_samples_are_accepted() {
    let g = sample();
    let mut found = false;
    for seed in 0..20u64 {
        let mut rng = StdRng::seed_from_u64(seed);
        if let Some(s) = g.get_conected_nodes(&mut rng, 2) {
            assert_eq!(s.len(), 2);
            found = true;
        }
    }
    assert!(found);
}

#[test]
fn one_user_is_always_found() {
    let g = sample();
    for seed in 0..10u64 {
        let mut rng = StdRng::seed_from_u64(seed);
        let s = g.get_conected_nodes(&mut rng, 1).unwrap();
        assert_eq!(s.len(), 1);
        assert!([1u64, 2, 3].contains(&s[0].get_id()));
        let mut rng = StdRng::seed_from_u64(seed);
        assert_eq!(g.get_conected_nodes(&mut rng, 0), Some(Vec::new()));
    }
}
