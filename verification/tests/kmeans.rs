use rust_sim::clustering::KMeans;
use rust_sim::config::{Config, ElectionPolicy, Pos};
use rust_sim::node::Node;
use rust_sim::rng::rng_from_seed;

fn base_config() -> Config {
    Config::new(
        1,
        10,
        4000,
        50,
        10,
        1,
        5,
        7691,
        2_000_000_000,
        500,
        500,
        Pos { x: 250, y: 250 },
        30,
        ElectionPolicy::Threshold,
        2000,
    )
    .unwrap()
}

fn make_nodes(positions: &[(u64, u64)]) -> Vec<Node> {
    let cfg = base_config();
    let mut nodes = Vec::new();
    for (id, &(x, y)) in positions.iter().enumerate() {
        nodes.push(Node::new(id, Pos { x, y }, 30, &cfg));
    }
    nodes
}

#[test]
fn single_cluster_converges_to_the_mean() {
    // With one cluster, a single iteration lands on the arithmetic mean of
    // all node positions, wherever the centroid starts.
    let nodes = make_nodes(&[(0, 0), (10, 0), (0, 10), (10, 10)]);
    let mut km = KMeans::new(1);
    km.fit_from(&nodes, vec![Pos { x: 400, y: 499 }]);
    assert_eq!(km.centroids().len(), 1);
    assert_eq!(km.centroids()[0], Pos { x: 5, y: 5 });
    assert_eq!(km.clusters(), &vec![0, 0, 0, 0]);
}

#[test]
fn refitting_from_converged_centroids_moves_nothing() {
    let nodes = make_nodes(&[(0, 0), (1, 0), (100, 100), (101, 100), (250, 3)]);
    let mut km = KMeans::new(2);
    km.fit_from(&nodes, vec![Pos { x: 0, y: 0 }, Pos { x: 100, y: 100 }]);
    let converged = km.centroids().clone();
    let assignment = km.clusters().clone();
    // Run the whole algorithm again from the converged centroids: zero
    // displacement immediately, identical output.
    km.fit_from(&nodes, converged.clone());
    assert_eq!(km.centroids(), &converged);
    assert_eq!(km.clusters(), &assignment);
}

#[test]
fn two_separated_groups_get_their_own_centroid() {
    let nodes = make_nodes(&[(0, 0), (2, 0), (100, 100), (102, 100)]);
    let mut km = KMeans::new(2);
    km.fit_from(&nodes, vec![Pos { x: 0, y: 0 }, Pos { x: 100, y: 100 }]);
    assert_eq!(km.centroids()[0], Pos { x: 1, y: 0 });
    assert_eq!(km.centroids()[1], Pos { x: 101, y: 100 });
    assert_eq!(km.clusters(), &vec![0, 0, 1, 1]);
}

#[test]
fn assignment_ties_go_to_the_lowest_centroid_index() {
    // A point equally distant from both centroids joins the first.
    let nodes = make_nodes(&[(5, 5), (0, 0), (10, 10)]);
    let mut km = KMeans::new(2);
    km.fit_from(&nodes, vec![Pos { x: 0, y: 0 }, Pos { x: 10, y: 10 }]);
    assert_eq!(km.clusters()[0], 0);
}

#[test]
fn empty_cluster_keeps_its_centroid() {
    // Every node is nearer the first centroid, so the second receives no
    // members and must stay exactly where it started.
    let nodes = make_nodes(&[(0, 0), (1, 1)]);
    let mut km = KMeans::new(2);
    km.fit_from(&nodes, vec![Pos { x: 0, y: 0 }, Pos { x: 499, y: 499 }]);
    assert_eq!(km.centroids()[0], Pos { x: 0, y: 0 });
    assert_eq!(km.centroids()[1], Pos { x: 499, y: 499 });
    assert_eq!(km.clusters(), &vec![0, 0]);
}

#[test]
fn sampled_initialisation_uses_distinct_node_positions() {
    // With as many clusters as nodes, the sampled initial centroids must
    // be all four distinct positions, so every node ends up alone in its
    // own cluster with its own position as centroid.
    let nodes = make_nodes(&[(0, 0), (50, 0), (0, 50), (50, 50)]);
    let mut km = KMeans::new(4);
    let mut rng = rng_from_seed(123);
    km.fit(&nodes, &mut rng);
    assert_eq!(km.centroids().len(), 4);
    let mut sorted_clusters = km.clusters().clone();
    sorted_clusters.sort();
    assert_eq!(sorted_clusters, vec![0, 1, 2, 3]);
    let mut cents: Vec<(u64, u64)> = km.centroids().iter().map(|p| (p.x, p.y)).collect();
    cents.sort();
    assert_eq!(cents, vec![(0, 0), (0, 50), (50, 0), (50, 50)]);
}

#[test]
fn fit_assigns_every_node_a_valid_cluster() {
    let cfg = base_config();
    let mut rng = rng_from_seed(99);
    let nodes = Node::create_wsn(&cfg, 30, &mut rng);
    let mut km = KMeans::new(3);
    km.fit(&nodes, &mut rng);
    assert_eq!(km.clusters().len(), 30);
    assert_eq!(km.centroids().len(), 3);
    for &c in km.clusters().iter() {
        assert!(c < 3);
    }
}
