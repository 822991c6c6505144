use rust_sim::config::{dist_sq_exec, Config, ElectionPolicy, Pos};
use rust_sim::leach::{collect_heads, form_clusters};
use rust_sim::node::Node;

fn base_config() -> Config {
    Config::new(
        1,
        2,
        4000,
        50,
        10,
        1,
        5,
        7691,
        2_000_000_000,
        500,
        500,
        Pos { x: 250, y: 250 },
        30,
        ElectionPolicy::Threshold,
        2000,
    )
    .unwrap()
}

fn make_nodes(positions: &[(u64, u64)]) -> Vec<Node> {
    let cfg = base_config();
    let mut nodes = Vec::new();
    for (id, &(x, y)) in positions.iter().enumerate() {
        nodes.push(Node::new(id, Pos { x, y }, 30, &cfg));
    }
    nodes
}

#[test]
fn every_member_joins_the_strictly_nearest_head() {
    // Five nodes; nodes 0 and 1 are this round's heads at fixed positions.
    let mut nodes = make_nodes(&[(10, 10), (400, 400), (20, 20), (390, 380), (200, 220)]);
    nodes[0].is_cluster_head = true;
    nodes[1].is_cluster_head = true;
    let heads = collect_heads(&nodes);
    assert_eq!(heads, vec![0, 1]);
    form_clusters(&mut nodes, &heads);
    // Brute force: each non-head node must report to the strictly closer head.
    for i in 2..5 {
        let d0 = dist_sq_exec(&nodes[i].position, &nodes[0].position);
        let d1 = dist_sq_exec(&nodes[i].position, &nodes[1].position);
        assert_ne!(d0, d1);
        let expected = if d0 < d1 { 0 } else { 1 };
        assert_eq!(nodes[i].cluster_head_id, Some(expected));
    }
    assert_eq!(nodes[2].cluster_head_id, Some(0));
    assert_eq!(nodes[3].cluster_head_id, Some(1));
    assert_eq!(nodes[4].cluster_head_id, Some(1));
    // Member lists are exactly the assigned ids, ascending.
    assert_eq!(nodes[0].cluster_members, vec![2]);
    assert_eq!(nodes[1].cluster_members, vec![3, 4]);
}

#[test]
fn ties_go_to_the_first_head_in_list_order() {
    // Node 2 is equally distant from both heads.
    let mut nodes = make_nodes(&[(0, 10), (10, 0), (0, 0)]);
    nodes[0].is_cluster_head = true;
    nodes[1].is_cluster_head = true;
    let heads = collect_heads(&nodes);
    form_clusters(&mut nodes, &heads);
    assert_eq!(nodes[2].cluster_head_id, Some(0));
    assert_eq!(nodes[0].cluster_members, vec![2]);
    assert!(nodes[1].cluster_members.is_empty());
}

#[test]
fn no_heads_leaves_everyone_unassigned() {
    let mut nodes = make_nodes(&[(10, 10), (20, 20), (30, 30)]);
    let heads = collect_heads(&nodes);
    assert!(heads.is_empty());
    form_clusters(&mut nodes, &heads);
    for n in nodes.iter() {
        assert_eq!(n.cluster_head_id, None);
        assert!(n.cluster_members.is_empty());
    }
}

#[test]
fn dead_nodes_are_not_assigned() {
    let mut nodes = make_nodes(&[(10, 10), (20, 20), (30, 30)]);
    nodes[0].is_cluster_head = true;
    nodes[2].is_alive = false;
    let heads = collect_heads(&nodes);
    form_clusters(&mut nodes, &heads);
    assert_eq!(nodes[1].cluster_head_id, Some(0));
    assert_eq!(nodes[2].cluster_head_id, None);
    assert_eq!(nodes[0].cluster_members, vec![1]);
}
