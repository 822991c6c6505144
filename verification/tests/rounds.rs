use rust_sim::config::{Config, ElectionPolicy, Pos};
use rust_sim::leach::{build, reset};
use rust_sim::node::{compute_neighbours, reset_node, Node};
use rust_sim::rng::rng_from_seed;
use rust_sim::simulator::{LeachProtocol, Protocol, SIMULATOR};

fn config_half(policy: ElectionPolicy) -> Config {
    // P = 1/2, so the cycle length is 2 and round 2 is a cycle boundary.
    Config::new(
        1,
        2,
        4000,
        50,
        10,
        1,
        5,
        7691,
        1_000_000_000_000_000_000,
        500,
        500,
        Pos { x: 250, y: 250 },
        30,
        policy,
        2000,
    )
    .unwrap()
}

fn ten_nodes(cfg: &Config) -> Vec<Node> {
    let mut nodes = Vec::new();
    for id in 0..10usize {
        let x = 40 * (id as u64) + 20;
        let y = 30 * (id as u64) + 15;
        nodes.push(Node::new(id, Pos { x, y }, 30, cfg));
    }
    nodes
}

#[test]
fn node_new_initialises_the_record() {
    let cfg = config_half(ElectionPolicy::Threshold);
    let n = Node::new(7, Pos { x: 250, y: 280 }, 25, &cfg);
    assert_eq!(n.id, 7);
    assert_eq!(n.energy, cfg.initial_energy);
    assert!(n.is_alive);
    assert!(n.eligible);
    assert!(!n.is_cluster_head);
    assert_eq!(n.cluster_head_id, None);
    assert!(n.cluster_members.is_empty());
    // squared distance to the sink at (250, 250)
    assert_eq!(n.dist_sq_to_sink, 900);
    assert_eq!(n.transmission_range, 25);
}

#[test]
fn reset_node_clears_only_cluster_state() {
    let cfg = config_half(ElectionPolicy::Threshold);
    let mut n = Node::new(0, Pos { x: 10, y: 10 }, 30, &cfg);
    n.is_cluster_head = true;
    n.cluster_head_id = Some(4);
    n.cluster_members.push(2);
    n.energy = 123;
    reset_node(&mut n);
    assert!(!n.is_cluster_head);
    assert_eq!(n.cluster_head_id, None);
    assert!(n.cluster_members.is_empty());
    assert_eq!(n.energy, 123);
    assert!(n.is_alive);
}

#[test]
fn create_wsn_places_nodes_inside_the_area() {
    let cfg = config_half(ElectionPolicy::Threshold);
    let mut rng = rng_from_seed(7);
    let wsn = Node::create_wsn(&cfg, 50, &mut rng);
    assert_eq!(wsn.len(), 50);
    for (i, n) in wsn.iter().enumerate() {
        assert_eq!(n.id, i);
        assert!(n.position.x < cfg.width);
        assert!(n.position.y < cfg.height);
        assert!(1 <= n.transmission_range && n.transmission_range <= cfg.tr_limit);
        assert_eq!(n.energy, cfg.initial_energy);
        assert!(n.is_alive && n.eligible && !n.is_cluster_head);
    }
}

#[test]
fn neighbours_are_the_nodes_within_range() {
    let cfg = config_half(ElectionPolicy::Threshold);
    let mut nodes = vec![
        Node::new(0, Pos { x: 0, y: 0 }, 15, &cfg),
        Node::new(1, Pos { x: 10, y: 0 }, 9, &cfg),
        Node::new(2, Pos { x: 0, y: 12 }, 30, &cfg),
    ];
    compute_neighbours(&mut nodes, &cfg);
    // node 0 hears 1 (distance 10 <= 15) and 2 (distance 12 <= 15)
    assert_eq!(nodes[0].neighbours, vec![1, 2]);
    // node 1 hears nobody (both farther than 9)
    assert!(nodes[1].neighbours.is_empty());
    // node 2 hears both (12 and sqrt(244) are within 30)
    assert_eq!(nodes[2].neighbours, vec![0, 1]);
}

#[test]
fn eligibility_is_restored_at_the_cycle_boundary() {
    // Ten nodes, P = 1/2 (cycle 2), energy large enough for every node to
    // survive: at the reset of round 2, a cycle boundary, every alive node
    // is eligible again, whatever the draws of round 1 cleared.
    let cfg = config_half(ElectionPolicy::Threshold);
    let mut nodes = ten_nodes(&cfg);
    let mut alive: usize = 10;
    let mut rng = rng_from_seed(42);
    reset(&mut nodes, 1, &cfg);
    build(&mut nodes, 1, &mut alive, &cfg, &mut rng);
    assert_eq!(alive, 10);
    reset(&mut nodes, 2, &cfg);
    for n in nodes.iter() {
        assert!(n.is_alive);
        assert!(n.eligible);
    }
    build(&mut nodes, 2, &mut alive, &cfg, &mut rng);
    assert_eq!(alive, 10);
}

#[test]
fn elected_heads_lose_eligibility_for_the_cycle() {
    let cfg = config_half(ElectionPolicy::Threshold);
    let mut nodes = ten_nodes(&cfg);
    let mut alive: usize = 10;
    let mut rng = rng_from_seed(3);
    reset(&mut nodes, 1, &cfg);
    build(&mut nodes, 1, &mut alive, &cfg, &mut rng);
    for n in nodes.iter() {
        if n.is_cluster_head {
            assert!(!n.eligible);
        }
    }
}

#[test]
fn exhausted_node_dies_and_sits_out_the_next_round() {
    let cfg = config_half(ElectionPolicy::Threshold);
    let mut nodes = ten_nodes(&cfg);
    let mut alive: usize = 10;
    let mut rng = rng_from_seed(11);
    // Force node 3 to exactly zero energy before any dissipation.
    nodes[3].energy = 0;
    reset(&mut nodes, 1, &cfg);
    build(&mut nodes, 1, &mut alive, &cfg, &mut rng);
    // Dead at this round's death check.
    assert!(!nodes[3].is_alive);
    assert_eq!(nodes[3].energy, 0);
    assert_eq!(alive, 9);
    // Excluded from election and formation in the next round.
    reset(&mut nodes, 2, &cfg);
    build(&mut nodes, 2, &mut alive, &cfg, &mut rng);
    assert!(!nodes[3].is_alive);
    assert!(!nodes[3].is_cluster_head);
    assert_eq!(nodes[3].cluster_head_id, None);
    assert!(!nodes[3].eligible);
    for n in nodes.iter() {
        assert!(!n.cluster_members.contains(&3));
    }
}

#[test]
fn death_is_permanent_and_energy_never_increases() {
    let cfg = config_half(ElectionPolicy::Threshold);
    let mut nodes = ten_nodes(&cfg);
    nodes[5].energy = 0;
    let mut alive: usize = 10;
    let mut rng = rng_from_seed(9);
    let mut prev: Vec<u64> = nodes.iter().map(|n| n.energy).collect();
    for r in 1..=6u64 {
        reset(&mut nodes, r, &cfg);
        build(&mut nodes, r, &mut alive, &cfg, &mut rng);
        assert!(!nodes[5].is_alive);
        for (i, n) in nodes.iter().enumerate() {
            assert!(n.energy <= prev[i]);
        }
        prev = nodes.iter().map(|n| n.energy).collect();
    }
}

#[test]
fn driver_advances_and_counts_the_living() {
    let cfg = config_half(ElectionPolicy::Threshold);
    let nodes = ten_nodes(&cfg);
    let mut sim = SIMULATOR::new(nodes, &cfg);
    let mut protocol = LeachProtocol::new(cfg, 42);
    assert_eq!(sim.round, 0);
    assert_eq!(sim.alive_count, 10);
    assert!(!sim.is_finished(&cfg));
    for _ in 0..4 {
        sim.update(&mut protocol);
    }
    assert_eq!(sim.round, 4);
    let counted = sim.nodes().iter().filter(|n| n.is_alive).count();
    assert_eq!(sim.alive_count, counted);
    assert_eq!(protocol.name(), "leach");
}

#[test]
fn driver_finishes_at_the_round_budget() {
    let mut cfg = config_half(ElectionPolicy::Threshold);
    cfg.max_rounds = 2;
    let nodes = ten_nodes(&cfg);
    let mut sim = SIMULATOR::new(nodes, &cfg);
    let mut protocol = LeachProtocol::new(cfg, 1);
    sim.update(&mut protocol);
    assert!(!sim.is_finished(&cfg));
    sim.update(&mut protocol);
    assert!(sim.is_finished(&cfg));
}

#[test]
fn same_seed_reproduces_the_same_run() {
    let cfg = config_half(ElectionPolicy::Threshold);
    let mut sim_a = SIMULATOR::new(ten_nodes(&cfg), &cfg);
    let mut sim_b = SIMULATOR::new(ten_nodes(&cfg), &cfg);
    let mut pa = LeachProtocol::new(cfg, 77);
    let mut pb = LeachProtocol::new(cfg, 77);
    for _ in 0..5 {
        sim_a.update(&mut pa);
        sim_b.update(&mut pb);
    }
    for (a, b) in sim_a.nodes().iter().zip(sim_b.nodes().iter()) {
        assert_eq!(a.energy, b.energy);
        assert_eq!(a.is_alive, b.is_alive);
        assert_eq!(a.is_cluster_head, b.is_cluster_head);
    }
}

#[test]
fn fitness_policy_elects_the_expected_head_count() {
    // With ten eligible alive candidates and P = 1/2 the fitness election
    // takes exactly ceil(0.5 * 10) = 5 heads, whatever the draws.
    let cfg = config_half(ElectionPolicy::Fitness);
    let mut nodes = ten_nodes(&cfg);
    let mut alive: usize = 10;
    let mut rng = rng_from_seed(5);
    reset(&mut nodes, 1, &cfg);
    build(&mut nodes, 1, &mut alive, &cfg, &mut rng);
    let heads = nodes.iter().filter(|n| n.is_cluster_head).count();
    assert_eq!(heads, 5);
    for n in nodes.iter() {
        if n.is_cluster_head {
            assert!(!n.eligible);
        }
    }
}

#[test]
fn head_pays_for_members_and_members_pay_to_transmit() {
    // One forced head, one member, far apart from the third node's head:
    // check the exact energy bill of a hand-built round.
    let cfg = config_half(ElectionPolicy::Threshold);
    let mut nodes = vec![
        Node::new(0, Pos { x: 250, y: 250 }, 30, &cfg),
        Node::new(1, Pos { x: 250, y: 260 }, 30, &cfg),
    ];
    // Make node 0 the only head by hand, then form and dissipate through
    // the library's own phases.
    nodes[0].is_cluster_head = true;
    let heads = rust_sim::leach::collect_heads(&nodes);
    rust_sim::leach::form_clusters(&mut nodes, &heads);
    rust_sim::leach::dissipate_energy(&mut nodes, &cfg);
    let e0 = cfg.initial_energy;
    // Head at the sink: one member, receive 50*4000 + aggregate 5*4000,
    // transmit over distance 0: electronics only, 50*4000.
    let head_cost = 4000 * (50 + 5) + 4000 * 50;
    assert_eq!(nodes[0].energy, e0 - head_cost);
    // Member at squared distance 100 (free space): 50*4000 + 10*4000*100.
    let member_cost = 4000 * 50 + 10 * 4000 * 100;
    assert_eq!(nodes[1].energy, e0 - member_cost);
}

#[test]
fn no_node_heads_twice_within_one_cycle() {
    // P = 1/10 gives a cycle of 10 rounds; rounds 10..=19 form one aligned
    // cycle. Whatever the draws, no node may be elected head twice in it.
    let cfg = Config::new(
        1,
        10,
        4000,
        50,
        10,
        1,
        5,
        7691,
        1_000_000_000_000_000_000,
        500,
        500,
        Pos { x: 250, y: 250 },
        30,
        ElectionPolicy::Threshold,
        2000,
    )
    .unwrap();
    let mut nodes = ten_nodes(&cfg);
    let mut alive: usize = 10;
    let mut rng = rng_from_seed(2024);
    let mut elected_in_cycle = vec![0u32; 10];
    for r in 10..=19u64 {
        reset(&mut nodes, r, &cfg);
        build(&mut nodes, r, &mut alive, &cfg, &mut rng);
        for n in nodes.iter() {
            if n.is_cluster_head {
                elected_in_cycle[n.id] += 1;
            }
        }
    }
    for &count in elected_in_cycle.iter() {
        assert!(count <= 1);
    }
}

#[test]
fn fitness_policy_also_rotates_within_a_cycle() {
    let cfg = config_half(ElectionPolicy::Fitness);
    let mut nodes = ten_nodes(&cfg);
    let mut alive: usize = 10;
    let mut rng = rng_from_seed(31);
    // Rounds 2 and 3 form one aligned cycle of length 2.
    let mut elected_in_cycle = vec![0u32; 10];
    for r in 2..=3u64 {
        reset(&mut nodes, r, &cfg);
        build(&mut nodes, r, &mut alive, &cfg, &mut rng);
        for n in nodes.iter() {
            if n.is_cluster_head {
                elected_in_cycle[n.id] += 1;
            }
        }
    }
    for &count in elected_in_cycle.iter() {
        assert!(count <= 1);
    }
}

#[test]
fn advance_round_matches_update() {
    let cfg = config_half(ElectionPolicy::Threshold);
    let mut sim = SIMULATOR::new(ten_nodes(&cfg), &cfg);
    let mut protocol = LeachProtocol::new(cfg, 8);
    sim.advance_round(&mut protocol);
    assert_eq!(sim.round, 1);
    assert_eq!(sim.alive_count, sim.nodes().iter().filter(|n| n.is_alive).count());
}
