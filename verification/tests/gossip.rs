use lib::{build_full_mesh, build_ring, GossipNode, InfectionState};

#[test]
fn test_infection_state_values() {
    assert_eq!(InfectionState::Susceptible.value(), -1);
    assert_eq!(InfectionState::Carrier.value(), 0);
    assert_eq!(InfectionState::Infected.value(), 1);
}

#[test]
fn test_infection_state_from_value() {
    assert_eq!(InfectionState::from_value(-1), Some(InfectionState::Susceptible));
    assert_eq!(InfectionState::from_value(0), Some(InfectionState::Carrier));
    assert_eq!(InfectionState::from_value(1), Some(InfectionState::Infected));
    assert_eq!(InfectionState::from_value(2), None);
}

#[test]
fn test_node_creation_default_susceptible() {
    let node = GossipNode::new(42);
    assert_eq!(node.id, 42);
    assert_eq!(node.state, InfectionState::Susceptible);
    assert_eq!(node.version, 0);
    assert!(node.neighbors.is_empty());
}

#[test]
fn test_cluster_seed_update() {
    let mut cluster = build_full_mesh(5, 2);
    cluster.seed_update(0, 1);

    let source = cluster.nodes.get(&0).unwrap();
    assert_eq!(source.state, InfectionState::Infected);
    assert_eq!(source.version, 1);

    // All others should still be susceptible
    for id in 1..5u32 {
        let node = cluster.nodes.get(&id).unwrap();
        assert_eq!(node.state, InfectionState::Susceptible);
    }
}

#[test]
fn test_convergence_detection() {
    let mut cluster = build_full_mesh(4, 2);
    cluster.seed_update(0, 1);

    // Initially not converged
    assert!(!cluster.is_converged());

    // Manually infect all nodes
    for node in cluster.nodes.values_mut() {
        node.state = InfectionState::Infected;
        node.version = 1;
    }
    assert!(cluster.is_converged());
}

#[test]
fn test_push_pull_propagation_converges() {
    let mut cluster = build_full_mesh(10, 3);
    cluster.seed_update(0, 1);

    let results = cluster.run_until_converged(50);
    assert!(cluster.is_converged(), "Cluster should converge within 50 rounds");

    // All nodes should be infected
    for node in cluster.nodes.values() {
        assert_eq!(node.state, InfectionState::Infected);
        assert_eq!(node.version, 1);
    }

    // Should have had at least one round
    assert!(!results.is_empty());
}

#[test]
fn test_state_counts() {
    let mut cluster = build_full_mesh(6, 2);
    cluster.seed_update(0, 1);

    // 1 infected, 5 susceptible, 0 carrier
    let (infected, carrier, susceptible) = cluster.state_counts();
    assert_eq!(infected, 1);
    assert_eq!(susceptible, 5);
    assert_eq!(carrier, 0);
}

#[test]
fn test_infected_nodes_tracking() {
    let mut cluster = build_full_mesh(4, 2);
    cluster.seed_update(2, 3);

    let infected = cluster.infected_nodes();
    assert_eq!(infected, vec![2]);
}

#[test]
fn test_rumor_mongering_converges() {
    let mut cluster = build_full_mesh(8, 2);
    cluster.seed_update(0, 1);

    let results = cluster.run_rumor_mongering(50);
    assert!(cluster.is_converged(), "Rumor mongering should converge");

    for node in cluster.nodes.values() {
        assert_eq!(node.state, InfectionState::Infected);
        assert_eq!(node.version, 1);
    }
    assert!(!results.is_empty());
}

#[test]
fn test_ring_topology_propagation() {
    let mut cluster = build_ring(8, 2, 1);
    cluster.seed_update(0, 1);

    let results = cluster.run_until_converged(100);
    assert!(cluster.is_converged(), "Ring topology should converge");

    for node in cluster.nodes.values() {
        assert_eq!(node.state, InfectionState::Infected);
        assert_eq!(node.version, 1);
    }
    // Ring should take more rounds than full mesh
    assert!(results.len() > 2, "Ring should need multiple rounds");
}

#[test]
fn test_round_result_transitions() {
    let mut cluster = build_full_mesh(4, 2);
    cluster.seed_update(0, 1);

    let result = cluster.gossip_round();
    assert_eq!(result.round, 1);
    // Should have at least one exchange (node 0 pushes)
    assert!(!result.exchanges.is_empty());
    // Should have transitions (susceptible → carrier → infected)
    assert!(!result.transitions.is_empty());
}

#[test]
fn test_multiple_versions() {
    let mut cluster = build_full_mesh(6, 2);
    cluster.seed_update(0, 1);
    cluster.run_until_converged(50);
    assert!(cluster.is_converged());

    // Seed a new version from a different node
    cluster.seed_update(3, 2);
    assert!(!cluster.is_converged());

    let _results = cluster.run_until_converged(50);
    assert!(cluster.is_converged());

    for node in cluster.nodes.values() {
        assert_eq!(node.version, 2);
    }
}

#[test]
fn test_rumor_mongering_stops_spreading() {
    let mut cluster = build_full_mesh(4, 3);
    cluster.seed_update(0, 1);

    // Run one round at a time and verify rumor mongering behavior
    let mut rounds = 0;
    loop {
        let result = cluster.rumor_mongering_round();
        rounds += 1;
        if result.converged || rounds > 50 {
            break;
        }
    }
    assert!(cluster.is_converged());
}
