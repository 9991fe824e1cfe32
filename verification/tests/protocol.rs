use std::collections::{HashMap, HashSet};

use lib::{build_full_mesh, build_ring, GossipCluster, GossipNode, InfectionState, NodeSummary};

fn snapshot(c: &GossipCluster) -> HashMap<u32, (InfectionState, u64)> {
    c.nodes.iter().map(|(k, n)| (*k, (n.state, n.version))).collect()
}

fn rank(s: InfectionState) -> i8 {
    s.value()
}

fn set(xs: &[u32]) -> HashSet<u32> {
    xs.iter().copied().collect()
}

#[test]
fn value_round_trip_for_every_state() {
    for s in [InfectionState::Susceptible, InfectionState::Carrier, InfectionState::Infected] {
        assert_eq!(InfectionState::from_value(s.value()), Some(s));
    }
    assert_eq!(InfectionState::from_value(-2), None);
    assert_eq!(InfectionState::from_value(i8::MIN), None);
    assert_eq!(InfectionState::from_value(i8::MAX), None);
}

#[test]
fn node_builders_and_summary() {
    let mut n = GossipNode::with_state(7, InfectionState::Carrier, 3);
    assert_eq!(n.id, 7);
    assert_eq!(n.state, InfectionState::Carrier);
    assert_eq!(n.version, 3);
    assert!(n.neighbors.is_empty());
    n.add_neighbor(1);
    n.add_neighbor(1);
    n.add_neighbor(2);
    assert_eq!(n.neighbors, set(&[1, 2]));
    assert_eq!(
        n.state_summary(),
        NodeSummary { id: 7, state: InfectionState::Carrier, version: 3 }
    );
}

#[test]
fn node_clone_copies_neighbors() {
    let mut n = GossipNode::new(1);
    n.add_neighbor(5);
    n.add_neighbor(6);
    let mut m = n.clone();
    assert_eq!(m.neighbors, set(&[5, 6]));
    m.add_neighbor(9);
    assert_eq!(n.neighbors, set(&[5, 6]));
    assert_eq!(m.neighbors, set(&[5, 6, 9]));
    assert_eq!((m.id, m.state, m.version), (1, InfectionState::Susceptible, 0));
}

#[test]
fn cluster_clone_is_equal_and_independent() {
    let mut c = build_full_mesh(3, 1);
    c.seed_update(1, 4);
    let mut d = c.clone();
    assert_eq!(snapshot(&c), snapshot(&d));
    assert_eq!(d.fanout, 1);
    assert_eq!(d.round, 0);
    d.nodes.get_mut(&0).unwrap().version = 9;
    assert_eq!(c.nodes.get(&0).unwrap().version, 0);
}

#[test]
fn all_neighbors_infected_treats_missing_as_infected() {
    let mut c = GossipCluster::new(1);
    let mut a = GossipNode::new(0);
    a.add_neighbor(1);
    a.add_neighbor(42);
    c.add_node(a.clone());
    c.add_node(GossipNode::with_state(1, InfectionState::Carrier, 1));
    assert!(!a.all_neighbors_infected(&c));
    c.add_node(GossipNode::with_state(1, InfectionState::Infected, 1));
    assert!(a.all_neighbors_infected(&c));
    assert!(GossipNode::new(3).all_neighbors_infected(&c));
}

#[test]
fn add_node_replaces_same_id() {
    let mut c = GossipCluster::new(2);
    c.add_node(GossipNode::new(5));
    c.add_node(GossipNode::with_state(5, InfectionState::Infected, 2));
    assert_eq!(c.nodes.len(), 1);
    assert_eq!(c.nodes.get(&5).unwrap().state, InfectionState::Infected);
}

#[test]
fn full_mesh_shape() {
    let c = build_full_mesh(4, 2);
    assert_eq!(c.fanout, 2);
    assert_eq!(c.round, 0);
    assert_eq!(c.nodes.len(), 4);
    for k in 0..4u32 {
        let n = c.nodes.get(&k).unwrap();
        assert_eq!(n.id, k);
        assert_eq!(n.state, InfectionState::Susceptible);
        let expected: HashSet<u32> = (0..4u32).filter(|x| *x != k).collect();
        assert_eq!(n.neighbors, expected);
    }
    assert!(build_full_mesh(0, 3).nodes.is_empty());
    assert!(build_full_mesh(1, 3).nodes.get(&0).unwrap().neighbors.is_empty());
}

#[test]
fn ring_shape() {
    let c = build_ring(8, 2, 1);
    assert_eq!(c.nodes.len(), 8);
    assert_eq!(c.nodes.get(&0).unwrap().neighbors, set(&[1, 2, 7, 6]));
    assert_eq!(c.nodes.get(&5).unwrap().neighbors, set(&[6, 7, 4, 3]));
    let c = build_ring(10, 4, 1);
    assert_eq!(c.nodes.get(&9).unwrap().neighbors, set(&[0, 1, 2, 3, 8, 7, 6, 5]));
    for n in c.nodes.values() {
        assert_eq!(n.neighbors.len(), 8);
    }
    // a degree as large as the ring wraps onto the node itself
    let c = build_ring(3, 3, 1);
    assert_eq!(c.nodes.get(&0).unwrap().neighbors, set(&[0, 1, 2]));
    // no links, or no nodes
    let c = build_ring(5, 0, 1);
    assert!(c.nodes.values().all(|n| n.neighbors.is_empty()));
    assert!(build_ring(0, 7, 1).nodes.is_empty());
}

#[test]
fn seed_update_on_missing_node_changes_no_node() {
    let mut c = build_full_mesh(3, 1);
    c.seed_update(99, 5);
    assert!(c.nodes.values().all(|n| n.state == InfectionState::Susceptible && n.version == 0));
    assert!(!c.is_converged());
    assert_eq!(c.infected_nodes(), Vec::<u32>::new());
}

#[test]
fn convergence_means_all_infected_with_target() {
    let mut c = GossipCluster::new(1);
    c.add_node(GossipNode::with_state(0, InfectionState::Infected, 0));
    // target version 0, held and applied by every node
    assert!(c.is_converged());
    c.add_node(GossipNode::with_state(1, InfectionState::Carrier, 0));
    assert!(!c.is_converged());
    let mut m = build_full_mesh(2, 1);
    assert!(!m.is_converged());
    m.seed_update(0, 0);
    m.seed_update(1, 0);
    assert!(m.is_converged());
    let e = build_full_mesh(0, 1);
    assert!(e.is_converged());
}

#[test]
fn push_round_exact_outcome() {
    let mut c = build_full_mesh(2, 1);
    c.seed_update(0, 1);
    let r = c.gossip_round();
    assert_eq!(r.round, 1);
    assert_eq!(c.round, 1);
    assert_eq!(r.exchanges, vec![(0, 1)]);
    assert_eq!(
        r.transitions,
        vec![
            (1, InfectionState::Susceptible, InfectionState::Carrier),
            (1, InfectionState::Carrier, InfectionState::Infected)
        ]
    );
    assert!(r.converged);
    assert_eq!(c.state_counts(), (2, 0, 0));
}

#[test]
fn carrier_of_another_version_stays_carrier() {
    let mut c = GossipCluster::new(1);
    let mut a = GossipNode::with_state(0, InfectionState::Infected, 2);
    a.add_neighbor(1);
    c.add_node(a);
    c.add_node(GossipNode::new(1));
    c.seed_update(99, 5);
    let r = c.gossip_round();
    assert_eq!(r.exchanges, vec![(0, 1)]);
    assert_eq!(r.transitions, vec![(1, InfectionState::Susceptible, InfectionState::Carrier)]);
    let b = c.nodes.get(&1).unwrap();
    assert_eq!((b.state, b.version), (InfectionState::Carrier, 2));
    assert!(!r.converged);
    assert_eq!(c.state_counts(), (1, 1, 0));
}

#[test]
fn pull_brings_newer_version_back_to_initiator() {
    let mut c = GossipCluster::new(1);
    let mut a = GossipNode::with_state(0, InfectionState::Carrier, 1);
    a.add_neighbor(1);
    c.add_node(a);
    c.add_node(GossipNode::with_state(1, InfectionState::Infected, 2));
    c.seed_update(99, 2);
    let r = c.gossip_round();
    assert_eq!(r.exchanges, vec![(0, 1)]);
    assert_eq!(
        r.transitions,
        vec![
            (0, InfectionState::Carrier, InfectionState::Carrier),
            (0, InfectionState::Carrier, InfectionState::Infected)
        ]
    );
    let n = c.nodes.get(&0).unwrap();
    assert_eq!((n.state, n.version), (InfectionState::Infected, 2));
    assert!(r.converged);
}

#[test]
fn each_active_node_contacts_fanout_distinct_neighbors() {
    let mut c = build_full_mesh(6, 2);
    c.seed_update(0, 1);
    let before = c.clone();
    let r = c.gossip_round();
    assert_eq!(r.exchanges.len(), 2);
    let targets: HashSet<u32> = r.exchanges.iter().map(|p| p.1).collect();
    assert_eq!(targets.len(), 2);
    for (s, t) in &r.exchanges {
        let n = before.nodes.get(s).unwrap();
        assert_ne!(n.state, InfectionState::Susceptible);
        assert!(n.neighbors.contains(t));
    }
}

#[test]
fn rounds_are_monotone_and_keep_the_topology() {
    let mut c = build_ring(10, 1, 2);
    c.seed_update(0, 1);
    for _ in 0..6 {
        let before = c.clone();
        let r = c.gossip_round();
        assert_eq!(c.round, before.round + 1);
        assert_eq!(r.round, c.round);
        assert_eq!(c.nodes.len(), before.nodes.len());
        let held: HashSet<u64> = before.nodes.values().map(|n| n.version).collect();
        for (k, n) in &c.nodes {
            let b = before.nodes.get(k).unwrap();
            assert_eq!(n.id, b.id);
            assert_eq!(n.neighbors, b.neighbors);
            assert!(n.version > b.version || (n.version == b.version && rank(n.state) >= rank(b.state)));
            assert!(held.contains(&n.version));
        }
        assert_eq!(r.converged, c.is_converged());
    }
}

#[test]
fn counts_and_infected_list_agree() {
    let mut c = build_full_mesh(7, 1);
    c.seed_update(3, 1);
    c.gossip_round();
    c.gossip_round();
    let (i, ca, s) = c.state_counts();
    assert_eq!(i + ca + s, c.nodes.len());
    let infected = c.infected_nodes();
    assert_eq!(infected.len(), i);
    let listed: HashSet<u32> = infected.iter().copied().collect();
    assert_eq!(listed.len(), infected.len());
    for k in &infected {
        assert_eq!(c.nodes.get(k).unwrap().state, InfectionState::Infected);
    }
}

#[test]
fn convergence_is_stable() {
    let mut c = build_full_mesh(5, 2);
    c.seed_update(0, 1);
    c.run_until_converged(100);
    assert!(c.is_converged());
    let before = snapshot(&c);
    let r = c.gossip_round();
    assert!(r.transitions.is_empty());
    assert!(r.converged);
    assert_eq!(snapshot(&c), before);
}

#[test]
fn rumor_mongering_is_quiet_once_neighborhoods_are_infected() {
    let mut c = build_full_mesh(5, 2);
    c.seed_update(0, 1);
    c.run_rumor_mongering(100);
    assert!(c.is_converged());
    let r = c.rumor_mongering_round();
    assert!(r.exchanges.is_empty());
    assert!(r.transitions.is_empty());
}

#[test]
fn run_stops_at_first_convergence() {
    let mut c = build_full_mesh(2, 1);
    c.seed_update(0, 1);
    let results = c.run_until_converged(10);
    assert_eq!(results.len(), 1);
    assert!(results[0].converged);
    assert_eq!(c.round, 1);
}

#[test]
fn run_without_convergence_uses_every_round() {
    let mut c = build_full_mesh(3, 1);
    let results = c.run_until_converged(4);
    assert_eq!(results.len(), 4);
    assert!(results.iter().all(|r| !r.converged && r.exchanges.is_empty()));
    assert_eq!(c.round, 4);
    assert!(c.run_rumor_mongering(0).is_empty());
}

#[test]
fn converged_run_needs_room_for_one_round_only() {
    let mut c = build_full_mesh(3, 1);
    c.seed_update(0, 1);
    c.run_until_converged(50);
    assert!(c.is_converged());
    c.round = u32::MAX - 1;
    let results = c.run_until_converged(10);
    assert_eq!(results.len(), 1);
    assert_eq!(c.round, u32::MAX);
}

#[test]
fn unreachable_dangling_neighbor_is_never_contacted() {
    let mut c = build_full_mesh(3, 1);
    let mut lone = GossipNode::new(7);
    lone.add_neighbor(99);
    c.add_node(lone);
    c.seed_update(0, 1);
    let results = c.run_until_converged(20);
    assert_eq!(results.len(), 20);
    assert_eq!(c.nodes.get(&7).unwrap().state, InfectionState::Susceptible);
    assert!(results.iter().all(|r| r.exchanges.iter().all(|p| p.0 != 7 && p.1 != 7)));
}
