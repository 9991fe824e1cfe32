//! Epidemic-style gossip protocol for cluster state propagation with ternary
//! infection states: `+1` infected, `0` carrier, `-1` susceptible.
//!
//! Push-pull gossip, rumor mongering and convergence detection over a cluster
//! of nodes. Contracts speak of a cluster through its view: a map from node id
//! to node, with the cluster's parameters and the update being propagated.

pub mod cluster;
pub mod laws;
pub mod listing;
pub mod node;
pub mod protocol;
pub mod state;
pub mod topology;

pub use cluster::{GossipCluster, RoundResult};
pub use node::{GossipNode, NodeSummary};
pub use state::InfectionState;
pub use topology::{build_full_mesh, build_ring};
