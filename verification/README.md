# ternary epidemic gossip, verified

An epidemic-style gossip protocol for propagating an update through a cluster,
with ternary infection states (susceptible, carrier, infected), push-pull
rounds, rumor mongering and convergence detection, written and proved in Verus.

Layout of `src/`:

- `state.rs` — `InfectionState` and its numeric values.
- `node.rs` — `GossipNode`, `NodeSummary`, and the walk of a node's neighbors.
- `cluster.rs` — `GossipCluster`, its view (`ClusterView`), `RoundResult`, and
  every operation on a cluster, rounds included.
- `protocol.rs` — what a round does, as spec functions over the view:
  which exchanges a round may make (`exchanges_picked`, `valid_exchanges`,
  `picks`), what the exchanges do (`exchange_effect`, the same under push-pull
  and rumor mongering), and `round_step`, the contract of a round.
- `topology.rs` — full mesh and ring builders.
- `listing.rs` — listings of keys, and counting over them.
- `laws.rs` — properties across operations: monotone progress, stable
  convergence, versions only spread, counts cover the cluster, rumor rounds
  obey the push-pull rules, and more.

Which peers a node contacts depends on the order in which the cluster's hash
map and each node's neighbor set are walked; the contracts hold for every such
order. Tests are under `tests/`.
