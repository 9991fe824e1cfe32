use std::collections::HashMap;
use vstd::prelude::*;

use crate::listing::{
    count_in_state, ids_in_state, is_listing, key_listing, keys_in_state, lemma_count_in_state,
    lemma_ids_in_state, lemma_swap_listing,
};
use crate::node::{neighbor_walk, neighbors_all_infected, GossipNode};
use crate::protocol::{
    best_offer, contact_count, involves, lemma_best_offer, lemma_extend_exchanges,
    lemma_round_keeps_spread_bound, lemma_round_keeps_structure, lemma_spread_bound_ready,
    offer_value, spread_bound, picks, promotions, received, relayed_node,
    relayed_nodes, round_ready, round_step, rounds_outcome, rounds_ready, sender_active, settled,
    shuffle, swap_entries, targets_of, valid_exchanges,
};
use crate::state::InfectionState;
use vstd::std_specs::iter::IteratorSpec;

verus! {

broadcast use vstd::std_specs::hash::group_hash_axioms;

/// A cluster of gossip nodes running epidemic propagation.
#[derive(Debug)]
pub struct GossipCluster {
    /// All nodes in the cluster, indexed by ID.
    pub nodes: HashMap<u32, GossipNode>,
    /// Fanout: number of random peers each node contacts per round.
    pub fanout: usize,
    /// Current round counter.
    pub round: u32,
    /// State of the pseudo-random generator that picks peers.
    pub(crate) rng_seed: u64,
    /// The data version being propagated.
    pub(crate) target_version: u64,
    /// Source node that initiated the update.
    pub(crate) source_id: Option<u32>,
}

/// The abstract state of a cluster: its nodes by id, its parameters, the state
/// of its peer-picking generator and the update being propagated.
pub ghost struct ClusterView {
    pub nodes: Map<u32, GossipNode>,
    pub fanout: usize,
    pub round: u32,
    pub seed: u64,
    pub target: u64,
    pub source: Option<u32>,
}

impl View for GossipCluster {
    type V = ClusterView;

    closed spec fn view(&self) -> ClusterView {
        ClusterView {
            nodes: self.nodes@,
            fanout: self.fanout,
            round: self.round,
            seed: self.rng_seed,
            target: self.target_version,
            source: self.source_id,
        }
    }
}

/// The view's nodes, fanout and round are the cluster's public fields. (Outside
/// this crate the fields are hidden from verified code, so the fact is stated
/// for the crate.)
pub(crate) proof fn lemma_view_fields(c: &GossipCluster)
    ensures
        c@.nodes == c.nodes@,
        c@.fanout == c.fanout,
        c@.round == c.round,
{
}

/// Result of a single gossip round.
#[derive(Debug, Clone)]
pub struct RoundResult {
    /// The round number.
    pub round: u32,
    /// Pairs of nodes that exchanged state this round: (initiator, responder).
    pub exchanges: Vec<(u32, u32)>,
    /// State transitions that occurred: (node_id, old_state, new_state).
    pub transitions: Vec<(u32, InfectionState, InfectionState)>,
    /// Whether the cluster has converged.
    pub converged: bool,
}

/// `n` with its state and version replaced.
pub open spec fn node_with(n: GossipNode, st: InfectionState, version: u64) -> GossipNode {
    GossipNode { id: n.id, state: st, version, neighbors: n.neighbors }
}

/// One step of the peer-picking generator (a 64-bit linear congruential generator).
pub open spec fn lcg_next(seed: u64) -> u64 {
    vstd::wrapping::u64_specs::wrapping_add(
        vstd::wrapping::u64_specs::wrapping_mul(seed, 6364136223846793005u64),
        1u64,
    )
}

/// Every node is stored under its own id.
pub open spec fn indexed_by_id(nodes: Map<u32, GossipNode>) -> bool {
    forall|k: u32| #[trigger] nodes.contains_key(k) ==> nodes[k].id == k
}

/// Every neighbor of every node is itself a node of the cluster.
pub open spec fn closed_topology(nodes: Map<u32, GossipNode>) -> bool {
    forall|k: u32, x: u32|
        #[trigger] nodes.contains_key(k) && #[trigger] nodes[k].neighbors@.contains(x)
            ==> nodes.contains_key(x)
}

/// Every node is infected with the target version.
pub open spec fn converged(v: ClusterView) -> bool {
    forall|k: u32| #[trigger] v.nodes.contains_key(k) ==> v.nodes[k].state == InfectionState::Infected
        && v.nodes[k].version == v.target
}

impl Clone for GossipCluster {
    fn clone(&self) -> (r: Self)
        ensures
            r@ == self@,
    {
        GossipCluster {
            nodes: self.nodes.clone(),
            fanout: self.fanout,
            round: self.round,
            rng_seed: self.rng_seed,
            target_version: self.target_version,
            source_id: self.source_id,
        }
    }
}

impl GossipNode {
    /// Check if all neighbors are infected (the rumor-mongering stop condition);
    /// a neighbor that is not a node of `cluster` counts as infected.
    pub fn all_neighbors_infected(&self, cluster: &GossipCluster) -> (r: bool)
        ensures
            r == neighbors_all_infected(*self, cluster@.nodes),
    {
        let nbrs = self.neighbor_list();
        let mut i: usize = 0;
        while i < nbrs.len()
            invariant
                is_listing(nbrs@, self.neighbors@),
                0 <= i <= nbrs.len(),
                forall|j: int|
                    0 <= j < i && #[trigger] cluster.nodes@.contains_key(nbrs@[j]) ==> cluster.nodes@[nbrs@[j]].state
                        == InfectionState::Infected,
            decreases nbrs.len() - i,
        {
            match cluster.nodes.get(&nbrs[i]) {
                Some(n) => {
                    if n.state != InfectionState::Infected {
                        assert(nbrs@.to_set().contains(nbrs@[i as int]));
                        return false;
                    }
                },
                None => {},
            }
            i = i + 1;
        }
        assert forall|x: u32|
            self.neighbors@.contains(x) && #[trigger] cluster.nodes@.contains_key(x) implies cluster.nodes@[x].state
            == InfectionState::Infected by {
            assert(nbrs@.to_set().contains(x));
            let j = choose|j: int| 0 <= j < nbrs@.len() && nbrs@[j] == x;
        }
        true
    }
}

impl GossipCluster {
    /// Create a new, empty cluster with the given fanout.
    pub fn new(fanout: usize) -> (c: GossipCluster)
        ensures
            c@ == (ClusterView {
                nodes: Map::empty(),
                fanout,
                round: 0,
                seed: 42,
                target: 0,
                source: None,
            }),
    {
        GossipCluster {
            nodes: HashMap::new(),
            fanout,
            round: 0,
            rng_seed: 42,
            target_version: 0,
            source_id: None,
        }
    }

    /// Add a node to the cluster, under its id; a node with the same id is replaced.
    pub fn add_node(&mut self, node: GossipNode)
        ensures
            final(self)@ == (ClusterView { nodes: old(self)@.nodes.insert(node.id, node), ..old(self)@ }),
    {
        self.nodes.insert(node.id, node);
    }

    /// Seed the update from a source node. The source becomes Infected
    /// and its version is set as the target version.
    pub fn seed_update(&mut self, source_id: u32, version: u64)
        ensures
            final(self)@ == (ClusterView {
                nodes: if old(self)@.nodes.contains_key(source_id) {
                    old(self)@.nodes.insert(
                        source_id,
                        node_with(old(self)@.nodes[source_id], InfectionState::Infected, version),
                    )
                } else {
                    old(self)@.nodes
                },
                target: version,
                source: Some(source_id),
                ..old(self)@
            }),
    {
        self.target_version = version;
        self.source_id = Some(source_id);
        let ghost pre = self.nodes@;
        match self.nodes.remove(&source_id) {
            Some(mut node) => {
                node.state = InfectionState::Infected;
                node.version = version;
                self.nodes.insert(source_id, node);
                assert(self.nodes@ =~= pre.insert(
                    source_id,
                    node_with(pre[source_id], InfectionState::Infected, version),
                ));
            },
            None => {
                assert(self.nodes@ =~= pre);
            },
        }
    }

    /// The ids of the nodes, in the order the map is walked.
    fn node_ids(&self) -> (ids: Vec<u32>)
        ensures
            is_listing(ids@, self@.nodes.dom()),
    {
        key_listing(&self.nodes)
    }

    /// Pick the exchanges of a round: every active node, taken in the order of
    /// `ids`, contacts `contact_count` random neighbors.
    fn select_exchanges(&mut self, ids: &Vec<u32>, rumor: bool) -> (e: Vec<(u32, u32)>)
        requires
            is_listing(ids@, old(self)@.nodes.dom()),
        ensures
            final(self)@ == (ClusterView { seed: final(self)@.seed, ..old(self)@ }),
            valid_exchanges(old(self)@, e@, rumor),
            (e@, final(self)@.seed) == picks(
                old(self)@,
                ids@,
                old(self)@.nodes.map_values(|n: GossipNode| neighbor_walk(n)),
                rumor,
                old(self)@.seed,
            ),
            forall|s: u32|
                #[trigger] sender_active(old(self)@, s, rumor) ==> is_listing(
                    neighbor_walk(old(self)@.nodes[s]),
                    old(self)@.nodes[s].neighbors@,
                ),
    {
        let ghost pre = self@;
        let ghost walks = pre.nodes.map_values(|n: GossipNode| neighbor_walk(n));
        let mut e: Vec<(u32, u32)> = Vec::new();
        let mut i: usize = 0;
        while i < ids.len()
            invariant
                self@ == (ClusterView { seed: self@.seed, ..pre }),
                is_listing(ids@, pre.nodes.dom()),
                0 <= i <= ids.len(),
                e@.no_duplicates(),
                forall|j: int|
                    0 <= j < e@.len() ==> sender_active(pre, #[trigger] e@[j].0, rumor)
                        && pre.nodes[e@[j].0].neighbors@.contains(e@[j].1) && ids@.take(i as int).contains(
                        e@[j].0,
                    ),
                forall|j: int|
                    0 <= j < i && #[trigger] sender_active(pre, ids@[j], rumor) ==> targets_of(e@, ids@[j]).finite()
                        && targets_of(e@, ids@[j]).len() == contact_count(pre.fanout, pre.nodes[ids@[j]]),
                walks == pre.nodes.map_values(|n: GossipNode| neighbor_walk(n)),
                forall|j: int|
                    0 <= j < i && #[trigger] sender_active(pre, ids@[j], rumor) ==> is_listing(
                        neighbor_walk(pre.nodes[ids@[j]]),
                        pre.nodes[ids@[j]].neighbors@,
                    ),
                (e@, self@.seed) == picks(pre, ids@.take(i as int), walks, rumor, pre.seed),
            decreases ids.len() - i,
        {
            let k = ids[i];
            assert(ids@.to_set().contains(ids@[i as int]));
            assert(ids@.take(i + 1).drop_last() =~= ids@.take(i as int));
            assert(ids@.take(i + 1).last() == k);
            let ghost e_before = e@;
            let node = self.nodes.get(&k).unwrap();
            if node.state != InfectionState::Susceptible {
                let quiet = rumor && node.all_neighbors_infected(self);
                if !quiet {
                    let deg = node.neighbors.len();
                    let count = if self.fanout < deg {
                        self.fanout
                    } else {
                        deg
                    };
                    if count > 0 {
                        let nbrs = node.neighbor_list();
                        proof {
                            nbrs@.unique_seq_to_set();
                        }
                        let targets = self.pick_random_neighbors_from(&nbrs, count);
                        let mut m: usize = 0;
                        while m < targets.len()
                            invariant
                                0 <= m <= targets@.len(),
                                e@ == e_before + targets@.take(m as int).map_values(|t: u32| (k, t)),
                            decreases targets.len() - m,
                        {
                            e.push((k, targets[m]));
                            m = m + 1;
                            assert(e@ =~= e_before + targets@.take(m as int).map_values(|t: u32| (k, t)));
                        }
                        proof {
                            assert(targets@.take(targets@.len() as int) =~= targets@);
                            assert forall|j: int| 0 <= j < e_before.len() implies (#[trigger] e_before[j]).0 != k by {
                                assert(ids@.take(i as int).contains(e_before[j].0));
                                let a = choose|a: int| 0 <= a < i && #[trigger] ids@.take(i as int)[a] == e_before[j].0;
                                assert(ids@[a] == e_before[j].0);
                            }
                            lemma_extend_exchanges(e_before, k, targets@);
                            targets@.unique_seq_to_set();
                            assert forall|j: int|
                                0 <= j < e@.len() implies sender_active(pre, #[trigger] e@[j].0, rumor)
                                    && pre.nodes[e@[j].0].neighbors@.contains(e@[j].1) && ids@.take(i + 1).contains(
                                    e@[j].0,
                                ) by {
                                if j < e_before.len() {
                                    assert(e@[j] == e_before[j]);
                                    let a = choose|a: int| 0 <= a < i && #[trigger] ids@.take(i as int)[a] == e_before[j].0;
                                    assert(ids@.take(i + 1)[a] == e_before[j].0);
                                } else {
                                    let a = j - e_before.len();
                                    assert(e@[j] == (k, targets@[a]));
                                    assert(nbrs@.contains(targets@[a]));
                                    assert(nbrs@.to_set().contains(targets@[a]));
                                    assert(ids@.take(i + 1)[i as int] == k);
                                }
                            }
                            assert forall|j: int|
                                0 <= j < i + 1 && #[trigger] sender_active(pre, ids@[j], rumor) implies targets_of(
                                    e@,
                                    ids@[j],
                                ).finite() && targets_of(e@, ids@[j]).len() == contact_count(
                                    pre.fanout,
                                    pre.nodes[ids@[j]],
                                ) by {
                                if j < i {
                                    assert(ids@[j] != k);
                                }
                            }
                        }
                    }
                }
            }
            proof {
                if e@ == e_before {
                    assert forall|j: int|
                        0 <= j < e@.len() implies ids@.take(i + 1).contains(#[trigger] e@[j].0) by {
                        let a = choose|a: int| 0 <= a < i && #[trigger] ids@.take(i as int)[a] == e_before[j].0;
                        assert(ids@.take(i + 1)[a] == e_before[j].0);
                    }
                }
            }
            i = i + 1;
        }
        proof {
            assert(ids@.take(ids@.len() as int) =~= ids@);
            assert forall|s: u32| #[trigger] sender_active(pre, s, rumor) implies targets_of(e@, s).finite()
                && targets_of(e@, s).len() == contact_count(pre.fanout, pre.nodes[s]) && is_listing(
                neighbor_walk(pre.nodes[s]),
                pre.nodes[s].neighbors@,
            ) by {
                assert(ids@.to_set().contains(s));
                let j = choose|j: int| 0 <= j < ids@.len() && ids@[j] == s;
            }
        }
        e
    }

    /// For every node that the exchanges `e` offer a newer version, the newest
    /// version offered, as a pending carrier state.
    fn merge_offers(&self, e: &Vec<(u32, u32)>) -> (offers: HashMap<u32, (InfectionState, u64)>)
        requires
            forall|j: int|
                0 <= j < e@.len() ==> self@.nodes.contains_key(#[trigger] e@[j].0) && self@.nodes.contains_key(
                    e@[j].1,
                ),
        ensures
            offers@.dom() == received(self@.nodes, e@),
            forall|x: u32|
                #[trigger] offers@.contains_key(x) ==> offers@[x] == (
                    InfectionState::Carrier,
                    best_offer(self@.nodes, e@, x),
                ),
    {
        let ghost nodes = self.nodes@;
        let mut offers: HashMap<u32, (InfectionState, u64)> = HashMap::new();
        let mut i: usize = 0;
        while i < e.len()
            invariant
                nodes == self.nodes@,
                0 <= i <= e@.len(),
                forall|j: int|
                    0 <= j < e@.len() ==> nodes.contains_key(#[trigger] e@[j].0) && nodes.contains_key(e@[j].1),
                forall|x: u32|
                    #[trigger] offers@.contains_key(x) <==> best_offer(nodes, e@.take(i as int), x) > 0,
                forall|x: u32|
                    #[trigger] offers@.contains_key(x) ==> offers@[x] == (
                        InfectionState::Carrier,
                        best_offer(nodes, e@.take(i as int), x),
                    ),
            decreases e.len() - i,
        {
            let (s, t) = e[i];
            assert(e@.take(i + 1).drop_last() =~= e@.take(i as int));
            assert(e@.take(i + 1).last() == e@[i as int]);
            let ghost before = offers@;
            let sn = self.nodes.get(&s).unwrap();
            let tn = self.nodes.get(&t).unwrap();
            // push: the responder receives the initiator's newer state
            if sn.version > tn.version && sn.state != InfectionState::Susceptible {
                let cur = match offers.get(&t) {
                    Some(c) => *c,
                    None => (InfectionState::Susceptible, 0),
                };
                if sn.version > cur.1 {
                    offers.insert(t, (InfectionState::Carrier, sn.version));
                } else {
                    offers.insert(t, cur);
                }
            }
            // pull: the initiator receives the responder's newer state
            if tn.version > sn.version && tn.state != InfectionState::Susceptible {
                let cur = match offers.get(&s) {
                    Some(c) => *c,
                    None => (InfectionState::Susceptible, 0),
                };
                if tn.version > cur.1 {
                    offers.insert(s, (InfectionState::Carrier, tn.version));
                } else {
                    offers.insert(s, cur);
                }
            }
            i = i + 1;
            assert forall|x: u32| #[trigger] offers@.contains_key(x) <==> best_offer(nodes, e@.take(i as int), x) > 0 by {
                assert(offer_value(nodes, (s, t), x) == 0 || x == s || x == t);
            }
        }
        proof {
            assert(e@.take(e@.len() as int) =~= e@);
            assert forall|x: u32| offers@.dom().contains(x) <==> received(nodes, e@).contains(x) by {
                lemma_best_offer(nodes, e@, x);
                if best_offer(nodes, e@, x) > 0 {
                    let j = choose|j: int| 0 <= j < e@.len() && involves(#[trigger] e@[j], x);
                }
            }
            assert(offers@.dom() =~= received(nodes, e@));
        }
        offers
    }

    /// Every node that was offered a newer version becomes a carrier of the newest
    /// one; reports each such change, in the order the offers are walked.
    fn apply_offers(
        &mut self,
        offers: &HashMap<u32, (InfectionState, u64)>,
        Ghost(e): Ghost<Seq<(u32, u32)>>,
    ) -> (transitions: Vec<(u32, InfectionState, InfectionState)>)
        requires
            offers@.dom() == received(old(self)@.nodes, e),
            forall|x: u32|
                #[trigger] offers@.contains_key(x) ==> offers@[x] == (
                    InfectionState::Carrier,
                    best_offer(old(self)@.nodes, e, x),
                ),
        ensures
            final(self)@ == (ClusterView { nodes: relayed_nodes(old(self)@.nodes, e), ..old(self)@ }),
            exists|recv_order: Seq<u32>|
                is_listing(recv_order, received(old(self)@.nodes, e)) && transitions@ == recv_order.map_values(
                    |x: u32| (x, old(self)@.nodes[x].state, InfectionState::Carrier),
                ),
    {
        let ghost pre = self@;
        let order = key_listing(offers);
        let mut transitions: Vec<(u32, InfectionState, InfectionState)> = Vec::new();
        let mut i: usize = 0;
        while i < order.len()
            invariant
                self@ == (ClusterView { nodes: self@.nodes, ..pre }),
                is_listing(order@, received(pre.nodes, e)),
                offers@.dom() == received(pre.nodes, e),
                forall|x: u32|
                    #[trigger] offers@.contains_key(x) ==> offers@[x] == (
                        InfectionState::Carrier,
                        best_offer(pre.nodes, e, x),
                    ),
                0 <= i <= order.len(),
                self.nodes@.dom() == pre.nodes.dom(),
                forall|k: u32|
                    #[trigger] pre.nodes.contains_key(k) ==> self.nodes@[k] == if order@.take(i as int).contains(k) {
                        relayed_node(pre.nodes, e, k)
                    } else {
                        pre.nodes[k]
                    },
                transitions@ == order@.take(i as int).map_values(
                    |x: u32| (x, pre.nodes[x].state, InfectionState::Carrier),
                ),
            decreases order.len() - i,
        {
            let x = order[i];
            assert(order@.to_set().contains(order@[i as int]));
            assert(!order@.take(i as int).contains(x)) by {
                if order@.take(i as int).contains(x) {
                    let a = choose|a: int| 0 <= a < i && #[trigger] order@.take(i as int)[a] == x;
                    assert(order@[a] == order@[i as int]);
                }
            }
            proof {
                lemma_best_offer(pre.nodes, e, x);
            }
            let (new_state, new_version) = *offers.get(&x).unwrap();
            let mut node = self.nodes.remove(&x).unwrap();
            let old_state = node.state;
            if new_state != old_state || new_version > node.version {
                transitions.push((x, old_state, new_state));
                node.state = new_state;
                node.version = new_version;
            }
            self.nodes.insert(x, node);
            i = i + 1;
            assert(transitions@ =~= order@.take(i as int).map_values(
                |x: u32| (x, pre.nodes[x].state, InfectionState::Carrier),
            ));
            assert forall|k: u32| #[trigger] pre.nodes.contains_key(k) implies self.nodes@[k] == if order@.take(
                i as int,
            ).contains(k) {
                relayed_node(pre.nodes, e, k)
            } else {
                pre.nodes[k]
            } by {
                if k != x {
                    if order@.take(i as int).contains(k) {
                        let a = choose|a: int| 0 <= a < i && #[trigger] order@.take(i as int)[a] == k;
                        assert(order@.take(i - 1)[a] == k);
                    }
                    if order@.take(i - 1).contains(k) {
                        let a = choose|a: int| 0 <= a < i - 1 && #[trigger] order@.take(i - 1)[a] == k;
                        assert(order@.take(i as int)[a] == k);
                    }
                } else {
                    assert(order@.take(i as int)[i - 1] == x);
                }
            }
        }
        proof {
            assert(order@.take(order@.len() as int) =~= order@);
            assert forall|k: u32| #[trigger] pre.nodes.contains_key(k) implies self.nodes@[k] == relayed_node(
                pre.nodes,
                e,
                k,
            ) by {
                if !order@.contains(k) {
                    assert(!order@.to_set().contains(k));
                }
            }
            assert(self.nodes@ =~= relayed_nodes(pre.nodes, e));
        }
        transitions
    }

    /// Every carrier of the target version applies it and becomes infected; each
    /// such change is reported, in the order of `ids`.
    fn settle_carriers(&mut self, ids: &Vec<u32>, transitions: &mut Vec<(u32, InfectionState, InfectionState)>)
        requires
            is_listing(ids@, old(self)@.nodes.dom()),
        ensures
            final(self)@ == (ClusterView {
                nodes: old(self)@.nodes.map_values(|n: GossipNode| settled(n, old(self)@.target)),
                ..old(self)@
            }),
            final(transitions)@ == old(transitions)@ + promotions(old(self)@.nodes, ids@, old(self)@.target),
    {
        let ghost pre = self@;
        let ghost t0 = transitions@;
        let mut i: usize = 0;
        while i < ids.len()
            invariant
                self@ == (ClusterView { nodes: self@.nodes, ..pre }),
                is_listing(ids@, pre.nodes.dom()),
                0 <= i <= ids.len(),
                self.nodes@.dom() == pre.nodes.dom(),
                forall|k: u32|
                    #[trigger] pre.nodes.contains_key(k) ==> self.nodes@[k] == if ids@.take(i as int).contains(k) {
                        settled(pre.nodes[k], pre.target)
                    } else {
                        pre.nodes[k]
                    },
                transitions@ == t0 + promotions(pre.nodes, ids@.take(i as int), pre.target),
            decreases ids.len() - i,
        {
            let x = ids[i];
            assert(ids@.to_set().contains(ids@[i as int]));
            assert(!ids@.take(i as int).contains(x)) by {
                if ids@.take(i as int).contains(x) {
                    let a = choose|a: int| 0 <= a < i && #[trigger] ids@.take(i as int)[a] == x;
                    assert(ids@[a] == ids@[i as int]);
                }
            }
            assert(ids@.take(i + 1).drop_last() =~= ids@.take(i as int));
            assert(ids@.take(i + 1).last() == x);
            let n = self.nodes.get(&x).unwrap();
            if n.state == InfectionState::Carrier && n.version == self.target_version {
                let mut node = self.nodes.remove(&x).unwrap();
                let old_state = node.state;
                node.state = InfectionState::Infected;
                self.nodes.insert(x, node);
                transitions.push((x, old_state, InfectionState::Infected));
            }
            i = i + 1;
            assert(transitions@ =~= t0 + promotions(pre.nodes, ids@.take(i as int), pre.target));
            assert forall|k: u32| #[trigger] pre.nodes.contains_key(k) implies self.nodes@[k] == if ids@.take(
                i as int,
            ).contains(k) {
                settled(pre.nodes[k], pre.target)
            } else {
                pre.nodes[k]
            } by {
                if k != x {
                    if ids@.take(i as int).contains(k) {
                        let a = choose|a: int| 0 <= a < i && #[trigger] ids@.take(i as int)[a] == k;
                        assert(ids@.take(i - 1)[a] == k);
                    }
                    if ids@.take(i - 1).contains(k) {
                        let a = choose|a: int| 0 <= a < i - 1 && #[trigger] ids@.take(i - 1)[a] == k;
                        assert(ids@.take(i as int)[a] == k);
                    }
                } else {
                    assert(ids@.take(i as int)[i - 1] == x);
                }
            }
        }
        proof {
            assert(ids@.take(ids@.len() as int) =~= ids@);
            assert forall|k: u32| #[trigger] pre.nodes.contains_key(k) implies self.nodes@[k] == settled(
                pre.nodes[k],
                pre.target,
            ) by {
                assert(ids@.to_set().contains(k));
            }
            assert(self.nodes@ =~= pre.nodes.map_values(|n: GossipNode| settled(n, pre.target)));
        }
    }

    /// One round of gossip: push-pull, or rumor mongering when `rumor`.
    fn run_round(&mut self, rumor: bool) -> (r: RoundResult)
        requires
            round_ready(old(self)@, rumor),
        ensures
            round_step(old(self)@, final(self)@, r, rumor),
    {
        let ghost pre = self@;
        let ids = self.node_ids();
        let e = self.select_exchanges(&ids, rumor);
        assert forall|j: int| 0 <= j < e@.len() implies self@.nodes.contains_key(#[trigger] e@[j].0)
            && self@.nodes.contains_key(e@[j].1) by {
            assert(sender_active(pre, e@[j].0, rumor));
        }
        let offers = self.merge_offers(&e);
        let mut transitions = self.apply_offers(&offers, Ghost(e@));
        let ghost recv_order = choose|recv_order: Seq<u32>|
            is_listing(recv_order, received(pre.nodes, e@)) && transitions@ == recv_order.map_values(
                |x: u32| (x, pre.nodes[x].state, InfectionState::Carrier),
            );
        assert(self@.nodes.dom() =~= pre.nodes.dom());
        self.settle_carriers(&ids, &mut transitions);
        self.round = self.round + 1;
        let converged = self.is_converged();
        let r = RoundResult { round: self.round, exchanges: e, transitions, converged };
        proof {
            let walks = pre.nodes.map_values(|n: GossipNode| neighbor_walk(n));
            assert(r.transitions@ == crate::protocol::round_transitions(
                pre.nodes,
                r.exchanges@,
                pre.target,
                recv_order,
                ids@,
            ));
        }
        r
    }

    /// Run one round of push-pull gossip.
    ///
    /// In each round:
    /// 1. Each non-susceptible node picks `fanout` random neighbors
    /// 2. Push: sender transmits its state summary to selected neighbors
    /// 3. Pull: selected neighbors respond with their state summary
    /// 4. State updates propagate based on version comparison
    pub fn gossip_round(&mut self) -> (r: RoundResult)
        requires
            round_ready(old(self)@, false),
        ensures
            round_step(old(self)@, final(self)@, r, false),
    {
        self.run_round(false)
    }

    /// Rumor mongering: a round of gossip in which a node stops spreading once
    /// all its neighbors are infected.
    pub fn rumor_mongering_round(&mut self) -> (r: RoundResult)
        requires
            round_ready(old(self)@, true),
        ensures
            round_step(old(self)@, final(self)@, r, true),
    {
        self.run_round(true)
    }

    /// Rounds until one reports convergence, at most `max_rounds` of them.
    fn run_rounds(&mut self, max_rounds: u32, rumor: bool) -> (results: Vec<RoundResult>)
        requires
            rounds_ready(old(self)@, max_rounds),
        ensures
            rounds_outcome(old(self)@, final(self)@, results@, max_rounds, rumor),
    {
        let ghost start = self@;
        let ghost reach = choose|reach: Set<u32>| spread_bound(start.nodes, reach);
        let mut results: Vec<RoundResult> = Vec::new();
        let ghost mut states: Seq<ClusterView> = seq![self@];
        let mut i: u32 = 0;
        let mut done = false;
        while i < max_rounds && !done
            invariant
                0 <= i <= max_rounds,
                results@.len() == i,
                states.len() == i + 1,
                states[0] == start,
                states.last() == self@,
                forall|j: int| 0 <= j < i ==> round_step(states[j], states[j + 1], #[trigger] results@[j], rumor),
                forall|j: int| 0 <= j < i - 1 ==> !(#[trigger] results@[j]).converged,
                done <==> (i > 0 && results@[i - 1].converged),
                self@.round == start.round + i,
                start.round + max_rounds <= u32::MAX || (converged(start) && start.round < u32::MAX
                    && (i == 0 || done)),
                indexed_by_id(self@.nodes),
                spread_bound(self@.nodes, reach),
            decreases max_rounds - i,
        {
            let ghost pre = self@;
            proof {
                lemma_spread_bound_ready(pre, reach, rumor);
            }
            let r = self.run_round(rumor);
            proof {
                lemma_round_keeps_structure(pre, self@, r, rumor);
                lemma_round_keeps_spread_bound(pre, self@, r, rumor, reach);
                if converged(pre) {
                    crate::laws::law_convergence_is_stable(pre, self@, r, rumor);
                }
                states = states.push(self@);
            }
            done = r.converged;
            results.push(r);
            i = i + 1;
        }
        results
    }

    /// Run gossip until convergence or max rounds; returns the result of each
    /// round run.
    pub fn run_until_converged(&mut self, max_rounds: u32) -> (results: Vec<RoundResult>)
        requires
            rounds_ready(old(self)@, max_rounds),
        ensures
            rounds_outcome(old(self)@, final(self)@, results@, max_rounds, false),
    {
        self.run_rounds(max_rounds, false)
    }

    /// Run rumor mongering until convergence or max rounds; returns the result of
    /// each round run.
    pub fn run_rumor_mongering(&mut self, max_rounds: u32) -> (results: Vec<RoundResult>)
        requires
            rounds_ready(old(self)@, max_rounds),
        ensures
            rounds_outcome(old(self)@, final(self)@, results@, max_rounds, true),
    {
        self.run_rounds(max_rounds, true)
    }

    /// Simple deterministic pseudo-random number generator (LCG).
    fn next_random(&mut self) -> (r: u64)
        ensures
            r == lcg_next(old(self)@.seed),
            final(self)@ == (ClusterView { seed: r, ..old(self)@ }),
    {
        self.rng_seed = self.rng_seed.wrapping_mul(6364136223846793005).wrapping_add(1);
        self.rng_seed
    }

    /// Pick `count` distinct random elements of `neighbors` (a Fisher-Yates
    /// shuffle cut to its first `count` entries).
    fn pick_random_neighbors_from(&mut self, neighbors: &Vec<u32>, count: usize) -> (picked: Vec<u32>)
        ensures
            final(self)@ == (ClusterView { seed: final(self)@.seed, ..old(self)@ }),
            picked@.len() == if count < neighbors@.len() {
                count as int
            } else {
                neighbors@.len() as int
            },
            (picked@, final(self)@.seed) == ({
                let sh = shuffle(neighbors@, old(self)@.seed, neighbors@.len());
                (sh.0.take(picked@.len() as int), sh.1)
            }),
            forall|i: int| 0 <= i < picked@.len() ==> neighbors@.contains(#[trigger] picked@[i]),
            count >= neighbors@.len() ==> picked@.to_set() == neighbors@.to_set(),
            neighbors@.no_duplicates() ==> picked@.no_duplicates(),
    {
        let ghost pre = self@;
        let mut picked: Vec<u32> = Vec::new();
        let mut k: usize = 0;
        while k < neighbors.len()
            invariant
                0 <= k <= neighbors@.len(),
                picked@ == neighbors@.take(k as int),
            decreases neighbors.len() - k,
        {
            picked.push(neighbors[k]);
            k = k + 1;
        }
        assert(picked@ =~= neighbors@);
        let len = picked.len();
        let mut i = len;
        while i > 1
            invariant
                self@ == (ClusterView { seed: self@.seed, ..pre }),
                picked@.len() == len,
                i <= len,
                neighbors@.no_duplicates() ==> picked@.no_duplicates(),
                picked@.to_set() == neighbors@.to_set(),
                shuffle(picked@, self@.seed, i as nat) == shuffle(neighbors@, pre.seed, len as nat),
                len == neighbors@.len(),
            decreases i,
        {
            i = i - 1;
            let r = self.next_random();
            let j = (r as usize) % (i + 1);
            proof {
                lemma_swap_listing(picked@, i as int, j as int);
            }
            let ghost swapped = swap_entries(picked@, i as int, j as int);
            let a = picked[i];
            let b = picked[j];
            picked.set(i, b);
            picked.set(j, a);
            assert(picked@ == swapped);
        }
        let ghost full = picked@;
        picked.truncate(count);
        assert forall|i: int| 0 <= i < picked@.len() implies neighbors@.contains(#[trigger] picked@[i]) by {
            assert(full.to_set().contains(full[i]));
            assert(neighbors@.to_set().contains(picked@[i]));
        }
        assert(full.take(len as int) =~= full);
        picked
    }

    /// Check if the cluster has converged: every node is infected with the
    /// target version.
    pub fn is_converged(&self) -> (r: bool)
        ensures
            r == converged(self@),
    {
        let ids = self.node_ids();
        let mut i: usize = 0;
        while i < ids.len()
            invariant
                is_listing(ids@, self.nodes@.dom()),
                0 <= i <= ids.len(),
                forall|j: int|
                    0 <= j < i ==> #[trigger] self.nodes@[ids@[j]].state == InfectionState::Infected
                        && self.nodes@[ids@[j]].version == self.target_version,
            decreases ids.len() - i,
        {
            assert(ids@.to_set().contains(ids@[i as int]));
            let n = self.nodes.get(&ids[i]).unwrap();
            if !(n.state == InfectionState::Infected && n.version == self.target_version) {
                return false;
            }
            i = i + 1;
        }
        assert forall|k: u32| #[trigger] self@.nodes.contains_key(k) implies self@.nodes[k].state
            == InfectionState::Infected && self@.nodes[k].version == self@.target by {
            assert(ids@.to_set().contains(k));
            let j = choose|j: int| 0 <= j < ids@.len() && ids@[j] == k;
        }
        true
    }

    /// Count nodes in each infection state: `(infected, carrier, susceptible)`.
    pub fn state_counts(&self) -> (r: (usize, usize, usize))
        ensures
            r.0 == keys_in_state(self@.nodes, InfectionState::Infected).len(),
            r.1 == keys_in_state(self@.nodes, InfectionState::Carrier).len(),
            r.2 == keys_in_state(self@.nodes, InfectionState::Susceptible).len(),
            r.0 + r.1 + r.2 == self@.nodes.dom().len(),
    {
        let ids = self.node_ids();
        let mut infected: usize = 0;
        let mut carrier: usize = 0;
        let mut susceptible: usize = 0;
        let mut i: usize = 0;
        proof {
            ids@.unique_seq_to_set();
        }
        while i < ids.len()
            invariant
                is_listing(ids@, self.nodes@.dom()),
                0 <= i <= ids.len(),
                ids.len() == self.nodes@.dom().len(),
                infected == count_in_state(self.nodes@, ids@.take(i as int), InfectionState::Infected),
                carrier == count_in_state(self.nodes@, ids@.take(i as int), InfectionState::Carrier),
                susceptible == count_in_state(self.nodes@, ids@.take(i as int), InfectionState::Susceptible),
                infected + carrier + susceptible == i,
            decreases ids.len() - i,
        {
            assert(ids@.to_set().contains(ids@[i as int]));
            let n = self.nodes.get(&ids[i]).unwrap();
            assert(ids@.take(i + 1).drop_last() =~= ids@.take(i as int));
            match n.state {
                InfectionState::Infected => infected = infected + 1,
                InfectionState::Carrier => carrier = carrier + 1,
                InfectionState::Susceptible => susceptible = susceptible + 1,
            }
            i = i + 1;
        }
        proof {
            assert(ids@.take(ids.len() as int) =~= ids@);
            lemma_count_in_state(self.nodes@, ids@, InfectionState::Infected);
            lemma_count_in_state(self.nodes@, ids@, InfectionState::Carrier);
            lemma_count_in_state(self.nodes@, ids@, InfectionState::Susceptible);
        }
        (infected, carrier, susceptible)
    }

    /// Get the ids of the nodes that are Infected, in the order the map is walked.
    pub fn infected_nodes(&self) -> (r: Vec<u32>)
        ensures
            exists|order: Seq<u32>|
                is_listing(order, self@.nodes.dom()) && r@ == ids_in_state(
                    self@.nodes,
                    order,
                    InfectionState::Infected,
                ),
            indexed_by_id(self@.nodes) ==> is_listing(
                r@,
                keys_in_state(self@.nodes, InfectionState::Infected),
            ),
    {
        let ids = self.node_ids();
        let mut r: Vec<u32> = Vec::new();
        let mut i: usize = 0;
        while i < ids.len()
            invariant
                is_listing(ids@, self.nodes@.dom()),
                0 <= i <= ids.len(),
                r@ == ids_in_state(self.nodes@, ids@.take(i as int), InfectionState::Infected),
            decreases ids.len() - i,
        {
            assert(ids@.to_set().contains(ids@[i as int]));
            let n = self.nodes.get(&ids[i]).unwrap();
            assert(ids@.take(i + 1).drop_last() =~= ids@.take(i as int));
            if n.state == InfectionState::Infected {
                r.push(n.id);
            }
            i = i + 1;
        }
        proof {
            assert(ids@.take(ids.len() as int) =~= ids@);
            if indexed_by_id(self@.nodes) {
                assert forall|j: int| 0 <= j < ids@.len() implies #[trigger] self.nodes@[ids@[j]].id == ids@[j] by {
                    assert(ids@.to_set().contains(ids@[j]));
                }
                lemma_ids_in_state(self.nodes@, ids@, InfectionState::Infected);
                assert(keys_in_state(self@.nodes, InfectionState::Infected)
                    =~= ids@.to_set().filter(|k: u32| self.nodes@[k].state == InfectionState::Infected));
            }
        }
        r
    }
}

} // verus!
