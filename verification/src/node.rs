use std::collections::HashSet;
use vstd::prelude::*;
use vstd::std_specs::iter::IteratorSpec;

use crate::listing::is_listing;
use crate::state::InfectionState;

verus! {

broadcast use vstd::std_specs::hash::group_hash_axioms;

/// A node participating in the gossip protocol.
#[derive(Debug)]
pub struct GossipNode {
    /// Unique node identifier.
    pub id: u32,
    /// Current infection state.
    pub state: InfectionState,
    /// Local data version (monotonically increasing).
    pub version: u64,
    /// Set of neighbor node IDs this node can communicate with.
    pub neighbors: HashSet<u32>,
}

/// Summary of a node's state, exchanged during push-pull gossip.
#[derive(Debug, Clone, Copy, PartialEq, Eq, Structural)]
pub struct NodeSummary {
    pub id: u32,
    pub state: InfectionState,
    pub version: u64,
}

/// Whether every neighbor of `n` that is a node of `nodes` is infected;
/// neighbors outside `nodes` count as infected.
pub open spec fn neighbors_all_infected(n: GossipNode, nodes: Map<u32, GossipNode>) -> bool {
    forall|x: u32|
        n.neighbors@.contains(x) && #[trigger] nodes.contains_key(x) ==> nodes[x].state
            == InfectionState::Infected
}

/// The neighbors of `n` in the order its set is walked.
pub open spec fn neighbor_walk(n: GossipNode) -> Seq<u32> {
    vstd::std_specs::hash::into_iter_hash_keys(vstd::std_specs::hash::spec_hash_keys_iter(&n.neighbors))
}

impl Clone for GossipNode {
    fn clone(&self) -> (r: Self)
        ensures
            r.id == self.id,
            r.state == self.state,
            r.version == self.version,
            r.neighbors@ == self.neighbors@,
    {
        GossipNode {
            id: self.id,
            state: self.state,
            version: self.version,
            neighbors: self.copy_neighbors(),
        }
    }
}

impl GossipNode {
    /// Create a new susceptible node.
    pub fn new(id: u32) -> (n: GossipNode)
        ensures
            n.id == id,
            n.state == InfectionState::Susceptible,
            n.version == 0,
            n.neighbors@ == Set::<u32>::empty(),
    {
        GossipNode { id, state: InfectionState::Susceptible, version: 0, neighbors: HashSet::new() }
    }

    /// Create a node with a specific state and version.
    pub fn with_state(id: u32, state: InfectionState, version: u64) -> (n: GossipNode)
        ensures
            n.id == id,
            n.state == state,
            n.version == version,
            n.neighbors@ == Set::<u32>::empty(),
    {
        GossipNode { id, state, version, neighbors: HashSet::new() }
    }

    /// Add `neighbor_id` to the neighbors of this node.
    pub fn add_neighbor(&mut self, neighbor_id: u32)
        ensures
            final(self).id == old(self).id,
            final(self).state == old(self).state,
            final(self).version == old(self).version,
            final(self).neighbors@ == old(self).neighbors@.insert(neighbor_id),
    {
        self.neighbors.insert(neighbor_id);
    }

    /// Create a state summary for exchange during gossip.
    pub fn state_summary(&self) -> (s: NodeSummary)
        ensures
            s == (NodeSummary { id: self.id, state: self.state, version: self.version }),
    {
        NodeSummary { id: self.id, state: self.state, version: self.version }
    }

    /// A new set holding the neighbors of this node.
    fn copy_neighbors(&self) -> (r: HashSet<u32>)
        ensures
            r@ == self.neighbors@,
    {
        let l = self.neighbor_list();
        let mut r: HashSet<u32> = HashSet::new();
        let mut i: usize = 0;
        while i < l.len()
            invariant
                0 <= i <= l@.len(),
                r@ == l@.take(i as int).to_set(),
            decreases l.len() - i,
        {
            proof {
                assert(l@.take(i + 1) =~= l@.take(i as int) + seq![l@[i as int]]);
                Seq::lemma_to_set_insert_commutes(l@.take(i as int), l@[i as int]);
            }
            r.insert(l[i]);
            i = i + 1;
        }
        assert(l@.take(l@.len() as int) =~= l@);
        r
    }

    /// The neighbors of this node in the order the set is walked.
    pub(crate) fn neighbor_list(&self) -> (l: Vec<u32>)
        ensures
            l@ == neighbor_walk(*self),
            is_listing(l@, self.neighbors@),
            l@.len() == self.neighbors@.len(),
            self.neighbors@.finite(),
    {
        let ghost walk = vstd::std_specs::hash::spec_hash_keys_iter(&self.neighbors).remaining();
        let iter = self.neighbors.iter();
        assert(vstd::std_specs::hash::into_iter_hash_keys(iter) == walk.unref());
        let mut l: Vec<u32> = Vec::new();
        for x in it: iter
            invariant
                it.seq() == walk,
                l@ == walk.unref().take(it.index()),
                walk.unref().to_set() == self.neighbors@,
                walk.no_duplicates(),
                walk.len() == self.neighbors@.len(),
        {
            l.push(*x);
        }
        assert(l@ =~= walk.unref());
        l
    }
}

} // verus!
