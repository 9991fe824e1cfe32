//! What one round of gossip does to a cluster, stated over the cluster's view.
use vstd::prelude::*;

use crate::cluster::{
    closed_topology, converged, indexed_by_id, lcg_next, node_with, ClusterView, RoundResult,
};
use crate::listing::is_listing;
use crate::node::{neighbors_all_infected, GossipNode};
use crate::state::InfectionState;

verus! {

/// Number of peers a node contacts in a round: the fanout, capped by its degree.
pub open spec fn contact_count(fanout: usize, n: GossipNode) -> int {
    if fanout < n.neighbors@.len() {
        fanout as int
    } else {
        n.neighbors@.len() as int
    }
}

/// Node `s` starts exchanges this round: it is a node, it holds the update in
/// some form (it is not susceptible), it has someone to contact, and, under
/// rumor mongering, not all of its neighbors are infected yet.
pub open spec fn sender_active(v: ClusterView, s: u32, rumor: bool) -> bool {
    &&& v.nodes.contains_key(s)
    &&& v.nodes[s].state != InfectionState::Susceptible
    &&& contact_count(v.fanout, v.nodes[s]) > 0
    &&& rumor ==> !neighbors_all_infected(v.nodes[s], v.nodes)
}

/// The peers that `s` contacts in the exchanges `e`.
pub open spec fn targets_of(e: Seq<(u32, u32)>, s: u32) -> Set<u32> {
    Set::new(|t: u32| e.contains((s, t)))
}

/// `s` with the entries at `i` and `j` exchanged.
pub open spec fn swap_entries(s: Seq<u32>, i: int, j: int) -> Seq<u32> {
    s.update(i, s[j]).update(j, s[i])
}

/// A Fisher-Yates pass over the first `i` entries of `s`, from the last down,
/// drawing from the generator at state `seed`: the shuffled sequence and the
/// generator's state after the pass.
pub open spec fn shuffle(s: Seq<u32>, seed: u64, i: nat) -> (Seq<u32>, u64)
    decreases i,
{
    if i <= 1 {
        (s, seed)
    } else {
        let r = lcg_next(seed);
        let j = (r as usize) as int % (i as int);
        shuffle(swap_entries(s, i - 1, j), r, (i - 1) as nat)
    }
}

/// The exchanges picked in a round from state `v` when the nodes are taken in
/// the order `walk`, each active node's neighbors in the order `orders[s]`, and
/// the generator starts at `seed`: each active node shuffles its neighbors and
/// contacts the first `contact_count` of them. Also the generator's final state.
pub open spec fn picks(
    v: ClusterView,
    walk: Seq<u32>,
    orders: Map<u32, Seq<u32>>,
    rumor: bool,
    seed: u64,
) -> (Seq<(u32, u32)>, u64)
    decreases walk.len(),
{
    if walk.len() == 0 {
        (Seq::empty(), seed)
    } else {
        let prev = picks(v, walk.drop_last(), orders, rumor, seed);
        let s = walk.last();
        if sender_active(v, s, rumor) {
            let sh = shuffle(orders[s], prev.1, orders[s].len());
            (
                prev.0 + sh.0.take(contact_count(v.fanout, v.nodes[s])).map_values(|t: u32| (s, t)),
                sh.1,
            )
        } else {
            prev
        }
    }
}

/// `e` is a possible list of (initiator, responder) exchanges of one round from
/// cluster state `v`: each active node contacts exactly `contact_count` distinct
/// neighbors of its own, and no other node starts an exchange.
pub open spec fn valid_exchanges(v: ClusterView, e: Seq<(u32, u32)>, rumor: bool) -> bool {
    &&& e.no_duplicates()
    &&& forall|i: int|
        0 <= i < e.len() ==> sender_active(v, #[trigger] e[i].0, rumor) && v.nodes[e[i].0].neighbors@.contains(
            e[i].1,
        )
    &&& forall|s: u32|
        #[trigger] sender_active(v, s, rumor) ==> targets_of(e, s).finite() && targets_of(e, s).len()
            == contact_count(v.fanout, v.nodes[s])
}

/// The version that exchange `p` offers to node `x`: a push of a newer version from
/// the initiator to the responder, or a pull of a newer version from the responder
/// back to the initiator; 0 when `p` offers nothing to `x`. Offers are taken from
/// the state at the start of the round.
pub open spec fn offer_value(nodes: Map<u32, GossipNode>, p: (u32, u32), x: u32) -> u64 {
    let s = nodes[p.0];
    let t = nodes[p.1];
    if p.1 == x && s.version > t.version && s.state != InfectionState::Susceptible {
        s.version
    } else if p.0 == x && t.version > s.version && t.state != InfectionState::Susceptible {
        t.version
    } else {
        0
    }
}

/// The newest version offered to `x` by the exchanges `e`; 0 when none is offered.
pub open spec fn best_offer(nodes: Map<u32, GossipNode>, e: Seq<(u32, u32)>, x: u32) -> u64
    decreases e.len(),
{
    if e.len() == 0 {
        0
    } else {
        let prev = best_offer(nodes, e.drop_last(), x);
        let o = offer_value(nodes, e.last(), x);
        if prev >= o {
            prev
        } else {
            o
        }
    }
}

/// The nodes that receive an update in the exchanges `e`.
pub open spec fn received(nodes: Map<u32, GossipNode>, e: Seq<(u32, u32)>) -> Set<u32> {
    nodes.dom().filter(|x: u32| best_offer(nodes, e, x) > 0)
}

/// Node `x` after the exchanges: a node that was offered a newer version becomes a
/// carrier of the newest one offered; any other node is unchanged.
pub open spec fn relayed_node(nodes: Map<u32, GossipNode>, e: Seq<(u32, u32)>, x: u32) -> GossipNode {
    let b = best_offer(nodes, e, x);
    if b > 0 {
        node_with(nodes[x], InfectionState::Carrier, b)
    } else {
        nodes[x]
    }
}

/// All nodes after the exchanges, before carriers advance.
pub open spec fn relayed_nodes(nodes: Map<u32, GossipNode>, e: Seq<(u32, u32)>) -> Map<u32, GossipNode> {
    nodes.map_entries(|x: u32, n: GossipNode| relayed_node(nodes, e, x))
}

/// A carrier of the target version applies it and becomes infected.
pub open spec fn settled(n: GossipNode, target: u64) -> GossipNode {
    if n.state == InfectionState::Carrier && n.version == target {
        node_with(n, InfectionState::Infected, n.version)
    } else {
        n
    }
}

/// All nodes at the end of a round with exchanges `e`.
pub open spec fn nodes_after_round(nodes: Map<u32, GossipNode>, e: Seq<(u32, u32)>, target: u64) -> Map<
    u32,
    GossipNode,
> {
    relayed_nodes(nodes, e).map_values(|n: GossipNode| settled(n, target))
}

/// The transitions of the carriers that advance, taken in the order of `order`.
pub open spec fn promotions(mid: Map<u32, GossipNode>, order: Seq<u32>, target: u64) -> Seq<
    (u32, InfectionState, InfectionState),
>
    decreases order.len(),
{
    if order.len() == 0 {
        Seq::empty()
    } else {
        let x = order.last();
        promotions(mid, order.drop_last(), target) + if mid[x].state == InfectionState::Carrier
            && mid[x].version == target {
            seq![(x, InfectionState::Carrier, InfectionState::Infected)]
        } else {
            Seq::empty()
        }
    }
}

/// The transitions reported by a round: first each receiving node, in the order
/// `recv_order`, moving to carrier; then each carrier of the target version, in the
/// order `walk`, moving to infected.
pub open spec fn round_transitions(
    nodes: Map<u32, GossipNode>,
    e: Seq<(u32, u32)>,
    target: u64,
    recv_order: Seq<u32>,
    walk: Seq<u32>,
) -> Seq<(u32, InfectionState, InfectionState)> {
    recv_order.map_values(|x: u32| (x, nodes[x].state, InfectionState::Carrier)) + promotions(
        relayed_nodes(nodes, e),
        walk,
        target,
    )
}

/// How the exchanges of a round from `pre` were picked (push-pull, or rumor
/// mongering when `rumor`): they are fixed by the order in which the nodes and
/// each active node's neighbors are walked, which is left open, and whatever the
/// order they meet `valid_exchanges`. `post.seed` is the generator's state after.
pub open spec fn exchanges_picked(pre: ClusterView, post: ClusterView, r: RoundResult, rumor: bool) -> bool {
    &&& valid_exchanges(pre, r.exchanges@, rumor)
    &&& exists|walk: Seq<u32>, orders: Map<u32, Seq<u32>>|
        {
            &&& is_listing(walk, pre.nodes.dom())
            &&& forall|s: u32|
                #[trigger] sender_active(pre, s, rumor) ==> is_listing(orders[s], pre.nodes[s].neighbors@)
            &&& (r.exchanges@, post.seed) == picks(pre, walk, orders, rumor, pre.seed)
        }
}

/// What the exchanges `r.exchanges` of a round do to the cluster, the same under
/// push-pull and rumor mongering: nodes take the newest version pushed or pulled
/// to them and carriers of the target version become infected; the transitions
/// are reported, in walk order; the round counter advances; nothing else but the
/// generator changes.
pub open spec fn exchange_effect(pre: ClusterView, post: ClusterView, r: RoundResult) -> bool {
    &&& post.nodes == nodes_after_round(pre.nodes, r.exchanges@, pre.target)
    &&& post.round == pre.round + 1
    &&& post.fanout == pre.fanout
    &&& post.target == pre.target
    &&& post.source == pre.source
    &&& r.round == post.round
    &&& r.converged == converged(post)
    &&& exists|walk: Seq<u32>, recv_order: Seq<u32>|
        {
            &&& is_listing(walk, pre.nodes.dom())
            &&& is_listing(recv_order, received(pre.nodes, r.exchanges@))
            &&& r.transitions@ == round_transitions(pre.nodes, r.exchanges@, pre.target, recv_order, walk)
        }
}

/// `post` and `r` are a possible outcome of one round (push-pull, or rumor
/// mongering when `rumor`) from `pre`.
pub open spec fn round_step(pre: ClusterView, post: ClusterView, r: RoundResult, rumor: bool) -> bool {
    exchanges_picked(pre, post, r, rumor) && exchange_effect(pre, post, r)
}

/// Node `x` takes part in exchange `p`.
pub open spec fn involves(p: (u32, u32), x: u32) -> bool {
    p.0 == x || p.1 == x
}

/// A node is only ever offered versions newer than its own, and only by exchanges
/// it takes part in.
pub proof fn lemma_best_offer(nodes: Map<u32, GossipNode>, e: Seq<(u32, u32)>, x: u32)
    ensures
        best_offer(nodes, e, x) > 0 ==> best_offer(nodes, e, x) > nodes[x].version,
        best_offer(nodes, e, x) > 0 ==> exists|j: int| 0 <= j < e.len() && involves(#[trigger] e[j], x),
    decreases e.len(),
{
    if e.len() > 0 {
        let rest = e.drop_last();
        lemma_best_offer(nodes, rest, x);
        if best_offer(nodes, rest, x) > 0 {
            let j = choose|j: int| 0 <= j < rest.len() && involves(#[trigger] rest[j], x);
            assert(e[j] == rest[j]);
        }
        if offer_value(nodes, e.last(), x) > 0 {
            assert(involves(e[e.len() - 1], x));
        }
    }
}

/// The exchanges of one more initiator `k`, which had none before.
pub proof fn lemma_extend_exchanges(e0: Seq<(u32, u32)>, k: u32, ts: Seq<u32>)
    requires
        e0.no_duplicates(),
        ts.no_duplicates(),
        forall|j: int| 0 <= j < e0.len() ==> (#[trigger] e0[j]).0 != k,
    ensures
        (e0 + ts.map_values(|t: u32| (k, t))).no_duplicates(),
        targets_of(e0 + ts.map_values(|t: u32| (k, t)), k) == ts.to_set(),
        forall|s: u32| s != k ==> targets_of(e0 + ts.map_values(|t: u32| (k, t)), s) == targets_of(e0, s),
{
    let ext = ts.map_values(|t: u32| (k, t));
    let e = e0 + ext;
    assert forall|a: int, b: int| 0 <= a < e.len() && 0 <= b < e.len() && a != b implies e[a] != e[b] by {
        if a < e0.len() && b < e0.len() {
            assert(e[a] == e0[a] && e[b] == e0[b]);
        } else if a < e0.len() {
            assert(e[a] == e0[a]);
            assert(e[b] == ext[b - e0.len()]);
        } else if b < e0.len() {
            assert(e[b] == e0[b]);
            assert(e[a] == ext[a - e0.len()]);
        } else {
            assert(e[a] == ext[a - e0.len()]);
            assert(e[b] == ext[b - e0.len()]);
        }
    }
    assert forall|t: u32| targets_of(e, k).contains(t) implies ts.to_set().contains(t) by {
        let a = choose|a: int| 0 <= a < e.len() && e[a] == (k, t);
        if a < e0.len() {
            assert(e0[a] == e[a]);
        } else {
            assert(ext[a - e0.len()] == e[a]);
            assert(ts[a - e0.len()] == t);
        }
    }
    assert forall|t: u32| ts.to_set().contains(t) implies targets_of(e, k).contains(t) by {
        let a = choose|a: int| 0 <= a < ts.len() && ts[a] == t;
        assert(e[e0.len() + a] == (k, t));
    }
    assert(targets_of(e, k) =~= ts.to_set());
    assert forall|s: u32| s != k implies targets_of(e, s) == targets_of(e0, s) by {
        assert forall|t: u32| targets_of(e, s).contains(t) implies targets_of(e0, s).contains(t) by {
            let a = choose|a: int| 0 <= a < e.len() && e[a] == (s, t);
            if a < e0.len() {
                assert(e0[a] == e[a]);
            } else {
                assert(ext[a - e0.len()] == e[a]);
            }
        }
        assert forall|t: u32| targets_of(e0, s).contains(t) implies targets_of(e, s).contains(t) by {
            let a = choose|a: int| 0 <= a < e0.len() && e0[a] == (s, t);
            assert(e[a] == (s, t));
        }
        assert(targets_of(e, s) =~= targets_of(e0, s));
    }
}

/// What a round needs to run without failing: nodes are stored under their own
/// ids, the round counter can advance, and every node that may start an exchange
/// has only nodes of the cluster as neighbors.
pub open spec fn round_ready(v: ClusterView, rumor: bool) -> bool {
    &&& forall|k: u32| #[trigger] v.nodes.contains_key(k) ==> v.nodes[k].id == k
    &&& v.round < u32::MAX
    &&& forall|s: u32, x: u32|
        #[trigger] sender_active(v, s, rumor) && #[trigger] v.nodes[s].neighbors@.contains(x)
            ==> v.nodes.contains_key(x)
}

/// `reach` bounds where the update can ever spread: it is made of nodes of the
/// cluster, holds every node that holds the update in some form (is not
/// susceptible), and holds every neighbor of each of its members.
pub open spec fn spread_bound(nodes: Map<u32, GossipNode>, reach: Set<u32>) -> bool {
    &&& forall|k: u32| #[trigger] reach.contains(k) ==> nodes.contains_key(k)
    &&& forall|k: u32|
        #[trigger] nodes.contains_key(k) && nodes[k].state != InfectionState::Susceptible ==> reach.contains(k)
    &&& forall|k: u32, x: u32|
        #[trigger] reach.contains(k) && #[trigger] nodes[k].neighbors@.contains(x) ==> reach.contains(x)
}

/// What a run of up to `max_rounds` rounds needs: nodes stored under their own
/// ids; no node the update can reach has a neighbor outside the cluster; and room
/// in the round counter for every round the run can make (a run from a converged
/// cluster makes one).
pub open spec fn rounds_ready(v: ClusterView, max_rounds: u32) -> bool {
    &&& indexed_by_id(v.nodes)
    &&& exists|reach: Set<u32>| spread_bound(v.nodes, reach)
    &&& max_rounds == 0 || v.round + max_rounds <= u32::MAX || (converged(v) && v.round < u32::MAX)
}

/// Under a bound on where the update can spread, every node that may start an
/// exchange has only nodes of the cluster as neighbors.
pub proof fn lemma_spread_bound_ready(v: ClusterView, reach: Set<u32>, rumor: bool)
    requires
        spread_bound(v.nodes, reach),
    ensures
        forall|s: u32, x: u32|
            #[trigger] sender_active(v, s, rumor) && #[trigger] v.nodes[s].neighbors@.contains(x)
                ==> v.nodes.contains_key(x),
{
    assert forall|s: u32, x: u32|
        #[trigger] sender_active(v, s, rumor) && #[trigger] v.nodes[s].neighbors@.contains(x) implies v.nodes.contains_key(
        x,
    ) by {
        assert(reach.contains(s));
        assert(reach.contains(x));
    }
}

/// A round keeps a bound on where the update can spread: every node that holds
/// the update after the round was reached through a neighbor link from a node
/// that held it before.
pub proof fn lemma_round_keeps_spread_bound(
    pre: ClusterView,
    post: ClusterView,
    r: RoundResult,
    rumor: bool,
    reach: Set<u32>,
)
    requires
        round_step(pre, post, r, rumor),
        spread_bound(pre.nodes, reach),
    ensures
        spread_bound(post.nodes, reach),
{
    let e = r.exchanges@;
    assert(valid_exchanges(pre, e, rumor));
    assert(post.nodes.dom() =~= pre.nodes.dom());
    assert forall|k: u32| #[trigger] post.nodes.contains_key(k) && post.nodes[k].state
        != InfectionState::Susceptible implies reach.contains(k) by {
        lemma_best_offer(pre.nodes, e, k);
        if best_offer(pre.nodes, e, k) > 0 {
            let j = choose|j: int| 0 <= j < e.len() && involves(#[trigger] e[j], k);
            assert(sender_active(pre, e[j].0, rumor));
            assert(reach.contains(e[j].0));
            assert(pre.nodes[e[j].0].neighbors@.contains(e[j].1));
        } else {
            assert(pre.nodes.contains_key(k));
        }
    }
    assert forall|k: u32, x: u32|
        #[trigger] reach.contains(k) && #[trigger] post.nodes[k].neighbors@.contains(x) implies reach.contains(x) by {
        assert(pre.nodes.contains_key(k));
        assert(pre.nodes[k].neighbors@.contains(x));
    }
}

/// `results` are the rounds of a run from `pre` to `post` that stops after the
/// first round that reports convergence, or after `max_rounds` rounds: each
/// round is a `round_step` from the state the previous one left.
pub open spec fn rounds_outcome(
    pre: ClusterView,
    post: ClusterView,
    results: Seq<RoundResult>,
    max_rounds: u32,
    rumor: bool,
) -> bool {
    &&& results.len() <= max_rounds
    &&& results.len() < max_rounds ==> results.len() > 0 && results.last().converged
    &&& forall|j: int| 0 <= j < results.len() - 1 ==> !(#[trigger] results[j]).converged
    &&& exists|states: Seq<ClusterView>|
        {
            &&& states.len() == results.len() + 1
            &&& states[0] == pre
            &&& states.last() == post
            &&& forall|j: int|
                0 <= j < results.len() ==> round_step(states[j], states[j + 1], #[trigger] results[j], rumor)
        }
}

/// A round keeps the set of nodes, every node's id and neighbors, the fanout and
/// the update being propagated, and advances the round counter by one.
pub proof fn lemma_round_keeps_structure(pre: ClusterView, post: ClusterView, r: RoundResult, rumor: bool)
    requires
        round_step(pre, post, r, rumor),
    ensures
        post.nodes.dom() == pre.nodes.dom(),
        forall|k: u32|
            #[trigger] post.nodes.contains_key(k) ==> post.nodes[k].id == pre.nodes[k].id
                && post.nodes[k].neighbors == pre.nodes[k].neighbors,
        indexed_by_id(pre.nodes) ==> indexed_by_id(post.nodes),
        closed_topology(pre.nodes) ==> closed_topology(post.nodes),
        post.round == pre.round + 1,
        post.fanout == pre.fanout,
        post.target == pre.target,
        post.source == pre.source,
{
    assert(post.nodes.dom() =~= pre.nodes.dom());
}

} // verus!
