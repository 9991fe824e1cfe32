//! Properties of the protocol that span several operations or every state.
use vstd::prelude::*;

use crate::cluster::{converged, ClusterView, RoundResult};
use crate::listing::{is_listing, keys_in_state};
use crate::node::{neighbors_all_infected, GossipNode};
use crate::protocol::{
    best_offer, lemma_best_offer, offer_value, promotions, received, relayed_nodes, round_ready,
    round_step, round_transitions, rounds_outcome, exchange_effect, sender_active, targets_of,
    contact_count,
};
use crate::state::{state_of_value, state_value, InfectionState};

verus! {

/// Parsing the value of a state gives the state back, and a parsed state has the
/// value it was parsed from.
pub proof fn law_value_round_trip(s: InfectionState, v: int)
    ensures
        state_of_value(state_value(s)) == Some(s),
        state_of_value(v) matches Some(t) ==> state_value(t) == v,
{
}

/// Every node is in exactly one of the three states, so the three counts of
/// `state_counts` add up to the number of nodes.
pub proof fn law_state_counts_cover_cluster(nodes: Map<u32, GossipNode>)
    requires
        nodes.dom().finite(),
    ensures
        keys_in_state(nodes, InfectionState::Infected).len() + keys_in_state(
            nodes,
            InfectionState::Carrier,
        ).len() + keys_in_state(nodes, InfectionState::Susceptible).len() == nodes.dom().len(),
{
    let d = nodes.dom();
    let i = keys_in_state(nodes, InfectionState::Infected);
    let c = keys_in_state(nodes, InfectionState::Carrier);
    let s = keys_in_state(nodes, InfectionState::Susceptible);
    d.lemma_len_filter(|k: u32| nodes[k].state == InfectionState::Infected);
    d.lemma_len_filter(|k: u32| nodes[k].state == InfectionState::Carrier);
    d.lemma_len_filter(|k: u32| nodes[k].state == InfectionState::Susceptible);
    assert(i.disjoint(c));
    assert((i + c).disjoint(s));
    vstd::set_lib::lemma_set_disjoint_lens(i, c);
    vstd::set_lib::lemma_set_disjoint_lens(i + c, s);
    assert(i + c + s =~= d);
}

/// The ids that `infected_nodes` lists are as many as the infected nodes that
/// `state_counts` counts.
pub proof fn law_infected_list_matches_count(v: ClusterView, listed: Seq<u32>)
    requires
        is_listing(listed, keys_in_state(v.nodes, InfectionState::Infected)),
    ensures
        listed.len() == keys_in_state(v.nodes, InfectionState::Infected).len(),
{
    listed.unique_seq_to_set();
}

/// How far a node has progressed: its version first, then its state
/// (susceptible < carrier < infected).
pub open spec fn progress_le(a: GossipNode, b: GossipNode) -> bool {
    a.version < b.version || (a.version == b.version && state_value(a.state) <= state_value(b.state))
}

/// Monotonic progression: in a round, no node loses progress. A node's version
/// never decreases, and while it keeps its version its state only moves forward,
/// Susceptible -> Carrier -> Infected.
pub proof fn law_round_is_monotone(pre: ClusterView, post: ClusterView, r: RoundResult, rumor: bool)
    requires
        round_step(pre, post, r, rumor),
    ensures
        forall|k: u32| #[trigger] pre.nodes.contains_key(k) ==> progress_le(pre.nodes[k], post.nodes[k]),
{
    assert forall|k: u32| #[trigger] pre.nodes.contains_key(k) implies progress_le(pre.nodes[k], post.nodes[k]) by {
        lemma_best_offer(pre.nodes, r.exchanges@, k);
    }
}

/// Every offer that `e` makes to `x` is a version some node of the cluster holds.
proof fn lemma_offers_are_held(nodes: Map<u32, GossipNode>, e: Seq<(u32, u32)>, x: u32)
    requires
        forall|j: int| 0 <= j < e.len() ==> nodes.contains_key(#[trigger] e[j].0) && nodes.contains_key(e[j].1),
    ensures
        best_offer(nodes, e, x) > 0 ==> exists|y: u32| #[trigger] nodes.contains_key(y) && nodes[y].version
            == best_offer(nodes, e, x),
    decreases e.len(),
{
    if e.len() > 0 {
        let rest = e.drop_last();
        assert forall|j: int| 0 <= j < rest.len() implies nodes.contains_key(#[trigger] rest[j].0)
            && nodes.contains_key(rest[j].1) by {
            assert(rest[j] == e[j]);
        }
        lemma_offers_are_held(nodes, rest, x);
        let p = e.last();
        assert(p == e[e.len() - 1]);
        if offer_value(nodes, p, x) > 0 && offer_value(nodes, p, x) > best_offer(nodes, rest, x) {
            assert(nodes.contains_key(p.0) && nodes.contains_key(p.1));
        }
    }
}

/// Gossip only spreads versions that exist: after a round, every node holds a
/// version that some node held before it.
pub proof fn law_round_spreads_only_held_versions(
    pre: ClusterView,
    post: ClusterView,
    r: RoundResult,
    rumor: bool,
)
    requires
        round_ready(pre, rumor),
        round_step(pre, post, r, rumor),
    ensures
        forall|k: u32|
            #[trigger] post.nodes.contains_key(k) ==> exists|y: u32| #[trigger] pre.nodes.contains_key(y)
                && pre.nodes[y].version == post.nodes[k].version,
{
    let e = r.exchanges@;
    assert forall|j: int| 0 <= j < e.len() implies pre.nodes.contains_key(#[trigger] e[j].0) && pre.nodes.contains_key(
        e[j].1,
    ) by {
        assert(crate::protocol::sender_active(pre, e[j].0, rumor));
    }
    assert forall|k: u32| #[trigger] post.nodes.contains_key(k) implies exists|y: u32| #[trigger] pre.nodes.contains_key(y)
        && pre.nodes[y].version == post.nodes[k].version by {
        lemma_offers_are_held(pre.nodes, e, k);
        if best_offer(pre.nodes, e, k) == 0 {
            assert(pre.nodes.contains_key(k));
        }
    }
}

/// No exchange offers anything when every node holds the same version.
proof fn lemma_no_offers_when_level(nodes: Map<u32, GossipNode>, e: Seq<(u32, u32)>, x: u32, ver: u64)
    requires
        forall|j: int| 0 <= j < e.len() ==> nodes.contains_key(#[trigger] e[j].0) && nodes.contains_key(e[j].1),
        forall|k: u32| #[trigger] nodes.contains_key(k) ==> nodes[k].version == ver,
    ensures
        best_offer(nodes, e, x) == 0,
    decreases e.len(),
{
    if e.len() > 0 {
        let rest = e.drop_last();
        assert forall|j: int| 0 <= j < rest.len() implies nodes.contains_key(#[trigger] rest[j].0)
            && nodes.contains_key(rest[j].1) by {
            assert(rest[j] == e[j]);
        }
        lemma_no_offers_when_level(nodes, rest, x, ver);
        assert(e.last() == e[e.len() - 1]);
    }
}

/// No promotions are reported when no node is a carrier.
proof fn lemma_no_promotions(mid: Map<u32, GossipNode>, order: Seq<u32>, target: u64)
    requires
        forall|j: int| 0 <= j < order.len() ==> #[trigger] mid[order[j]].state == InfectionState::Infected,
    ensures
        promotions(mid, order, target) == Seq::<(u32, InfectionState, InfectionState)>::empty(),
    decreases order.len(),
{
    if order.len() > 0 {
        let rest = order.drop_last();
        assert forall|j: int| 0 <= j < rest.len() implies #[trigger] mid[rest[j]].state == InfectionState::Infected by {
            assert(rest[j] == order[j]);
        }
        lemma_no_promotions(mid, rest, target);
        assert(mid[order[order.len() - 1]].state == InfectionState::Infected);
    }
}

/// Convergence is stable: once every node is infected with the target version, a
/// round changes no node, reports no transition, and reports convergence again.
pub proof fn law_convergence_is_stable(pre: ClusterView, post: ClusterView, r: RoundResult, rumor: bool)
    requires
        round_ready(pre, rumor),
        converged(pre),
        round_step(pre, post, r, rumor),
    ensures
        post.nodes == pre.nodes,
        r.transitions@.len() == 0,
        r.converged,
        converged(post),
{
    let e = r.exchanges@;
    assert(crate::protocol::valid_exchanges(pre, e, rumor));
    assert forall|j: int| 0 <= j < e.len() implies pre.nodes.contains_key(#[trigger] e[j].0) && pre.nodes.contains_key(
        e[j].1,
    ) by {
        assert(crate::protocol::sender_active(pre, e[j].0, rumor));
    }
    assert forall|k: u32| #[trigger] pre.nodes.contains_key(k) implies pre.nodes[k].version == pre.target by {}
    assert forall|x: u32| best_offer(pre.nodes, e, x) == 0 by {
        lemma_no_offers_when_level(pre.nodes, e, x, pre.target);
    }
    assert(relayed_nodes(pre.nodes, e) =~= pre.nodes);
    assert(post.nodes =~= pre.nodes);
    let (walk, recv_order) = choose|walk: Seq<u32>, recv_order: Seq<u32>|
        {
            &&& is_listing(walk, pre.nodes.dom())
            &&& is_listing(recv_order, received(pre.nodes, r.exchanges@))
            &&& r.transitions@ == round_transitions(pre.nodes, r.exchanges@, pre.target, recv_order, walk)
        };
    assert(received(pre.nodes, e) =~= Set::empty());
    recv_order.unique_seq_to_set();
    assert forall|j: int| 0 <= j < walk.len() implies #[trigger] relayed_nodes(pre.nodes, e)[walk[j]].state
        == InfectionState::Infected by {
        assert(walk.to_set().contains(walk[j]));
    }
    lemma_no_promotions(relayed_nodes(pre.nodes, e), walk, pre.target);
    assert(r.transitions@ =~= Seq::<(u32, InfectionState, InfectionState)>::empty());
}

/// A run that stops before using all its rounds leaves the cluster converged, and
/// a run that leaves the cluster unconverged used every round it was given.
pub proof fn law_early_stop_means_converged(
    pre: ClusterView,
    post: ClusterView,
    results: Seq<RoundResult>,
    max_rounds: u32,
    rumor: bool,
)
    requires
        rounds_outcome(pre, post, results, max_rounds, rumor),
    ensures
        results.len() < max_rounds ==> converged(post),
        !converged(post) ==> results.len() == max_rounds,
{
    if results.len() < max_rounds {
        let states = choose|states: Seq<ClusterView>|
            {
                &&& states.len() == results.len() + 1
                &&& states[0] == pre
                &&& states.last() == post
                &&& forall|j: int|
                    0 <= j < results.len() ==> round_step(states[j], states[j + 1], #[trigger] results[j], rumor)
            };
        let n = results.len() - 1;
        assert(round_step(states[n], states[n + 1], results[n], rumor));
    }
}

/// Each exchange offers at least what it offers to `x`: the newest offer is no
/// older than any single one.
proof fn lemma_best_offer_covers(nodes: Map<u32, GossipNode>, e: Seq<(u32, u32)>, x: u32, j: int)
    requires
        0 <= j < e.len(),
    ensures
        best_offer(nodes, e, x) >= offer_value(nodes, e[j], x),
    decreases e.len(),
{
    if j < e.len() - 1 {
        lemma_best_offer_covers(nodes, e.drop_last(), x, j);
        assert(e.drop_last()[j] == e[j]);
    }
}

/// Fanout: in every round, each node that holds the update in some form (and,
/// under rumor mongering, still has a neighbor that is not infected) contacts
/// exactly `min(fanout, number of its neighbors)` distinct neighbors, so never more
/// than `fanout`; a susceptible node contacts no one.
pub proof fn law_round_respects_fanout(pre: ClusterView, post: ClusterView, r: RoundResult, rumor: bool)
    requires
        round_step(pre, post, r, rumor),
    ensures
        forall|s: u32|
            #[trigger] pre.nodes.contains_key(s) && pre.nodes[s].state != InfectionState::Susceptible && (rumor
                ==> !neighbors_all_infected(pre.nodes[s], pre.nodes)) ==> {
                let contacted = Set::new(|t: u32| r.exchanges@.contains((s, t)));
                &&& contacted.finite()
                &&& contacted.len() == if pre.fanout < pre.nodes[s].neighbors@.len() {
                    pre.fanout as int
                } else {
                    pre.nodes[s].neighbors@.len() as int
                }
                &&& contacted.len() <= pre.fanout
            },
        forall|j: int|
            0 <= j < r.exchanges@.len() ==> pre.nodes[(#[trigger] r.exchanges@[j]).0].state
                != InfectionState::Susceptible,
{
    let e = r.exchanges@;
    assert(crate::protocol::valid_exchanges(pre, e, rumor));
    assert forall|s: u32|
        #[trigger] pre.nodes.contains_key(s) && pre.nodes[s].state != InfectionState::Susceptible && (rumor
            ==> !neighbors_all_infected(pre.nodes[s], pre.nodes)) implies {
        let contacted = Set::new(|t: u32| e.contains((s, t)));
        &&& contacted.finite()
        &&& contacted.len() == if pre.fanout < pre.nodes[s].neighbors@.len() {
            pre.fanout as int
        } else {
            pre.nodes[s].neighbors@.len() as int
        }
        &&& contacted.len() <= pre.fanout
    } by {
        let contacted = Set::new(|t: u32| e.contains((s, t)));
        assert(contacted =~= targets_of(e, s));
        if !sender_active(pre, s, rumor) {
            assert forall|t: u32| !contacted.contains(t) by {
                if e.contains((s, t)) {
                    let j = choose|j: int| 0 <= j < e.len() && e[j] == (s, t);
                    assert(sender_active(pre, e[j].0, rumor));
                }
            }
            assert(contacted =~= Set::empty());
        }
    }
    assert forall|j: int| 0 <= j < e.len() implies pre.nodes[(#[trigger] e[j]).0].state
        != InfectionState::Susceptible by {
        assert(sender_active(pre, e[j].0, rumor));
    }
}

/// Push and pull: in every exchange between an initiator `s` and a responder
/// `t`, whichever of the two holds the update in some form and has the newer
/// version passes it on. After the round the other one holds the update, in a
/// version at least as new, whatever state it was in before.
pub proof fn law_exchanges_push_and_pull(pre: ClusterView, post: ClusterView, r: RoundResult, rumor: bool)
    requires
        round_ready(pre, rumor),
        round_step(pre, post, r, rumor),
    ensures
        forall|j: int|
            0 <= j < r.exchanges@.len() ==> {
                let s = (#[trigger] r.exchanges@[j]).0;
                let t = r.exchanges@[j].1;
                &&& pre.nodes.contains_key(s) && pre.nodes.contains_key(t)
                &&& pre.nodes[s].state != InfectionState::Susceptible && pre.nodes[s].version
                    > pre.nodes[t].version ==> post.nodes[t].version >= pre.nodes[s].version
                    && post.nodes[t].state != InfectionState::Susceptible
                &&& pre.nodes[t].state != InfectionState::Susceptible && pre.nodes[t].version
                    > pre.nodes[s].version ==> post.nodes[s].version >= pre.nodes[t].version
                    && post.nodes[s].state != InfectionState::Susceptible
            },
{
    let e = r.exchanges@;
    assert(crate::protocol::valid_exchanges(pre, e, rumor));
    assert forall|j: int| 0 <= j < e.len() implies {
        let s = (#[trigger] e[j]).0;
        let t = e[j].1;
        &&& pre.nodes.contains_key(s) && pre.nodes.contains_key(t)
        &&& pre.nodes[s].state != InfectionState::Susceptible && pre.nodes[s].version > pre.nodes[t].version
            ==> post.nodes[t].version >= pre.nodes[s].version && post.nodes[t].state
            != InfectionState::Susceptible
        &&& pre.nodes[t].state != InfectionState::Susceptible && pre.nodes[t].version > pre.nodes[s].version
            ==> post.nodes[s].version >= pre.nodes[t].version && post.nodes[s].state
            != InfectionState::Susceptible
    } by {
        let s = e[j].0;
        let t = e[j].1;
        assert(sender_active(pre, s, rumor));
        assert(pre.nodes[s].neighbors@.contains(t));
        lemma_best_offer_covers(pre.nodes, e, t, j);
        lemma_best_offer_covers(pre.nodes, e, s, j);
    }
}

/// A nonzero newest offer is the offer of some single exchange.
proof fn lemma_best_offer_attained(nodes: Map<u32, GossipNode>, e: Seq<(u32, u32)>, x: u32)
    ensures
        best_offer(nodes, e, x) > 0 ==> exists|j: int|
            0 <= j < e.len() && offer_value(nodes, #[trigger] e[j], x) == best_offer(nodes, e, x),
    decreases e.len(),
{
    if e.len() > 0 {
        let rest = e.drop_last();
        lemma_best_offer_attained(nodes, rest, x);
        if offer_value(nodes, e.last(), x) >= best_offer(nodes, rest, x) {
            assert(e[e.len() - 1] == e.last());
        } else {
            let j = choose|j: int| 0 <= j < rest.len() && offer_value(nodes, #[trigger] rest[j], x)
                == best_offer(nodes, rest, x);
            assert(rest[j] == e[j]);
        }
    }
}

/// Where a new version comes from: a node whose version changes in a round took
/// part in an exchange with a partner that held the update in some form and held
/// exactly that newer version. Such a node ends the round a carrier, or infected
/// when the version is the target; a node keeps its version otherwise, and its
/// state changes only from carrier to infected, and only at the target version.
pub proof fn law_new_versions_come_from_partners(pre: ClusterView, post: ClusterView, r: RoundResult, rumor: bool)
    requires
        round_ready(pre, rumor),
        round_step(pre, post, r, rumor),
    ensures
        forall|x: u32|
            #[trigger] pre.nodes.contains_key(x) && post.nodes[x].version != pre.nodes[x].version ==> {
                &&& post.nodes[x].version > pre.nodes[x].version
                &&& exists|j: int|
                    0 <= j < r.exchanges@.len() && {
                        let p = #[trigger] r.exchanges@[j];
                        let y = if p.0 == x { p.1 } else { p.0 };
                        &&& (p.0 == x || p.1 == x)
                        &&& pre.nodes[y].state != InfectionState::Susceptible
                        &&& pre.nodes[y].version == post.nodes[x].version
                    }
                &&& post.nodes[x].state == if post.nodes[x].version == pre.target {
                    InfectionState::Infected
                } else {
                    InfectionState::Carrier
                }
            },
        forall|x: u32|
            #[trigger] pre.nodes.contains_key(x) && post.nodes[x].version == pre.nodes[x].version ==> {
                ||| post.nodes[x].state == pre.nodes[x].state
                ||| pre.nodes[x].state == InfectionState::Carrier && post.nodes[x].state
                    == InfectionState::Infected && pre.nodes[x].version == pre.target
            },
{
    let e = r.exchanges@;
    assert forall|x: u32| #[trigger] pre.nodes.contains_key(x) && post.nodes[x].version != pre.nodes[x].version implies {
        &&& post.nodes[x].version > pre.nodes[x].version
        &&& exists|j: int|
            0 <= j < e.len() && {
                let p = #[trigger] e[j];
                let y = if p.0 == x { p.1 } else { p.0 };
                &&& (p.0 == x || p.1 == x)
                &&& pre.nodes[y].state != InfectionState::Susceptible
                &&& pre.nodes[y].version == post.nodes[x].version
            }
        &&& post.nodes[x].state == if post.nodes[x].version == pre.target {
            InfectionState::Infected
        } else {
            InfectionState::Carrier
        }
    } by {
        lemma_best_offer(pre.nodes, e, x);
        lemma_best_offer_attained(pre.nodes, e, x);
        let j = choose|j: int| 0 <= j < e.len() && offer_value(pre.nodes, #[trigger] e[j], x) == best_offer(
            pre.nodes,
            e,
            x,
        );
        let p = e[j];
        assert(0 <= j < e.len() && {
            let y = if p.0 == x { p.1 } else { p.0 };
            &&& (p.0 == x || p.1 == x)
            &&& pre.nodes[y].state != InfectionState::Susceptible
            &&& pre.nodes[y].version == post.nodes[x].version
        });
    }
    assert forall|x: u32| #[trigger] pre.nodes.contains_key(x) && post.nodes[x].version == pre.nodes[x].version implies {
        ||| post.nodes[x].state == pre.nodes[x].state
        ||| pre.nodes[x].state == InfectionState::Carrier && post.nodes[x].state == InfectionState::Infected
            && pre.nodes[x].version == pre.target
    } by {
        lemma_best_offer(pre.nodes, e, x);
    }
}

/// Under rumor mongering, a node whose neighbors are all infected starts no
/// exchange.
pub proof fn law_rumor_stops_at_infected_neighborhoods(
    pre: ClusterView,
    post: ClusterView,
    r: RoundResult,
    s: u32,
)
    requires
        round_step(pre, post, r, true),
        pre.nodes.contains_key(s),
        neighbors_all_infected(pre.nodes[s], pre.nodes),
    ensures
        forall|j: int| 0 <= j < r.exchanges@.len() ==> (#[trigger] r.exchanges@[j]).0 != s,
{
}

/// A rumor-mongering round obeys every rule of a push-pull round: its exchanges
/// have the same effect on the cluster, each of them is one a push-pull round
/// could start, and each node that spreads contacts as many distinct neighbors as
/// under push-pull.
pub proof fn law_rumor_round_follows_gossip_rules(pre: ClusterView, post: ClusterView, r: RoundResult)
    requires
        round_step(pre, post, r, true),
    ensures
        exchange_effect(pre, post, r),
        r.exchanges@.no_duplicates(),
        forall|j: int|
            0 <= j < r.exchanges@.len() ==> sender_active(pre, (#[trigger] r.exchanges@[j]).0, false)
                && pre.nodes[r.exchanges@[j].0].neighbors@.contains(r.exchanges@[j].1),
        forall|s: u32|
            #[trigger] sender_active(pre, s, true) ==> sender_active(pre, s, false) && targets_of(
                r.exchanges@,
                s,
            ).len() == contact_count(pre.fanout, pre.nodes[s]),
{
    assert forall|j: int| 0 <= j < r.exchanges@.len() implies sender_active(pre, (#[trigger] r.exchanges@[j]).0, false)
        && pre.nodes[r.exchanges@[j].0].neighbors@.contains(r.exchanges@[j].1) by {
        assert(sender_active(pre, r.exchanges@[j].0, true));
    }
}

/// In every round, each exchange joins a node to one of its own neighbors, and
/// only a node that holds the update in some form starts one.
pub proof fn law_exchanges_follow_edges(pre: ClusterView, post: ClusterView, r: RoundResult, rumor: bool)
    requires
        round_step(pre, post, r, rumor),
    ensures
        forall|j: int|
            0 <= j < r.exchanges@.len() ==> {
                let p = #[trigger] r.exchanges@[j];
                &&& pre.nodes.contains_key(p.0)
                &&& pre.nodes[p.0].state != InfectionState::Susceptible
                &&& pre.nodes[p.0].neighbors@.contains(p.1)
            },
{
    assert forall|j: int| 0 <= j < r.exchanges@.len() implies {
        let p = #[trigger] r.exchanges@[j];
        &&& pre.nodes.contains_key(p.0)
        &&& pre.nodes[p.0].state != InfectionState::Susceptible
        &&& pre.nodes[p.0].neighbors@.contains(p.1)
    } by {
        assert(crate::protocol::sender_active(pre, r.exchanges@[j].0, rumor));
    }
}

} // verus!
