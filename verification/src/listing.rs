use std::collections::HashMap;
use vstd::prelude::*;
use vstd::std_specs::iter::IteratorSpec;

use crate::node::GossipNode;
use crate::state::InfectionState;

verus! {

broadcast use vstd::std_specs::hash::group_hash_axioms;

/// The keys of `m`, in the order the map is walked.
pub fn key_listing<V>(m: &HashMap<u32, V>) -> (ids: Vec<u32>)
    ensures
        is_listing(ids@, m@.dom()),
{
    let ghost walk = vstd::std_specs::hash::spec_keys_iter(m).remaining();
    let mut ids: Vec<u32> = Vec::new();
    for k in it: m.keys()
        invariant
            it.seq() == walk,
            ids@ == walk.unref().take(it.index()),
            walk.unref().to_set() == m@.dom(),
            walk.no_duplicates(),
    {
        ids.push(*k);
    }
    assert(ids@ =~= walk.unref());
    ids
}

/// Exchanging two entries of a sequence keeps its elements, and keeps it free of
/// duplicates if it was.
pub proof fn lemma_swap_listing(s: Seq<u32>, i: int, j: int)
    requires
        0 <= i < s.len(),
        0 <= j < s.len(),
    ensures
        s.no_duplicates() ==> s.update(i, s[j]).update(j, s[i]).no_duplicates(),
        s.update(i, s[j]).update(j, s[i]).to_set() == s.to_set(),
        s.update(i, s[j]).update(j, s[i]).len() == s.len(),
{
    let t = s.update(i, s[j]).update(j, s[i]);
    // position in `s` of the element at position `a` of `t`
    assert forall|a: int| 0 <= a < t.len() implies #[trigger] t[a] == s[if a == i {
        j
    } else if a == j {
        i
    } else {
        a
    }] by {}
    assert forall|a: int, b: int|
        s.no_duplicates() && 0 <= a < t.len() && 0 <= b < t.len() && a != b implies t[a] != t[b] by {
        let pa = if a == i { j } else if a == j { i } else { a };
        let pb = if b == i { j } else if b == j { i } else { b };
        assert(t[a] == s[pa]);
        assert(t[b] == s[pb]);
    }
    assert forall|x: u32| t.to_set().contains(x) implies s.to_set().contains(x) by {
        let a = choose|a: int| 0 <= a < t.len() && t[a] == x;
        let pa = if a == i { j } else if a == j { i } else { a };
        assert(t[a] == s[pa]);
    }
    assert forall|x: u32| s.to_set().contains(x) implies t.to_set().contains(x) by {
        let a = choose|a: int| 0 <= a < s.len() && s[a] == x;
        let pa = if a == i { j } else if a == j { i } else { a };
        assert(t[pa] == s[a]);
    }
    assert(t.to_set() =~= s.to_set());
}

/// `order` lists each element of `s` exactly once.
pub open spec fn is_listing(order: Seq<u32>, s: Set<u32>) -> bool {
    order.no_duplicates() && order.to_set() == s
}

/// The keys of `nodes` whose node is in state `st`.
pub open spec fn keys_in_state(nodes: Map<u32, GossipNode>, st: InfectionState) -> Set<u32> {
    nodes.dom().filter(|k: u32| nodes[k].state == st)
}

/// How many keys listed in `order` map to a node in state `st`.
pub open spec fn count_in_state(nodes: Map<u32, GossipNode>, order: Seq<u32>, st: InfectionState) -> nat
    decreases order.len(),
{
    if order.len() == 0 {
        0
    } else {
        count_in_state(nodes, order.drop_last(), st) + if nodes[order.last()].state == st {
            1nat
        } else {
            0nat
        }
    }
}

/// The ids of the nodes in state `st`, taken in the order of `order`.
pub open spec fn ids_in_state(nodes: Map<u32, GossipNode>, order: Seq<u32>, st: InfectionState) -> Seq<u32>
    decreases order.len(),
{
    if order.len() == 0 {
        Seq::empty()
    } else {
        ids_in_state(nodes, order.drop_last(), st) + if nodes[order.last()].state == st {
            seq![nodes[order.last()].id]
        } else {
            Seq::<u32>::empty()
        }
    }
}

/// Counting the listed keys in a state gives the size of that set of keys.
pub proof fn lemma_count_in_state(nodes: Map<u32, GossipNode>, order: Seq<u32>, st: InfectionState)
    requires
        order.no_duplicates(),
    ensures
        count_in_state(nodes, order, st) == order.to_set().filter(|k: u32| nodes[k].state == st).len(),
        order.to_set().filter(|k: u32| nodes[k].state == st).finite(),
    decreases order.len(),
{
    let f = |k: u32| nodes[k].state == st;
    if order.len() == 0 {
        assert(order.to_set().filter(f) =~= Set::empty());
    } else {
        let rest = order.drop_last();
        assert(rest.no_duplicates());
        lemma_count_in_state(nodes, rest, st);
        assert(order.to_set() =~= rest.to_set().insert(order.last())) by {
            assert(order =~= rest.push(order.last()));
        }
        assert(!rest.to_set().contains(order.last()));
        if f(order.last()) {
            assert(order.to_set().filter(f) =~= rest.to_set().filter(f).insert(order.last()));
        } else {
            assert(order.to_set().filter(f) =~= rest.to_set().filter(f));
        }
    }
}

/// The ids collected over a listing of the keys, where each node sits under its own
/// id, list the keys in state `st` once each.
pub proof fn lemma_ids_in_state(nodes: Map<u32, GossipNode>, order: Seq<u32>, st: InfectionState)
    requires
        order.no_duplicates(),
        forall|i: int| 0 <= i < order.len() ==> #[trigger] nodes[order[i]].id == order[i],
    ensures
        is_listing(ids_in_state(nodes, order, st), order.to_set().filter(|k: u32| nodes[k].state == st)),
        ids_in_state(nodes, order, st).len() == count_in_state(nodes, order, st),
    decreases order.len(),
{
    let f = |k: u32| nodes[k].state == st;
    if order.len() > 0 {
        let rest = order.drop_last();
        assert forall|i: int| 0 <= i < rest.len() implies #[trigger] nodes[rest[i]].id == rest[i] by {
            assert(rest[i] == order[i]);
        }
        lemma_ids_in_state(nodes, rest, st);
        assert(order =~= rest.push(order.last()));
        assert(order.to_set() =~= rest.to_set().insert(order.last()));
        assert(!rest.to_set().contains(order.last()));
        let prev = ids_in_state(nodes, rest, st);
        assert(nodes[order[order.len() - 1]].id == order[order.len() - 1]);
        if f(order.last()) {
            assert(order.to_set().filter(f) =~= rest.to_set().filter(f).insert(order.last()));
            let cur = prev + seq![order.last()];
            assert(ids_in_state(nodes, order, st) =~= cur);
            assert(cur.to_set() =~= prev.to_set().insert(order.last())) by {
                assert forall|x: u32| cur.to_set().contains(x) implies prev.to_set().insert(order.last()).contains(x) by {
                    let j = choose|j: int| 0 <= j < cur.len() && cur[j] == x;
                    if j < prev.len() {
                        assert(prev[j] == x);
                    }
                }
                assert forall|x: u32| prev.to_set().insert(order.last()).contains(x) implies cur.to_set().contains(x) by {
                    if x == order.last() {
                        assert(cur[prev.len() as int] == x);
                    } else {
                        let j = choose|j: int| 0 <= j < prev.len() && prev[j] == x;
                        assert(cur[j] == x);
                    }
                }
            }
            assert(!prev.contains(order.last())) by {
                if prev.contains(order.last()) {
                    assert(prev.to_set().contains(order.last()));
                }
            }
            assert(cur.no_duplicates()) by {
                assert forall|a: int, b: int| 0 <= a < cur.len() && 0 <= b < cur.len() && a != b implies cur[a] != cur[b] by {
                    if a < prev.len() && b < prev.len() {
                    } else if a < prev.len() {
                        assert(prev.contains(cur[a]));
                    } else if b < prev.len() {
                        assert(prev.contains(cur[b]));
                    }
                }
            }
        } else {
            assert(order.to_set().filter(f) =~= rest.to_set().filter(f));
            assert(ids_in_state(nodes, order, st) =~= prev);
        }
    } else {
        assert(order.to_set().filter(f) =~= Set::empty());
        assert(ids_in_state(nodes, order, st).to_set() =~= Set::empty());
    }
}

} // verus!
