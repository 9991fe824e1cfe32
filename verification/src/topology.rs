//! Builders for common cluster topologies.
use vstd::prelude::*;

use crate::cluster::{ClusterView, GossipCluster};
use crate::node::GossipNode;
use crate::state::InfectionState;

verus! {

/// The ids `0, 1, ..., m - 1`.
fn id_range(m: u32) -> (ids: Vec<u32>)
    ensures
        ids@.len() == m,
        forall|j: int| 0 <= j < m ==> #[trigger] ids@[j] == j,
{
    let mut ids: Vec<u32> = Vec::new();
    let mut k: u32 = 0;
    while k < m
        invariant
            k <= m,
            ids@.len() == k,
            forall|j: int| 0 <= j < k ==> #[trigger] ids@[j] == j,
        decreases m - k,
    {
        ids.push(k);
        k = k + 1;
    }
    ids
}

/// A fresh cluster with the given fanout and no update seeded yet, holding the
/// nodes `nodes`.
pub open spec fn fresh_cluster(nodes: Map<u32, GossipNode>, fanout: usize) -> ClusterView {
    ClusterView { nodes, fanout, round: 0, seed: 42, target: 0, source: None }
}

/// Node `k` of a freshly built topology: susceptible, version 0, with neighbors `nbrs`.
pub open spec fn fresh_node(n: GossipNode, k: u32, nbrs: Set<u32>) -> bool {
    &&& n.id == k
    &&& n.state == InfectionState::Susceptible
    &&& n.version == 0
    &&& n.neighbors@ == nbrs
}

/// The neighbors of node `k` in a full mesh of the nodes `0 .. m`: all the others.
pub open spec fn mesh_neighbors(k: u32, m: u32) -> Set<u32> {
    Set::new(|x: u32| x < m && x != k)
}

/// Build a fully-connected cluster of `n` nodes with the given fanout: nodes
/// `0 .. n` (`n` taken as a `u32`), each the neighbor of every other.
pub fn build_full_mesh(n: usize, fanout: usize) -> (c: GossipCluster)
    ensures
        c@ == fresh_cluster(c@.nodes, fanout),
        c@.nodes.dom() == Set::new(|k: u32| k < n as u32),
        forall|k: u32|
            #[trigger] c@.nodes.contains_key(k) ==> fresh_node(
                c@.nodes[k],
                k,
                mesh_neighbors(k, n as u32),
            ),
{
    let mut cluster = GossipCluster::new(fanout);
    let m = n as u32;
    let ids = id_range(m);
    let mut i: usize = 0;
    while i < ids.len()
        invariant
            ids@.len() == m,
            forall|j: int| 0 <= j < m ==> #[trigger] ids@[j] == j,
            0 <= i <= m,
            cluster@ == fresh_cluster(cluster@.nodes, fanout),
            cluster@.nodes.dom() == Set::new(|k: u32| k < i),
            forall|k: u32|
                #[trigger] cluster@.nodes.contains_key(k) ==> fresh_node(
                    cluster@.nodes[k],
                    k,
                    mesh_neighbors(k, m),
                ),
        decreases ids.len() - i,
    {
        let id = ids[i];
        let mut node = GossipNode::new(id);
        let mut j: usize = 0;
        assert(node.neighbors@ =~= Set::new(|x: u32| x < j && x != id));
        while j < ids.len()
            invariant
                ids@.len() == m,
                forall|q: int| 0 <= q < m ==> #[trigger] ids@[q] == q,
                0 <= j <= m,
                id == i,
                i < m,
                fresh_node(node, id, Set::new(|x: u32| x < j && x != id)),
            decreases ids.len() - j,
        {
            let other = ids[j];
            if other != id {
                node.add_neighbor(other);
            }
            j = j + 1;
            assert(node.neighbors@ =~= Set::new(|x: u32| x < j && x != id));
        }
        assert(node.neighbors@ =~= mesh_neighbors(id, m));
        cluster.add_node(node);
        i = i + 1;
        assert(cluster@.nodes.dom() =~= Set::new(|k: u32| k < i));
    }
    assert(cluster@.nodes.dom() =~= Set::new(|k: u32| k < n as u32));
    cluster
}

/// The `k`-th nearest node (counting from 0) to node `i` in a ring of `n` nodes:
/// nearer nodes first, and at equal distance the next node before the previous one.
pub open spec fn ring_nth(i: int, n: int, k: int) -> int {
    if k % 2 == 0 {
        (i + (k / 2 + 1) % n) % n
    } else {
        (i + (n - ((k + 1) / 2) % n)) % n
    }
}

/// The `c` nearest nodes to node `i` in a ring of `n` nodes.
pub open spec fn ring_nearest(i: int, n: int, c: int) -> Set<u32> {
    Set::new(|x: u32| exists|k: int| 0 <= k < c && x == #[trigger] ring_nth(i, n, k))
}

/// Node `x` is the `d`-th node after or before node `i` in a ring of `n` nodes.
pub open spec fn ring_link(i: int, n: int, d: int, x: u32) -> bool {
    x == (i + d) % n || x == (i + n - d) % n
}

/// The neighbors of node `i` in a ring of `n` nodes where each node connects to its
/// `degree` nearest nodes on each side.
pub open spec fn ring_neighbors(i: int, n: int, degree: int) -> Set<u32> {
    Set::new(|x: u32| exists|d: int| 1 <= d <= degree && #[trigger] ring_link(i, n, d, x))
}

/// The inputs on which building a ring completes: nothing to link, or a ring of
/// at most `u32::MAX + 1` ids whose index arithmetic stays in range.
pub open spec fn ring_buildable(n: usize, degree: usize) -> bool {
    let m = (n as u32) as int;
    m == 0 || degree == 0 || (m == n && degree <= n && 2 * n - 1 <= usize::MAX)
}

/// Two integers less than `n` apart with the same remainder modulo `n` are equal.
proof fn lemma_mod_window(x: int, y: int, n: int)
    requires
        n > 0,
        -n < x - y < n,
        x % n == y % n,
    ensures
        x == y,
{
    vstd::arithmetic::div_mod::lemma_fundamental_div_mod(x, n);
    vstd::arithmetic::div_mod::lemma_fundamental_div_mod(y, n);
    let qx = x / n;
    let qy = y / n;
    assert(x == y) by (nonlinear_arith)
        requires
            x == n * qx + x % n,
            y == n * qy + y % n,
            x % n == y % n,
            -n < x - y < n,
            n > 0,
    ;
}

/// In a ring of more than `c` nodes, the `c` nearest nodes are `c` distinct nodes.
proof fn lemma_ring_nearest(i: int, n: int, c: int)
    requires
        0 <= i < n,
        0 <= c < n,
        n <= u32::MAX + 1,
    ensures
        ring_nearest(i, n, c).finite(),
        ring_nearest(i, n, c).len() == c,
{
    let degree = c;
    // the offset from `i`, before reduction modulo `n`, of the `k`-th nearest node
    let off = |k: int| if k % 2 == 0 { k / 2 + 1 } else { n - (k + 1) / 2 };
    let s = Seq::new(degree as nat, |k: int| ring_nth(i, n, k) as u32);
    assert forall|k: int| 0 <= k < degree implies 1 <= #[trigger] off(k) < n && ring_nth(i, n, k) == (i + off(k)) % n by {
        if k % 2 == 0 {
            vstd::arithmetic::div_mod::lemma_small_mod((k / 2 + 1) as nat, n as nat);
        } else {
            vstd::arithmetic::div_mod::lemma_small_mod(((k + 1) / 2) as nat, n as nat);
        }
    }
    assert forall|a: int, b: int| 0 <= a < s.len() && 0 <= b < s.len() && a != b implies s[a] != s[b] by {
        assert(off(a) != off(b));
        if s[a] == s[b] {
            assert(0 <= ring_nth(i, n, a) < n);
            assert(0 <= ring_nth(i, n, b) < n);
            lemma_mod_window(i + off(a), i + off(b), n);
        }
    }
    assert forall|x: u32| ring_nearest(i, n, degree).contains(x) <==> s.to_set().contains(x) by {
        if ring_nearest(i, n, degree).contains(x) {
            let k = choose|k: int| 0 <= k < degree && x == #[trigger] ring_nth(i, n, k);
            assert(0 <= ring_nth(i, n, k) < n);
            assert(s[k] == x);
        }
        if s.to_set().contains(x) {
            let k = choose|k: int| 0 <= k < s.len() && s[k] == x;
            assert(0 <= ring_nth(i, n, k) < n);
            assert(x == ring_nth(i, n, k));
        }
    }
    assert(ring_nearest(i, n, degree) =~= s.to_set());
    s.unique_seq_to_set();
}

/// The neighbors of a node in a ring, `degree` on each side, are its `2 * degree`
/// nearest nodes; so where `2 * degree < n` a node has exactly `2 * degree`
/// neighbors.
pub proof fn lemma_ring_degree(i: int, n: int, degree: int)
    requires
        0 <= i < n,
        0 <= 2 * degree < n,
        n <= u32::MAX + 1,
    ensures
        ring_neighbors(i, n, degree) == ring_nearest(i, n, 2 * degree),
        ring_neighbors(i, n, degree).finite(),
        ring_neighbors(i, n, degree).len() == 2 * degree,
{
    assert forall|x: u32| ring_neighbors(i, n, degree).contains(x) <==> ring_nearest(i, n, 2 * degree).contains(x) by {
        if ring_neighbors(i, n, degree).contains(x) {
            let d = choose|d: int| 1 <= d <= degree && #[trigger] ring_link(i, n, d, x);
            vstd::arithmetic::div_mod::lemma_small_mod(d as nat, n as nat);
            if x == (i + d) % n {
                assert(x == ring_nth(i, n, 2 * d - 2));
            } else {
                assert(x == ring_nth(i, n, 2 * d - 1));
            }
        }
        if ring_nearest(i, n, 2 * degree).contains(x) {
            let k = choose|k: int| 0 <= k < 2 * degree && x == #[trigger] ring_nth(i, n, k);
            if k % 2 == 0 {
                vstd::arithmetic::div_mod::lemma_small_mod((k / 2 + 1) as nat, n as nat);
                assert(ring_link(i, n, k / 2 + 1, x));
            } else {
                vstd::arithmetic::div_mod::lemma_small_mod(((k + 1) / 2) as nat, n as nat);
                assert(ring_link(i, n, (k + 1) / 2, x));
            }
        }
    }
    assert(ring_neighbors(i, n, degree) =~= ring_nearest(i, n, 2 * degree));
    lemma_ring_nearest(i, n, 2 * degree);
}

/// Build a ring cluster of `n` nodes (`n` taken as a `u32`) where each node
/// connects to its `degree` nearest neighbors: the nodes within ring distance
/// `degree` of it, on both sides.
pub fn build_ring(n: usize, degree: usize, fanout: usize) -> (c: GossipCluster)
    requires
        ring_buildable(n, degree),
    ensures
        c@ == fresh_cluster(c@.nodes, fanout),
        c@.nodes.dom() == Set::new(|k: u32| k < n as u32),
        forall|k: u32|
            #[trigger] c@.nodes.contains_key(k) ==> fresh_node(
                c@.nodes[k],
                k,
                ring_neighbors(k as int, n as int, degree as int),
            ),
        2 * degree < n ==> forall|k: u32|
            #[trigger] c@.nodes.contains_key(k) ==> c@.nodes[k].neighbors@.len() == 2 * degree,
{
    let mut cluster = GossipCluster::new(fanout);
    let m = n as u32;
    let ids = id_range(m);
    let mut i: usize = 0;
    while i < ids.len()
        invariant
            ring_buildable(n, degree),
            m == n as u32,
            ids@.len() == m,
            forall|j: int| 0 <= j < m ==> #[trigger] ids@[j] == j,
            0 <= i <= m,
            cluster@ == fresh_cluster(cluster@.nodes, fanout),
            cluster@.nodes.dom() == Set::new(|k: u32| k < i),
            forall|k: u32|
                #[trigger] cluster@.nodes.contains_key(k) ==> fresh_node(
                    cluster@.nodes[k],
                    k,
                    ring_neighbors(k as int, n as int, degree as int),
                ),
        decreases ids.len() - i,
    {
        let id = ids[i];
        let mut node = GossipNode::new(id);
        let mut d: usize = 1;
        assert(node.neighbors@ =~= Set::new(
            |x: u32| exists|e: int| 1 <= e < d && #[trigger] ring_link(i as int, n as int, e, x),
        ));
        while d <= degree
            invariant
                ring_buildable(n, degree),
                m == n as u32,
                ids@.len() == m,
                forall|q: int| 0 <= q < m ==> #[trigger] ids@[q] == q,
                i < m,
                id == i,
                1 <= d <= degree + 1,
                fresh_node(
                    node,
                    id,
                    Set::new(
                        |x: u32| exists|e: int| 1 <= e < d && #[trigger] ring_link(i as int, n as int, e, x),
                    ),
                ),
            decreases degree + 1 - d,
        {
            let right = ids[(i + d) % n];
            let left = ids[(i + n - d) % n];
            node.add_neighbor(right);
            node.add_neighbor(left);
            assert(ring_link(i as int, n as int, d as int, right));
            assert(ring_link(i as int, n as int, d as int, left));
            d = d + 1;
            assert(node.neighbors@ =~= Set::new(
                |x: u32| exists|e: int| 1 <= e < d && #[trigger] ring_link(i as int, n as int, e, x),
            )) by {
                assert forall|x: u32| node.neighbors@.contains(x) implies exists|e: int|
                    1 <= e < d && #[trigger] ring_link(i as int, n as int, e, x) by {
                    if x == right || x == left {
                        assert(ring_link(i as int, n as int, d - 1, x));
                    }
                }
            }
        }
        assert(node.neighbors@ =~= ring_neighbors(i as int, n as int, degree as int));
        cluster.add_node(node);
        i = i + 1;
        assert(cluster@.nodes.dom() =~= Set::new(|k: u32| k < i));
    }
    assert(cluster@.nodes.dom() =~= Set::new(|k: u32| k < n as u32));
    proof {
        if 2 * degree < n {
            assert forall|k: u32| #[trigger] cluster@.nodes.contains_key(k) implies cluster@.nodes[k].neighbors@.len()
                == 2 * degree by {
                if degree == 0 {
                    assert(ring_neighbors(k as int, n as int, 0) =~= Set::empty());
                } else {
                    lemma_ring_degree(k as int, n as int, degree as int);
                }
            }
        }
    }
    cluster
}

} // verus!
