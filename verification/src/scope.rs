//! Counterfactual subgraph scoping for the bounded ATMS layer.
//! The do(e = absent) intervention operates on a bounded subgraph reached by
//! breadth-first search from the source node, never through the removed edge.

use vstd::prelude::*;
use std::collections::{HashSet, VecDeque};
use crate::types::{NodeId, EdgeId};

verus! {

broadcast use vstd::std_specs::hash::group_hash_axioms;

/// A bounded subgraph over which the bounded ATMS operates for one query.
#[derive(Debug)]
pub struct CounterfactualScope {
    pub intervened_edge: EdgeId,
    pub nodes: HashSet<NodeId>,
    pub edges: HashSet<EdgeId>,
    pub budget: usize,
}

/// `adj` may answer `v` for `n`, and `v` lists `(m, e)`.
pub open spec fn adj_lists<F: Fn(NodeId) -> Vec<(NodeId, EdgeId)>>(
    adj: F,
    n: NodeId,
    m: NodeId,
    e: EdgeId,
) -> bool {
    exists|v: Vec<(NodeId, EdgeId)>|
        call_ensures(adj, (n,), v) && #[trigger] v@.contains((m, e))
}

/// Every listed edge of node `n` other than `ie`, in one answer of `adj`, is in `edges`.
pub open spec fn expanded<F: Fn(NodeId) -> Vec<(NodeId, EdgeId)>>(
    adj: F,
    n: NodeId,
    ie: EdgeId,
    edges: Set<EdgeId>,
) -> bool {
    exists|v: Vec<(NodeId, EdgeId)>|
        #[trigger] call_ensures(adj, (n,), v) && forall|k: int|
            0 <= k < v@.len() && v@[k].1 != ie ==> edges.contains(#[trigger] v@[k].1)
}

/// `n` is reached from `root` in at most `k` steps, each step along an edge
/// that some answer of `adj` lists, that is in `edges` and that is not `ie`.
pub open spec fn reaches<F: Fn(NodeId) -> Vec<(NodeId, EdgeId)>>(
    adj: F,
    ie: EdgeId,
    edges: Set<EdgeId>,
    root: NodeId,
    n: NodeId,
    k: nat,
) -> bool
    decreases k,
{
    if n == root {
        true
    } else if k == 0 {
        false
    } else {
        exists|m: NodeId, e: EdgeId|
            #![trigger adj_lists(adj, m, n, e)]
            edges.contains(e) && e != ie && adj_lists(adj, m, n, e) && reaches(
                adj,
                ie,
                edges,
                root,
                m,
                (k - 1) as nat,
            )
    }
}

/// A path over some edges is still a path when more edges are kept.
pub proof fn lemma_reaches_mono<F: Fn(NodeId) -> Vec<(NodeId, EdgeId)>>(
    adj: F,
    ie: EdgeId,
    e1: Set<EdgeId>,
    e2: Set<EdgeId>,
    root: NodeId,
    n: NodeId,
    k: nat,
)
    requires
        e1.subset_of(e2),
        reaches(adj, ie, e1, root, n, k),
    ensures
        reaches(adj, ie, e2, root, n, k),
    decreases k,
{
    if n != root && k > 0 {
        let (m, e) = choose|m: NodeId, e: EdgeId|
            #![trigger adj_lists(adj, m, n, e)]
            e1.contains(e) && e != ie && adj_lists(adj, m, n, e) && reaches(adj, ie, e1, root, m, (k - 1) as nat);
        lemma_reaches_mono(adj, ie, e1, e2, root, m, (k - 1) as nat);
        assert(e2.contains(e) && e != ie && adj_lists(adj, m, n, e) && reaches(adj, ie, e2, root, m, (k - 1) as nat));
    }
}

/// `adj` gives one answer per node.
pub open spec fn answers_fixed<F: Fn(NodeId) -> Vec<(NodeId, EdgeId)>>(adj: F) -> bool {
    forall|n: NodeId, v1: Vec<(NodeId, EdgeId)>, v2: Vec<(NodeId, EdgeId)>|
        #![trigger call_ensures(adj, (n,), v1), call_ensures(adj, (n,), v2)]
        call_ensures(adj, (n,), v1) && call_ensures(adj, (n,), v2) ==> v1@ == v2@
}

/// An edge id names one target: two listed edges with the same id lead to
/// the same node.
pub open spec fn edge_ids_fix_targets<F: Fn(NodeId) -> Vec<(NodeId, EdgeId)>>(adj: F) -> bool {
    forall|m1: NodeId, n1: NodeId, m2: NodeId, n2: NodeId, e: EdgeId|
        #![trigger adj_lists(adj, m1, n1, e), adj_lists(adj, m2, n2, e)]
        adj_lists(adj, m1, n1, e) && adj_lists(adj, m2, n2, e) ==> n1 == n2
}

/// Every node that `n`'s answer lists over an edge other than `ie` is in `nodes`.
pub open spec fn expanded_to<F: Fn(NodeId) -> Vec<(NodeId, EdgeId)>>(
    adj: F,
    n: NodeId,
    ie: EdgeId,
    nodes: Set<NodeId>,
) -> bool {
    exists|v: Vec<(NodeId, EdgeId)>|
        #[trigger] call_ensures(adj, (n,), v) && forall|k: int|
            0 <= k < v@.len() && v@[k].1 != ie ==> nodes.contains(#[trigger] v@[k].0)
}

/// The search so far, with `dist` the depth at which each node was found and
/// `lvl` the depth now being expanded: no node is deeper than `lvl + 1`; and,
/// when answers are fixed and edge ids name their targets, every node within
/// `lvl` steps of the root is in, no node was found deeper than a path to it,
/// and every expanded node has all its listed neighbours in.
spec fn layered<F: Fn(NodeId) -> Vec<(NodeId, EdgeId)>>(
    adj: F,
    ie: EdgeId,
    root: NodeId,
    nodes: Set<NodeId>,
    done: Set<NodeId>,
    dist: Map<NodeId, nat>,
    lvl: nat,
) -> bool {
    &&& forall|x: NodeId| #[trigger] nodes.contains(x) ==> dist.contains_key(x) && dist[x] <= lvl + 1
    &&& (answers_fixed(adj) && edge_ids_fix_targets(adj)) ==> {
        &&& forall|y: NodeId, k: nat|
            #![trigger reaches(adj, ie, Set::<EdgeId>::full(), root, y, k)]
            k <= lvl && reaches(adj, ie, Set::<EdgeId>::full(), root, y, k) ==> nodes.contains(y)
        &&& forall|x: NodeId, k: nat|
            #![trigger nodes.contains(x), reaches(adj, ie, Set::<EdgeId>::full(), root, x, k)]
            nodes.contains(x) && reaches(adj, ie, Set::<EdgeId>::full(), root, x, k) ==> dist[x] <= k
        &&& forall|x: NodeId| #[trigger] done.contains(x) ==> expanded_to(adj, x, ie, nodes)
    }
}

/// The queue holds nodes found at depth `lvl` or `lvl + 1`, shallower first.
spec fn queue_levels(queue: Seq<NodeId>, dist: Map<NodeId, nat>, lvl: nat) -> bool {
    &&& forall|i: int| 0 <= i < queue.len() ==> dist.contains_key(#[trigger] queue[i]) && lvl <= dist[queue[i]]
        <= lvl + 1
    &&& forall|i: int, j: int| 0 <= i < j < queue.len() ==> dist[#[trigger] queue[i]] <= dist[#[trigger] queue[j]]
}

proof fn lemma_expanded_to_grows<F: Fn(NodeId) -> Vec<(NodeId, EdgeId)>>(
    adj: F,
    n: NodeId,
    ie: EdgeId,
    a: Set<NodeId>,
    b: Set<NodeId>,
)
    requires
        a.subset_of(b),
        expanded_to(adj, n, ie, a),
    ensures
        expanded_to(adj, n, ie, b),
{
    let v = choose|v: Vec<(NodeId, EdgeId)>|
        #[trigger] call_ensures(adj, (n,), v) && forall|k: int|
            0 <= k < v@.len() && v@[k].1 != ie ==> a.contains(#[trigger] v@[k].0);
    assert forall|k: int| 0 <= k < v@.len() && v@[k].1 != ie implies b.contains(#[trigger] v@[k].0) by {
        assert(a.contains(v@[k].0));
    }
}

/// Taking the front of the queue moves the search to that node's depth.
proof fn lemma_next_level<F: Fn(NodeId) -> Vec<(NodeId, EdgeId)>>(
    adj: F,
    ie: EdgeId,
    root: NodeId,
    nodes: Set<NodeId>,
    done: Set<NodeId>,
    dist: Map<NodeId, nat>,
    lvl: nat,
    q0: Seq<NodeId>,
)
    requires
        layered(adj, ie, root, nodes, done, dist, lvl),
        queue_levels(q0, dist, lvl),
        q0.len() > 0,
        forall|x: NodeId| #[trigger] nodes.contains(x) <==> (done.contains(x) || q0.contains(x)),
    ensures
        dist.contains_key(q0[0]),
        lvl <= dist[q0[0]] <= lvl + 1,
        layered(adj, ie, root, nodes, done, dist, dist[q0[0]]),
        queue_levels(q0.drop_first(), dist, dist[q0[0]]),
{
    let dn = dist[q0[0]];
    let full = Set::<EdgeId>::full();
    let q1 = q0.drop_first();
    assert forall|i: int| 0 <= i < q1.len() implies dist.contains_key(#[trigger] q1[i]) && dn <= dist[q1[i]]
        <= dn + 1 by {
        assert(q1[i] == q0[i + 1]);
    }
    assert forall|i: int, j: int| 0 <= i < j < q1.len() implies dist[#[trigger] q1[i]] <= dist[#[trigger] q1[j]] by {
        assert(q1[i] == q0[i + 1] && q1[j] == q0[j + 1]);
    }
    if answers_fixed(adj) && edge_ids_fix_targets(adj) {
        assert forall|y: NodeId, k: nat|
            #![trigger reaches(adj, ie, full, root, y, k)]
            k <= dn && reaches(adj, ie, full, root, y, k) implies nodes.contains(y) by {
            if y == root {
                assert(reaches(adj, ie, full, root, root, 0));
            } else if k > lvl {
                let (p, e) = choose|p: NodeId, e: EdgeId|
                    #![trigger adj_lists(adj, p, y, e)]
                    full.contains(e) && e != ie && adj_lists(adj, p, y, e) && reaches(
                        adj,
                        ie,
                        full,
                        root,
                        p,
                        (k - 1) as nat,
                    );
                assert(nodes.contains(p));
                assert(dist[p] <= (k - 1) as nat);
                if q0.contains(p) {
                    let j = choose|j: int| 0 <= j < q0.len() && q0[j] == p;
                    if j > 0 {
                        assert(dist[q0[0]] <= dist[q0[j]]);
                    }
                }
                assert(done.contains(p));
                assert(expanded_to(adj, p, ie, nodes));
                let v0 = choose|v: Vec<(NodeId, EdgeId)>|
                    #[trigger] call_ensures(adj, (p,), v) && forall|kk: int|
                        0 <= kk < v@.len() && v@[kk].1 != ie ==> nodes.contains(#[trigger] v@[kk].0);
                let v = choose|v: Vec<(NodeId, EdgeId)>| call_ensures(adj, (p,), v) && #[trigger] v@.contains((y, e));
                assert(v@ == v0@);
                let i = choose|i: int| 0 <= i < v@.len() && v@[i] == (y, e);
                assert(v0@[i] == (y, e));
                assert(v0@[i].1 != ie);
                assert(nodes.contains(v0@[i].0));
            } else {
                assert(k <= lvl);
            }
        }
    }
}

/// Finding `nb` at depth `lvl + 1` (when `added`), or finding nothing new,
/// keeps the search layered.
proof fn lemma_add_node_layers<F: Fn(NodeId) -> Vec<(NodeId, EdgeId)>>(
    adj: F,
    ie: EdgeId,
    root: NodeId,
    n0: Set<NodeId>,
    n1: Set<NodeId>,
    done: Set<NodeId>,
    d0: Map<NodeId, nat>,
    d1: Map<NodeId, nat>,
    lvl: nat,
    nb: NodeId,
    added: bool,
)
    requires
        layered(adj, ie, root, n0, done, d0, lvl),
        added ==> !n0.contains(nb) && n1 == n0.insert(nb) && d1 == d0.insert(nb, lvl + 1),
        !added ==> n1 == n0 && d1 == d0,
    ensures
        layered(adj, ie, root, n1, done, d1, lvl),
{
    if added {
        let full = Set::<EdgeId>::full();
        assert forall|x: NodeId| #[trigger] n1.contains(x) implies d1.contains_key(x) && d1[x] <= lvl + 1 by {
            if x != nb {
                assert(n0.contains(x));
            }
        }
        if answers_fixed(adj) && edge_ids_fix_targets(adj) {
            assert forall|y: NodeId, k: nat|
                #![trigger reaches(adj, ie, full, root, y, k)]
                k <= lvl && reaches(adj, ie, full, root, y, k) implies n1.contains(y) by {
                assert(n0.contains(y));
            }
            assert forall|x: NodeId, k: nat|
                #![trigger n1.contains(x), reaches(adj, ie, full, root, x, k)]
                n1.contains(x) && reaches(adj, ie, full, root, x, k) implies d1[x] <= k by {
                if x == nb {
                    if k <= lvl {
                        assert(n0.contains(nb));
                    }
                } else {
                    assert(n0.contains(x));
                }
            }
            assert forall|x: NodeId| #[trigger] done.contains(x) implies expanded_to(adj, x, ie, n1) by {
                lemma_expanded_to_grows(adj, x, ie, n0, n1);
            }
        }
    }
}

impl CounterfactualScope {
    /// Build a scope by breadth-first search from `root`, skipping
    /// `intervened_edge`, with at most `budget` nodes (the root alone when the
    /// budget is zero): expansion stops as soon as `budget` nodes are in scope.
    /// An edge is taken once: a node is added only through an edge seen for the
    /// first time, so both ends of every collected edge are in scope.
    pub fn build<F>(intervened_edge: EdgeId, root: NodeId, budget: usize, adj: F) -> (r: Self) where
        F: Fn(NodeId) -> Vec<(NodeId, EdgeId)>,

        requires
            forall|n: NodeId| call_requires(adj, (n,)),
        ensures
            r.intervened_edge == intervened_edge,
            r.budget == budget,
            r.nodes@.contains(root),
            !r.edges@.contains(intervened_edge),
            r.nodes@.finite(),
            r.edges@.finite(),
            forall|n: NodeId|
                #[trigger] r.nodes@.contains(n) && n != root ==> exists|m: NodeId, e: EdgeId|
                    r.nodes@.contains(m) && r.edges@.contains(e) && adj_lists(adj, m, n, e),
            forall|e: EdgeId|
                #[trigger] r.edges@.contains(e) ==> exists|m: NodeId, n: NodeId|
                    r.nodes@.contains(m) && r.nodes@.contains(n) && adj_lists(adj, m, n, e),
            budget >= 1 ==> r.nodes@.len() <= budget,
            r.nodes@.len() < budget ==> forall|n: NodeId|
                #[trigger] r.nodes@.contains(n) ==> expanded(adj, n, intervened_edge, r.edges@),
            forall|n: NodeId|
                #[trigger] r.nodes@.contains(n) ==> exists|k: nat|
                    reaches(adj, intervened_edge, r.edges@, root, n, k),
            answers_fixed(adj) && edge_ids_fix_targets(adj) ==> forall|n: NodeId, m: NodeId, k: nat|
                #![trigger r.nodes@.contains(n), reaches(adj, intervened_edge, Set::<EdgeId>::full(), root, m, k)]
                r.nodes@.contains(n) && reaches(adj, intervened_edge, Set::<EdgeId>::full(), root, m, k) && (forall|
                    j: nat,
                | reaches(adj, intervened_edge, Set::<EdgeId>::full(), root, n, j) ==> k < j) ==> r.nodes@.contains(m),
    {
        let mut nodes: HashSet<NodeId> = HashSet::new();
        let mut edges: HashSet<EdgeId> = HashSet::new();
        let mut queue: VecDeque<NodeId> = VecDeque::new();
        let ghost mut done: Set<NodeId> = Set::empty();
        let ghost mut dist: Map<NodeId, nat> = Map::empty().insert(root, 0nat);
        let ghost mut lvl: nat = 0;
        let ghost full = Set::<EdgeId>::full();
        queue.push_back(root);
        nodes.insert(root);
        let mut count: usize = 1;
        proof {
            assert(nodes@ =~= Set::empty().insert(root));
            assert(queue@ =~= seq![root]);
            assert forall|n: NodeId| #[trigger] nodes@.contains(n) <==> (done.contains(n)
                || queue@.contains(n)) by {
                if n == root {
                    assert(queue@[0] == root);
                }
            }
            assert(layered(adj, intervened_edge, root, nodes@, done, dist, lvl));
            assert(queue_levels(queue@, dist, lvl));
        }
        loop
            invariant_except_break
                forall|n: NodeId| #[trigger] nodes@.contains(n) <==> (done.contains(n) || queue@.contains(n)),
            invariant
                forall|n: NodeId| call_requires(adj, (n,)),
                nodes@.finite(),
                edges@.finite(),
                nodes@.len() == count,
                count >= 1,
                count <= budget || count == 1,
                nodes@.contains(root),
                !edges@.contains(intervened_edge),
                forall|n: NodeId|
                    #[trigger] nodes@.contains(n) && n != root ==> exists|m: NodeId, e: EdgeId|
                        nodes@.contains(m) && edges@.contains(e) && adj_lists(adj, m, n, e),
                forall|e: EdgeId|
                    #[trigger] edges@.contains(e) ==> exists|m: NodeId, n: NodeId|
                        nodes@.contains(m) && nodes@.contains(n) && adj_lists(adj, m, n, e),
                forall|n: NodeId| #[trigger] done.contains(n) ==> expanded(adj, n, intervened_edge, edges@),
                forall|x: NodeId|
                    #[trigger] nodes@.contains(x) ==> dist.contains_key(x) && reaches(
                        adj,
                        intervened_edge,
                        edges@,
                        root,
                        x,
                        dist[x],
                    ),
                layered(adj, intervened_edge, root, nodes@, done, dist, lvl),
                queue_levels(queue@, dist, lvl),
                full == Set::<EdgeId>::full(),
            ensures
                layered(adj, intervened_edge, root, nodes@, done, dist, lvl),
                forall|x: NodeId|
                    #[trigger] nodes@.contains(x) ==> dist.contains_key(x) && reaches(
                        adj,
                        intervened_edge,
                        edges@,
                        root,
                        x,
                        dist[x],
                    ),
                nodes@.finite(),
                edges@.finite(),
                nodes@.contains(root),
                !edges@.contains(intervened_edge),
                forall|n: NodeId|
                    #[trigger] nodes@.contains(n) && n != root ==> exists|m: NodeId, e: EdgeId|
                        nodes@.contains(m) && edges@.contains(e) && adj_lists(adj, m, n, e),
                forall|e: EdgeId|
                    #[trigger] edges@.contains(e) ==> exists|m: NodeId, n: NodeId|
                        nodes@.contains(m) && nodes@.contains(n) && adj_lists(adj, m, n, e),
                nodes@.len() < budget ==> forall|n: NodeId|
                    #[trigger] nodes@.contains(n) ==> expanded(adj, n, intervened_edge, edges@),
                budget >= 1 ==> nodes@.len() <= budget,
            decreases (if count < budget { budget - count } else { 0 }), queue@.len(),
        {
            let ghost q0 = queue@;
            let n = match queue.pop_front() {
                Some(x) => x,
                None => {
                    proof {
                        assert forall|m: NodeId| #[trigger] nodes@.contains(m) implies expanded(
                            adj,
                            m,
                            intervened_edge,
                            edges@,
                        ) by {
                            assert(done.contains(m) || queue@.contains(m));
                        }
                    }
                    break ;
                },
            };
            proof {
                assert(q0[0] == n);
                assert(queue@ =~= q0.drop_first());
                lemma_next_level(adj, intervened_edge, root, nodes@, done, dist, lvl, q0);
                lvl = dist[n];
            }
            if count >= budget {
                break ;
            }
            let ghost q_rest = queue@;
            let ghost count0 = count;
            proof {
                assert forall|m: NodeId| #[trigger] nodes@.contains(m) <==> (done.contains(m) || m
                    == n || queue@.contains(m)) by {
                    if q0.contains(m) {
                        let a = choose|a: int| 0 <= a < q0.len() && q0[a] == m;
                        if a > 0 {
                            assert(queue@[a - 1] == m);
                        }
                    }
                    if queue@.contains(m) {
                        let a = choose|a: int| 0 <= a < queue@.len() && queue@[a] == m;
                        assert(q0[a + 1] == m);
                    }
                    if m == n {
                        assert(q0[0] == m);
                    }
                }
            }
            let nbrs = adj(n);
            let ghost edges0 = edges@;
            let k = nbrs.len();
            let mut j: usize = 0;
            while j < k && count < budget
                invariant
                    k == nbrs@.len(),
                    j <= k,
                    call_ensures(adj, (n,), nbrs),
                    forall|x: NodeId| call_requires(adj, (x,)),
                    nodes@.finite(),
                    edges@.finite(),
                    nodes@.len() == count,
                    count >= count0,
                    count0 < budget,
                    count <= budget,
                    nodes@.contains(root),
                    nodes@.contains(n),
                    !edges@.contains(intervened_edge),
                    edges0.subset_of(edges@),
                    forall|a: int|
                        0 <= a < j && nbrs@[a].1 != intervened_edge ==> edges@.contains(
                            #[trigger] nbrs@[a].1,
                        ),
                    forall|m: NodeId|
                        #[trigger] nodes@.contains(m) && m != root ==> exists|p: NodeId, e: EdgeId|
                            nodes@.contains(p) && edges@.contains(e) && adj_lists(adj, p, m, e),
                    forall|e: EdgeId|
                        #[trigger] edges@.contains(e) ==> exists|p: NodeId, m: NodeId|
                            nodes@.contains(p) && nodes@.contains(m) && adj_lists(adj, p, m, e),
                    forall|m: NodeId| #[trigger] nodes@.contains(m) <==> (done.contains(m) || m == n || queue@.contains(m)),
                    forall|m: NodeId| #[trigger] done.contains(m) ==> expanded(adj, m, intervened_edge, edges@),
                    queue@.len() >= q_rest.len(),
                    queue@.len() - q_rest.len() == count - count0,
                    forall|x: NodeId|
                        #[trigger] nodes@.contains(x) ==> dist.contains_key(x) && reaches(
                            adj,
                            intervened_edge,
                            edges@,
                            root,
                            x,
                            dist[x],
                        ),
                    layered(adj, intervened_edge, root, nodes@, done, dist, lvl),
                    queue_levels(queue@, dist, lvl),
                    dist.contains_key(n) && dist[n] == lvl,
                    full == Set::<EdgeId>::full(),
                    (answers_fixed(adj) && edge_ids_fix_targets(adj)) ==> forall|a: int|
                        0 <= a < j && nbrs@[a].1 != intervened_edge ==> nodes@.contains(#[trigger] nbrs@[a].0),
                decreases k - j,
            {
                let (nb, eid) = nbrs[j];
                proof {
                    assert(nbrs@.contains((nb, eid)));
                    assert(adj_lists(adj, n, nb, eid));
                }
                if eid != intervened_edge {
                    let ghost e_before = edges@;
                    let ghost n_before = nodes@;
                    let ghost d_before = dist;
                    let ghost q_before = queue@;
                    let ghost mut added = false;
                    let fresh_edge = edges.insert(eid);
                    if fresh_edge {
                        let fresh_node = nodes.insert(nb);
                        if fresh_node {
                            let ghost qb = queue@;
                            queue.push_back(nb);
                            count = nodes.len();
                            proof {
                                added = true;
                                dist = dist.insert(nb, (dist[n] + 1) as nat);
                                assert forall|m: NodeId| #[trigger] queue@.contains(m) <==> (qb.contains(m) || m == nb) by {
                                    if queue@.contains(m) {
                                        let a = choose|a: int| 0 <= a < queue@.len() && queue@[a] == m;
                                        if a < qb.len() {
                                            assert(qb[a] == m);
                                        }
                                    }
                                    if qb.contains(m) {
                                        let a = choose|a: int| 0 <= a < qb.len() && qb[a] == m;
                                        assert(queue@[a] == m);
                                    }
                                    if m == nb {
                                        assert(queue@[qb.len() as int] == m);
                                    }
                                }
                            }
                        }
                    }
                    proof {
                        assert forall|m: NodeId| #[trigger] done.contains(m) implies expanded(
                            adj,
                            m,
                            intervened_edge,
                            edges@,
                        ) by {
                            let v = choose|v: Vec<(NodeId, EdgeId)>|
                                #[trigger] call_ensures(adj, (m,), v) && forall|kk: int|
                                    0 <= kk < v@.len() && v@[kk].1 != intervened_edge
                                        ==> e_before.contains(#[trigger] v@[kk].1);
                            assert forall|kk: int|
                                0 <= kk < v@.len() && v@[kk].1 != intervened_edge implies edges@.contains(
                                #[trigger] v@[kk].1,
                            ) by {
                                assert(e_before.contains(v@[kk].1));
                            }
                        }
                        assert forall|e: EdgeId|
                            #[trigger] edges@.contains(e) implies exists|p: NodeId, m: NodeId|
                            nodes@.contains(p) && nodes@.contains(m) && adj_lists(adj, p, m, e) by {
                            if e == eid && fresh_edge {
                                assert(nodes@.contains(n) && nodes@.contains(nb));
                            } else {
                                let (p, m) = choose|p: NodeId, m: NodeId|
                                    n_before.contains(p) && n_before.contains(m) && adj_lists(adj, p, m, e);
                            }
                        }
                        assert forall|x: NodeId| #[trigger] nodes@.contains(x) implies dist.contains_key(x)
                            && reaches(adj, intervened_edge, edges@, root, x, dist[x]) by {
                            if n_before.contains(x) {
                                lemma_reaches_mono(adj, intervened_edge, e_before, edges@, root, x, dist[x]);
                            } else {
                                assert(x == nb && x != root);
                                let d = dist[n];
                                lemma_reaches_mono(adj, intervened_edge, e_before, edges@, root, n, d);
                                assert(dist[x] == d + 1);
                                assert(edges@.contains(eid) && eid != intervened_edge && adj_lists(adj, n, x, eid)
                                    && reaches(adj, intervened_edge, edges@, root, n, d));
                                assert(reaches(adj, intervened_edge, edges@, root, x, (d + 1) as nat));
                            }
                        }
                        assert forall|m: NodeId|
                            #[trigger] nodes@.contains(m) && m != root implies exists|p: NodeId, e: EdgeId|
                            nodes@.contains(p) && edges@.contains(e) && adj_lists(adj, p, m, e) by {
                            if m == nb && fresh_edge {
                                assert(nodes@.contains(n) && edges@.contains(eid));
                            } else {
                                let (p, e) = choose|p: NodeId, e: EdgeId|
                                    n_before.contains(p) && e_before.contains(e) && adj_lists(adj, p, m, e);
                            }
                        }
                        if added {
                            assert(nodes@ =~= n_before.insert(nb));
                            assert(queue@ =~= q_before.push(nb));
                            assert forall|i: int| 0 <= i < q_before.len() implies q_before[i] != nb by {
                                assert(n_before.contains(q_before[i]));
                            }
                        } else {
                            assert(nodes@ =~= n_before);
                        }
                        lemma_add_node_layers(
                            adj,
                            intervened_edge,
                            root,
                            n_before,
                            nodes@,
                            done,
                            d_before,
                            dist,
                            lvl,
                            nb,
                            added,
                        );
                        assert(queue_levels(queue@, dist, lvl)) by {
                            if added {
                                assert forall|i: int| 0 <= i < queue@.len() implies dist.contains_key(#[trigger] queue@[i])
                                    && lvl <= dist[queue@[i]] <= lvl + 1 by {
                                    if i < q_before.len() {
                                        assert(queue@[i] == q_before[i]);
                                    }
                                }
                                assert forall|i: int, i2: int| 0 <= i < i2 < queue@.len() implies dist[#[trigger] queue@[i]]
                                    <= dist[#[trigger] queue@[i2]] by {
                                    assert(queue@[i] == q_before[i]);
                                    if i2 < q_before.len() {
                                        assert(queue@[i2] == q_before[i2]);
                                    }
                                }
                            }
                        }
                        if answers_fixed(adj) && edge_ids_fix_targets(adj) {
                            if !fresh_edge {
                                let (p, m) = choose|p: NodeId, m: NodeId|
                                    n_before.contains(p) && n_before.contains(m) && adj_lists(adj, p, m, eid);
                                assert(m == nb);
                            }
                            assert(nodes@.contains(nb));
                            assert forall|a: int|
                                0 <= a < j + 1 && nbrs@[a].1 != intervened_edge implies nodes@.contains(#[trigger] nbrs@[a].0) by {
                                if a < j {
                                    assert(n_before.contains(nbrs@[a].0));
                                }
                            }
                        }
                    }
                }
                j = j + 1;
            }
            if count >= budget {
                break ;
            }
            proof {
                let d_old = done;
                done = done.insert(n);
                if answers_fixed(adj) && edge_ids_fix_targets(adj) {
                    assert(expanded_to(adj, n, intervened_edge, nodes@)) by {
                        assert(call_ensures(adj, (n,), nbrs));
                    }
                    assert forall|x: NodeId| #[trigger] done.contains(x) implies expanded_to(adj, x, intervened_edge, nodes@) by {
                        if x != n {
                            assert(d_old.contains(x));
                        }
                    }
                }
                assert(layered(adj, intervened_edge, root, nodes@, done, dist, lvl));
                assert(expanded(adj, n, intervened_edge, edges@)) by {
                    assert(call_ensures(adj, (n,), nbrs));
                }
            }
        }
        proof {
            assert forall|x: NodeId| #[trigger] nodes@.contains(x) implies exists|k: nat|
                reaches(adj, intervened_edge, edges@, root, x, k) by {
                assert(reaches(adj, intervened_edge, edges@, root, x, dist[x]));
            }
            if answers_fixed(adj) && edge_ids_fix_targets(adj) {
                assert forall|n: NodeId, m: NodeId, k: nat|
                    #![trigger nodes@.contains(n), reaches(adj, intervened_edge, full, root, m, k)]
                    nodes@.contains(n) && reaches(adj, intervened_edge, full, root, m, k) && (forall|j: nat|
                        reaches(adj, intervened_edge, full, root, n, j) ==> k < j) implies nodes@.contains(m) by {
                    lemma_reaches_mono(adj, intervened_edge, edges@, full, root, n, dist[n]);
                    assert(k < dist[n]);
                }
            }
        }
        CounterfactualScope { intervened_edge, nodes, edges, budget }
    }

    pub fn contains_node(&self, id: NodeId) -> (r: bool)
        ensures
            r == self.nodes@.contains(id),
    {
        self.nodes.contains(&id)
    }

    pub fn contains_edge(&self, id: EdgeId) -> (r: bool)
        ensures
            r == self.edges@.contains(id),
    {
        self.edges.contains(&id)
    }

    pub fn node_count(&self) -> (r: usize)
        ensures
            r == self.nodes@.len(),
    {
        self.nodes.len()
    }
}

} // verus!
