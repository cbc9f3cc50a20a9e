//! The bounded ATMS layer of counterfactual queries. Unlike the Horn layer, a
//! node keeps several minimal supporting environments, at most
//! `MAX_LABEL_COMPLEXITY` of them. An intervention on a set of assumptions
//! records it as a nogood and retracts every label that uses one of them;
//! the caller compares how many scope nodes are supported before and after.
//! The nodes' costs are numeric and stay with the caller, keyed by node.

use vstd::prelude::*;
use crate::types::{NodeId, Env};
use crate::env::{subsumes, spec_subsumes};
use crate::nogood::{minimal, survives_spec, survives, lemma_add_minimal, lemma_filter_minimal};
use crate::scope::CounterfactualScope;

verus! {

/// The most labels a node keeps.
pub const MAX_LABEL_COMPLEXITY: usize = 4;

/// Some label is a subset of `env`.
pub open spec fn supported_in(labels: Seq<Env>, env: Env) -> bool {
    exists|i: int| 0 <= i < labels.len() && spec_subsumes(#[trigger] labels[i], env)
}

/// The labels after adding `env`: unchanged when a label already subsumes
/// it; otherwise the labels that it subsumes leave, and it is appended when
/// fewer than the maximum remain.
pub open spec fn label_add(labels: Seq<Env>, env: Env) -> Seq<Env> {
    if supported_in(labels, env) {
        labels
    } else {
        let kept = labels.filter(survives_spec(env));
        if kept.len() < MAX_LABEL_COMPLEXITY {
            kept.push(env)
        } else {
            kept
        }
    }
}

/// A label survives the retraction of `nogood` when it shares no assumption
/// with it.
pub open spec fn disjoint_from(nogood: Env) -> spec_fn(Env) -> bool {
    |l: Env| l & nogood == 0
}

/// After a label is added, the node is supported in every environment that
/// contains it, unless the label was dropped because the set was full of
/// labels incomparable with it.
pub proof fn law_added_label_supports(labels: Seq<Env>, env: Env, e: Env)
    requires
        spec_subsumes(env, e),
        supported_in(labels, env) || labels.filter(survives_spec(env)).len() < MAX_LABEL_COMPLEXITY,
    ensures
        supported_in(label_add(labels, env), e),
{
    if supported_in(labels, env) {
        let i = choose|i: int| 0 <= i < labels.len() && spec_subsumes(#[trigger] labels[i], env);
        crate::env::law_subsumes_partial_order(labels[i], env, e);
    } else {
        let r = label_add(labels, env);
        assert(r[r.len() - 1] == env);
    }
}

/// A node of the bounded layer with its minimal supporting environments.
#[derive(Debug)]
pub struct BfNode {
    pub id: NodeId,
    pub labels: Vec<Env>,
}

impl BfNode {
    /// No label subsumes another, and there are at most the maximum.
    pub open spec fn wf(&self) -> bool {
        minimal(self.labels@) && self.labels@.len() <= MAX_LABEL_COMPLEXITY
    }

    pub fn new(id: NodeId) -> (r: BfNode)
        ensures
            r.wf(),
            r.id == id,
            r.labels@ == Seq::<Env>::empty(),
    {
        BfNode { id, labels: Vec::new() }
    }

    /// Add a label, keeping the set minimal: skipped when a label already
    /// subsumes it; otherwise the labels it subsumes are dropped and it is
    /// appended if the set is not full.
    pub fn add_label(&mut self, env: Env)
        requires
            old(self).wf(),
        ensures
            final(self).wf(),
            final(self).id == old(self).id,
            final(self).labels@ == label_add(old(self).labels@, env),
    {
        if self.is_supported_in(env) {
            return ;
        }
        let ghost s = self.labels@;
        let mut kept: Vec<Env> = Vec::new();
        let n = self.labels.len();
        let mut i: usize = 0;
        while i < n
            invariant
                n == s.len(),
                s == self.labels@,
                i <= n,
                kept@ == s.subrange(0, i as int).filter(survives_spec(env)),
            decreases n - i,
        {
            proof {
                reveal(Seq::filter);
                assert(s.subrange(0, i + 1).drop_last() =~= s.subrange(0, i as int));
            }
            let l = self.labels[i];
            if survives(env, l) {
                kept.push(l);
            }
            i = i + 1;
        }
        proof {
            assert(s.subrange(0, n as int) =~= s);
            lemma_add_minimal(s, env);
            s.lemma_filter_len(survives_spec(env));
        }
        if kept.len() < MAX_LABEL_COMPLEXITY {
            kept.push(env);
        }
        self.labels = kept;
    }

    /// Whether some label is a subset of `env`.
    pub fn is_supported_in(&self, env: Env) -> (r: bool)
        ensures
            r == supported_in(self.labels@, env),
    {
        let n = self.labels.len();
        let mut i: usize = 0;
        while i < n
            invariant
                n == self.labels@.len(),
                i <= n,
                forall|j: int| 0 <= j < i ==> !spec_subsumes(#[trigger] self.labels@[j], env),
            decreases n - i,
        {
            if subsumes(self.labels[i], env) {
                return true;
            }
            i = i + 1;
        }
        false
    }

    /// Retract every label that uses an assumption of `nogood`.
    pub fn retract_labels_using(&mut self, nogood: Env)
        requires
            old(self).wf(),
        ensures
            final(self).wf(),
            final(self).id == old(self).id,
            final(self).labels@ == old(self).labels@.filter(disjoint_from(nogood)),
    {
        let ghost s = self.labels@;
        let mut kept: Vec<Env> = Vec::new();
        let n = self.labels.len();
        let mut i: usize = 0;
        while i < n
            invariant
                n == s.len(),
                s == self.labels@,
                i <= n,
                kept@ == s.subrange(0, i as int).filter(disjoint_from(nogood)),
            decreases n - i,
        {
            proof {
                reveal(Seq::filter);
                assert(s.subrange(0, i + 1).drop_last() =~= s.subrange(0, i as int));
            }
            let l = self.labels[i];
            if l & nogood == 0 {
                kept.push(l);
            }
            i = i + 1;
        }
        proof {
            assert(s.subrange(0, n as int) =~= s);
            lemma_filter_minimal(s, disjoint_from(nogood));
            s.lemma_filter_len(disjoint_from(nogood));
        }
        self.labels = kept;
    }
}

/// How many scope nodes were supported before and after an intervention.
#[derive(Clone, Copy, Debug, PartialEq, Eq, Structural)]
pub struct SupportChange {
    pub before: usize,
    pub after: usize,
}

/// No two nodes share an id.
pub open spec fn ids_unique(nodes: Seq<BfNode>) -> bool {
    forall|i: int, j: int| 0 <= i < nodes.len() && 0 <= j < nodes.len() && i != j ==> nodes[i].id != nodes[j].id
}

/// The nodes in `scope`.
pub open spec fn count_in_scope(nodes: Seq<BfNode>, scope: Set<NodeId>) -> nat
    decreases nodes.len(),
{
    if nodes.len() == 0 {
        0
    } else {
        count_in_scope(nodes.drop_last(), scope) + if scope.contains(nodes.last().id) {
            1nat
        } else {
            0nat
        }
    }
}

/// The nodes in `scope` that are supported in `env`.
pub open spec fn count_supported(nodes: Seq<BfNode>, scope: Set<NodeId>, env: Env) -> nat
    decreases nodes.len(),
{
    if nodes.len() == 0 {
        0
    } else {
        count_supported(nodes.drop_last(), scope, env) + if scope.contains(nodes.last().id)
            && supported_in(nodes.last().labels@, env) {
            1nat
        } else {
            0nat
        }
    }
}

/// `after` is `before` with the labels that use an assumption of `nogood`
/// retracted.
pub open spec fn retracted(after: Seq<BfNode>, before: Seq<BfNode>, nogood: Env) -> bool {
    &&& after.len() == before.len()
    &&& forall|i: int|
        0 <= i < before.len() ==> (#[trigger] after[i]).id == before[i].id && after[i].labels@
            == before[i].labels@.filter(disjoint_from(nogood))
}

/// `after` is `before` once `env` was added to the labels of node `id`,
/// the node being appended when it was not there.
pub open spec fn seeded(after: Seq<BfNode>, before: Seq<BfNode>, id: NodeId, env: Env) -> bool {
    if exists|k: int| 0 <= k < before.len() && #[trigger] before[k].id == id {
        &&& after.len() == before.len()
        &&& forall|i: int|
            0 <= i < before.len() ==> {
                &&& (#[trigger] after[i]).id == before[i].id
                &&& before[i].id == id ==> after[i].labels@ == label_add(before[i].labels@, env)
                &&& before[i].id != id ==> after[i] == before[i]
            }
    } else {
        &&& after.len() == before.len() + 1
        &&& after.drop_last() == before
        &&& after.last().id == id
        &&& after.last().labels@ == seq![env]
    }
}

proof fn lemma_count_step(nodes: Seq<BfNode>, scope: Set<NodeId>, env: Env, i: int)
    requires
        0 <= i < nodes.len(),
    ensures
        count_in_scope(nodes.subrange(0, i + 1), scope) == count_in_scope(nodes.subrange(0, i), scope) + (
        if scope.contains(nodes[i].id) {
            1nat
        } else {
            0nat
        }),
        count_supported(nodes.subrange(0, i + 1), scope, env) == count_supported(
            nodes.subrange(0, i),
            scope,
            env,
        ) + (if scope.contains(nodes[i].id) && supported_in(nodes[i].labels@, env) {
            1nat
        } else {
            0nat
        }),
{
    assert(nodes.subrange(0, i + 1).drop_last() =~= nodes.subrange(0, i));
}

/// Retracting labels never makes a node supported, so the count of
/// supported nodes does not grow.
proof fn lemma_retract_count(after: Seq<BfNode>, before: Seq<BfNode>, nogood: Env, scope: Set<NodeId>, env: Env)
    requires
        retracted(after, before, nogood),
    ensures
        count_supported(after, scope, env) <= count_supported(before, scope, env),
    decreases before.len(),
{
    if before.len() > 0 {
        let n = before.len() - 1;
        assert(retracted(after.drop_last(), before.drop_last(), nogood)) by {
            assert forall|i: int| 0 <= i < before.drop_last().len() implies (#[trigger] after.drop_last()[i]).id
                == before.drop_last()[i].id && after.drop_last()[i].labels@ == before.drop_last()[i].labels@.filter(
                disjoint_from(nogood),
            ) by {
                assert(after.drop_last()[i] == after[i] && before.drop_last()[i] == before[i]);
            }
        }
        lemma_retract_count(after.drop_last(), before.drop_last(), nogood, scope, env);
        let la = after[n].labels@;
        let lb = before[n].labels@;
        assert(after[n].id == before[n].id && la == lb.filter(disjoint_from(nogood)));
        if supported_in(la, env) {
            let k = choose|k: int| 0 <= k < la.len() && spec_subsumes(#[trigger] la[k], env);
            assert(la.contains(la[k]));
            lb.lemma_filter_contains_rev(disjoint_from(nogood), la[k]);
            let t = choose|t: int| 0 <= t < lb.len() && lb[t] == la[k];
            assert(spec_subsumes(lb[t], env));
        }
    }
}

/// The bounded ATMS of one counterfactual scope.
pub struct BfAtms {
    nodes: Vec<BfNode>,
    scope: CounterfactualScope,
    /// The nogoods recorded by interventions.
    nogoods: Vec<Env>,
}

impl BfAtms {
    /// The nodes, in the order they were first seeded.
    pub closed spec fn nodes(&self) -> Seq<BfNode> {
        self.nodes@
    }

    /// The nodes of the scope.
    pub closed spec fn scope_nodes(&self) -> Set<NodeId> {
        self.scope.nodes@
    }

    /// The nogoods recorded so far, in order.
    pub closed spec fn nogoods(&self) -> Seq<Env> {
        self.nogoods@
    }

    /// Node ids are distinct, every node lies in the scope and keeps a
    /// minimal label set of bounded size.
    pub closed spec fn wf(&self) -> bool {
        &&& ids_unique(self.nodes@)
        &&& forall|i: int|
            0 <= i < self.nodes@.len() ==> (#[trigger] self.nodes@[i]).wf() && self.scope.nodes@.contains(
                self.nodes@[i].id,
            )
    }

    pub fn new(scope: CounterfactualScope) -> (r: BfAtms)
        ensures
            r.wf(),
            r.nodes() == Seq::<BfNode>::empty(),
            r.scope_nodes() == scope.nodes@,
            r.nogoods() == Seq::<Env>::empty(),
    {
        BfAtms { nodes: Vec::new(), scope, nogoods: Vec::new() }
    }

    /// Seed node `id` with the label `base_env`: ignored outside the scope;
    /// otherwise the label is added to the node's set, the node being created
    /// first if needed.
    pub fn seed_node(&mut self, id: NodeId, base_env: Env)
        requires
            old(self).wf(),
        ensures
            final(self).wf(),
            final(self).scope_nodes() == old(self).scope_nodes(),
            final(self).nogoods() == old(self).nogoods(),
            !old(self).scope_nodes().contains(id) ==> final(self).nodes() == old(self).nodes(),
            old(self).scope_nodes().contains(id) ==> seeded(final(self).nodes(), old(self).nodes(), id, base_env),
    {
        if !self.scope.contains_node(id) {
            return ;
        }
        let ghost s = self.nodes@;
        let n = self.nodes.len();
        let mut i: usize = 0;
        while i < n
            invariant
                n == s.len(),
                s == self.nodes@,
                s == old(self).nodes@,
                i <= n,
                forall|j: int| 0 <= j < i ==> s[j].id != id,
                ids_unique(s),
                forall|k: int| 0 <= k < s.len() ==> (#[trigger] s[k]).wf() && self.scope.nodes@.contains(s[k].id),
                self.scope.nodes@ == old(self).scope.nodes@,
                self.nogoods@ == old(self).nogoods@,
                self.scope.nodes@.contains(id),
            decreases n - i,
        {
            if self.nodes[i].id == id {
                self.nodes[i].add_label(base_env);
                proof {
                    let t = self.nodes@;
                    assert forall|a: int, b: int| 0 <= a < t.len() && 0 <= b < t.len() && a != b implies t[a].id
                        != t[b].id by {
                        assert(t[a].id == s[a].id && t[b].id == s[b].id);
                    }
                    assert forall|k: int| 0 <= k < t.len() implies (#[trigger] t[k]).wf() && self.scope.nodes@.contains(t[k].id) by {
                        assert(t[k].id == s[k].id);
                    }
                    assert forall|k: int| 0 <= k < s.len() implies {
                        &&& (#[trigger] t[k]).id == s[k].id
                        &&& s[k].id == id ==> t[k].labels@ == label_add(s[k].labels@, base_env)
                        &&& s[k].id != id ==> t[k] == s[k]
                    } by {
                        if k != i {
                            assert(s[k].id != s[i as int].id);
                        }
                    }
                    assert(s[i as int].id == id);
                }
                return ;
            }
            i = i + 1;
        }
        let mut node = BfNode::new(id);
        node.add_label(base_env);
        proof {
            reveal(Seq::filter);
            assert(Seq::<Env>::empty().filter(survives_spec(base_env)) =~= Seq::<Env>::empty());
            assert(node.labels@ =~= seq![base_env]);
        }
        self.nodes.push(node);
        proof {
            let t = self.nodes@;
            assert(t.drop_last() =~= s);
            assert forall|a: int, b: int| 0 <= a < t.len() && 0 <= b < t.len() && a != b implies t[a].id != t[b].id by {
                if a < n {
                    assert(t[a] == s[a]);
                }
                if b < n {
                    assert(t[b] == s[b]);
                }
            }
            assert forall|k: int| 0 <= k < t.len() implies (#[trigger] t[k]).wf() && self.scope.nodes@.contains(t[k].id) by {
                if k < n {
                    assert(t[k] == s[k]);
                }
            }
        }
    }

    /// Intervene on the assumptions `edge_assumptions`: when they are not
    /// empty and the scope holds a node, they are recorded as a nogood, every
    /// label that uses one of them is retracted, and the numbers of scope
    /// nodes supported in `active_env` before and after are returned. Without
    /// assumptions, or without a node in scope, nothing changes and `None` is
    /// returned.
    pub fn run_intervention(&mut self, edge_assumptions: Env, active_env: Env) -> (r: Option<SupportChange>)
        requires
            old(self).wf(),
        ensures
            final(self).wf(),
            final(self).scope_nodes() == old(self).scope_nodes(),
            (edge_assumptions == 0 || count_in_scope(old(self).nodes(), old(self).scope_nodes()) == 0) ==> {
                &&& r is None
                &&& final(self).nodes() == old(self).nodes()
                &&& final(self).nogoods() == old(self).nogoods()
            },
            (edge_assumptions != 0 && count_in_scope(old(self).nodes(), old(self).scope_nodes()) > 0) ==> {
                &&& r is Some
                &&& r.unwrap().before == count_supported(old(self).nodes(), old(self).scope_nodes(), active_env)
                &&& r.unwrap().after == count_supported(final(self).nodes(), old(self).scope_nodes(), active_env)
                &&& retracted(final(self).nodes(), old(self).nodes(), edge_assumptions)
                &&& final(self).nogoods() == old(self).nogoods().push(edge_assumptions)
                &&& r.unwrap().after <= r.unwrap().before
            },
    {
        if edge_assumptions == 0 {
            return None;
        }
        let scope_size = self.count_in_scope();
        if scope_size == 0 {
            return None;
        }
        let before = self.count_supported(active_env);
        self.nogoods.push(edge_assumptions);
        let ghost s = self.nodes@;
        let n = self.nodes.len();
        let mut i: usize = 0;
        while i < n
            invariant
                n == s.len(),
                n == self.nodes@.len(),
                i <= n,
                forall|k: int| 0 <= k < s.len() ==> (#[trigger] s[k]).wf() && self.scope.nodes@.contains(s[k].id),
                ids_unique(s),
                s == old(self).nodes@,
                self.scope.nodes@ == old(self).scope.nodes@,
                self.nogoods@ == old(self).nogoods@.push(edge_assumptions),
                forall|k: int| 0 <= k < i ==> (#[trigger] self.nodes@[k]).id == s[k].id && self.nodes@[k].labels@
                    == s[k].labels@.filter(disjoint_from(edge_assumptions)) && self.nodes@[k].wf(),
                forall|k: int| i <= k < n ==> #[trigger] self.nodes@[k] == s[k],
            decreases n - i,
        {
            self.nodes[i].retract_labels_using(edge_assumptions);
            i = i + 1;
        }
        proof {
            let t = self.nodes@;
            assert(ids_unique(t)) by {
                assert forall|a: int, b: int| 0 <= a < t.len() && 0 <= b < t.len() && a != b implies t[a].id != t[b].id by {
                    assert(t[a].id == s[a].id && t[b].id == s[b].id);
                }
            }
            assert forall|k: int| 0 <= k < t.len() implies (#[trigger] t[k]).wf() && self.scope.nodes@.contains(t[k].id) by {
                assert(t[k].id == s[k].id);
            }
            lemma_retract_count(t, s, edge_assumptions, self.scope.nodes@, active_env);
        }
        let after = self.count_supported(active_env);
        Some(SupportChange { before, after })
    }

    /// The number of nodes in the scope.
    fn count_in_scope(&self) -> (r: usize)
        ensures
            r == count_in_scope(self.nodes@, self.scope.nodes@),
    {
        let n = self.nodes.len();
        let mut c: usize = 0;
        let mut i: usize = 0;
        while i < n
            invariant
                n == self.nodes@.len(),
                i <= n,
                c == count_in_scope(self.nodes@.subrange(0, i as int), self.scope.nodes@),
                c <= i,
            decreases n - i,
        {
            proof {
                lemma_count_step(self.nodes@, self.scope.nodes@, 0, i as int);
            }
            if self.scope.contains_node(self.nodes[i].id) {
                c = c + 1;
            }
            i = i + 1;
        }
        proof {
            assert(self.nodes@.subrange(0, n as int) =~= self.nodes@);
        }
        c
    }

    /// The number of scope nodes supported in `env`.
    fn count_supported(&self, env: Env) -> (r: usize)
        ensures
            r == count_supported(self.nodes@, self.scope.nodes@, env),
    {
        let n = self.nodes.len();
        let mut c: usize = 0;
        let mut i: usize = 0;
        while i < n
            invariant
                n == self.nodes@.len(),
                i <= n,
                c == count_supported(self.nodes@.subrange(0, i as int), self.scope.nodes@, env),
                c <= i,
            decreases n - i,
        {
            proof {
                lemma_count_step(self.nodes@, self.scope.nodes@, env, i as int);
            }
            if self.scope.contains_node(self.nodes[i].id) && self.nodes[i].is_supported_in(env) {
                c = c + 1;
            }
            i = i + 1;
        }
        proof {
            assert(self.nodes@.subrange(0, n as int) =~= self.nodes@);
        }
        c
    }
}

} // verus!
