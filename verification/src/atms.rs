//! The Horn-clause ATMS: nodes with single minimal labels, justifications
//! indexed by antecedent and by consequent, nogoods, and incremental label
//! propagation through a work queue.

use vstd::prelude::*;
use std::collections::{HashMap, VecDeque};
use crate::types::{NodeId, Env};
use crate::atms_node::{BaseNode, NodeKind, accepts_label, spec_is_active_in};
use crate::justification::{Justification, union_all};
use crate::nogood::{NogoodTable, add_spec, inconsistent_in};
use crate::env::{spec_subsumes, count_below, env_set, lemma_env_ext, lemma_subsumes_is_subset, lemma_count_is_len, holds};

verus! {

broadcast use vstd::std_specs::hash::group_hash_axioms;

/// The label of `id`, `None` for an unknown node.
pub open spec fn label_in(nodes: Map<NodeId, BaseNode>, id: NodeId) -> Option<Env> {
    if nodes.contains_key(id) {
        nodes[id].label
    } else {
        None
    }
}

/// Every antecedent has a label.
pub open spec fn all_labelled(nodes: Map<NodeId, BaseNode>, ants: Seq<NodeId>) -> bool {
    forall|i: int| 0 <= i < ants.len() ==> (#[trigger] label_in(nodes, ants[i])) is Some
}

/// The labels of the antecedents.
pub open spec fn labels_of(nodes: Map<NodeId, BaseNode>, ants: Seq<NodeId>) -> Seq<Env> {
    ants.map_values(|a: NodeId| label_in(nodes, a)->0)
}

/// What a justification with antecedents `ants` derives: the union of their
/// labels, or `None` when one of them is unlabelled.
pub open spec fn derive_spec(nodes: Map<NodeId, BaseNode>, ants: Seq<NodeId>) -> Option<Env> {
    if all_labelled(nodes, ants) {
        Some(union_all(labels_of(nodes, ants)))
    } else {
        None
    }
}

/// The positions of the first `k_end` justifications whose consequent is `c`.
pub open spec fn cons_list(justs: Seq<Justification>, c: NodeId, k_end: int) -> Seq<usize>
    decreases k_end,
{
    if k_end <= 0 {
        Seq::empty()
    } else {
        let rest = cons_list(justs, c, k_end - 1);
        if justs[k_end - 1].consequent == c {
            rest.push((k_end - 1) as usize)
        } else {
            rest
        }
    }
}

/// `cons_list` looks only at the first `k_end` justifications.
pub proof fn lemma_cons_list_prefix(a: Seq<Justification>, b: Seq<Justification>, c: NodeId, k_end: int)
    requires
        0 <= k_end <= a.len(),
        k_end <= b.len(),
        forall|i: int| 0 <= i < k_end ==> a[i] == b[i],
    ensures
        cons_list(a, c, k_end) == cons_list(b, c, k_end),
    decreases k_end,
{
    if k_end > 0 {
        lemma_cons_list_prefix(a, b, c, k_end - 1);
    }
}

/// The listed positions are valid.
pub proof fn lemma_cons_list_bounds(js: Seq<Justification>, c: NodeId, k_end: int)
    requires
        k_end <= js.len(),
    ensures
        forall|k: int| 0 <= k < cons_list(js, c, k_end).len() ==> #[trigger] cons_list(js, c, k_end)[k] < k_end,
    decreases k_end,
{
    if k_end > 0 {
        lemma_cons_list_bounds(js, c, k_end - 1);
        let rest = cons_list(js, c, k_end - 1);
        assert forall|k: int| 0 <= k < cons_list(js, c, k_end).len() implies #[trigger] cons_list(js, c, k_end)[k] < k_end by {
            if k < rest.len() {
                assert(cons_list(js, c, k_end)[k] == rest[k]);
            }
        }
    }
}

/// The number of antecedent positions over all justifications.
pub open spec fn antecedent_total(justs: Seq<Justification>) -> nat
    decreases justs.len(),
{
    if justs.len() == 0 {
        0
    } else {
        antecedent_total(justs.drop_last()) + justs.last().antecedents@.len()
    }
}

/// No consequent has more justifications than there are.
pub proof fn lemma_cons_list_len(js: Seq<Justification>, c: NodeId, k_end: int)
    requires
        0 <= k_end,
    ensures
        cons_list(js, c, k_end).len() <= k_end,
    decreases k_end,
{
    if k_end > 0 {
        lemma_cons_list_len(js, c, k_end - 1);
    }
}

/// The antecedents of the listed justifications, concatenated in order.
pub open spec fn antecedents_flat(justs: Seq<Justification>, idxs: Seq<usize>) -> Seq<NodeId>
    decreases idxs.len(),
{
    if idxs.len() == 0 {
        Seq::empty()
    } else {
        antecedents_flat(justs, idxs.drop_last()) + justs[idxs.last() as int].antecedents@
    }
}

/// The listed nodes whose label satisfies `keep`.
pub open spec fn nodes_where(
    order: Seq<NodeId>,
    nodes: Map<NodeId, BaseNode>,
    keep: spec_fn(Option<Env>) -> bool,
    i_end: int,
) -> Seq<NodeId>
    decreases i_end,
{
    if i_end <= 0 {
        Seq::empty()
    } else {
        let rest = nodes_where(order, nodes, keep, i_end - 1);
        if keep(label_in(nodes, order[i_end - 1])) {
            rest.push(order[i_end - 1])
        } else {
            rest
        }
    }
}

/// A label that some nogood subsumes.
pub open spec fn inconsistent_label(nogoods: Seq<Env>) -> spec_fn(Option<Env>) -> bool {
    |l: Option<Env>| l matches Some(e) && inconsistent_in(nogoods, e)
}

/// A label made only of assumptions of `env`, with at least one of them.
pub open spec fn within(env: Env) -> spec_fn(Option<Env>) -> bool {
    |l: Option<Env>| l matches Some(e) && e & env != 0 && e & !env == 0
}

/// How far a label can still shrink: 65 when unset, else its number of assumptions.
pub open spec fn pot(l: Option<Env>) -> nat {
    match l {
        None => 65,
        Some(e) => count_below(e, 64),
    }
}

/// The total room left to shrink the labels of the listed nodes.
pub open spec fn pot_sum(us: Seq<NodeId>, nodes: Map<NodeId, BaseNode>) -> nat
    decreases us.len(),
{
    if us.len() == 0 {
        0
    } else {
        pot_sum(us.drop_last(), nodes) + pot(label_in(nodes, us.last()))
    }
}

proof fn lemma_count_below_le(e: Env, n: nat)
    ensures
        count_below(e, n) <= n,
    decreases n,
{
    if n > 0 {
        lemma_count_below_le(e, (n - 1) as nat);
    }
}

/// An accepted label leaves less room to shrink.
pub proof fn lemma_pot_strict(l: Option<Env>, e: Env)
    requires
        accepts_label(l, e),
    ensures
        pot(Some(e)) < pot(l),
{
    lemma_count_below_le(e, 64);
    if let Some(a) = l {
        lemma_subsumes_is_subset(e, a);
        lemma_count_is_len(e, 64);
        lemma_count_is_len(a, 64);
        let se = Set::new(|c: u64| c < 64 && holds(e, c));
        let sa = Set::new(|c: u64| c < 64 && holds(a, c));
        assert(se =~= env_set(e));
        assert(sa =~= env_set(a));
        vstd::set_lib::lemma_len_subset(se, sa);
        if se.len() == sa.len() {
            vstd::set_lib::lemma_subset_equality(se, sa);
            assert forall|b: u64| b < 64 implies (holds(e, b) <==> holds(a, b)) by {
                assert(se.contains(b) <==> sa.contains(b));
            }
            lemma_env_ext(e, a);
        }
    }
}

/// Labels that never gain room keep the total; one strict loss lowers it.
pub proof fn lemma_pot_sum_le(us: Seq<NodeId>, n1: Map<NodeId, BaseNode>, n2: Map<NodeId, BaseNode>, x: NodeId)
    requires
        forall|u: NodeId| pot(#[trigger] label_in(n2, u)) <= pot(label_in(n1, u)),
    ensures
        pot_sum(us, n2) <= pot_sum(us, n1),
        us.contains(x) && pot(label_in(n2, x)) < pot(label_in(n1, x)) ==> pot_sum(us, n2) < pot_sum(us, n1),
    decreases us.len(),
{
    if us.len() > 0 {
        lemma_pot_sum_le(us.drop_last(), n1, n2, x);
        assert(pot(label_in(n2, us.last())) <= pot(label_in(n1, us.last())));
        if us.contains(x) && pot(label_in(n2, x)) < pot(label_in(n1, x)) && us.last() != x {
            let k = choose|k: int| 0 <= k < us.len() && us[k] == x;
            assert(us.drop_last()[k] == x);
        }
    }
}

/// `j` cannot lower its consequent's label any more.
pub open spec fn settled(nodes: Map<NodeId, BaseNode>, j: Justification) -> bool {
    match derive_spec(nodes, j.antecedents@) {
        Some(e) => !accepts_label(label_in(nodes, j.consequent), e),
        None => true,
    }
}

/// No justification can lower its consequent's label: every label is the
/// smallest environment its justifications give it.
pub open spec fn stable(nodes: Map<NodeId, BaseNode>, justs: Seq<Justification>) -> bool {
    forall|j: int| 0 <= j < justs.len() ==> #[trigger] settled(nodes, justs[j])
}

/// A settled justification stays settled while what it derives stays the
/// same and its consequent's label only shrinks.
pub proof fn lemma_settled_persists(n1: Map<NodeId, BaseNode>, n2: Map<NodeId, BaseNode>, j: Justification)
    requires
        settled(n1, j),
        derive_spec(n1, j.antecedents@) == derive_spec(n2, j.antecedents@),
        shrinks_to(label_in(n1, j.consequent), label_in(n2, j.consequent)),
    ensures
        settled(n2, j),
{
    if let Some(e) = derive_spec(n1, j.antecedents@) {
        if let Some(a) = label_in(n1, j.consequent) {
            let b = label_in(n2, j.consequent)->0;
            if accepts_label(Some(b), e) {
                crate::env::law_subsumes_partial_order(e, b, a);
                crate::env::law_subsumes_partial_order(a, b, a);
                crate::env::law_subsumes_partial_order(b, a, b);
            }
        }
    }
}

/// A set label stays set and can only shrink.
pub open spec fn shrinks_to(before: Option<Env>, after: Option<Env>) -> bool {
    match before {
        Some(a) => match after {
            Some(b) => spec_subsumes(b, a),
            None => false,
        },
        None => true,
    }
}

/// Every label of `n1` is still there in `n2`, possibly smaller.
pub open spec fn labels_shrink(n1: Map<NodeId, BaseNode>, n2: Map<NodeId, BaseNode>) -> bool {
    forall|id: NodeId| #[trigger] shrinks_to(label_in(n1, id), label_in(n2, id))
}

/// The node of a reported change still has a label, within the reported one.
pub open spec fn reported_ok(nodes: Map<NodeId, BaseNode>, change: (NodeId, Env)) -> bool {
    match label_in(nodes, change.0) {
        Some(b) => spec_subsumes(b, change.1),
        None => false,
    }
}

/// `x` is the node propagation started from or one it relabelled.
pub open spec fn touched(start: NodeId, updated: Seq<(NodeId, Env)>, x: NodeId) -> bool {
    x == start || exists|k: int| 0 <= k < updated.len() && (#[trigger] updated[k]).0 == x
}

/// Some antecedent is in the queue.
pub open spec fn waiting(queue: Seq<NodeId>, ants: Seq<NodeId>) -> bool {
    exists|p: int| 0 <= p < ants.len() && queue.contains(#[trigger] ants[p])
}

/// Some antecedent was touched.
pub open spec fn has_touched(start: NodeId, updated: Seq<(NodeId, Env)>, ants: Seq<NodeId>) -> bool {
    exists|p: int| 0 <= p < ants.len() && touched(start, updated, #[trigger] ants[p])
}

/// What a justification derives depends only on its antecedents' labels.
pub proof fn lemma_derive_same(n1: Map<NodeId, BaseNode>, n2: Map<NodeId, BaseNode>, ants: Seq<NodeId>)
    requires
        forall|p: int| 0 <= p < ants.len() ==> label_in(n1, #[trigger] ants[p]) == label_in(n2, ants[p]),
    ensures
        derive_spec(n1, ants) == derive_spec(n2, ants),
{
    assert(all_labelled(n1, ants) == all_labelled(n2, ants)) by {
        if all_labelled(n1, ants) {
            assert forall|i: int| 0 <= i < ants.len() implies (#[trigger] label_in(n2, ants[i])) is Some by {
                assert(label_in(n1, ants[i]) is Some);
            }
        }
        if all_labelled(n2, ants) {
            assert forall|i: int| 0 <= i < ants.len() implies (#[trigger] label_in(n1, ants[i])) is Some by {
                assert(label_in(n2, ants[i]) is Some);
            }
        }
    }
    assert(labels_of(n1, ants) =~= labels_of(n2, ants));
}

/// One step of propagation keeps its invariants: justification `ji`
/// derived `env` for its consequent `c`, which took it when `changed`.
proof fn lemma_step(
    s0: AtmsView,
    n1: Map<NodeId, BaseNode>,
    n2: Map<NodeId, BaseNode>,
    start: NodeId,
    u1: Seq<(NodeId, Env)>,
    u2: Seq<(NodeId, Env)>,
    q1: Seq<NodeId>,
    q2: Seq<NodeId>,
    ji: int,
    c: NodeId,
    env: Env,
    changed: bool,
    us: Seq<NodeId>,
    pending: Seq<usize>,
    pos: int,
    m: int,
)
    requires
        0 <= ji < s0.justifications.len(),
        s0.justifications.len() <= usize::MAX,
        0 <= pos < m,
        m == pending.len(),
        pending[pos] == ji as usize,
        c == s0.justifications[ji].consequent,
        derive_spec(n1, s0.justifications[ji].antecedents@) == Some(env),
        us == s0.justifications.map_values(|j: Justification| j.consequent),
        changed == accepts_label(label_in(n1, c), env),
        label_in(n2, c) == (if changed {
            Some(env)
        } else {
            label_in(n1, c)
        }),
        forall|id: NodeId| id != c ==> #[trigger] label_in(n2, id) == label_in(n1, id),
        changed ==> u2 == u1.push((c, env)) && q2 == q1.push(c),
        !changed ==> u2 == u1 && q2 == q1,
        labels_shrink(s0.nodes, n1),
        forall|k: int|
            0 <= k < u1.len() ==> reported_ok(n1, #[trigger] u1[k]),
        forall|id: NodeId|
            #[trigger] label_in(n1, id) != label_in(s0.nodes, id) ==> exists|k: int|
                0 <= k < u1.len() && u1[k] == (id, label_in(n1, id)->0),
        forall|q: int| 0 <= q < q1.len() ==> touched(start, u1, #[trigger] q1[q]),
        forall|jj: int|
            0 <= jj < s0.justifications.len() && has_touched(start, u1, #[trigger] s0.justifications[jj].antecedents@)
                && !waiting(q1, s0.justifications[jj].antecedents@) && !pending.subrange(pos, m).contains(jj as usize)
                ==> settled(n1, s0.justifications[jj]),
    ensures
        labels_shrink(s0.nodes, n2),
        forall|k: int|
            0 <= k < u2.len() ==> reported_ok(n2, #[trigger] u2[k]),
        forall|id: NodeId|
            #[trigger] label_in(n2, id) != label_in(s0.nodes, id) ==> exists|k: int|
                0 <= k < u2.len() && u2[k] == (id, label_in(n2, id)->0),
        forall|q: int| 0 <= q < q2.len() ==> touched(start, u2, #[trigger] q2[q]),
        forall|jj: int|
            0 <= jj < s0.justifications.len() && has_touched(start, u2, #[trigger] s0.justifications[jj].antecedents@)
                && !waiting(q2, s0.justifications[jj].antecedents@) && !pending.subrange(pos + 1, m).contains(jj as usize)
                ==> settled(n2, s0.justifications[jj]),
        forall|u: NodeId| pot(#[trigger] label_in(n2, u)) <= pot(label_in(n1, u)),
        changed ==> pot(label_in(n2, c)) < pot(label_in(n1, c)) && us.contains(c),
{
    if changed {
        lemma_pot_strict(label_in(n1, c), env);
        assert(us[ji] == c);
    }
    assert forall|u: NodeId| pot(#[trigger] label_in(n2, u)) <= pot(label_in(n1, u)) by {
        if u == c && changed {
            lemma_pot_strict(label_in(n1, c), env);
        }
    }
    // labels shrink
    assert forall|id: NodeId| #[trigger] shrinks_to(label_in(s0.nodes, id), label_in(n2, id)) by {
        assert(shrinks_to(label_in(s0.nodes, id), label_in(n1, id)));
        if id == c && changed {
            if let Some(a) = label_in(s0.nodes, id) {
                let b1 = label_in(n1, id)->0;
                crate::env::law_subsumes_partial_order(env, b1, a);
            }
        }
    }
    // reported labels
    assert forall|k: int| 0 <= k < u2.len() implies reported_ok(n2, #[trigger] u2[k]) by {
        if changed && k == u1.len() {
            crate::env::law_subsumes_partial_order(env, env, env);
        } else {
            assert(u2[k] == u1[k]);
            assert(reported_ok(n1, u1[k]));
            if u1[k].0 == c && changed {
                let b1 = label_in(n1, c)->0;
                crate::env::law_subsumes_partial_order(env, b1, u1[k].1);
            }
        }
    }
    assert forall|id: NodeId| #[trigger] label_in(n2, id) != label_in(s0.nodes, id) implies exists|k: int|
        0 <= k < u2.len() && u2[k] == (id, label_in(n2, id)->0) by {
        if changed && id == c {
            assert(u2[u1.len() as int] == (c, env));
        } else {
            let k = choose|k: int| 0 <= k < u1.len() && u1[k] == (id, label_in(n1, id)->0);
            assert(u2[k] == u1[k]);
        }
    }
    assert forall|q: int| 0 <= q < q2.len() implies touched(start, u2, #[trigger] q2[q]) by {
        if changed && q == q1.len() {
            assert(u2[u1.len() as int].0 == c);
        } else {
            assert(q2[q] == q1[q]);
            assert(touched(start, u1, q1[q]));
            if q1[q] != start {
                let k = choose|k: int| 0 <= k < u1.len() && (#[trigger] u1[k]).0 == q1[q];
                assert(u2[k] == u1[k]);
            }
        }
    }
    // the processed justification is settled unless waiting
    let j0 = s0.justifications[ji];
    assert forall|jj: int|
        0 <= jj < s0.justifications.len() && has_touched(start, u2, #[trigger] s0.justifications[jj].antecedents@)
            && !waiting(q2, s0.justifications[jj].antecedents@) && !pending.subrange(pos + 1, m).contains(jj as usize)
            implies settled(n2, s0.justifications[jj]) by {
        let j = s0.justifications[jj];
        let ants = j.antecedents@;
        // c is not an antecedent (else it would be waiting when changed)
        let c_is_ant = exists|p: int| 0 <= p < ants.len() && ants[p] == c;
        if changed && c_is_ant {
            let p = choose|p: int| 0 <= p < ants.len() && ants[p] == c;
            assert(q2[q2.len() - 1] == c);
            assert(q2.contains(ants[p]));
        }
        assert(!changed || !c_is_ant);
        assert forall|p: int| 0 <= p < ants.len() implies label_in(n1, #[trigger] ants[p]) == label_in(n2, ants[p]) by {
            if changed {
                assert(ants[p] != c);
            }
        }
        lemma_derive_same(n1, n2, ants);
        // earlier status
        if has_touched(start, u1, ants) && !waiting(q1, ants) && !pending.subrange(pos, m).contains(jj as usize) {
            assert(settled(n1, j));
        }
        if jj == ji {
            // processed now
            assert(derive_spec(n2, ants) == Some(env));
        } else {
            if pending.subrange(pos, m).contains(jj as usize) {
                let k = choose|k: int| 0 <= k < m - pos && pending.subrange(pos, m)[k] == jj as usize;
                if k == 0 {
                    assert(pending[pos] == jj as usize);
                } else {
                    assert(pending.subrange(pos + 1, m)[k - 1] == jj as usize);
                }
            }
            assert(has_touched(start, u1, ants)) by {
                let p = choose|p: int| 0 <= p < ants.len() && touched(start, u2, #[trigger] ants[p]);
                if ants[p] != start {
                    let k = choose|k: int| 0 <= k < u2.len() && (#[trigger] u2[k]).0 == ants[p];
                    if changed && k == u1.len() {
                        assert(ants[p] == c);
                    } else {
                        assert(u1[k] == u2[k]);
                    }
                }
                assert(touched(start, u1, ants[p]));
            }
            assert(!waiting(q1, ants)) by {
                if waiting(q1, ants) {
                    let p = choose|p: int| 0 <= p < ants.len() && q1.contains(#[trigger] ants[p]);
                    let k = choose|k: int| 0 <= k < q1.len() && q1[k] == ants[p];
                    assert(q2[k] == q1[k]);
                    assert(q2.contains(ants[p]));
                }
            }
            assert(settled(n1, j));
            if changed && j.consequent == c {
                match derive_spec(n1, ants) {
                    Some(e2) => {
                        match label_in(n1, c) {
                            Some(old_l) => {
                                if accepts_label(Some(env), e2) {
                                    crate::env::law_subsumes_partial_order(e2, env, old_l);
                                    if e2 == old_l {
                                        crate::env::law_subsumes_partial_order(env, old_l, old_l);
                                    }
                                }
                            },
                            None => {},
                        }
                    },
                    None => {},
                }
            }
        }
    }
}

/// Union over environments is monotone: smaller parts give a smaller union.
proof fn lemma_union_all_mono(a: Seq<Env>, b: Seq<Env>)
    requires
        a.len() == b.len(),
        forall|i: int| 0 <= i < a.len() ==> spec_subsumes(#[trigger] a[i], b[i]),
    ensures
        spec_subsumes(union_all(a), union_all(b)),
    decreases a.len(),
{
    if a.len() > 0 {
        assert forall|i: int| 0 <= i < a.len() - 1 implies spec_subsumes(#[trigger] a.drop_last()[i], b.drop_last()[i]) by {
            assert(a.drop_last()[i] == a[i]);
            assert(b.drop_last()[i] == b[i]);
        }
        lemma_union_all_mono(a.drop_last(), b.drop_last());
        let x1 = union_all(a.drop_last());
        let y1 = union_all(b.drop_last());
        let x2 = a.last();
        let y2 = b.last();
        assert(spec_subsumes(x2, y2));
        assert((x1 & y1 == x1 && x2 & y2 == x2) ==> (x1 | x2) & (y1 | y2) == (x1 | x2)) by (bit_vector);
    } else {
        assert(0u64 & 0u64 == 0u64) by (bit_vector);
    }
}

/// When labels only shrink, what a justification derives stays derived and
/// only shrinks.
pub proof fn lemma_derive_shrinks(n1: Map<NodeId, BaseNode>, n2: Map<NodeId, BaseNode>, ants: Seq<NodeId>)
    requires
        labels_shrink(n1, n2),
        derive_spec(n1, ants) is Some,
    ensures
        derive_spec(n2, ants) is Some,
        spec_subsumes(derive_spec(n2, ants)->0, derive_spec(n1, ants)->0),
{
    assert forall|i: int| 0 <= i < ants.len() implies (#[trigger] label_in(n2, ants[i])) is Some by {
        assert(shrinks_to(label_in(n1, ants[i]), label_in(n2, ants[i])));
        assert(label_in(n1, ants[i]) is Some);
    }
    let l1 = labels_of(n1, ants);
    let l2 = labels_of(n2, ants);
    assert forall|i: int| 0 <= i < l2.len() implies spec_subsumes(#[trigger] l2[i], l1[i]) by {
        assert(shrinks_to(label_in(n1, ants[i]), label_in(n2, ants[i])));
        assert(label_in(n1, ants[i]) is Some);
    }
    lemma_union_all_mono(l2, l1);
}

/// Justification `j` gave node `x` its current label: `j` concludes `x` and
/// derives exactly that label.
pub open spec fn supported_by(nodes: Map<NodeId, BaseNode>, justs: Seq<Justification>, x: NodeId, j: int) -> bool {
    &&& 0 <= j < justs.len()
    &&& justs[j].consequent == x
    &&& derive_spec(nodes, justs[j].antecedents@) == label_in(nodes, x)
}

/// While propagation runs: justification `j` concludes `x`, derives a part of
/// its label, and derives exactly that label unless it still waits to be
/// looked at again (an antecedent queued, or `j` among the pending ones).
spec fn backed(
    nodes: Map<NodeId, BaseNode>,
    justs: Seq<Justification>,
    x: NodeId,
    j: int,
    queue: Seq<NodeId>,
    rem: Seq<usize>,
) -> bool {
    &&& 0 <= j < justs.len()
    &&& justs[j].consequent == x
    &&& derive_spec(nodes, justs[j].antecedents@) is Some
    &&& label_in(nodes, x) is Some
    &&& spec_subsumes(derive_spec(nodes, justs[j].antecedents@)->0, label_in(nodes, x)->0)
    &&& (derive_spec(nodes, justs[j].antecedents@) == label_in(nodes, x) || waiting(
        queue,
        justs[j].antecedents@,
    ) || rem.contains(j as usize))
}

/// A queue that grows at its end keeps what was waiting.
proof fn lemma_waiting_push(q: Seq<NodeId>, c: NodeId, ants: Seq<NodeId>)
    ensures
        waiting(q, ants) ==> waiting(q.push(c), ants),
        (exists|p: int| 0 <= p < ants.len() && ants[p] == c) ==> waiting(q.push(c), ants),
{
    if waiting(q, ants) {
        let p = choose|p: int| 0 <= p < ants.len() && q.contains(#[trigger] ants[p]);
        let k = choose|k: int| 0 <= k < q.len() && q[k] == ants[p];
        assert(q.push(c)[k] == ants[p]);
        assert(q.push(c).contains(ants[p]));
    }
    if exists|p: int| 0 <= p < ants.len() && ants[p] == c {
        let p = choose|p: int| 0 <= p < ants.len() && ants[p] == c;
        assert(q.push(c)[q.len() as int] == c);
        assert(q.push(c).contains(ants[p]));
    }
}

/// One step of propagation keeps every changed label backed by a
/// justification: justification `ji` derived `env` for its consequent `c`,
/// which took it when `changed`.
proof fn lemma_backed_step(
    s0: AtmsView,
    n1: Map<NodeId, BaseNode>,
    n2: Map<NodeId, BaseNode>,
    q1: Seq<NodeId>,
    q2: Seq<NodeId>,
    ji: int,
    c: NodeId,
    env: Env,
    changed: bool,
    pending: Seq<usize>,
    pos: int,
    m: int,
)
    requires
        0 <= ji < s0.justifications.len(),
        s0.justifications.len() <= usize::MAX,
        0 <= pos < m,
        m == pending.len(),
        pending[pos] == ji as usize,
        c == s0.justifications[ji].consequent,
        derive_spec(n1, s0.justifications[ji].antecedents@) == Some(env),
        changed == accepts_label(label_in(n1, c), env),
        label_in(n2, c) == (if changed {
            Some(env)
        } else {
            label_in(n1, c)
        }),
        forall|id: NodeId| id != c ==> #[trigger] label_in(n2, id) == label_in(n1, id),
        changed ==> q2 == q1.push(c),
        !changed ==> q2 == q1,
        forall|x: NodeId|
            #[trigger] label_in(n1, x) != label_in(s0.nodes, x) ==> exists|j: int|
                #[trigger] backed(n1, s0.justifications, x, j, q1, pending.subrange(pos, m)),
    ensures
        forall|x: NodeId|
            #[trigger] label_in(n2, x) != label_in(s0.nodes, x) ==> exists|j: int|
                #[trigger] backed(n2, s0.justifications, x, j, q2, pending.subrange(pos + 1, m)),
{
    let js = s0.justifications;
    let r1 = pending.subrange(pos, m);
    let r2 = pending.subrange(pos + 1, m);
    assert forall|v: usize| r1.contains(v) && v != ji as usize implies r2.contains(v) by {
        let k = choose|k: int| 0 <= k < r1.len() && r1[k] == v;
        assert(k != 0);
        assert(r2[k - 1] == v);
    }
    assert forall|id: NodeId| #[trigger] shrinks_to(label_in(n1, id), label_in(n2, id)) by {
        if let Some(a) = label_in(n1, id) {
            crate::env::law_subsumes_partial_order(a, a, a);
        }
    }
    assert(labels_shrink(n1, n2));
    assert forall|x: NodeId| #[trigger] label_in(n2, x) != label_in(s0.nodes, x) implies exists|j: int|
        #[trigger] backed(n2, js, x, j, q2, r2) by {
        if changed && x == c {
            let ants = js[ji].antecedents@;
            lemma_derive_shrinks(n1, n2, ants);
            lemma_waiting_push(q1, c, ants);
            if !(exists|p: int| 0 <= p < ants.len() && ants[p] == c) {
                assert forall|p: int| 0 <= p < ants.len() implies label_in(n1, #[trigger] ants[p]) == label_in(n2, ants[p]) by {
                    assert(ants[p] != c);
                }
                lemma_derive_same(n1, n2, ants);
                crate::env::law_subsumes_partial_order(env, env, env);
            }
            assert(backed(n2, js, x, ji, q2, r2));
        } else {
            assert(label_in(n2, x) == label_in(n1, x));
            let j = choose|j: int| #[trigger] backed(n1, js, x, j, q1, r1);
            let ants = js[j].antecedents@;
            let lx = label_in(n1, x)->0;
            lemma_derive_shrinks(n1, n2, ants);
            let e1 = derive_spec(n1, ants)->0;
            let e2 = derive_spec(n2, ants)->0;
            crate::env::law_subsumes_partial_order(e2, e1, lx);
            if changed {
                lemma_waiting_push(q1, c, ants);
            }
            if !(changed && (exists|p: int| 0 <= p < ants.len() && ants[p] == c)) {
                assert forall|p: int| 0 <= p < ants.len() implies label_in(n1, #[trigger] ants[p]) == label_in(n2, ants[p]) by {
                    if changed {
                        assert(ants[p] != c);
                    }
                }
                lemma_derive_same(n1, n2, ants);
                if derive_spec(n1, ants) == label_in(n1, x) {
                } else if waiting(q1, ants) {
                    assert(waiting(q2, ants));
                } else {
                    assert(r1.contains(j as usize));
                    if j == ji {
                        assert(!changed);
                        assert(e1 == env);
                        assert(!accepts_label(label_in(n1, c), env));
                        assert(derive_spec(n2, ants) == label_in(n2, x));
                    } else {
                        assert(r2.contains(j as usize));
                    }
                }
            } else {
                assert(waiting(q2, ants));
            }
            assert(backed(n2, js, x, j, q2, r2));
        }
    }
}

/// The abstract state of the ATMS.
pub struct AtmsView {
    pub nodes: Map<NodeId, BaseNode>,
    pub order: Seq<NodeId>,
    pub justifications: Seq<Justification>,
    pub ant_to_just: Map<NodeId, Seq<usize>>,
    pub consequent_to_just: Map<NodeId, Seq<usize>>,
    pub nogoods: Seq<Env>,
}

/// Well-formedness: `order` lists each node once; the antecedent index holds
/// every (antecedent, justification) pair and only valid positions; the
/// consequent index lists, per consequent, its justifications in order; the
/// nogoods are minimal.
pub open spec fn atms_wf(v: AtmsView) -> bool {
    &&& v.order.no_duplicates()
    &&& forall|id: NodeId| #[trigger] v.nodes.contains_key(id) <==> v.order.contains(id)
    &&& forall|a: NodeId, k: int|
        #![trigger v.ant_to_just[a][k]]
        v.ant_to_just.contains_key(a) && 0 <= k < v.ant_to_just[a].len() ==> v.ant_to_just[a][k]
            < v.justifications.len()
    &&& forall|j: int, p: int|
        #![trigger v.justifications[j].antecedents@[p]]
        0 <= j < v.justifications.len() && 0 <= p < v.justifications[j].antecedents@.len() ==> {
            let a = v.justifications[j].antecedents@[p];
            v.ant_to_just.contains_key(a) && v.ant_to_just[a].contains(j as usize)
        }
    &&& forall|c: NodeId|
        #[trigger] v.consequent_to_just.contains_key(c) ==> v.consequent_to_just[c] == cons_list(
            v.justifications,
            c,
            v.justifications.len() as int,
        )
    &&& forall|c: NodeId|
        !v.consequent_to_just.contains_key(c) ==> #[trigger] cons_list(
            v.justifications,
            c,
            v.justifications.len() as int,
        ).len() == 0
    &&& forall|a: NodeId|
        #[trigger] v.ant_to_just.contains_key(a) ==> v.ant_to_just[a].len() <= antecedent_total(v.justifications)
    &&& crate::nogood::minimal(v.nogoods)
}

/// The complete Horn-clause ATMS state.
#[derive(Debug)]
pub struct BaseAtms {
    nodes: HashMap<NodeId, BaseNode>,
    order: Vec<NodeId>,
    justifications: Vec<Justification>,
    ant_to_just: HashMap<NodeId, Vec<usize>>,
    consequent_to_just: HashMap<NodeId, Vec<usize>>,
    pub nogoods: NogoodTable,
}

impl View for BaseAtms {
    type V = AtmsView;

    closed spec fn view(&self) -> AtmsView {
        AtmsView {
            nodes: self.nodes@,
            order: self.order@,
            justifications: self.justifications@,
            ant_to_just: self.ant_to_just@.map_values(|v: Vec<usize>| v@),
            consequent_to_just: self.consequent_to_just@.map_values(|v: Vec<usize>| v@),
            nogoods: self.nogoods@,
        }
    }
}

impl BaseAtms {
    pub open spec fn wf(&self) -> bool {
        atms_wf(self@)
    }

    /// An ATMS with no node, justification or nogood.
    pub fn new() -> (r: BaseAtms)
        ensures
            r.wf(),
            r@.nodes == Map::<NodeId, BaseNode>::empty(),
            r@.order == Seq::<NodeId>::empty(),
            r@.justifications == Seq::<Justification>::empty(),
            r@.nogoods == Seq::<Env>::empty(),
    {
        let r = BaseAtms {
            nodes: HashMap::new(),
            order: Vec::new(),
            justifications: Vec::new(),
            ant_to_just: HashMap::new(),
            consequent_to_just: HashMap::new(),
            nogoods: NogoodTable::new(),
        };
        proof {
            assert(r@.ant_to_just =~= Map::<NodeId, Seq<usize>>::empty());
            assert(r@.consequent_to_just =~= Map::<NodeId, Seq<usize>>::empty());
        }
        r
    }

    proof fn lemma_insert_keeps_wf(&self, id: NodeId, n: BaseNode, s: AtmsView)
        requires
            atms_wf(s),
            (s.order.contains(id) && self@.order == s.order) || (!s.order.contains(id) && self@.order
                == s.order.push(id)),
            self@.nodes == s.nodes.insert(id, n),
            self@.justifications == s.justifications,
            self@.ant_to_just == s.ant_to_just,
            self@.consequent_to_just == s.consequent_to_just,
            self@.nogoods == s.nogoods,
        ensures
            atms_wf(self@),
    {
        let o = self@.order;
        if o != s.order {
            assert forall|i: int, j: int| 0 <= i < o.len() && 0 <= j < o.len() && i != j implies o[i] != o[j] by {
                if i < s.order.len() && j < s.order.len() {
                } else if i == s.order.len() {
                    assert(o[j] == s.order[j]);
                } else {
                    assert(o[i] == s.order[i]);
                }
            }
        }
        assert forall|x: NodeId| #[trigger] self@.nodes.contains_key(x) <==> o.contains(x) by {
            assert(s.nodes.contains_key(x) <==> s.order.contains(x));
            assert(self@.nodes.contains_key(x) <==> (s.nodes.contains_key(x) || x == id));
            if o == s.order {
                if x == id && !s.order.contains(id) {
                    assert(o == s.order.push(id));
                    assert(o.len() == s.order.len() + 1);
                }
            } else {
                assert(o == s.order.push(id));
                if o.contains(x) {
                    let k = choose|k: int| 0 <= k < o.len() && o[k] == x;
                    if k < s.order.len() {
                        assert(s.order[k] == x);
                    }
                }
                if s.order.contains(x) {
                    let k = choose|k: int| 0 <= k < s.order.len() && s.order[k] == x;
                    assert(o[k] == x);
                }
                if x == id {
                    assert(o[o.len() - 1] == id);
                }
            }
        }
    }

    /// Register an assumption node labelled with the singleton environment of
    /// `env_bit` (replacing any node with the same id).
    pub fn add_assumption(&mut self, id: NodeId, env_bit: u8)
        requires
            old(self).wf(),
            env_bit < 64,
        ensures
            final(self).wf(),
            final(self)@.nodes == old(self)@.nodes.insert(
                id,
                BaseNode { id, kind: NodeKind::Assumption, label: Some(1u64 << (env_bit as u64)) },
            ),
            final(self)@.justifications == old(self)@.justifications,
            final(self)@.nogoods == old(self)@.nogoods,
    {
        let ghost s = self@;
        let known = self.nodes.contains_key(&id);
        proof {
            assert(s.nodes.contains_key(id) <==> s.order.contains(id));
        }
        let n = BaseNode::assumption(id, env_bit);
        self.nodes.insert(id, n);
        if !known {
            self.order.push(id);
        }
        proof {
            self.lemma_insert_keeps_wf(id, n, s);
        }
    }

    /// Register a derived node with no label, unless the id is already known.
    pub fn add_derived(&mut self, id: NodeId)
        requires
            old(self).wf(),
        ensures
            final(self).wf(),
            final(self)@.nodes == (if old(self)@.nodes.contains_key(id) {
                old(self)@.nodes
            } else {
                old(self)@.nodes.insert(id, BaseNode { id, kind: NodeKind::Derived, label: None })
            }),
            final(self)@.justifications == old(self)@.justifications,
            final(self)@.ant_to_just == old(self)@.ant_to_just,
            final(self)@.consequent_to_just == old(self)@.consequent_to_just,
            final(self)@.nogoods == old(self)@.nogoods,
    {
        let ghost s = self@;
        proof {
            assert(s.nodes.contains_key(id) <==> s.order.contains(id));
        }
        if !self.nodes.contains_key(&id) {
            let n = BaseNode::derived(id);
            self.nodes.insert(id, n);
            self.order.push(id);
            proof {
                self.lemma_insert_keeps_wf(id, n, s);
            }
        }
    }

    /// The label of node `id`, if it has one.
    pub fn label_of(&self, id: NodeId) -> (r: Option<Env>)
        ensures
            r == label_in(self@.nodes, id),
    {
        match self.nodes.get(&id) {
            Some(n) => n.label,
            None => None,
        }
    }

    /// Whether node `id` is labelled and its label subsumes `env`.
    pub fn is_active(&self, id: NodeId, env: Env) -> (r: bool)
        ensures
            r == spec_is_active_in(label_in(self@.nodes, id), env),
    {
        match self.nodes.get(&id) {
            Some(n) => n.is_active_in(env),
            None => false,
        }
    }

    /// What justification `j` derives under the current labels.
    fn try_derive(&self, j: &Justification) -> (r: Option<Env>)
        ensures
            r == derive_spec(self@.nodes, j.antecedents@),
    {
        let nodes = &self.nodes;
        let f = |id: NodeId| -> (l: Option<Env>)
            ensures
                l == label_in(nodes@, id),
            {
                match nodes.get(&id) {
                    Some(n) => n.label,
                    None => None,
                }
            };
        let ghost g = f;
        let r = j.derive_env(f);
        proof {
            let ants = j.antecedents@;
            match r {
                Some(e) => {
                    let ls = choose|ls: Seq<Env>|
                        {
                            &&& ls.len() == ants.len()
                            &&& forall|i: int|
                                0 <= i < ls.len() ==> call_ensures(g, (#[trigger] ants[i],), Some(ls[i]))
                            &&& e == union_all(ls)
                        };
                    assert forall|i: int| 0 <= i < ants.len() implies (#[trigger] label_in(self@.nodes, ants[i])) is Some
                        && label_in(self@.nodes, ants[i])->0 == ls[i] by {
                        assert(call_ensures(g, (ants[i],), Some(ls[i])));
                    }
                    assert(labels_of(self@.nodes, ants) =~= ls);
                },
                None => {
                    let i = choose|i: int| 0 <= i < ants.len() && call_ensures(g, (#[trigger] ants[i],), None);
                    assert(label_in(self@.nodes, ants[i]) is None);
                },
            }
        }
        r
    }

    /// Add a Horn-clause justification to the indexes and the list, and when
    /// its antecedents are all labelled, label its consequent with what it
    /// derives (if the node accepts it) and propagate that change at once.
    /// Returns what the justification derives under the labels it was added to.
    ///
    /// Labels only shrink; afterwards the new justification cannot lower its
    /// consequent's label any further; every label that changed is exactly
    /// what some justification of that node derives; and when no justification
    /// could lower a label before, none can after.
    pub fn add_justification(&mut self, j: Justification) -> (r: Option<Env>)
        requires
            old(self).wf(),
            old(self)@.justifications.len() < usize::MAX,
            antecedent_total(old(self)@.justifications) + j.antecedents@.len() < usize::MAX,
        ensures
            final(self).wf(),
            r == derive_spec(old(self)@.nodes, j.antecedents@),
            final(self)@.justifications == old(self)@.justifications.push(j),
            final(self)@.nogoods == old(self)@.nogoods,
            r is None ==> final(self)@.nodes == old(self)@.nodes && final(self)@.order == old(self)@.order,
            labels_shrink(old(self)@.nodes, final(self)@.nodes),
            r is Some ==> label_in(final(self)@.nodes, j.consequent) is Some && settled(final(self)@.nodes, j),
            r is Some && accepts_label(label_in(old(self)@.nodes, j.consequent), r->0) ==> spec_subsumes(
                label_in(final(self)@.nodes, j.consequent)->0,
                r->0,
            ),
            forall|x: NodeId|
                #[trigger] label_in(final(self)@.nodes, x) != label_in(old(self)@.nodes, x) ==> exists|k: int|
                    #[trigger] supported_by(final(self)@.nodes, final(self)@.justifications, x, k),
            stable(old(self)@.nodes, old(self)@.justifications) ==> stable(final(self)@.nodes, final(self)@.justifications),
    {
        let ghost s = self@;
        let idx = self.justifications.len();
        let n = j.antecedents.len();
        let mut p: usize = 0;
        while p < n
            invariant
                n == j.antecedents@.len(),
                p <= n,
                idx == s.justifications.len(),
                self@.nodes == s.nodes,
                self@.order == s.order,
                self@.justifications == s.justifications,
                self@.consequent_to_just == s.consequent_to_just,
                self@.nogoods == s.nogoods,
                atms_wf(s),
                antecedent_total(s.justifications) + j.antecedents@.len() < usize::MAX,
                forall|a: NodeId|
                    #[trigger] s.ant_to_just.contains_key(a) ==> self@.ant_to_just.contains_key(a)
                        && self@.ant_to_just[a].len() >= s.ant_to_just[a].len(),
                forall|a: NodeId, k: int|
                    #![trigger s.ant_to_just[a][k]]
                    s.ant_to_just.contains_key(a) && 0 <= k < s.ant_to_just[a].len() ==> self@.ant_to_just[a][k]
                        == s.ant_to_just[a][k],
                forall|a: NodeId|
                    #[trigger] self@.ant_to_just.contains_key(a) ==> self@.ant_to_just[a].len() <= (if s.ant_to_just.contains_key(a) {
                        s.ant_to_just[a].len()
                    } else {
                        0
                    }) + p,
                forall|a: NodeId, k: int|
                    #![trigger self@.ant_to_just[a][k]]
                    self@.ant_to_just.contains_key(a) && 0 <= k < self@.ant_to_just[a].len() ==> self@.ant_to_just[a][k]
                        <= idx,
                forall|q: int| 0 <= q < p ==> self@.ant_to_just.contains_key(#[trigger] j.antecedents@[q]) && self@.ant_to_just[j.antecedents@[q]].contains(idx),
            decreases n - p,
        {
            let a = j.antecedents[p];
            let ghost before = self@.ant_to_just;
            let mut v = match self.ant_to_just.remove(&a) {
                Some(v) => v,
                None => Vec::new(),
            };
            v.push(idx);
            self.ant_to_just.insert(a, v);
            proof {
                assert(self@.ant_to_just =~= before.insert(a, before.get(a).unwrap_or(Seq::empty()).push(idx)));
                assert forall|b: NodeId, k: int|
                    #![trigger s.ant_to_just[b][k]]
                    s.ant_to_just.contains_key(b) && 0 <= k < s.ant_to_just[b].len() implies self@.ant_to_just[b][k]
                        == s.ant_to_just[b][k] by {
                    if b == a {
                        assert(before[a][k] == s.ant_to_just[a][k]);
                    }
                }
                assert forall|q: int| 0 <= q < p + 1 implies self@.ant_to_just.contains_key(#[trigger] j.antecedents@[q]) && self@.ant_to_just[j.antecedents@[q]].contains(idx) by {
                    let b = j.antecedents@[q];
                    if b == a {
                        let l = self@.ant_to_just[a];
                        assert(l[l.len() - 1] == idx);
                    } else {
                        assert(before[b] == self@.ant_to_just[b]);
                    }
                }
            }
            p = p + 1;
        }
        let c = j.consequent;
        let ghost before = self@.consequent_to_just;
        proof {
            lemma_cons_list_len(s.justifications, c, s.justifications.len() as int);
        }
        let mut w = match self.consequent_to_just.remove(&c) {
            Some(w) => w,
            None => Vec::new(),
        };
        w.push(idx);
        self.consequent_to_just.insert(c, w);
        let derived = self.try_derive(&j);
        let ghost jv = j;
        self.justifications.push(j);
        proof {
            let t = self@;
            let js = t.justifications;
            assert(js == s.justifications.push(j));
            assert(js.drop_last() =~= s.justifications);
            assert(antecedent_total(js) == antecedent_total(s.justifications) + j.antecedents@.len());
            assert forall|a: NodeId| #[trigger] t.ant_to_just.contains_key(a) implies t.ant_to_just[a].len()
                <= antecedent_total(js) by {
                if s.ant_to_just.contains_key(a) {
                    assert(s.ant_to_just[a].len() <= antecedent_total(s.justifications));
                }
            }
            assert forall|c2: NodeId| cons_list(js, c2, s.justifications.len() as int) == cons_list(s.justifications, c2, s.justifications.len() as int) by {
                lemma_cons_list_prefix(js, s.justifications, c2, s.justifications.len() as int);
            }
            assert(t.consequent_to_just =~= before.insert(c, before.get(c).unwrap_or(Seq::empty()).push(idx)));
            assert forall|c2: NodeId| #[trigger] t.consequent_to_just.contains_key(c2) implies t.consequent_to_just[c2] == cons_list(js, c2, js.len() as int) by {
                assert(cons_list(js, c2, s.justifications.len() as int) == cons_list(s.justifications, c2, s.justifications.len() as int));
                if c2 != c {
                    assert(s.consequent_to_just.contains_key(c2));
                }
            }
            assert forall|c2: NodeId| !t.consequent_to_just.contains_key(c2) implies #[trigger] cons_list(js, c2, js.len() as int).len() == 0 by {
                assert(cons_list(js, c2, s.justifications.len() as int) == cons_list(s.justifications, c2, s.justifications.len() as int));
            }
            assert forall|a: NodeId, k: int|
                #![trigger t.ant_to_just[a][k]]
                t.ant_to_just.contains_key(a) && 0 <= k < t.ant_to_just[a].len() implies t.ant_to_just[a][k] < js.len() by {
            }
            assert forall|jj: int, q: int|
                #![trigger js[jj].antecedents@[q]]
                0 <= jj < js.len() && 0 <= q < js[jj].antecedents@.len() implies {
                    let a = js[jj].antecedents@[q];
                    t.ant_to_just.contains_key(a) && t.ant_to_just[a].contains(jj as usize)
                } by {
                let a = js[jj].antecedents@[q];
                if jj < s.justifications.len() {
                    assert(js[jj] == s.justifications[jj]);
                    assert(s.justifications[jj].antecedents@[q] == a);
                    assert(s.ant_to_just.contains_key(a) && s.ant_to_just[a].contains(jj as usize));
                    let k = choose|k: int| 0 <= k < s.ant_to_just[a].len() && s.ant_to_just[a][k] == jj as usize;
                    assert(t.ant_to_just[a][k] == s.ant_to_just[a][k]);
                    assert(t.ant_to_just[a][k] == jj as usize);
                }
            }
            assert forall|id: NodeId| #[trigger] shrinks_to(label_in(s.nodes, id), label_in(s.nodes, id)) by {
                if let Some(a) = label_in(s.nodes, id) {
                    crate::env::law_subsumes_partial_order(a, a, a);
                }
            }
        }
        if let Some(env) = derived {
            let ghost t = self@;
            let changed = self.relabel(c, env);
            let ghost m1 = self@;
            if changed {
                let updated = self.propagate(c);
                proof {
                    self.lemma_after_propagate(s, t, m1, jv, idx as int, env, updated@);
                }
            } else {
                proof {
                    let ants = jv.antecedents@;
                    assert forall|id: NodeId| #[trigger] label_in(m1.nodes, id) == label_in(s.nodes, id) by {
                        if id != c {
                            assert(label_in(t.nodes, id) == label_in(s.nodes, id));
                        }
                    }
                    assert forall|p: int| 0 <= p < ants.len() implies label_in(s.nodes, #[trigger] ants[p]) == label_in(m1.nodes, ants[p]) by {
                    }
                    lemma_derive_same(s.nodes, m1.nodes, ants);
                    assert forall|id: NodeId| #[trigger] shrinks_to(label_in(s.nodes, id), label_in(m1.nodes, id)) by {
                        assert(shrinks_to(label_in(s.nodes, id), label_in(s.nodes, id)));
                    }
                    if stable(s.nodes, s.justifications) {
                        assert forall|jj: int| 0 <= jj < m1.justifications.len() implies #[trigger] settled(
                            m1.nodes,
                            m1.justifications[jj],
                        ) by {
                            if jj < idx {
                                let jt = s.justifications[jj];
                                assert(m1.justifications[jj] == jt);
                                assert forall|p: int| 0 <= p < jt.antecedents@.len() implies label_in(s.nodes, #[trigger] jt.antecedents@[p])
                                    == label_in(m1.nodes, jt.antecedents@[p]) by {
                                }
                                lemma_derive_same(s.nodes, m1.nodes, jt.antecedents@);
                                assert(settled(s.nodes, s.justifications[jj]));
                                lemma_settled_persists(s.nodes, m1.nodes, jt);
                            }
                        }
                    }
                }
            }
        } else {
            proof {
                let t = self@;
                if stable(s.nodes, s.justifications) {
                    assert forall|jj: int| 0 <= jj < t.justifications.len() implies #[trigger] settled(
                        t.nodes,
                        t.justifications[jj],
                    ) by {
                        if jj < idx {
                            assert(t.justifications[jj] == s.justifications[jj]);
                        }
                    }
                }
            }
        }
        derived
    }

    /// What `add_justification` promises once it has labelled the consequent
    /// and propagated: `s` before, `t` with the justification indexed at `idx`,
    /// `m1` after the relabelling, and the current state after propagation.
    proof fn lemma_after_propagate(
        &self,
        s: AtmsView,
        t: AtmsView,
        m1: AtmsView,
        j: Justification,
        idx: int,
        env: Env,
        updated: Seq<(NodeId, Env)>,
    )
        requires
            idx == s.justifications.len(),
            t.justifications == s.justifications.push(j),
            t.nodes == s.nodes,
            derive_spec(s.nodes, j.antecedents@) == Some(env),
            accepts_label(label_in(t.nodes, j.consequent), env),
            label_in(m1.nodes, j.consequent) == Some(env),
            forall|id: NodeId| id != j.consequent ==> #[trigger] label_in(m1.nodes, id) == label_in(t.nodes, id),
            m1.justifications == t.justifications,
            self@.justifications == m1.justifications,
            labels_shrink(m1.nodes, self@.nodes),
            forall|id: NodeId|
                #[trigger] label_in(self@.nodes, id) != label_in(m1.nodes, id) ==> exists|k: int|
                    0 <= k < updated.len() && updated[k] == (id, label_in(self@.nodes, id)->0),
            forall|jj: int|
                0 <= jj < self@.justifications.len() && has_touched(
                    j.consequent,
                    updated,
                    #[trigger] self@.justifications[jj].antecedents@,
                ) ==> settled(self@.nodes, self@.justifications[jj]),
            forall|x: NodeId|
                #[trigger] label_in(self@.nodes, x) != label_in(m1.nodes, x) ==> exists|k: int|
                    #[trigger] supported_by(self@.nodes, self@.justifications, x, k),
        ensures
            labels_shrink(s.nodes, self@.nodes),
            label_in(self@.nodes, j.consequent) is Some,
            settled(self@.nodes, j),
            spec_subsumes(label_in(self@.nodes, j.consequent)->0, env),
            forall|x: NodeId|
                #[trigger] label_in(self@.nodes, x) != label_in(s.nodes, x) ==> exists|k: int|
                    #[trigger] supported_by(self@.nodes, self@.justifications, x, k),
            stable(s.nodes, s.justifications) ==> stable(self@.nodes, self@.justifications),
    {
        let c = j.consequent;
        let f = self@.nodes;
        let ants = j.antecedents@;
        assert(self@.justifications[idx] == j);
        // labels shrink from the start
        assert forall|id: NodeId| #[trigger] shrinks_to(label_in(s.nodes, id), label_in(f, id)) by {
            assert(shrinks_to(label_in(m1.nodes, id), label_in(f, id)));
            if id == c {
                if let Some(a) = label_in(s.nodes, id) {
                    let b = label_in(f, id)->0;
                    crate::env::law_subsumes_partial_order(b, env, a);
                }
            } else {
                assert(label_in(m1.nodes, id) == label_in(s.nodes, id));
            }
        }
        assert(shrinks_to(label_in(m1.nodes, c), label_in(f, c)));
        let lf = label_in(f, c)->0;
        // the new justification is settled
        if has_touched(c, updated, ants) {
            assert(settled(f, self@.justifications[idx]));
        } else {
            assert forall|p: int| 0 <= p < ants.len() implies label_in(m1.nodes, #[trigger] ants[p]) == label_in(f, ants[p]) by {
                if label_in(f, ants[p]) != label_in(m1.nodes, ants[p]) {
                    let k = choose|k: int| 0 <= k < updated.len() && updated[k] == (ants[p], label_in(f, ants[p])->0);
                    assert(updated[k].0 == ants[p]);
                    assert(touched(c, updated, ants[p]));
                }
            }
            assert forall|p: int| 0 <= p < ants.len() implies label_in(s.nodes, #[trigger] ants[p]) == label_in(m1.nodes, ants[p]) by {
                assert(!touched(c, updated, ants[p]));
            }
            lemma_derive_same(m1.nodes, f, ants);
            lemma_derive_same(s.nodes, m1.nodes, ants);
            crate::env::law_subsumes_partial_order(env, lf, env);
        }
        assert(settled(f, j));
        // the consequent keeps what the justification derives
        lemma_derive_shrinks(s.nodes, f, ants);
        assert forall|x: NodeId| #[trigger] label_in(f, x) != label_in(s.nodes, x) implies exists|k: int|
            #[trigger] supported_by(f, self@.justifications, x, k) by {
            if label_in(f, x) != label_in(m1.nodes, x) {
            } else {
                assert(x == c);
                let e2 = derive_spec(f, ants)->0;
                crate::env::law_subsumes_partial_order(e2, env, env);
                assert(supported_by(f, self@.justifications, x, idx));
            }
        }
        if stable(s.nodes, s.justifications) {
            assert forall|jj: int| 0 <= jj < self@.justifications.len() implies #[trigger] settled(
                f,
                self@.justifications[jj],
            ) by {
                if jj < idx {
                    let jt = self@.justifications[jj];
                    assert(jt == s.justifications[jj]);
                    let a2 = jt.antecedents@;
                    if !has_touched(c, updated, a2) {
                        assert forall|p: int| 0 <= p < a2.len() implies label_in(s.nodes, #[trigger] a2[p])
                            == label_in(f, a2[p]) by {
                            if label_in(f, a2[p]) != label_in(m1.nodes, a2[p]) {
                                let k = choose|k: int| 0 <= k < updated.len() && updated[k] == (a2[p], label_in(f, a2[p])->0);
                                assert(updated[k].0 == a2[p]);
                                assert(touched(c, updated, a2[p]));
                            }
                            assert(!touched(c, updated, a2[p]));
                        }
                        lemma_derive_same(s.nodes, f, a2);
                        assert(shrinks_to(label_in(s.nodes, jt.consequent), label_in(f, jt.consequent)));
                        assert(settled(s.nodes, s.justifications[jj]));
                        lemma_settled_persists(s.nodes, f, jt);
                    }
                }
            }
        }
    }

    /// The antecedents of every justification of `consequent`, in order.
    pub fn antecedents_of(&self, consequent: NodeId) -> (r: Vec<NodeId>)
        requires
            self.wf(),
        ensures
            r@ == antecedents_flat(
                self@.justifications,
                cons_list(self@.justifications, consequent, self@.justifications.len() as int),
            ),
    {
        let mut out: Vec<NodeId> = Vec::new();
        match self.consequent_to_just.get(&consequent) {
            None => {
                proof {
                    assert(!self@.consequent_to_just.contains_key(consequent));
                    assert(cons_list(self@.justifications, consequent, self@.justifications.len() as int) =~= Seq::<usize>::empty());
                }
                out
            },
            Some(idxs) => {
                let ghost js = self@.justifications;
                let ghost list = cons_list(js, consequent, js.len() as int);
                proof {
                    assert(self@.consequent_to_just.contains_key(consequent));
                    assert(self@.consequent_to_just[consequent] == idxs@);
                    lemma_cons_list_bounds(js, consequent, js.len() as int);
                }
                let n = idxs.len();
                let mut i: usize = 0;
                while i < n
                    invariant
                        n == idxs@.len(),
                        idxs@ == list,
                        js == self@.justifications,
                        js.len() == self.justifications@.len(),
                        i <= n,
                        forall|k: int| 0 <= k < list.len() ==> #[trigger] list[k] < js.len(),
                        out@ == antecedents_flat(js, list.subrange(0, i as int)),
                    decreases n - i,
                {
                    let ji = idxs[i];
                    let ants = &self.justifications[ji].antecedents;
                    let m = ants.len();
                    let mut q: usize = 0;
                    let ghost base = out@;
                    while q < m
                        invariant
                            m == ants@.len(),
                            q <= m,
                            out@ == base + ants@.subrange(0, q as int),
                        decreases m - q,
                    {
                        out.push(ants[q]);
                        proof {
                            assert(ants@.subrange(0, q + 1) =~= ants@.subrange(0, q as int).push(ants@[q as int]));
                        }
                        q = q + 1;
                    }
                    proof {
                        assert(ants@.subrange(0, m as int) =~= ants@);
                        assert(list.subrange(0, i + 1).drop_last() =~= list.subrange(0, i as int));
                        assert(out@ =~= antecedents_flat(js, list.subrange(0, i + 1)));
                    }
                    i = i + 1;
                }
                proof {
                    assert(list.subrange(0, n as int) =~= list);
                }
                out
            },
        }
    }

    /// Add a nogood; returns the nodes (in order) whose label is now inconsistent.
    pub fn add_nogood(&mut self, env: Env) -> (r: Vec<NodeId>)
        requires
            old(self).wf(),
            old(self)@.nogoods.len() < usize::MAX,
        ensures
            final(self).wf(),
            final(self)@.nogoods == add_spec(old(self)@.nogoods, env),
            final(self)@.nodes == old(self)@.nodes,
            final(self)@.order == old(self)@.order,
            final(self)@.justifications == old(self)@.justifications,
            r@ == nodes_where(
                final(self)@.order,
                final(self)@.nodes,
                inconsistent_label(final(self)@.nogoods),
                final(self)@.order.len() as int,
            ),
    {
        self.nogoods.add(env);
        let ghost v = self@;
        proof {
            let o = old(self)@;
            assert(v.nodes == o.nodes);
            assert(v.order == o.order);
            assert(v.justifications == o.justifications);
            assert(v.ant_to_just == o.ant_to_just);
            assert(v.consequent_to_just == o.consequent_to_just);
            assert(crate::nogood::minimal(v.nogoods));
            assert(atms_wf(v));
        }
        let mut out: Vec<NodeId> = Vec::new();
        let n = self.order.len();
        let mut i: usize = 0;
        while i < n
            invariant
                v == self@,
                atms_wf(v),
                v.nogoods == add_spec(old(self)@.nogoods, env),
                v.nodes == old(self)@.nodes,
                v.order == old(self)@.order,
                v.justifications == old(self)@.justifications,
                n == v.order.len(),
                i <= n,
                out@ == nodes_where(v.order, v.nodes, inconsistent_label(v.nogoods), i as int),
            decreases n - i,
        {
            let id = self.order[i];
            match self.nodes.get(&id) {
                Some(node) => match node.label {
                    Some(l) => {
                        if self.nogoods.is_inconsistent(l) {
                            out.push(id);
                        }
                    },
                    None => {},
                },
                None => {},
            }
            i = i + 1;
        }
        out
    }

    /// The nodes (in order) whose label is made only of assumptions of `env`,
    /// with at least one of them.
    pub fn deactivate(&self, env: Env) -> (r: Vec<NodeId>)
        ensures
            r@ == nodes_where(self@.order, self@.nodes, within(env), self@.order.len() as int),
    {
        let mut out: Vec<NodeId> = Vec::new();
        let n = self.order.len();
        let mut i: usize = 0;
        while i < n
            invariant
                n == self@.order.len(),
                i <= n,
                out@ == nodes_where(self@.order, self@.nodes, within(env), i as int),
            decreases n - i,
        {
            let id = self.order[i];
            match self.nodes.get(&id) {
                Some(node) => match node.label {
                    Some(l) => {
                        if l & env != 0 && l & !env == 0 {
                            out.push(id);
                        }
                    },
                    None => {},
                },
                None => {},
            }
            i = i + 1;
        }
        out
    }

    /// Give node `c` (created unlabelled if unknown) the label `env` if it
    /// accepts it.
    fn relabel(&mut self, c: NodeId, env: Env) -> (changed: bool)
        requires
            old(self).wf(),
        ensures
            final(self).wf(),
            changed == accepts_label(label_in(old(self)@.nodes, c), env),
            label_in(final(self)@.nodes, c) == (if changed {
                Some(env)
            } else {
                label_in(old(self)@.nodes, c)
            }),
            forall|id: NodeId| id != c ==> #[trigger] label_in(final(self)@.nodes, id) == label_in(old(self)@.nodes, id),
            final(self)@.justifications == old(self)@.justifications,
            final(self)@.ant_to_just == old(self)@.ant_to_just,
            final(self)@.consequent_to_just == old(self)@.consequent_to_just,
            final(self)@.nogoods == old(self)@.nogoods,
    {
        self.add_derived(c);
        let ghost s1 = self@;
        proof {
            assert(s1.nodes.contains_key(c));
            assert(s1.nodes.contains_key(c) <==> s1.order.contains(c));
        }
        let mut node = self.nodes.remove(&c).unwrap();
        let changed = node.set_label(env);
        self.nodes.insert(c, node);
        proof {
            assert(self@.nodes =~= s1.nodes.insert(c, node));
            assert(self@.order == s1.order);
            assert(self@.justifications == s1.justifications);
            assert(self@.ant_to_just == s1.ant_to_just);
            assert(self@.consequent_to_just == s1.consequent_to_just);
            assert(self@.nogoods == s1.nogoods);
            assert forall|x: NodeId| #[trigger] self@.nodes.contains_key(x) <==> self@.order.contains(x) by {
                assert(s1.nodes.contains_key(x) <==> s1.order.contains(x));
            }
        }
        changed
    }

    fn copy_indices(&self, nid: NodeId) -> (r: Vec<usize>)
        requires
            self.wf(),
        ensures
            self@.ant_to_just.contains_key(nid) ==> r@ == self@.ant_to_just[nid],
            !self@.ant_to_just.contains_key(nid) ==> r@.len() == 0,
    {
        let mut out: Vec<usize> = Vec::new();
        match self.ant_to_just.get(&nid) {
            Some(v) => {
                let n = v.len();
                let mut i: usize = 0;
                while i < n
                    invariant
                        n == v@.len(),
                        i <= n,
                        out@ == v@.subrange(0, i as int),
                    decreases n - i,
                {
                    out.push(v[i]);
                    proof {
                        assert(v@.subrange(0, i + 1) =~= v@.subrange(0, i as int).push(v@[i as int]));
                    }
                    i = i + 1;
                }
                proof {
                    assert(v@.subrange(0, n as int) =~= v@);
                }
                out
            },
            None => out,
        }
    }

    /// Propagate a label change of `changed_id` through every justification
    /// that has it as an antecedent, and on through the nodes whose labels
    /// change, until no queued node is left. Returns each change as
    /// `(node, new label)`, in order.
    ///
    /// Labels only shrink; every node whose label changed is reported with its
    /// final label, which is exactly what some justification of that node
    /// derives; every justification with an antecedent that was the starting
    /// node or was relabelled can no longer lower its consequent's label; and
    /// when no justification could lower a label before, none can after.
    pub fn propagate(&mut self, changed_id: NodeId) -> (updated: Vec<(NodeId, Env)>)
        requires
            old(self).wf(),
        ensures
            final(self).wf(),
            final(self)@.justifications == old(self)@.justifications,
            final(self)@.ant_to_just == old(self)@.ant_to_just,
            final(self)@.consequent_to_just == old(self)@.consequent_to_just,
            final(self)@.nogoods == old(self)@.nogoods,
            labels_shrink(old(self)@.nodes, final(self)@.nodes),
            forall|k: int|
                0 <= k < updated@.len() ==> reported_ok(final(self)@.nodes, #[trigger] updated@[k]),
            forall|id: NodeId|
                #[trigger] label_in(final(self)@.nodes, id) != label_in(old(self)@.nodes, id) ==> exists|k: int|
                    0 <= k < updated@.len() && updated@[k] == (id, label_in(final(self)@.nodes, id)->0),
            forall|jj: int|
                0 <= jj < final(self)@.justifications.len() && has_touched(
                    changed_id,
                    updated@,
                    #[trigger] final(self)@.justifications[jj].antecedents@,
                ) ==> settled(final(self)@.nodes, final(self)@.justifications[jj]),
            forall|x: NodeId|
                #[trigger] label_in(final(self)@.nodes, x) != label_in(old(self)@.nodes, x) ==> exists|j: int|
                    #[trigger] supported_by(final(self)@.nodes, final(self)@.justifications, x, j),
            stable(old(self)@.nodes, old(self)@.justifications) ==> stable(final(self)@.nodes, final(self)@.justifications),
    {
        let ghost s0 = self@;
        let ghost us = s0.justifications.map_values(|j: Justification| j.consequent);
        proof {
            assert(s0.justifications.len() == self.justifications.len());
            assert forall|id: NodeId| #[trigger] shrinks_to(label_in(s0.nodes, id), label_in(s0.nodes, id)) by {
                if let Some(a) = label_in(s0.nodes, id) {
                    crate::env::law_subsumes_partial_order(a, a, a);
                }
            }
        }
        let mut queue: VecDeque<NodeId> = VecDeque::new();
        queue.push_back(changed_id);
        let mut updated: Vec<(NodeId, Env)> = Vec::new();
        proof {
            assert forall|jj: int|
                0 <= jj < s0.justifications.len() && has_touched(changed_id, updated@, #[trigger] s0.justifications[jj].antecedents@)
                    && !waiting(queue@, s0.justifications[jj].antecedents@) implies settled(self@.nodes, s0.justifications[jj]) by {
                let ants = s0.justifications[jj].antecedents@;
                let p = choose|p: int| 0 <= p < ants.len() && touched(changed_id, updated@, #[trigger] ants[p]);
                assert(ants[p] == changed_id);
                assert(queue@[0] == changed_id);
                assert(queue@.contains(ants[p]));
            }
        }
        while queue.len() > 0
            invariant
                atms_wf(self@),
                self@.justifications == s0.justifications,
                self@.ant_to_just == s0.ant_to_just,
                self@.consequent_to_just == s0.consequent_to_just,
                self@.nogoods == s0.nogoods,
                us == s0.justifications.map_values(|j: Justification| j.consequent),
                atms_wf(s0),
                s0.justifications.len() <= usize::MAX,
                labels_shrink(s0.nodes, self@.nodes),
                forall|k: int|
                    0 <= k < updated@.len() ==> reported_ok(self@.nodes, #[trigger] updated@[k]),
                forall|id: NodeId|
                    #[trigger] label_in(self@.nodes, id) != label_in(s0.nodes, id) ==> exists|k: int|
                        0 <= k < updated@.len() && updated@[k] == (id, label_in(self@.nodes, id)->0),
                forall|q: int| 0 <= q < queue@.len() ==> touched(changed_id, updated@, #[trigger] queue@[q]),
                forall|jj: int|
                    0 <= jj < s0.justifications.len() && has_touched(
                        changed_id,
                        updated@,
                        #[trigger] s0.justifications[jj].antecedents@,
                    ) && !waiting(queue@, s0.justifications[jj].antecedents@) ==> settled(self@.nodes, s0.justifications[jj]),
                forall|x: NodeId|
                    #[trigger] label_in(self@.nodes, x) != label_in(s0.nodes, x) ==> exists|j: int|
                        #[trigger] backed(self@.nodes, s0.justifications, x, j, queue@, Seq::<usize>::empty()),
            decreases pot_sum(us, self@.nodes), queue@.len(),
        {
            let ghost q_before = queue@;
            let ghost p_start = pot_sum(us, self@.nodes);
            let nid = queue.pop_front().unwrap();
            let ghost qa = queue@;
            proof {
                assert(q_before == seq![nid] + qa);
            }
            let idxs = self.copy_indices(nid);
            let ghost pending = idxs@;
            let m = idxs.len();
            let mut pos: usize = 0;
            proof {
                assert forall|jj: int|
                    0 <= jj < s0.justifications.len() && has_touched(changed_id, updated@, #[trigger] s0.justifications[jj].antecedents@)
                        && !waiting(queue@, s0.justifications[jj].antecedents@)
                        && !pending.subrange(0, m as int).contains(jj as usize) implies settled(self@.nodes, s0.justifications[jj]) by {
                    let ants = s0.justifications[jj].antecedents@;
                    assert(pending.subrange(0, m as int) =~= pending);
                    if waiting(q_before, ants) {
                        let p = choose|p: int| 0 <= p < ants.len() && q_before.contains(#[trigger] ants[p]);
                        let k = choose|k: int| 0 <= k < q_before.len() && q_before[k] == ants[p];
                        if k == 0 {
                            assert(ants[p] == nid);
                            assert(s0.ant_to_just.contains_key(nid) && s0.ant_to_just[nid].contains(jj as usize));
                        } else {
                            assert(qa[k - 1] == ants[p]);
                            assert(queue@.contains(ants[p]));
                        }
                    }
                }
                assert forall|x: NodeId| #[trigger] label_in(self@.nodes, x) != label_in(s0.nodes, x) implies exists|j: int|
                    #[trigger] backed(self@.nodes, s0.justifications, x, j, queue@, pending.subrange(0, m as int)) by {
                    let j = choose|j: int| #[trigger] backed(self@.nodes, s0.justifications, x, j, q_before, Seq::<usize>::empty());
                    let ants = s0.justifications[j].antecedents@;
                    assert(pending.subrange(0, m as int) =~= pending);
                    if waiting(q_before, ants) {
                        let p = choose|p: int| 0 <= p < ants.len() && q_before.contains(#[trigger] ants[p]);
                        let k = choose|k: int| 0 <= k < q_before.len() && q_before[k] == ants[p];
                        if k == 0 {
                            assert(ants[p] == nid);
                            assert(s0.ant_to_just.contains_key(nid) && s0.ant_to_just[nid].contains(j as usize));
                        } else {
                            assert(qa[k - 1] == ants[p]);
                            assert(queue@.contains(ants[p]));
                        }
                    }
                    assert(backed(self@.nodes, s0.justifications, x, j, queue@, pending.subrange(0, m as int)));
                }
            }
            while pos < m
                invariant
                    m == idxs@.len(),
                    pending == idxs@,
                    pos <= m,
                    s0.ant_to_just.contains_key(nid) ==> pending == s0.ant_to_just[nid],
                    !s0.ant_to_just.contains_key(nid) ==> pending.len() == 0,
                    atms_wf(self@),
                    self@.justifications == s0.justifications,
                    self@.ant_to_just == s0.ant_to_just,
                    self@.consequent_to_just == s0.consequent_to_just,
                    self@.nogoods == s0.nogoods,
                    us == s0.justifications.map_values(|j: Justification| j.consequent),
                    atms_wf(s0),
                    s0.justifications.len() <= usize::MAX,
                    labels_shrink(s0.nodes, self@.nodes),
                    queue@.len() >= qa.len(),
                    pot_sum(us, self@.nodes) + (queue@.len() - qa.len()) <= p_start,
                    q_before.len() == qa.len() + 1,
                    forall|k: int|
                        0 <= k < updated@.len() ==> reported_ok(self@.nodes, #[trigger] updated@[k]),
                    forall|id: NodeId|
                        #[trigger] label_in(self@.nodes, id) != label_in(s0.nodes, id) ==> exists|k: int|
                            0 <= k < updated@.len() && updated@[k] == (id, label_in(self@.nodes, id)->0),
                    forall|q: int| 0 <= q < queue@.len() ==> touched(changed_id, updated@, #[trigger] queue@[q]),
                    forall|jj: int|
                        0 <= jj < s0.justifications.len() && has_touched(
                            changed_id,
                            updated@,
                            #[trigger] s0.justifications[jj].antecedents@,
                        ) && !waiting(queue@, s0.justifications[jj].antecedents@)
                            && !pending.subrange(pos as int, m as int).contains(jj as usize) ==> settled(self@.nodes, s0.justifications[jj]),
                    forall|x: NodeId|
                        #[trigger] label_in(self@.nodes, x) != label_in(s0.nodes, x) ==> exists|j: int|
                            #[trigger] backed(self@.nodes, s0.justifications, x, j, queue@, pending.subrange(pos as int, m as int)),
                decreases m - pos,
            {
                let ji = idxs[pos];
                proof {
                    assert(pending[pos as int] == ji);
                    assert(s0.ant_to_just.contains_key(nid));
                    assert(s0.ant_to_just[nid][pos as int] < s0.justifications.len());
                }
                let derived = self.try_derive(&self.justifications[ji]);
                let ghost before = self@;
                let ghost upd_before = updated@;
                let ghost queue_mid = queue@;
                match derived {
                    Some(env) => {
                        let c = self.justifications[ji].consequent;
                        let changed = self.relabel(c, env);
                        if changed {
                            updated.push((c, env));
                            queue.push_back(c);
                        }
                        proof {
                            lemma_step(
                                s0,
                                before.nodes,
                                self@.nodes,
                                changed_id,
                                upd_before,
                                updated@,
                                queue_mid,
                                queue@,
                                ji as int,
                                c,
                                env,
                                changed,
                                us,
                                pending,
                                pos as int,
                                m as int,
                            );
                            lemma_pot_sum_le(us, before.nodes, self@.nodes, c);
                            lemma_backed_step(
                                s0,
                                before.nodes,
                                self@.nodes,
                                queue_mid,
                                queue@,
                                ji as int,
                                c,
                                env,
                                changed,
                                pending,
                                pos as int,
                                m as int,
                            );
                        }
                    },
                    None => {
                        proof {
                            assert(settled(self@.nodes, s0.justifications[ji as int]));
                            assert forall|jj: int|
                                0 <= jj < s0.justifications.len() && has_touched(changed_id, updated@, #[trigger] s0.justifications[jj].antecedents@)
                                    && !waiting(queue@, s0.justifications[jj].antecedents@)
                                    && !pending.subrange(pos + 1, m as int).contains(jj as usize) implies settled(self@.nodes, s0.justifications[jj]) by {
                                if jj != ji as int {
                                    if pending.subrange(pos as int, m as int).contains(jj as usize) {
                                        let k = choose|k: int| 0 <= k < m - pos && pending.subrange(pos as int, m as int)[k] == jj as usize;
                                        assert(k != 0);
                                        assert(pending.subrange(pos + 1, m as int)[k - 1] == jj as usize);
                                    }
                                }
                            }
                            assert forall|x: NodeId| #[trigger] label_in(self@.nodes, x) != label_in(s0.nodes, x) implies exists|j: int|
                                #[trigger] backed(self@.nodes, s0.justifications, x, j, queue@, pending.subrange(pos + 1, m as int)) by {
                                let j = choose|j: int| #[trigger] backed(self@.nodes, s0.justifications, x, j, queue@, pending.subrange(pos as int, m as int));
                                let r1 = pending.subrange(pos as int, m as int);
                                if r1.contains(j as usize) && j != ji as int {
                                    let k = choose|k: int| 0 <= k < r1.len() && r1[k] == j as usize;
                                    assert(k != 0);
                                    assert(pending.subrange(pos + 1, m as int)[k - 1] == j as usize);
                                }
                                assert(backed(self@.nodes, s0.justifications, x, j, queue@, pending.subrange(pos + 1, m as int)));
                            }
                        }
                    },
                }
                pos = pos + 1;
            }
            proof {
                assert(pending.subrange(m as int, m as int) =~= Seq::<usize>::empty());
            }
        }
        proof {
            assert forall|x: NodeId| #[trigger] label_in(self@.nodes, x) != label_in(s0.nodes, x) implies exists|j: int|
                #[trigger] supported_by(self@.nodes, self@.justifications, x, j) by {
                let j = choose|j: int| #[trigger] backed(self@.nodes, s0.justifications, x, j, queue@, Seq::<usize>::empty());
                assert(supported_by(self@.nodes, self@.justifications, x, j));
            }
            if stable(s0.nodes, s0.justifications) {
                assert forall|jj: int| 0 <= jj < self@.justifications.len() implies #[trigger] settled(
                    self@.nodes,
                    self@.justifications[jj],
                ) by {
                    let j = s0.justifications[jj];
                    let ants = j.antecedents@;
                    if !has_touched(changed_id, updated@, ants) {
                        assert forall|p: int| 0 <= p < ants.len() implies label_in(s0.nodes, #[trigger] ants[p])
                            == label_in(self@.nodes, ants[p]) by {
                            if label_in(self@.nodes, ants[p]) != label_in(s0.nodes, ants[p]) {
                                let k = choose|k: int| 0 <= k < updated@.len() && updated@[k] == (ants[p], label_in(self@.nodes, ants[p])->0);
                                assert(updated@[k].0 == ants[p]);
                                assert(touched(changed_id, updated@, ants[p]));
                            }
                        }
                        lemma_derive_same(s0.nodes, self@.nodes, ants);
                        assert(shrinks_to(label_in(s0.nodes, j.consequent), label_in(self@.nodes, j.consequent)));
                        assert(settled(s0.nodes, s0.justifications[jj]));
                        lemma_settled_persists(s0.nodes, self@.nodes, j);
                    } else {
                        assert(!waiting(queue@, ants));
                    }
                }
            }
        }
        updated
    }
}

} // verus!
