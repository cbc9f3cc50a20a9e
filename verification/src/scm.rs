//! The causal structure of a structural causal model: which variables have a
//! structural equation and which parent variables each equation reads.
//! Coefficients, noise distributions and observed values are numeric and are
//! kept by the caller beside this structure, keyed by variable.

use vstd::prelude::*;
use std::collections::HashMap;
use crate::types::NodeId;
use crate::shapes::{count_false, lemma_count_false};

verus! {

/// The equations as a map from each variable to its parents, in order.
pub open spec fn eqs_map(eqs: Seq<(NodeId, Vec<NodeId>)>) -> Map<NodeId, Seq<NodeId>> {
    Map::new(
        |v: NodeId| exists|i: int| 0 <= i < eqs.len() && eqs[i].0 == v,
        |v: NodeId|
            {
                let i = choose|i: int| 0 <= i < eqs.len() && eqs[i].0 == v;
                eqs[i].1@
            },
    )
}

/// No variable has two equations.
pub open spec fn keys_unique(eqs: Seq<(NodeId, Vec<NodeId>)>) -> bool {
    forall|i: int, j: int| 0 <= i < eqs.len() && 0 <= j < eqs.len() && i != j ==> eqs[i].0 != eqs[j].0
}

/// The parents that `v`'s equation reads; none when `v` has no equation.
pub open spec fn parents_of(m: Map<NodeId, Seq<NodeId>>, v: NodeId) -> Seq<NodeId> {
    if m.dom().contains(v) {
        m[v]
    } else {
        Seq::empty()
    }
}

/// `x` is a variable of the model or a parent read by some equation.
pub open spec fn in_graph(m: Map<NodeId, Seq<NodeId>>, x: NodeId) -> bool {
    m.dom().contains(x) || exists|v: NodeId| m.dom().contains(v) && #[trigger] m[v].contains(x)
}

/// `a` is a parent of `b`.
pub open spec fn parent_step(m: Map<NodeId, Seq<NodeId>>, a: NodeId, b: NodeId) -> bool {
    parents_of(m, b).contains(a)
}

/// Each node of `w` is a parent of the next.
pub open spec fn is_parent_walk(m: Map<NodeId, Seq<NodeId>>, w: Seq<NodeId>) -> bool {
    forall|i: int| 0 <= i < w.len() - 1 ==> #[trigger] parent_step(m, w[i], w[i + 1])
}

/// No walk from parent to child leads back to where it started.
pub open spec fn acyclic(m: Map<NodeId, Seq<NodeId>>) -> bool {
    forall|w: Seq<NodeId>| w.len() >= 2 && #[trigger] is_parent_walk(m, w) ==> w[0] != w.last()
}

/// The entries of `s` that are not in `done`, counted with repetition.
pub open spec fn count_open(s: Seq<NodeId>, done: Set<NodeId>) -> nat
    decreases s.len(),
{
    if s.len() == 0 {
        0
    } else {
        (if done.contains(s[0]) {
            0nat
        } else {
            1nat
        }) + count_open(s.drop_first(), done)
    }
}

/// The entries of `s` equal to `x`.
pub open spec fn count_of(s: Seq<NodeId>, x: NodeId) -> nat
    decreases s.len(),
{
    if s.len() == 0 {
        0
    } else {
        (if s[0] == x {
            1nat
        } else {
            0nat
        }) + count_of(s.drop_first(), x)
    }
}

/// Each entry of `order` comes after all of its parents.
pub open spec fn parents_first(m: Map<NodeId, Seq<NodeId>>, order: Seq<NodeId>) -> bool {
    forall|i: int, p: NodeId|
        0 <= i < order.len() && #[trigger] parents_of(m, order[i]).contains(p) ==> order.subrange(0, i).contains(p)
}

/// Every node of the model that `order` leaves out has a parent that it
/// leaves out too.
pub open spec fn blocked_outside(m: Map<NodeId, Seq<NodeId>>, order: Seq<NodeId>) -> bool {
    forall|x: NodeId| #[trigger] in_graph(m, x) && !order.contains(x) ==> exists|p: NodeId|
        #[trigger] parents_of(m, x).contains(p) && !order.contains(p)
}

proof fn lemma_count_insert(s: Seq<NodeId>, done: Set<NodeId>, x: NodeId)
    requires
        !done.contains(x),
    ensures
        count_open(s, done.insert(x)) + count_of(s, x) == count_open(s, done),
    decreases s.len(),
{
    if s.len() > 0 {
        lemma_count_insert(s.drop_first(), done, x);
    }
}

proof fn lemma_count_open_zero(s: Seq<NodeId>, done: Set<NodeId>)
    ensures
        count_open(s, done) == 0 <==> forall|i: int| 0 <= i < s.len() ==> done.contains(#[trigger] s[i]),
    decreases s.len(),
{
    if s.len() > 0 {
        lemma_count_open_zero(s.drop_first(), done);
        if count_open(s, done) == 0 {
            assert forall|i: int| 0 <= i < s.len() implies done.contains(#[trigger] s[i]) by {
                if i > 0 {
                    assert(s[i] == s.drop_first()[i - 1]);
                }
            }
        }
        if forall|i: int| 0 <= i < s.len() ==> done.contains(#[trigger] s[i]) {
            assert(done.contains(s[0]));
            assert forall|i: int| 0 <= i < s.drop_first().len() implies done.contains(
                #[trigger] s.drop_first()[i],
            ) by {
                assert(s.drop_first()[i] == s[i + 1]);
            }
        }
    }
}

proof fn lemma_count_open_empty(s: Seq<NodeId>)
    ensures
        count_open(s, Set::empty()) == s.len(),
    decreases s.len(),
{
    if s.len() > 0 {
        lemma_count_open_empty(s.drop_first());
    }
}

/// A walk of `n + 1` nodes that `order` leaves out, each a parent of the
/// next, ending at `x`.
spec fn back_walk(m: Map<NodeId, Seq<NodeId>>, order: Seq<NodeId>, x: NodeId, n: nat) -> Seq<NodeId>
    decreases n,
{
    if n == 0 {
        seq![x]
    } else {
        let w = back_walk(m, order, x, (n - 1) as nat);
        let p = choose|p: NodeId| parents_of(m, w[0]).contains(p) && !order.contains(p);
        seq![p] + w
    }
}

proof fn lemma_back_walk(m: Map<NodeId, Seq<NodeId>>, order: Seq<NodeId>, x: NodeId, n: nat)
    requires
        blocked_outside(m, order),
        in_graph(m, x),
        !order.contains(x),
    ensures
        back_walk(m, order, x, n).len() == n + 1,
        is_parent_walk(m, back_walk(m, order, x, n)),
        forall|i: int|
            0 <= i < n + 1 ==> in_graph(m, #[trigger] back_walk(m, order, x, n)[i]) && !order.contains(
                back_walk(m, order, x, n)[i],
            ),
    decreases n,
{
    if n > 0 {
        let w = back_walk(m, order, x, (n - 1) as nat);
        lemma_back_walk(m, order, x, (n - 1) as nat);
        assert(in_graph(m, w[0]) && !order.contains(w[0]));
        let p = choose|p: NodeId| parents_of(m, w[0]).contains(p) && !order.contains(p);
        assert(parents_of(m, w[0]).contains(p) && !order.contains(p));
        assert(m.dom().contains(w[0]));
        assert(in_graph(m, p));
        let w2 = seq![p] + w;
        assert(w2 == back_walk(m, order, x, n));
        assert forall|i: int| 0 <= i < w2.len() - 1 implies #[trigger] parent_step(m, w2[i], w2[i + 1]) by {
            if i == 0 {
                assert(w2[0] == p && w2[1] == w[0]);
            } else {
                assert(w2[i] == w[i - 1] && w2[i + 1] == w[i]);
                assert(parent_step(m, w[i - 1], w[(i - 1) + 1]));
            }
        }
        assert forall|i: int| 0 <= i < n + 1 implies in_graph(m, #[trigger] w2[i]) && !order.contains(w2[i]) by {
            if i > 0 {
                assert(w2[i] == w[i - 1]);
            }
        }
    }
}

/// When every node left out of `order` has a parent left out too, and some
/// node is left out, the model has a cycle.
proof fn lemma_blocked_has_cycle(
    m: Map<NodeId, Seq<NodeId>>,
    order: Seq<NodeId>,
    nodes: Seq<NodeId>,
    x: NodeId,
)
    requires
        blocked_outside(m, order),
        forall|y: NodeId| in_graph(m, y) ==> nodes.contains(y),
        in_graph(m, x),
        !order.contains(x),
    ensures
        !acyclic(m),
{
    let n = nodes.len();
    let w = back_walk(m, order, x, n);
    lemma_back_walk(m, order, x, n);
    if w.no_duplicates() {
        w.unique_seq_to_set();
        assert(w.to_set().subset_of(nodes.to_set())) by {
            assert forall|y: NodeId| w.to_set().contains(y) implies nodes.to_set().contains(y) by {
                let i = choose|i: int| 0 <= i < w.len() && w[i] == y;
                assert(in_graph(m, w[i]));
            }
        }
        nodes.lemma_cardinality_of_set();
        vstd::set_lib::lemma_len_subset(w.to_set(), nodes.to_set());
        assert(false);
    }
    let (i, j) = choose|i: int, j: int| 0 <= i < w.len() && 0 <= j < w.len() && i != j && w[i] == w[j];
    let (a, b) = if i < j { (i, j) } else { (j, i) };
    let sub = w.subrange(a, b + 1);
    assert forall|k: int| 0 <= k < sub.len() - 1 implies #[trigger] parent_step(m, sub[k], sub[k + 1]) by {
        assert(sub[k] == w[a + k] && sub[k + 1] == w[(a + k) + 1]);
        assert(parent_step(m, w[a + k], w[(a + k) + 1]));
    }
    assert(sub.len() >= 2 && is_parent_walk(m, sub) && sub[0] == sub.last());
}

proof fn lemma_eqs_at(eqs: Seq<(NodeId, Vec<NodeId>)>, i: int)
    requires
        keys_unique(eqs),
        0 <= i < eqs.len(),
    ensures
        eqs_map(eqs).dom().contains(eqs[i].0),
        eqs_map(eqs)[eqs[i].0] == eqs[i].1@,
{
    let j = choose|j: int| 0 <= j < eqs.len() && eqs[j].0 == eqs[i].0;
    assert(j == i);
}

/// `x` is the variable or a parent of one of the first `n` equations.
spec fn seen_in(eqs: Seq<(NodeId, Vec<NodeId>)>, n: int, x: NodeId) -> bool {
    exists|k: int| 0 <= k < n && #[trigger] seen_at(eqs, k, x)
}

/// `x` is the variable or a parent of equation `k`.
spec fn seen_at(eqs: Seq<(NodeId, Vec<NodeId>)>, k: int, x: NodeId) -> bool {
    eqs[k].0 == x || eqs[k].1@.contains(x)
}

proof fn lemma_seen_all(eqs: Seq<(NodeId, Vec<NodeId>)>, x: NodeId)
    requires
        keys_unique(eqs),
    ensures
        seen_in(eqs, eqs.len() as int, x) <==> in_graph(eqs_map(eqs), x),
{
    let m = eqs_map(eqs);
    let n = eqs.len() as int;
    if seen_in(eqs, n, x) {
        let k = choose|k: int| 0 <= k < n && #[trigger] seen_at(eqs, k, x);
        lemma_eqs_at(eqs, k);
        if !(eqs[k].0 == x) {
            assert(m.dom().contains(eqs[k].0) && m[eqs[k].0].contains(x));
        }
    }
    if in_graph(m, x) {
        if m.dom().contains(x) {
            let k = choose|k: int| 0 <= k < eqs.len() && eqs[k].0 == x;
            assert(0 <= k < n && seen_at(eqs, k, x));
        } else {
            let v = choose|v: NodeId| m.dom().contains(v) && #[trigger] m[v].contains(x);
            let k = choose|k: int| 0 <= k < eqs.len() && eqs[k].0 == v;
            lemma_eqs_at(eqs, k);
            assert(0 <= k < n && seen_at(eqs, k, x));
        }
    }
}

/// The parents of node `kk`: those of the equation whose variable sits at
/// `kk`, none when no equation's does.
proof fn lemma_parents_of_node(
    eqs: Seq<(NodeId, Vec<NodeId>)>,
    nodes: Seq<NodeId>,
    var_idx: Seq<usize>,
    kk: int,
)
    requires
        keys_unique(eqs),
        nodes.no_duplicates(),
        var_idx.len() == eqs.len(),
        forall|i: int| 0 <= i < eqs.len() ==> var_idx[i] < nodes.len() && nodes[#[trigger] var_idx[i] as int] == eqs[i].0,
        0 <= kk < nodes.len(),
    ensures
        forall|i: int|
            0 <= i < eqs.len() && #[trigger] var_idx[i] == kk ==> parents_of(eqs_map(eqs), nodes[kk]) == eqs[i].1@,
        (forall|i: int| 0 <= i < eqs.len() ==> #[trigger] var_idx[i] != kk) ==> parents_of(eqs_map(eqs), nodes[kk])
            == Seq::<NodeId>::empty(),
{
    let m = eqs_map(eqs);
    assert forall|i: int| 0 <= i < eqs.len() && #[trigger] var_idx[i] == kk implies parents_of(m, nodes[kk]) == eqs[i].1@ by {
        lemma_eqs_at(eqs, i);
    }
    if forall|i: int| 0 <= i < eqs.len() ==> #[trigger] var_idx[i] != kk {
        if m.dom().contains(nodes[kk]) {
            let i = choose|i: int| 0 <= i < eqs.len() && eqs[i].0 == nodes[kk];
            assert(nodes[var_idx[i] as int] == nodes[kk]);
            assert(var_idx[i] != kk);
        }
    }
}

/// The index of `x` in `v`, if it occurs.
fn position(v: &Vec<NodeId>, x: NodeId) -> (r: Option<usize>)
    ensures
        match r {
            Some(i) => i < v@.len() && v@[i as int] == x,
            None => !v@.contains(x),
        },
{
    let n = v.len();
    let mut i: usize = 0;
    while i < n
        invariant
            n == v@.len(),
            i <= n,
            forall|j: int| 0 <= j < i ==> v@[j] != x,
        decreases n - i,
    {
        if v[i] == x {
            return Some(i);
        }
        i = i + 1;
    }
    None
}

/// Append `x` unless it is present.
fn push_absent(v: &mut Vec<NodeId>, x: NodeId)
    requires
        old(v)@.no_duplicates(),
    ensures
        final(v)@.no_duplicates(),
        final(v)@ == (if old(v)@.contains(x) {
            old(v)@
        } else {
            old(v)@.push(x)
        }),
{
    match position(v, x) {
        Some(_) => {},
        None => {
            let ghost before = v@;
            v.push(x);
            proof {
                assert forall|i: int, j: int| 0 <= i < v@.len() && 0 <= j < v@.len() && i != j implies v@[i]
                    != v@[j] by {
                    if i < before.len() && j < before.len() {
                        assert(v@[i] == before[i] && v@[j] == before[j]);
                    } else if i < before.len() {
                        assert(v@[i] == before[i]);
                    } else {
                        assert(v@[j] == before[j]);
                    }
                }
            }
        },
    }
}

/// A copy of a list of node ids.
fn copy_ids(v: &Vec<NodeId>) -> (r: Vec<NodeId>)
    ensures
        r@ == v@,
{
    let mut out: Vec<NodeId> = Vec::new();
    let n = v.len();
    let mut i: usize = 0;
    while i < n
        invariant
            n == v@.len(),
            i <= n,
            out@ == v@.subrange(0, i as int),
        decreases n - i,
    {
        out.push(v[i]);
        proof {
            assert(out@ =~= v@.subrange(0, i + 1));
        }
        i = i + 1;
    }
    proof {
        assert(v@.subrange(0, n as int) =~= v@);
    }
    out
}

/// A structural causal model, as its causal structure: the parents that
/// each variable's equation reads.
#[derive(Clone, Debug)]
pub struct Scm {
    parents: HashMap<NodeId, Vec<NodeId>>,
}

impl View for Scm {
    type V = Map<NodeId, Seq<NodeId>>;

    closed spec fn view(&self) -> Map<NodeId, Seq<NodeId>> {
        self.parents@.map_values(|v: Vec<NodeId>| v@)
    }
}

impl Scm {
    pub closed spec fn wf(&self) -> bool {
        true
    }

    /// A model with no equations.
    pub fn new() -> (r: Scm)
        ensures
            r.wf(),
            r@ == Map::<NodeId, Seq<NodeId>>::empty(),
    {
        let r = Scm { parents: HashMap::new() };
        assert(r@ =~= Map::<NodeId, Seq<NodeId>>::empty());
        r
    }

    /// Give `variable` the equation that reads `parents`, in place of any
    /// earlier one.
    pub fn add_equation(&mut self, variable: NodeId, parents: Vec<NodeId>)
        requires
            old(self).wf(),
        ensures
            final(self).wf(),
            final(self)@ == old(self)@.insert(variable, parents@),
    {
        let ghost ps = parents@;
        self.parents.insert(variable, parents);
        proof {
            assert(self@ =~= old(self)@.insert(variable, ps));
        }
    }

    /// The equations as a list, one entry per variable.
    fn entries(&self) -> (r: Vec<(NodeId, Vec<NodeId>)>)
        ensures
            keys_unique(r@),
            eqs_map(r@) == self@,
    {
        let ghost ks = vstd::std_specs::iter::IteratorSpec::remaining(
            &vstd::std_specs::hash::spec_keys_iter(&self.parents),
        ).unref();
        proof {
            vstd::std_specs::hash::axiom_spec_keys_iter(&self.parents);
        }
        let mut ids: Vec<NodeId> = Vec::new();
        for k in it: self.parents.keys()
            invariant
                it.seq().map_values(|r: &NodeId| *r) == ks,
                ids@ == ks.subrange(0, it.index() as int),
        {
            ids.push(*k);
            proof {
                assert(ks.subrange(0, it.index() + 1) =~= ks.subrange(0, it.index() as int).push(*k));
            }
        }
        proof {
            assert(ids@ =~= ks);
        }
        let ghost m = self.parents@;
        let n = ids.len();
        let mut out: Vec<(NodeId, Vec<NodeId>)> = Vec::new();
        let mut i: usize = 0;
        while i < n
            invariant
                n == ids@.len(),
                ids@.to_set() == m.dom(),
                ids@.no_duplicates(),
                m == self.parents@,
                i <= n,
                out@.len() == i,
                forall|k: int| 0 <= k < i ==> #[trigger] out@[k].0 == ids@[k] && out@[k].1@ == m[ids@[k]]@,
            decreases n - i,
        {
            let id = ids[i];
            proof {
                assert(ids@.to_set().contains(id));
            }
            match self.parents.get(&id) {
                Some(ps) => {
                    out.push((id, copy_ids(ps)));
                },
                None => {},
            }
            i = i + 1;
        }
        proof {
            let e = out@;
            assert(keys_unique(e)) by {
                assert forall|a: int, b: int| 0 <= a < e.len() && 0 <= b < e.len() && a != b implies e[a].0
                    != e[b].0 by {
                    assert(e[a].0 == ids@[a] && e[b].0 == ids@[b]);
                }
            }
            assert forall|v: NodeId| eqs_map(e).dom().contains(v) <==> self@.dom().contains(v) by {
                if eqs_map(e).dom().contains(v) {
                    let k = choose|k: int| 0 <= k < e.len() && e[k].0 == v;
                    assert(ids@.to_set().contains(ids@[k]));
                }
                if self@.dom().contains(v) {
                    assert(ids@.to_set().contains(v));
                    let k = choose|k: int| 0 <= k < ids@.len() && ids@[k] == v;
                    assert(e[k].0 == v);
                }
            }
            assert forall|v: NodeId| #[trigger] eqs_map(e).dom().contains(v) implies eqs_map(e)[v] == self@[v] by {
                let k = choose|k: int| 0 <= k < e.len() && e[k].0 == v;
                lemma_eqs_at(e, k);
            }
            assert(eqs_map(e) =~= self@);
        }
        out
    }

    /// An order of the model's nodes (variables and the parents they read)
    /// in which every node comes after all of its parents, computed by
    /// repeatedly taking a node none of whose parents is left. Nodes on a
    /// cycle, or below one, are left out; on an acyclic model every node is
    /// listed. Among nodes that do not depend on each other the order is
    /// unspecified.
    pub fn topological_order(&self) -> (order: Vec<NodeId>)
        requires
            self.wf(),
        ensures
            order@.no_duplicates(),
            forall|i: int| 0 <= i < order@.len() ==> in_graph(self@, #[trigger] order@[i]),
            parents_first(self@, order@),
            blocked_outside(self@, order@),
            acyclic(self@) ==> forall|x: NodeId| #[trigger] in_graph(self@, x) ==> order@.contains(x),
    {
        let equations = self.entries();
        let ghost m = self@;
        let ghost eqs = equations@;
        let ne = equations.len();
        // The nodes, each once.
        let mut nodes: Vec<NodeId> = Vec::new();
        let mut i: usize = 0;
        while i < ne
            invariant
                ne == eqs.len(),
                eqs == equations@,
                i <= ne,
                nodes@.no_duplicates(),
                forall|x: NodeId| nodes@.contains(x) <==> seen_in(eqs, i as int, x),
            decreases ne - i,
        {
            let ghost before_var = nodes@;
            push_absent(&mut nodes, equations[i].0);
            proof {
                assert forall|x: NodeId|
                    nodes@.contains(x) <==> (seen_in(eqs, i as int, x) || x == eqs[i as int].0
                        || eqs[i as int].1@.subrange(0, 0).contains(x)) by {
                    if x == eqs[i as int].0 && !before_var.contains(x) {
                        assert(nodes@[before_var.len() as int] == x);
                    }
                    if nodes@.contains(x) && !before_var.contains(x) {
                        let t = choose|t: int| 0 <= t < nodes@.len() && nodes@[t] == x;
                        assert(t == before_var.len());
                    }
                    if before_var.contains(x) {
                        let t = choose|t: int| 0 <= t < before_var.len() && before_var[t] == x;
                        assert(nodes@[t] == x);
                    }
                }
            }
            let ps = &equations[i].1;
            let np = ps.len();
            let mut j: usize = 0;
            while j < np
                invariant
                    ne == eqs.len(),
                    eqs == equations@,
                    i < ne,
                    ps@ == eqs[i as int].1@,
                    np == ps@.len(),
                    j <= np,
                    nodes@.no_duplicates(),
                    forall|x: NodeId|
                        nodes@.contains(x) <==> (seen_in(eqs, i as int, x) || x == eqs[i as int].0
                            || ps@.subrange(0, j as int).contains(x)),
                decreases np - j,
            {
                let ghost before = nodes@;
                push_absent(&mut nodes, ps[j]);
                proof {
                    assert(ps@.subrange(0, j + 1) =~= ps@.subrange(0, j as int).push(ps@[j as int]));
                    assert forall|x: NodeId|
                        nodes@.contains(x) <==> (seen_in(eqs, i as int, x) || x == eqs[i as int].0
                            || ps@.subrange(0, j + 1).contains(x)) by {
                        if x == ps@[j as int] {
                            assert(ps@.subrange(0, j + 1)[j as int] == x);
                            if !before.contains(x) {
                                assert(nodes@[before.len() as int] == x);
                            }
                        }
                        if ps@.subrange(0, j + 1).contains(x) && x != ps@[j as int] {
                            let sub = ps@.subrange(0, j + 1);
                            let t = choose|t: int| 0 <= t < sub.len() && sub[t] == x;
                            assert(ps@.subrange(0, j as int)[t] == x);
                        }
                        if nodes@.contains(x) && !before.contains(x) {
                            let t = choose|t: int| 0 <= t < nodes@.len() && nodes@[t] == x;
                            assert(t == before.len());
                        }
                        if before.contains(x) {
                            let t = choose|t: int| 0 <= t < before.len() && before[t] == x;
                            assert(nodes@[t] == x);
                        }
                    }
                }
                j = j + 1;
            }
            proof {
                assert(ps@.subrange(0, np as int) =~= ps@);
                assert forall|x: NodeId| nodes@.contains(x) <==> seen_in(eqs, i + 1, x) by {
                    if seen_in(eqs, i + 1, x) {
                        let k = choose|k: int| 0 <= k < i + 1 && #[trigger] seen_at(eqs, k, x);
                        if k < i {
                            assert(seen_in(eqs, i as int, x));
                        }
                    }
                    if seen_in(eqs, i as int, x) {
                        let k = choose|k: int| 0 <= k < i && #[trigger] seen_at(eqs, k, x);
                        assert(seen_at(eqs, k, x));
                    }
                    if x == eqs[i as int].0 || eqs[i as int].1@.contains(x) {
                        assert(seen_at(eqs, i as int, x));
                    }
                }
            }
            i = i + 1;
        }
        proof {
            assert forall|x: NodeId| nodes@.contains(x) <==> in_graph(m, x) by {
                lemma_seen_all(eqs, x);
            }
        }
        let nn = nodes.len();
        // The position of each equation's variable among the nodes.
        let mut var_idx: Vec<usize> = Vec::new();
        i = 0;
        while i < ne
            invariant
                ne == eqs.len(),
                eqs == equations@,
                keys_unique(eqs),
                m == eqs_map(eqs),
                i <= ne,
                nn == nodes@.len(),
                forall|x: NodeId| nodes@.contains(x) <==> in_graph(m, x),
                var_idx@.len() == i,
                forall|k: int| 0 <= k < i ==> var_idx@[k] < nn && nodes@[#[trigger] var_idx@[k] as int] == eqs[k].0,
            decreases ne - i,
        {
            proof {
                lemma_eqs_at(eqs, i as int);
                assert(in_graph(m, eqs[i as int].0));
                assert(nodes@.contains(eqs[i as int].0));
            }
            let k = position(&nodes, equations[i].0).unwrap();
            let ghost vi0 = var_idx@;
            var_idx.push(k);
            proof {
                assert forall|t: int| 0 <= t < i + 1 implies var_idx@[t] < nn && nodes@[#[trigger] var_idx@[t] as int] == eqs[t].0 by {
                    if t < i {
                        assert(var_idx@[t] == vi0[t]);
                    }
                }
            }
            i = i + 1;
        }
        // The number of parent entries of each node not yet ordered.
        let mut deg: Vec<usize> = Vec::new();
        let mut k: usize = 0;
        while k < nn
            invariant
                k <= nn,
                deg@.len() == k,
                forall|t: int| 0 <= t < k ==> deg@[t] == 0,
            decreases nn - k,
        {
            deg.push(0);
            k = k + 1;
        }
        i = 0;
        while i < ne
            invariant
                ne == eqs.len(),
                eqs == equations@,
                i <= ne,
                deg@.len() == nn,
                var_idx@.len() == ne,
                forall|t: int| 0 <= t < ne ==> var_idx@[t] < nn && nodes@[#[trigger] var_idx@[t] as int] == eqs[t].0,
                keys_unique(eqs),
                forall|t: int| 0 <= t < nn && (forall|e: int| 0 <= e < i ==> #[trigger] var_idx@[e] != t) ==> deg@[t] == 0,
                forall|e: int| 0 <= e < i ==> deg@[#[trigger] var_idx@[e] as int] == eqs[e].1@.len(),
            decreases ne - i,
        {
            let c = var_idx[i];
            proof {
                assert forall|e: int| 0 <= e < i implies #[trigger] var_idx@[e] != c by {
                    assert(nodes@[var_idx@[e] as int] == eqs[e].0);
                    assert(eqs[e].0 != eqs[i as int].0);
                }
            }
            deg.set(c, equations[i].1.len());
            i = i + 1;
        }
        proof {
            assert forall|t: int| 0 <= t < nn && (forall|e: int| 0 <= e < ne ==> #[trigger] var_idx@[e] != t) implies deg@[t] == 0 by {}
        }
        let mut done: Vec<bool> = Vec::new();
        let mut queue: Vec<usize> = Vec::new();
        k = 0;
        while k < nn
            invariant
                k <= nn,
                deg@.len() == nn,
                done@.len() == k,
                forall|t: int| 0 <= t < k ==> !done@[t],
                queue@.no_duplicates(),
                forall|q: int| 0 <= q < queue@.len() ==> #[trigger] queue@[q] < k && deg@[queue@[q] as int] == 0,
                forall|t: int| 0 <= t < k && deg@[t] == 0 ==> queue@.contains(t as usize),
            decreases nn - k,
        {
            done.push(false);
            if deg[k] == 0 {
                let ghost before = queue@;
                queue.push(k);
                proof {
                    assert forall|a: int, b: int| 0 <= a < queue@.len() && 0 <= b < queue@.len() && a != b implies queue@[a]
                        != queue@[b] by {
                        if a < before.len() && b < before.len() {
                            assert(queue@[a] == before[a] && queue@[b] == before[b]);
                        } else if a < before.len() {
                            assert(queue@[a] == before[a] && before[a] < k);
                        } else {
                            assert(queue@[b] == before[b] && before[b] < k);
                        }
                    }
                    assert forall|t: int| 0 <= t < k + 1 && deg@[t] == 0 implies queue@.contains(t as usize) by {
                        if t < k {
                            let q = choose|q: int| 0 <= q < before.len() && before[q] == t as usize;
                            assert(queue@[q] == t as usize);
                        } else {
                            assert(queue@[before.len() as int] == k);
                        }
                    }
                }
            }
            k = k + 1;
        }
        let mut order: Vec<NodeId> = Vec::new();
        let ghost mut out: Set<NodeId> = Set::empty();
        proof {
            assert forall|e: int| 0 <= e < ne implies deg@[#[trigger] var_idx@[e] as int] == count_open(eqs[e].1@, out) by {
                lemma_count_open_empty(eqs[e].1@);
            }
        }
        while queue.len() > 0
            invariant
                ne == eqs.len(),
                eqs == equations@,
                keys_unique(eqs),
                m == eqs_map(eqs),
                nn == nodes@.len(),
                nodes@.no_duplicates(),
                forall|x: NodeId| nodes@.contains(x) <==> in_graph(m, x),
                var_idx@.len() == ne,
                forall|t: int| 0 <= t < ne ==> var_idx@[t] < nn && nodes@[#[trigger] var_idx@[t] as int] == eqs[t].0,
                deg@.len() == nn,
                done@.len() == nn,
                forall|e: int| 0 <= e < ne ==> deg@[#[trigger] var_idx@[e] as int] == count_open(eqs[e].1@, out),
                forall|t: int| 0 <= t < nn && (forall|e: int| 0 <= e < ne ==> #[trigger] var_idx@[e] != t) ==> deg@[t] == 0,
                forall|t: int| 0 <= t < nn ==> (#[trigger] done@[t] <==> out.contains(nodes@[t])),
                forall|t: int| 0 <= t < nn && #[trigger] done@[t] ==> deg@[t] == 0,
                forall|x: NodeId| out.contains(x) <==> order@.contains(x),
                order@.no_duplicates(),
                forall|t: int| 0 <= t < order@.len() ==> nodes@.contains(#[trigger] order@[t]),
                parents_first(m, order@),
                queue@.no_duplicates(),
                forall|q: int| 0 <= q < queue@.len() ==> #[trigger] queue@[q] < nn && !done@[queue@[q] as int] && deg@[queue@[q] as int] == 0,
                forall|t: int| 0 <= t < nn && !done@[t] && deg@[t] == 0 ==> queue@.contains(t as usize),
            decreases count_false(done@),
        {
            let ghost q0 = queue@;
            let v = queue.pop().unwrap();
            let xv = nodes[v];
            let ghost out0 = out;
            let ghost done0 = done@;
            let ghost order0 = order@;
            proof {
                assert(q0.last() == v && queue@ =~= q0.drop_last());
                assert(!out0.contains(xv));
                lemma_parents_of_node(eqs, nodes@, var_idx@, v as int);
                assert forall|p: NodeId| #[trigger] parents_of(m, xv).contains(p) implies order0.contains(p) by {
                    if exists|e: int| 0 <= e < ne && #[trigger] var_idx@[e] == v {
                        let e = choose|e: int| 0 <= e < ne && #[trigger] var_idx@[e] == v;
                        lemma_count_open_zero(eqs[e].1@, out0);
                        let t = choose|t: int| 0 <= t < eqs[e].1@.len() && eqs[e].1@[t] == p;
                        assert(out0.contains(eqs[e].1@[t]));
                    }
                }
            }
            order.push(xv);
            done.set(v, true);
            proof {
                out = out.insert(xv);
                lemma_count_false(done0, done@, v as int);
                assert forall|e: int| 0 <= e < ne implies deg@[#[trigger] var_idx@[e] as int] == count_open(eqs[e].1@, out)
                    + count_of(eqs[e].1@, xv) by {
                    lemma_count_insert(eqs[e].1@, out0, xv);
                }
                assert forall|a: int, b: int| 0 <= a < order@.len() && 0 <= b < order@.len() && a != b implies order@[a]
                    != order@[b] by {
                    if a < order0.len() && b < order0.len() {
                        assert(order@[a] == order0[a] && order@[b] == order0[b]);
                    } else if a < order0.len() {
                        assert(order@[a] == order0[a]);
                        assert(out0.contains(order0[a]));
                    } else {
                        assert(order@[b] == order0[b]);
                        assert(out0.contains(order0[b]));
                    }
                }
                assert forall|x: NodeId| out.contains(x) <==> order@.contains(x) by {
                    if order@.contains(x) && x != xv {
                        let t = choose|t: int| 0 <= t < order@.len() && order@[t] == x;
                        assert(order0[t] == x);
                    }
                    if order0.contains(x) {
                        let t = choose|t: int| 0 <= t < order0.len() && order0[t] == x;
                        assert(order@[t] == x);
                    }
                    if x == xv {
                        assert(order@[order0.len() as int] == x);
                    }
                }
                assert forall|t: int, p: NodeId|
                    0 <= t < order@.len() && #[trigger] parents_of(m, order@[t]).contains(p) implies order@.subrange(0, t).contains(p) by {
                    if t < order0.len() {
                        assert(order@[t] == order0[t]);
                        assert(order@.subrange(0, t) =~= order0.subrange(0, t));
                    } else {
                        assert(order@.subrange(0, t) =~= order0);
                    }
                }
                assert forall|t: int| 0 <= t < nn implies (#[trigger] done@[t] <==> out.contains(nodes@[t])) by {
                    if t != v {
                        assert(nodes@[t] != xv);
                    }
                }
                assert forall|q: int| 0 <= q < queue@.len() implies #[trigger] queue@[q] < nn && !done@[queue@[q] as int]
                    && deg@[queue@[q] as int] == 0 by {
                    assert(queue@[q] == q0[q]);
                    assert(q0[q] != v);
                }
                assert forall|t: int| 0 <= t < nn && !done@[t] && deg@[t] == 0 implies queue@.contains(t as usize) by {
                    let q = choose|q: int| 0 <= q < q0.len() && q0[q] == t as usize;
                    assert(q != q0.len() - 1);
                    assert(queue@[q] == t as usize);
                }
            }
            // Each equation that reads `xv` has one open parent entry fewer per reading.
            let mut i3: usize = 0;
            while i3 < ne
                invariant
                    ne == eqs.len(),
                    eqs == equations@,
                    keys_unique(eqs),
                    nn == nodes@.len(),
                    var_idx@.len() == ne,
                    forall|t: int| 0 <= t < ne ==> var_idx@[t] < nn && nodes@[#[trigger] var_idx@[t] as int] == eqs[t].0,
                    i3 <= ne,
                    deg@.len() == nn,
                    done@.len() == nn,
                    !out0.contains(xv),
                    out == out0.insert(xv),
                    forall|e: int|
                        0 <= e < ne ==> deg@[#[trigger] var_idx@[e] as int] == count_open(eqs[e].1@, out) + (if e
                            >= i3 {
                            count_of(eqs[e].1@, xv)
                        } else {
                            0
                        }),
                    forall|t: int| 0 <= t < nn && (forall|e: int| 0 <= e < ne ==> #[trigger] var_idx@[e] != t) ==> deg@[t] == 0,
                    forall|t: int| 0 <= t < nn && #[trigger] done@[t] ==> deg@[t] == 0,
                    queue@.no_duplicates(),
                    forall|q: int| 0 <= q < queue@.len() ==> #[trigger] queue@[q] < nn && !done@[queue@[q] as int] && deg@[queue@[q] as int] == 0,
                    forall|t: int| 0 <= t < nn && !done@[t] && deg@[t] == 0 ==> queue@.contains(t as usize),
                decreases ne - i3,
            {
                let c = var_idx[i3];
                let ps = &equations[i3].1;
                let np = ps.len();
                let ghost deg_entry = deg@;
                proof {
                    assert(ps@.subrange(0, np as int) =~= ps@);
                    assert forall|e: int| 0 <= e < ne && e != i3 implies #[trigger] var_idx@[e] != c by {
                        assert(nodes@[var_idx@[e] as int] == eqs[e].0);
                        assert(eqs[e].0 != eqs[i3 as int].0);
                    }
                }
                let mut j: usize = 0;
                while j < np
                    invariant
                        ne == eqs.len(),
                        eqs == equations@,
                        i3 < ne,
                        c == var_idx@[i3 as int],
                        c < nn,
                        ps@ == eqs[i3 as int].1@,
                        np == ps@.len(),
                        j <= np,
                        nn == nodes@.len(),
                        deg@.len() == nn,
                        done@.len() == nn,
                        deg@[c as int] == count_open(ps@, out) + count_of(ps@.subrange(j as int, np as int), xv),
                        forall|t: int| 0 <= t < nn && t != c ==> deg@[t] == deg_entry[t],
                        var_idx@.len() == ne,
                        forall|t: int| 0 <= t < nn && (forall|e: int| 0 <= e < ne ==> #[trigger] var_idx@[e] != t) ==> deg@[t] == 0,
                        forall|t: int| 0 <= t < nn && #[trigger] done@[t] ==> deg@[t] == 0,
                        queue@.no_duplicates(),
                        forall|q: int| 0 <= q < queue@.len() ==> #[trigger] queue@[q] < nn && !done@[queue@[q] as int] && deg@[queue@[q] as int] == 0,
                        forall|t: int| 0 <= t < nn && !done@[t] && deg@[t] == 0 ==> queue@.contains(t as usize),
                    decreases np - j,
                {
                    proof {
                        assert(ps@.subrange(j as int, np as int).drop_first() =~= ps@.subrange(j + 1, np as int));
                    }
                    if ps[j] == xv {
                        let d = deg[c] - 1;
                        let ghost before = queue@;
                        proof {
                            assert(!queue@.contains(c)) by {
                                if queue@.contains(c) {
                                    let q = choose|q: int| 0 <= q < queue@.len() && queue@[q] == c;
                                    assert(deg@[queue@[q] as int] == 0);
                                }
                            }
                            assert(!done@[c as int]);
                        }
                        deg.set(c, d);
                        if d == 0 {
                            queue.push(c);
                            proof {
                                assert forall|a: int, b: int| 0 <= a < queue@.len() && 0 <= b < queue@.len() && a != b implies queue@[a]
                                    != queue@[b] by {
                                    if a < before.len() && b < before.len() {
                                        assert(queue@[a] == before[a] && queue@[b] == before[b]);
                                    } else if a < before.len() {
                                        assert(queue@[a] == before[a]);
                                    } else {
                                        assert(queue@[b] == before[b]);
                                    }
                                }
                            }
                        }
                        proof {
                            assert forall|q: int| 0 <= q < queue@.len() implies #[trigger] queue@[q] < nn && !done@[queue@[q] as int]
                                && deg@[queue@[q] as int] == 0 by {
                                if q < before.len() {
                                    assert(queue@[q] == before[q]);
                                    assert(before[q] != c);
                                }
                            }
                            assert forall|t: int| 0 <= t < nn && !done@[t] && deg@[t] == 0 implies queue@.contains(t as usize) by {
                                if t == c {
                                    assert(queue@[before.len() as int] == c);
                                } else {
                                    let q = choose|q: int| 0 <= q < before.len() && before[q] == t as usize;
                                    assert(queue@[q] == t as usize);
                                }
                            }
                        }
                    }
                    j = j + 1;
                }
                proof {
                    assert(ps@.subrange(np as int, np as int).len() == 0);
                    assert forall|e: int| 0 <= e < ne implies deg@[#[trigger] var_idx@[e] as int] == count_open(eqs[e].1@, out) + (if e
                        >= i3 + 1 {
                        count_of(eqs[e].1@, xv)
                    } else {
                        0
                    }) by {
                        if e != i3 {
                            assert(var_idx@[e] != c);
                        }
                    }
                }
                i3 = i3 + 1;
            }
        }
        proof {
            assert forall|x: NodeId| #[trigger] in_graph(m, x) && !order@.contains(x) implies exists|p: NodeId|
                #[trigger] parents_of(m, x).contains(p) && !order@.contains(p) by {
                let t = choose|t: int| 0 <= t < nn && nodes@[t] == x;
                assert(!done@[t]);
                assert(deg@[t] != 0) by {
                    if deg@[t] == 0 {
                        assert(queue@.contains(t as usize));
                    }
                }
                lemma_parents_of_node(eqs, nodes@, var_idx@, t);
                let e = choose|e: int| 0 <= e < ne && #[trigger] var_idx@[e] == t;
                lemma_count_open_zero(eqs[e].1@, out);
                let s = choose|s: int| 0 <= s < eqs[e].1@.len() && !out.contains(eqs[e].1@[s]);
                assert(parents_of(m, x).contains(eqs[e].1@[s]));
            }
            if acyclic(m) {
                assert forall|x: NodeId| #[trigger] in_graph(m, x) implies order@.contains(x) by {
                    if !order@.contains(x) {
                        lemma_blocked_has_cycle(m, order@, nodes@, x);
                    }
                }
            }
            assert forall|t: int| 0 <= t < order@.len() implies in_graph(m, #[trigger] order@[t]) by {
                assert(nodes@.contains(order@[t]));
            }
        }
        order
    }

    /// The model under the intervention do(`target`): `target`'s equation no
    /// longer reads any parent, its value being set from outside; every other
    /// equation is kept.
    pub fn intervene(&self, target: NodeId) -> (r: Scm)
        requires
            self.wf(),
        ensures
            r.wf(),
            r@ == self@.insert(target, Seq::<NodeId>::empty()),
    {
        let eqs = self.entries();
        let n = eqs.len();
        let mut r = Scm::new();
        let mut i: usize = 0;
        while i < n
            invariant
                n == eqs@.len(),
                keys_unique(eqs@),
                eqs_map(eqs@) == self@,
                i <= n,
                r@ == eqs_map(eqs@.subrange(0, i as int)),
            decreases n - i,
        {
            let ghost before = r@;
            r.add_equation(eqs[i].0, copy_ids(&eqs[i].1));
            proof {
                let e = eqs@;
                let p1 = e.subrange(0, i + 1);
                let p0 = e.subrange(0, i as int);
                assert(keys_unique(p1)) by {
                    assert forall|a: int, b: int| 0 <= a < p1.len() && 0 <= b < p1.len() && a != b implies p1[a].0
                        != p1[b].0 by {
                        assert(p1[a] == e[a] && p1[b] == e[b]);
                    }
                }
                assert(keys_unique(p0)) by {
                    assert forall|a: int, b: int| 0 <= a < p0.len() && 0 <= b < p0.len() && a != b implies p0[a].0
                        != p0[b].0 by {
                        assert(p0[a] == e[a] && p0[b] == e[b]);
                    }
                }
                assert forall|v: NodeId| eqs_map(p1).dom().contains(v) <==> before.insert(e[i as int].0, e[i as int].1@).dom().contains(v) by {
                    if eqs_map(p1).dom().contains(v) && v != e[i as int].0 {
                        let k = choose|k: int| 0 <= k < p1.len() && p1[k].0 == v;
                        assert(p0[k] == p1[k]);
                    }
                    if eqs_map(p0).dom().contains(v) {
                        let k = choose|k: int| 0 <= k < p0.len() && p0[k].0 == v;
                        assert(p1[k] == p0[k]);
                    }
                    if v == e[i as int].0 {
                        assert(p1[i as int].0 == v);
                    }
                }
                assert forall|v: NodeId| #[trigger] eqs_map(p1).dom().contains(v) implies eqs_map(p1)[v]
                    == before.insert(e[i as int].0, e[i as int].1@)[v] by {
                    let k = choose|k: int| 0 <= k < p1.len() && p1[k].0 == v;
                    lemma_eqs_at(p1, k);
                    if k != i {
                        assert(p0[k] == p1[k]);
                        lemma_eqs_at(p0, k);
                    }
                }
                assert(eqs_map(p1) =~= before.insert(e[i as int].0, e[i as int].1@));
            }
            i = i + 1;
        }
        proof {
            assert(eqs@.subrange(0, n as int) =~= eqs@);
        }
        let none: Vec<NodeId> = Vec::new();
        proof {
            assert(none@ =~= Seq::<NodeId>::empty());
        }
        r.add_equation(target, none);
        r
    }
}

} // verus!
