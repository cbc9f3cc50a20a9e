//! Structural validation of reasoning subgraphs against declared shape
//! constraints: outgoing-edge minimums, diamond-edge sources, box-mode
//! acyclicity and typed roots.

use vstd::prelude::*;
use crate::types::{NodeId, ModalMode, ModalType, TypeCategory};
use crate::classes::{NodeClass, EdgeClass};
use crate::semantics::{decimal, digit_char};

verus! {

// ─── Graphs ──────────────────────────────────────────────────────────────────

/// What validation reads of a node.
#[derive(Clone, Copy, Debug)]
pub struct ShapeNode {
    pub id: NodeId,
    pub node_class: NodeClass,
    pub mtlg_type: ModalType,
    pub has_surface: bool,
}

/// What validation reads of an edge; `src` and `dst` are node positions.
#[derive(Clone, Copy, Debug)]
pub struct ShapeEdge {
    pub src: usize,
    pub dst: usize,
    pub edge_class: EdgeClass,
    pub modal_mode: ModalMode,
}

/// A graph: nodes in order, and edges in the order in which each node's
/// outgoing edges are visited.
#[derive(Debug)]
pub struct ShapeGraph {
    pub nodes: Vec<ShapeNode>,
    pub edges: Vec<ShapeEdge>,
}

impl ShapeGraph {
    /// Every edge joins two nodes of the graph.
    pub open spec fn wf(&self) -> bool {
        forall|k: int|
            0 <= k < self.edges@.len() ==> (#[trigger] self.edges@[k]).src < self.nodes@.len()
                && self.edges@[k].dst < self.nodes@.len()
    }
}

// ─── Constraints and violations ──────────────────────────────────────────────

/// The kinds of shape constraint.
#[derive(Clone, Copy, Debug)]
pub enum ConstraintKind {
    /// Every node of `node_class` has at least `min` outgoing edges of `edge_class`.
    MinOutgoing { node_class: NodeClass, edge_class: EdgeClass, min: usize },
    /// Every diamond-mode edge leaves a functor (a node of positive arity).
    DiamondModeCompatibility,
    /// Box-mode edges form no cycle.
    BoxModeAcyclic,
    /// Every root (a node without incoming edges) has a positive arity or a surface.
    RootsMustBeTyped,
}

/// A named shape constraint.
#[derive(Debug)]
pub struct ShapeConstraint {
    pub name: String,
    pub kind: ConstraintKind,
}

/// A violated constraint, the node concerned and a message.
#[derive(Debug)]
pub struct ValidationViolation {
    pub constraint: String,
    pub node_id: Option<NodeId>,
    pub message: String,
}

/// The model of a violation.
pub struct ViolationView {
    pub constraint: Seq<char>,
    pub node_id: Option<NodeId>,
    pub message: Seq<char>,
}

pub open spec fn violation_view(v: ValidationViolation) -> ViolationView {
    ViolationView { constraint: v.constraint@, node_id: v.node_id, message: v.message@ }
}

pub open spec fn violations_view(v: Seq<ValidationViolation>) -> Seq<ViolationView> {
    v.map_values(|x: ValidationViolation| violation_view(x))
}

// ─── Messages ────────────────────────────────────────────────────────────────

/// `node <id> has <count> EdgeClass(<class>) edges, need ≥ <min>`.
pub open spec fn min_outgoing_message(id: NodeId, count: nat, ec: EdgeClass, min: nat) -> Seq<char> {
    "node "@ + decimal(id as nat) + " has "@ + decimal(count) + " EdgeClass("@ + decimal(ec.0 as nat)
        + ") edges, need ≥ "@ + decimal(min)
}

/// `◇-edge from saturated node TypeCategory(<src>)→TypeCategory(<dst>)`.
pub open spec fn diamond_message(src: TypeCategory, dst: TypeCategory) -> Seq<char> {
    "◇-edge from saturated node TypeCategory("@ + decimal(src.0 as nat) + ")→TypeCategory("@ + decimal(
        dst.0 as nat,
    ) + ")"@
}

pub open spec fn box_cycle_message() -> Seq<char> {
    "□-mode cycle detected"@
}

pub open spec fn root_message(id: NodeId) -> Seq<char> {
    "root node "@ + decimal(id as nat) + " lacks modal type annotation"@
}

fn digit_text(d: u64) -> (s: &'static str)
    requires
        d < 10,
    ensures
        s@ == seq![digit_char(d as nat)],
{
    proof {
        reveal_strlit("0");
        reveal_strlit("1");
        reveal_strlit("2");
        reveal_strlit("3");
        reveal_strlit("4");
        reveal_strlit("5");
        reveal_strlit("6");
        reveal_strlit("7");
        reveal_strlit("8");
        reveal_strlit("9");
    }
    if d == 0 {
        "0"
    } else if d == 1 {
        "1"
    } else if d == 2 {
        "2"
    } else if d == 3 {
        "3"
    } else if d == 4 {
        "4"
    } else if d == 5 {
        "5"
    } else if d == 6 {
        "6"
    } else if d == 7 {
        "7"
    } else if d == 8 {
        "8"
    } else {
        "9"
    }
}

/// Append the decimal numeral of `n` to `s`.
pub(crate) fn push_decimal(s: &mut String, n: u64)
    ensures
        final(s)@ == old(s)@ + decimal(n as nat),
    decreases n,
{
    if n < 10 {
        s.append(digit_text(n));
    } else {
        push_decimal(s, n / 10);
        s.append(digit_text(n % 10));
        proof {
            assert(decimal(n as nat) == decimal((n / 10) as nat) + seq![digit_char((n % 10) as nat)]);
        }
    }
}

fn min_outgoing_text(id: NodeId, count: usize, ec: EdgeClass, min: usize) -> (s: String)
    ensures
        s@ == min_outgoing_message(id, count as nat, ec, min as nat),
{
    let mut s = String::from_str("node ");
    push_decimal(&mut s, id);
    s.append(" has ");
    push_decimal(&mut s, count as u64);
    s.append(" EdgeClass(");
    push_decimal(&mut s, ec.0 as u64);
    s.append(") edges, need ≥ ");
    push_decimal(&mut s, min as u64);
    proof {
        assert(s@ =~= min_outgoing_message(id, count as nat, ec, min as nat));
    }
    s
}

fn diamond_text(src: TypeCategory, dst: TypeCategory) -> (s: String)
    ensures
        s@ == diamond_message(src, dst),
{
    let mut s = String::from_str("◇-edge from saturated node TypeCategory(");
    push_decimal(&mut s, src.0 as u64);
    s.append(")→TypeCategory(");
    push_decimal(&mut s, dst.0 as u64);
    s.append(")");
    proof {
        assert(s@ =~= diamond_message(src, dst));
    }
    s
}

fn root_text(id: NodeId) -> (s: String)
    ensures
        s@ == root_message(id),
{
    let mut s = String::from_str("root node ");
    push_decimal(&mut s, id);
    s.append(" lacks modal type annotation");
    proof {
        assert(s@ =~= root_message(id));
    }
    s
}

// ─── Outgoing-edge minimums ──────────────────────────────────────────────────

/// The number of edges among the first `k_end` that leave node `i` with class `ec`.
pub open spec fn count_out(edges: Seq<ShapeEdge>, i: int, ec: EdgeClass, k_end: int) -> nat
    decreases k_end,
{
    if k_end <= 0 {
        0
    } else {
        count_out(edges, i, ec, k_end - 1) + if edges[k_end - 1].src == i && edges[k_end - 1].edge_class
            == ec {
            1nat
        } else {
            0nat
        }
    }
}

/// Violations of a minimum-outgoing constraint among the first `i_end` nodes.
pub open spec fn min_outgoing_violations(
    nodes: Seq<ShapeNode>,
    edges: Seq<ShapeEdge>,
    name: Seq<char>,
    nc: NodeClass,
    ec: EdgeClass,
    min: usize,
    i_end: int,
) -> Seq<ViolationView>
    decreases i_end,
{
    if i_end <= 0 {
        Seq::empty()
    } else {
        let rest = min_outgoing_violations(nodes, edges, name, nc, ec, min, i_end - 1);
        let i = i_end - 1;
        let count = count_out(edges, i, ec, edges.len() as int);
        if nodes[i].node_class == nc && count < min {
            rest.push(
                ViolationView {
                    constraint: name,
                    node_id: Some(nodes[i].id),
                    message: min_outgoing_message(nodes[i].id, count, ec, min as nat),
                },
            )
        } else {
            rest
        }
    }
}

fn push_violation(out: &mut Vec<ValidationViolation>, name: &String, id: NodeId, message: String)
    ensures
        violations_view(final(out)@) == violations_view(old(out)@).push(
            ViolationView { constraint: name@, node_id: Some(id), message: message@ },
        ),
{
    let ghost before = out@;
    out.push(ValidationViolation { constraint: name.clone(), node_id: Some(id), message });
    proof {
        assert(violations_view(out@) =~= violations_view(before).push(
            ViolationView { constraint: name@, node_id: Some(id), message: message@ },
        ));
    }
}

fn check_min_outgoing(
    g: &ShapeGraph,
    name: &String,
    nc: NodeClass,
    ec: EdgeClass,
    min: usize,
    out: &mut Vec<ValidationViolation>,
)
    ensures
        violations_view(final(out)@) == violations_view(old(out)@) + min_outgoing_violations(
            g.nodes@,
            g.edges@,
            name@,
            nc,
            ec,
            min,
            g.nodes@.len() as int,
        ),
{
    let ghost base = violations_view(out@);
    let n = g.nodes.len();
    let m = g.edges.len();
    let mut i: usize = 0;
    while i < n
        invariant
            n == g.nodes@.len(),
            m == g.edges@.len(),
            i <= n,
            violations_view(out@) == base + min_outgoing_violations(g.nodes@, g.edges@, name@, nc, ec, min, i as int),
        decreases n - i,
    {
        let node = g.nodes[i];
        let mut count: usize = 0;
        let mut k: usize = 0;
        while k < m
            invariant
                m == g.edges@.len(),
                k <= m,
                count == count_out(g.edges@, i as int, ec, k as int),
                count <= k,
            decreases m - k,
        {
            let e = g.edges[k];
            if e.src == i && e.edge_class.0 == ec.0 {
                count = count + 1;
            }
            k = k + 1;
        }
        if node.node_class.0 == nc.0 && count < min {
            let message = min_outgoing_text(node.id, count, ec, min);
            push_violation(out, name, node.id, message);
        }
        proof {
            assert(violations_view(out@) =~= base + min_outgoing_violations(
                g.nodes@,
                g.edges@,
                name@,
                nc,
                ec,
                min,
                i + 1,
            ));
        }
        i = i + 1;
    }
}

// ─── Diamond-edge sources ────────────────────────────────────────────────────

/// Violations for node `i` among the first `k_end` edges: a diamond edge
/// leaving `i` when `i` is saturated.
pub open spec fn diamond_violations_at(
    nodes: Seq<ShapeNode>,
    edges: Seq<ShapeEdge>,
    name: Seq<char>,
    i: int,
    k_end: int,
) -> Seq<ViolationView>
    decreases k_end,
{
    if k_end <= 0 {
        Seq::empty()
    } else {
        let rest = diamond_violations_at(nodes, edges, name, i, k_end - 1);
        let e = edges[k_end - 1];
        if e.src == i && e.modal_mode == ModalMode::Diamond && nodes[i].mtlg_type.arity == 0 {
            rest.push(
                ViolationView {
                    constraint: name,
                    node_id: Some(nodes[i].id),
                    message: diamond_message(
                        nodes[i].mtlg_type.category,
                        nodes[e.dst as int].mtlg_type.category,
                    ),
                },
            )
        } else {
            rest
        }
    }
}

/// Diamond-edge violations of the first `i_end` nodes, node by node.
pub open spec fn diamond_violations(
    nodes: Seq<ShapeNode>,
    edges: Seq<ShapeEdge>,
    name: Seq<char>,
    i_end: int,
) -> Seq<ViolationView>
    decreases i_end,
{
    if i_end <= 0 {
        Seq::empty()
    } else {
        diamond_violations(nodes, edges, name, i_end - 1) + diamond_violations_at(
            nodes,
            edges,
            name,
            i_end - 1,
            edges.len() as int,
        )
    }
}

fn is_diamond(m: ModalMode) -> (r: bool)
    ensures
        r == (m == ModalMode::Diamond),
{
    match m {
        ModalMode::Diamond => true,
        _ => false,
    }
}

fn is_box(m: ModalMode) -> (r: bool)
    ensures
        r == (m == ModalMode::Box),
{
    match m {
        ModalMode::Box => true,
        _ => false,
    }
}

fn check_diamond_compatibility(g: &ShapeGraph, name: &String, out: &mut Vec<ValidationViolation>)
    requires
        g.wf(),
    ensures
        violations_view(final(out)@) == violations_view(old(out)@) + diamond_violations(
            g.nodes@,
            g.edges@,
            name@,
            g.nodes@.len() as int,
        ),
{
    let ghost base = violations_view(out@);
    let n = g.nodes.len();
    let m = g.edges.len();
    let mut i: usize = 0;
    while i < n
        invariant
            g.wf(),
            n == g.nodes@.len(),
            m == g.edges@.len(),
            i <= n,
            violations_view(out@) == base + diamond_violations(g.nodes@, g.edges@, name@, i as int),
        decreases n - i,
    {
        let ghost row_base = violations_view(out@);
        let mut k: usize = 0;
        while k < m
            invariant
                g.wf(),
                n == g.nodes@.len(),
                m == g.edges@.len(),
                i < n,
                k <= m,
                violations_view(out@) == row_base + diamond_violations_at(
                    g.nodes@,
                    g.edges@,
                    name@,
                    i as int,
                    k as int,
                ),
            decreases m - k,
        {
            let e = g.edges[k];
            if e.src == i && is_diamond(e.modal_mode) && g.nodes[i].mtlg_type.arity == 0 {
                let message = diamond_text(g.nodes[i].mtlg_type.category, g.nodes[e.dst].mtlg_type.category);
                push_violation(out, name, g.nodes[i].id, message);
            }
            proof {
                assert(violations_view(out@) =~= row_base + diamond_violations_at(
                    g.nodes@,
                    g.edges@,
                    name@,
                    i as int,
                    k + 1,
                ));
            }
            k = k + 1;
        }
        proof {
            assert(violations_view(out@) =~= base + diamond_violations(g.nodes@, g.edges@, name@, i + 1));
        }
        i = i + 1;
    }
}

// ─── Typed roots ─────────────────────────────────────────────────────────────

/// Node `i` has an incoming edge among the first `k_end`.
pub open spec fn has_incoming(edges: Seq<ShapeEdge>, i: int, k_end: int) -> bool {
    exists|k: int| 0 <= k < k_end && #[trigger] edges[k].dst == i
}

/// Violations of the roots constraint among the first `i_end` nodes.
pub open spec fn root_violations(
    nodes: Seq<ShapeNode>,
    edges: Seq<ShapeEdge>,
    name: Seq<char>,
    i_end: int,
) -> Seq<ViolationView>
    decreases i_end,
{
    if i_end <= 0 {
        Seq::empty()
    } else {
        let rest = root_violations(nodes, edges, name, i_end - 1);
        let i = i_end - 1;
        if !has_incoming(edges, i, edges.len() as int) && nodes[i].mtlg_type.arity == 0
            && !nodes[i].has_surface {
            rest.push(
                ViolationView { constraint: name, node_id: Some(nodes[i].id), message: root_message(nodes[i].id) },
            )
        } else {
            rest
        }
    }
}

fn check_roots_typed(g: &ShapeGraph, name: &String, out: &mut Vec<ValidationViolation>)
    requires
        g.wf(),
    ensures
        violations_view(final(out)@) == violations_view(old(out)@) + root_violations(
            g.nodes@,
            g.edges@,
            name@,
            g.nodes@.len() as int,
        ),
{
    let n = g.nodes.len();
    let m = g.edges.len();
    let mut incoming: Vec<bool> = vec![false; n];
    let mut k: usize = 0;
    while k < m
        invariant
            g.wf(),
            n == g.nodes@.len(),
            m == g.edges@.len(),
            k <= m,
            incoming@.len() == n,
            forall|i: int| 0 <= i < n ==> #[trigger] incoming@[i] == has_incoming(g.edges@, i, k as int),
        decreases m - k,
    {
        let d = g.edges[k].dst;
        proof {
            assert forall|i: int| 0 <= i < n implies has_incoming(g.edges@, i, k + 1) == (has_incoming(
                g.edges@,
                i,
                k as int,
            ) || i == d) by {
                if i == d {
                    assert(g.edges@[k as int].dst == i);
                }
                if has_incoming(g.edges@, i, k + 1) && !has_incoming(g.edges@, i, k as int) {
                    let k2 = choose|k2: int| 0 <= k2 < k + 1 && #[trigger] g.edges@[k2].dst == i;
                    assert(k2 == k);
                }
            }
        }
        incoming.set(d, true);
        k = k + 1;
    }
    let ghost base = violations_view(out@);
    let mut i: usize = 0;
    while i < n
        invariant
            n == g.nodes@.len(),
            m == g.edges@.len(),
            i <= n,
            incoming@.len() == n,
            forall|j: int| 0 <= j < n ==> #[trigger] incoming@[j] == has_incoming(g.edges@, j, m as int),
            violations_view(out@) == base + root_violations(g.nodes@, g.edges@, name@, i as int),
        decreases n - i,
    {
        let node = g.nodes[i];
        if !incoming[i] && node.mtlg_type.arity == 0 && !node.has_surface {
            let message = root_text(node.id);
            push_violation(out, name, node.id, message);
        }
        proof {
            assert(violations_view(out@) =~= base + root_violations(g.nodes@, g.edges@, name@, i + 1));
        }
        i = i + 1;
    }
}

// ─── Box-mode acyclicity ─────────────────────────────────────────────────────

/// Edge `e` is a box-mode edge leaving node `u`.
pub open spec fn box_out(edges: Seq<ShapeEdge>, u: int, e: int) -> bool {
    0 <= e < edges.len() && edges[e].src == u && edges[e].modal_mode == ModalMode::Box
}

/// There is a walk of `k` box-mode edges starting at `u`.
pub open spec fn has_walk(edges: Seq<ShapeEdge>, u: int, k: nat) -> bool
    decreases k,
{
    if k == 0 {
        true
    } else {
        exists|e: int| #[trigger] box_out(edges, u, e) && has_walk(edges, edges[e].dst as int, (k - 1) as nat)
    }
}

/// Box-mode walks from `u` are bounded in length: no box cycle is reachable from `u`.
pub open spec fn walks_bounded(edges: Seq<ShapeEdge>, u: int) -> bool {
    exists|b: nat| !#[trigger] has_walk(edges, u, b)
}

/// A walk of some length gives walks of every shorter length.
pub proof fn lemma_walk_shorter(edges: Seq<ShapeEdge>, u: int, k: nat, j: nat)
    requires
        j <= k,
        has_walk(edges, u, k),
    ensures
        has_walk(edges, u, j),
    decreases k,
{
    if j > 0 {
        let e = choose|e: int| #[trigger] box_out(edges, u, e) && has_walk(edges, edges[e].dst as int, (k - 1) as nat);
        lemma_walk_shorter(edges, edges[e].dst as int, (k - 1) as nat, (j - 1) as nat);
    }
}

/// Some box-mode edge goes from `u` to `v`.
pub open spec fn box_step(edges: Seq<ShapeEdge>, u: int, v: int) -> bool {
    exists|e: int| #[trigger] box_out(edges, u, e) && edges[e].dst == v
}

/// Consecutive nodes of `p` are joined by box-mode edges.
pub open spec fn is_box_path(edges: Seq<ShapeEdge>, p: Seq<int>) -> bool {
    forall|i: int| 0 <= i < p.len() - 1 ==> #[trigger] box_step(edges, p[i], p[i + 1])
}

/// Every node of a closed box walk has box walks of every length.
proof fn lemma_cycle_unbounded(edges: Seq<ShapeEdge>, c: Seq<int>, k: nat)
    requires
        c.len() >= 2,
        c[0] == c[c.len() - 1],
        is_box_path(edges, c),
    ensures
        forall|i: int| 0 <= i < c.len() ==> has_walk(edges, #[trigger] c[i], k),
    decreases k,
{
    if k > 0 {
        lemma_cycle_unbounded(edges, c, (k - 1) as nat);
        assert forall|i: int| 0 <= i < c.len() implies has_walk(edges, #[trigger] c[i], k) by {
            let i2 = if i == c.len() - 1 {
                0
            } else {
                i
            };
            assert(c[i2] == c[i]);
            assert(box_step(edges, c[i2], c[i2 + 1]));
            let e = choose|e: int| #[trigger] box_out(edges, c[i2], e) && edges[e].dst == c[i2 + 1];
            assert(has_walk(edges, c[i2 + 1], (k - 1) as nat));
        }
    }
}

/// The number of `false` entries.
pub open spec fn count_false(s: Seq<bool>) -> nat
    decreases s.len(),
{
    if s.len() == 0 {
        0
    } else {
        count_false(s.drop_last()) + if s.last() {
            0nat
        } else {
            1nat
        }
    }
}

/// Turning entries to `true` never raises the count of `false` entries, and
/// turning one lowers it.
pub(crate) proof fn lemma_count_false(a: Seq<bool>, b: Seq<bool>, i: int)
    requires
        a.len() == b.len(),
        forall|j: int| 0 <= j < a.len() && #[trigger] a[j] ==> b[j],
    ensures
        count_false(b) <= count_false(a),
        0 <= i < a.len() && !a[i] && b[i] ==> count_false(b) < count_false(a),
    decreases a.len(),
{
    if a.len() > 0 {
        let n = a.len() - 1;
        assert forall|j: int| 0 <= j < a.drop_last().len() && #[trigger] a.drop_last()[j] implies b.drop_last()[j] by {
            assert(a[j]);
        }
        lemma_count_false(a.drop_last(), b.drop_last(), i);
        if 0 <= i < n {
            assert(a.drop_last()[i] == a[i] && b.drop_last()[i] == b[i]);
        }
    }
}

/// Depth-first search from `node` along box-mode edges. Returns whether a
/// node on the search path is reached again. The path `path` leads to
/// `node`'s caller; `on_stack` marks its nodes.
fn has_box_cycle(
    g: &ShapeGraph,
    node: usize,
    visited: &mut Vec<bool>,
    on_stack: &mut Vec<bool>,
    Ghost(path): Ghost<Seq<int>>,
) -> (r: bool)
    requires
        g.wf(),
        old(visited)@.len() == g.nodes@.len(),
        old(on_stack)@.len() == g.nodes@.len(),
        node < g.nodes@.len(),
        !old(visited)@[node as int],
        is_box_path(g.edges@, path),
        path.len() > 0 ==> box_step(g.edges@, path.last(), node as int),
        forall|v: int| 0 <= v < g.nodes@.len() ==> (#[trigger] old(on_stack)@[v] <==> path.contains(v)),
        forall|v: int| 0 <= v < g.nodes@.len() && #[trigger] old(on_stack)@[v] ==> old(visited)@[v],
        forall|v: int|
            0 <= v < g.nodes@.len() && #[trigger] old(visited)@[v] && !old(on_stack)@[v] ==> walks_bounded(
                g.edges@,
                v,
            ),
    ensures
        final(visited)@.len() == g.nodes@.len(),
        final(on_stack)@.len() == g.nodes@.len(),
        forall|v: int| 0 <= v < g.nodes@.len() && #[trigger] old(visited)@[v] ==> final(visited)@[v],
        final(visited)@[node as int],
        r ==> forall|k: nat| #[trigger] has_walk(g.edges@, node as int, k),
        !r ==> final(on_stack)@ == old(on_stack)@,
        !r ==> walks_bounded(g.edges@, node as int),
        !r ==> forall|v: int|
            0 <= v < g.nodes@.len() && #[trigger] final(visited)@[v] && !final(on_stack)@[v] ==> walks_bounded(
                g.edges@,
                v,
            ),
    decreases count_false(old(visited)@),
{
    let ghost n0 = g.nodes@.len();
    let ghost v0 = visited@;
    let ghost s0 = on_stack@;
    visited.set(node, true);
    on_stack.set(node, true);
    let ghost p2 = path.push(node as int);
    proof {
        assert(is_box_path(g.edges@, p2)) by {
            assert forall|i: int| 0 <= i < p2.len() - 1 implies #[trigger] box_step(g.edges@, p2[i], p2[i + 1]) by {
                if i < path.len() - 1 {
                    assert(p2[i] == path[i] && p2[i + 1] == path[i + 1]);
                } else {
                    assert(p2[i] == path.last() && p2[i + 1] == node);
                }
            }
        }
        lemma_count_false(v0, visited@, node as int);
        assert forall|v: int| 0 <= v < n0 implies (#[trigger] on_stack@[v] <==> p2.contains(v)) by {
            if v == node as int {
                assert(p2[p2.len() - 1] == v);
            } else {
                assert(on_stack@[v] == s0[v]);
                if path.contains(v) {
                    let j = choose|j: int| 0 <= j < path.len() && path[j] == v;
                    assert(p2[j] == v);
                }
                if p2.contains(v) {
                    let j = choose|j: int| 0 <= j < p2.len() && p2[j] == v;
                    assert(j < path.len());
                    assert(path[j] == v);
                }
            }
        }
    }
    let ghost mut bound: nat = 0;
    let m = g.edges.len();
    let mut k: usize = 0;
    while k < m
        invariant
            g.wf(),
            n0 == g.nodes@.len(),
            m == g.edges@.len(),
            k <= m,
            node < n0,
            v0 == old(visited)@,
            s0 == old(on_stack)@,
            visited@.len() == n0,
            on_stack@.len() == n0,
            visited@[node as int],
            on_stack@ == s0.update(node as int, true),
            p2 == path.push(node as int),
            is_box_path(g.edges@, p2),
            count_false(visited@) < count_false(v0),
            forall|v: int| 0 <= v < n0 && #[trigger] v0[v] ==> visited@[v],
            forall|v: int| 0 <= v < n0 ==> (#[trigger] on_stack@[v] <==> p2.contains(v)),
            forall|v: int| 0 <= v < n0 && #[trigger] on_stack@[v] ==> visited@[v],
            forall|v: int|
                0 <= v < n0 && #[trigger] visited@[v] && !on_stack@[v] ==> walks_bounded(g.edges@, v),
            forall|e: int|
                0 <= e < k && #[trigger] box_out(g.edges@, node as int, e) ==> !has_walk(
                    g.edges@,
                    g.edges@[e].dst as int,
                    bound,
                ),
        decreases m - k,
    {
        let e = g.edges[k];
        if e.src == node && is_box(e.modal_mode) {
            let next = e.dst;
            proof {
                assert(box_out(g.edges@, node as int, k as int));
            }
            if !visited[next] {
                proof {
                    assert(p2.last() == node as int);
                    assert(box_step(g.edges@, node as int, next as int));
                }
                let ghost vb = visited@;
                let found = has_box_cycle(g, next, visited, on_stack, Ghost(p2));
                proof {
                    assert forall|v: int| 0 <= v < n0 && #[trigger] v0[v] implies visited@[v] by {
                        assert(vb[v]);
                    }
                    lemma_count_false(vb, visited@, 0);
                }
                if found {
                    proof {
                        assert forall|j: nat| #[trigger] has_walk(g.edges@, node as int, j) by {
                            if j > 0 {
                                assert(has_walk(g.edges@, next as int, (j - 1) as nat));
                                assert(box_out(g.edges@, node as int, k as int));
                            }
                        }
                    }
                    return true;
                }
                proof {
                    let b = choose|b: nat| !#[trigger] has_walk(g.edges@, next as int, b);
                    let nb = if b > bound {
                        b
                    } else {
                        bound
                    };
                    assert forall|e2: int|
                        0 <= e2 < k + 1 && #[trigger] box_out(g.edges@, node as int, e2) implies !has_walk(
                        g.edges@,
                        g.edges@[e2].dst as int,
                        nb,
                    ) by {
                        if has_walk(g.edges@, g.edges@[e2].dst as int, nb) {
                            if e2 < k {
                                lemma_walk_shorter(g.edges@, g.edges@[e2].dst as int, nb, bound);
                            } else {
                                lemma_walk_shorter(g.edges@, g.edges@[e2].dst as int, nb, b);
                            }
                        }
                    }
                    bound = nb;
                }
            } else if on_stack[next] {
                proof {
                    assert(p2.contains(next as int));
                    let j = choose|j: int| 0 <= j < p2.len() && p2[j] == next as int;
                    let c = p2.subrange(j, p2.len() as int).push(next as int);
                    assert(is_box_path(g.edges@, c)) by {
                        assert forall|i: int| 0 <= i < c.len() - 1 implies #[trigger] box_step(g.edges@, c[i], c[i + 1]) by {
                            if i < c.len() - 2 {
                                assert(c[i] == p2[j + i] && c[i + 1] == p2[j + i + 1]);
                            } else {
                                assert(c[i] == node as int);
                                assert(c[i + 1] == next as int);
                                assert(box_out(g.edges@, node as int, k as int));
                                assert(box_step(g.edges@, node as int, next as int));
                            }
                        }
                    }
                    assert forall|w: nat| #[trigger] has_walk(g.edges@, node as int, w) by {
                        lemma_cycle_unbounded(g.edges@, c, w);
                        assert(c[c.len() - 2] == node as int);
                    }
                }
                return true;
            } else {
                proof {
                    assert(walks_bounded(g.edges@, next as int));
                    let b = choose|b: nat| !#[trigger] has_walk(g.edges@, next as int, b);
                    let nb = if b > bound {
                        b
                    } else {
                        bound
                    };
                    assert forall|e2: int|
                        0 <= e2 < k + 1 && #[trigger] box_out(g.edges@, node as int, e2) implies !has_walk(
                        g.edges@,
                        g.edges@[e2].dst as int,
                        nb,
                    ) by {
                        if has_walk(g.edges@, g.edges@[e2].dst as int, nb) {
                            if e2 < k {
                                lemma_walk_shorter(g.edges@, g.edges@[e2].dst as int, nb, bound);
                            } else {
                                lemma_walk_shorter(g.edges@, g.edges@[e2].dst as int, nb, b);
                            }
                        }
                    }
                    bound = nb;
                }
            }
        }
        k = k + 1;
    }
    on_stack.set(node, false);
    proof {
        assert(on_stack@ =~= s0);
        assert(!has_walk(g.edges@, node as int, bound + 1)) by {
            if has_walk(g.edges@, node as int, bound + 1) {
                let e = choose|e: int| #[trigger] box_out(g.edges@, node as int, e) && has_walk(
                    g.edges@,
                    g.edges@[e].dst as int,
                    bound,
                );
            }
        }
        assert(walks_bounded(g.edges@, node as int));
        assert forall|v: int|
            0 <= v < n0 && #[trigger] visited@[v] && !on_stack@[v] implies walks_bounded(g.edges@, v) by {
            if v == node as int {
            } else {
                assert(s0.update(node as int, true)[v] == s0[v]);
            }
        }
    }
    false
}

/// The first node, from position `i` on, from which box-mode walks are unbounded.
pub open spec fn first_unbounded(edges: Seq<ShapeEdge>, n: int, i: int) -> Option<int>
    decreases n - i,
{
    if i >= n {
        None
    } else if !walks_bounded(edges, i) {
        Some(i)
    } else {
        first_unbounded(edges, n, i + 1)
    }
}

proof fn lemma_first_unbounded(edges: Seq<ShapeEdge>, n: int, i: int, s: Option<int>)
    requires
        0 <= i <= n,
        forall|t: int| i <= t < n && (s is None || t < s->0) ==> walks_bounded(edges, t),
        s matches Some(x) ==> i <= x < n && !walks_bounded(edges, x),
    ensures
        first_unbounded(edges, n, i) == s,
    decreases n - i,
{
    if i < n {
        if s == Some(i) {
        } else {
            assert(walks_bounded(edges, i));
            lemma_first_unbounded(edges, n, i + 1, s);
        }
    }
}

/// The violation of the box-mode constraint: at the first node from which
/// box-mode walks are unbounded (a box cycle is reachable), if there is one.
pub open spec fn box_violations(nodes: Seq<ShapeNode>, edges: Seq<ShapeEdge>, name: Seq<char>) -> Seq<
    ViolationView,
> {
    match first_unbounded(edges, nodes.len() as int, 0) {
        Some(s) => seq![ViolationView { constraint: name, node_id: Some(nodes[s].id), message: box_cycle_message() }],
        None => Seq::empty(),
    }
}

fn check_box_acyclic(g: &ShapeGraph, name: &String, out: &mut Vec<ValidationViolation>)
    requires
        g.wf(),
    ensures
        violations_view(final(out)@) == violations_view(old(out)@) + box_violations(g.nodes@, g.edges@, name@),
{
    let n = g.nodes.len();
    let mut visited: Vec<bool> = vec![false; n];
    let mut on_stack: Vec<bool> = vec![false; n];
    let mut start: usize = 0;
    while start < n
        invariant
            g.wf(),
            n == g.nodes@.len(),
            start <= n,
            visited@.len() == n,
            on_stack@.len() == n,
            forall|v: int| 0 <= v < n ==> !#[trigger] on_stack@[v],
            forall|v: int| 0 <= v < n && #[trigger] visited@[v] ==> walks_bounded(g.edges@, v),
            forall|t: int| 0 <= t < start ==> walks_bounded(g.edges@, t),
            out@ == old(out)@,
        decreases n - start,
    {
        if !visited[start] {
            proof {
                assert forall|v: int| 0 <= v < n implies (#[trigger] on_stack@[v] <==> Seq::<int>::empty().contains(v)) by {}
            }
            let found = has_box_cycle(g, start, &mut visited, &mut on_stack, Ghost(Seq::empty()));
            if found {
                proof {
                    assert(!walks_bounded(g.edges@, start as int)) by {
                        if walks_bounded(g.edges@, start as int) {
                            let b = choose|b: nat| !#[trigger] has_walk(g.edges@, start as int, b);
                            assert(has_walk(g.edges@, start as int, b));
                        }
                    }
                    lemma_first_unbounded(g.edges@, n as int, 0, Some(start as int));
                }
                let message = String::from_str("□-mode cycle detected");
                push_violation(out, name, g.nodes[start].id, message);
                return;
            }
        }
        start = start + 1;
    }
    proof {
        lemma_first_unbounded(g.edges@, n as int, 0, None);
        assert(violations_view(out@) =~= violations_view(out@) + box_violations(g.nodes@, g.edges@, name@));
    }
}

// ─── Validation ──────────────────────────────────────────────────────────────

/// The violations of one constraint.
pub open spec fn constraint_violations(
    nodes: Seq<ShapeNode>,
    edges: Seq<ShapeEdge>,
    name: Seq<char>,
    kind: ConstraintKind,
) -> Seq<ViolationView> {
    match kind {
        ConstraintKind::MinOutgoing { node_class, edge_class, min } => min_outgoing_violations(
            nodes,
            edges,
            name,
            node_class,
            edge_class,
            min,
            nodes.len() as int,
        ),
        ConstraintKind::DiamondModeCompatibility => diamond_violations(nodes, edges, name, nodes.len() as int),
        ConstraintKind::BoxModeAcyclic => box_violations(nodes, edges, name),
        ConstraintKind::RootsMustBeTyped => root_violations(nodes, edges, name, nodes.len() as int),
    }
}

/// The violations of the first `j_end` constraints, constraint by constraint.
pub open spec fn all_violations(
    nodes: Seq<ShapeNode>,
    edges: Seq<ShapeEdge>,
    cs: Seq<ShapeConstraint>,
    j_end: int,
) -> Seq<ViolationView>
    decreases j_end,
{
    if j_end <= 0 {
        Seq::empty()
    } else {
        all_violations(nodes, edges, cs, j_end - 1) + constraint_violations(
            nodes,
            edges,
            cs[j_end - 1].name@,
            cs[j_end - 1].kind,
        )
    }
}

/// Validate a graph against shape constraints: the violations of each
/// constraint in turn.
pub fn validate_shapes(g: &ShapeGraph, constraints: &[ShapeConstraint]) -> (r: Vec<ValidationViolation>)
    requires
        g.wf(),
    ensures
        violations_view(r@) == all_violations(g.nodes@, g.edges@, constraints@, constraints@.len() as int),
{
    let mut violations: Vec<ValidationViolation> = Vec::new();
    proof {
        assert(violations_view(violations@) =~= Seq::<ViolationView>::empty());
    }
    let n = constraints.len();
    let mut j: usize = 0;
    while j < n
        invariant
            g.wf(),
            n == constraints@.len(),
            j <= n,
            violations_view(violations@) == all_violations(g.nodes@, g.edges@, constraints@, j as int),
        decreases n - j,
    {
        let c = &constraints[j];
        match c.kind {
            ConstraintKind::MinOutgoing { node_class, edge_class, min } => {
                check_min_outgoing(g, &c.name, node_class, edge_class, min, &mut violations);
            },
            ConstraintKind::DiamondModeCompatibility => {
                check_diamond_compatibility(g, &c.name, &mut violations);
            },
            ConstraintKind::BoxModeAcyclic => {
                check_box_acyclic(g, &c.name, &mut violations);
            },
            ConstraintKind::RootsMustBeTyped => {
                check_roots_typed(g, &c.name, &mut violations);
            },
        }
        j = j + 1;
    }
    violations
}

/// The standard constraints: `diamond-compat`, `box-acyclic`, `roots-typed`.
pub fn default_constraints() -> (r: Vec<ShapeConstraint>)
    ensures
        r@.len() == 3,
        r@[0].name@ == "diamond-compat"@,
        r@[0].kind == ConstraintKind::DiamondModeCompatibility,
        r@[1].name@ == "box-acyclic"@,
        r@[1].kind == ConstraintKind::BoxModeAcyclic,
        r@[2].name@ == "roots-typed"@,
        r@[2].kind == ConstraintKind::RootsMustBeTyped,
{
    let mut v: Vec<ShapeConstraint> = Vec::new();
    v.push(
        ShapeConstraint {
            name: String::from_str("diamond-compat"),
            kind: ConstraintKind::DiamondModeCompatibility,
        },
    );
    v.push(ShapeConstraint { name: String::from_str("box-acyclic"), kind: ConstraintKind::BoxModeAcyclic });
    v.push(ShapeConstraint { name: String::from_str("roots-typed"), kind: ConstraintKind::RootsMustBeTyped });
    v
}

} // verus!
