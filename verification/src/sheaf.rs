//! Discrete sheaf consistency over a graph: for each directed triangle
//! u → v → w with a direct edge u → w, the restriction maps along both paths
//! must give types of the same mode and category at w.

use vstd::prelude::*;
use std::collections::HashMap;
use crate::types::{NodeId, ModalType, ModalMode, Direction, spec_apply};
use crate::shapes::{ShapeGraph, ShapeEdge, ShapeNode};

verus! {

broadcast use vstd::std_specs::hash::group_hash_axioms;

/// The type carried along an edge of the given mode: a diamond edge applies
/// the type once (if it can), a box edge keeps it, a lozenge edge turns it
/// into a lozenge type facing the other way.
pub open spec fn restrict(mode: ModalMode, t: ModalType) -> ModalType {
    match mode {
        ModalMode::Diamond => match spec_apply(t) {
            Some(r) => r,
            None => t,
        },
        ModalMode::Box => t,
        ModalMode::Lozenge => ModalType {
            mode: ModalMode::Lozenge,
            category: t.category,
            arity: t.arity,
            direction: match t.direction {
                Direction::Right => Direction::Left,
                Direction::Left => Direction::Right,
            },
        },
    }
}

/// Two types agree in mode and category (arity may differ).
pub open spec fn consistent(a: ModalType, b: ModalType) -> bool {
    a.mode == b.mode && a.category == b.category
}

fn restriction_map(mode: ModalMode, t: ModalType) -> (r: ModalType)
    ensures
        r == restrict(mode, t),
{
    match mode {
        ModalMode::Diamond => match t.apply() {
            Some(r) => r,
            None => t,
        },
        ModalMode::Box => t,
        ModalMode::Lozenge => ModalType {
            mode: ModalMode::Lozenge,
            category: t.category,
            arity: t.arity,
            direction: match t.direction {
                Direction::Right => Direction::Left,
                Direction::Left => Direction::Right,
            },
        },
    }
}

fn types_consistent(a: ModalType, b: ModalType) -> (r: bool)
    ensures
        r == consistent(a, b),
{
    crate::types::mode_eq(a.mode, b.mode) && a.category.0 == b.category.0
}

/// A triangle whose two paths disagree at `w`.
#[derive(Clone, Copy, Debug)]
pub struct CoherenceViolation {
    pub node_u: NodeId,
    pub node_v: NodeId,
    pub node_w: NodeId,
    pub via_uv_vw_type: ModalType,
    pub via_uw_type: ModalType,
}

/// The number of disagreeing triangles and the triangles themselves.
#[derive(Debug)]
pub struct SheafResult {
    pub violation_count: usize,
    pub violations: Vec<CoherenceViolation>,
}

impl SheafResult {
    /// No triangle disagrees.
    pub fn is_coherent(&self) -> (r: bool)
        ensures
            r == (self.violation_count == 0),
    {
        self.violation_count == 0
    }
}

/// The first edge (in order) from `u` to `w` among the first `k_end`.
pub open spec fn first_edge(edges: Seq<ShapeEdge>, u: int, w: int, k_end: int) -> Option<int>
    decreases k_end,
{
    if k_end <= 0 {
        None
    } else {
        match first_edge(edges, u, w, k_end - 1) {
            Some(k) => Some(k),
            None => if edges[k_end - 1].src == u && edges[k_end - 1].dst == w {
                Some(k_end - 1)
            } else {
                None
            },
        }
    }
}

/// Disagreeing triangles through the edge `u → v` (with type `tv` at `v`),
/// closing through the first `k_end` edges leaving `v`.
pub open spec fn triangles_vw(
    nodes: Seq<ShapeNode>,
    edges: Seq<ShapeEdge>,
    u: int,
    v: int,
    tu: ModalType,
    tv: ModalType,
    k_end: int,
) -> Seq<CoherenceViolation>
    decreases k_end,
{
    if k_end <= 0 {
        Seq::empty()
    } else {
        let rest = triangles_vw(nodes, edges, u, v, tu, tv, k_end - 1);
        let vw = edges[k_end - 1];
        if vw.src == v {
            let w = vw.dst as int;
            match first_edge(edges, u, w, edges.len() as int) {
                Some(uw) => {
                    let via = restrict(vw.modal_mode, tv);
                    let direct = restrict(edges[uw].modal_mode, tu);
                    if !consistent(via, direct) {
                        rest.push(
                            CoherenceViolation {
                                node_u: nodes[u].id,
                                node_v: nodes[v].id,
                                node_w: nodes[w].id,
                                via_uv_vw_type: via,
                                via_uw_type: direct,
                            },
                        )
                    } else {
                        rest
                    }
                },
                None => rest,
            }
        } else {
            rest
        }
    }
}

/// Disagreeing triangles from `u` (with stalk `tu`) through the first `k_end` edges leaving `u`.
pub open spec fn triangles_u(
    nodes: Seq<ShapeNode>,
    edges: Seq<ShapeEdge>,
    u: int,
    tu: ModalType,
    k_end: int,
) -> Seq<CoherenceViolation>
    decreases k_end,
{
    if k_end <= 0 {
        Seq::empty()
    } else {
        let rest = triangles_u(nodes, edges, u, tu, k_end - 1);
        let uv = edges[k_end - 1];
        if uv.src == u {
            rest + triangles_vw(nodes, edges, u, uv.dst as int, tu, restrict(uv.modal_mode, tu), edges.len() as int)
        } else {
            rest
        }
    }
}

/// Disagreeing triangles from the first `i_end` nodes that have a stalk.
pub open spec fn triangles(
    nodes: Seq<ShapeNode>,
    edges: Seq<ShapeEdge>,
    stalks: Map<NodeId, ModalType>,
    i_end: int,
) -> Seq<CoherenceViolation>
    decreases i_end,
{
    if i_end <= 0 {
        Seq::empty()
    } else {
        let rest = triangles(nodes, edges, stalks, i_end - 1);
        let id = nodes[i_end - 1].id;
        if stalks.contains_key(id) {
            rest + triangles_u(nodes, edges, i_end - 1, stalks[id], edges.len() as int)
        } else {
            rest
        }
    }
}

fn find_edge(g: &ShapeGraph, u: usize, w: usize) -> (r: Option<usize>)
    ensures
        r is None <==> first_edge(g.edges@, u as int, w as int, g.edges@.len() as int) is None,
        r matches Some(k) ==> k < g.edges@.len() && first_edge(g.edges@, u as int, w as int, g.edges@.len() as int)
            == Some(k as int),
{
    proof {
        lemma_first_edge_range(g.edges@, u as int, w as int, g.edges@.len() as int);
    }
    let m = g.edges.len();
    let mut k: usize = 0;
    while k < m
        invariant
            m == g.edges@.len(),
            k <= m,
            first_edge(g.edges@, u as int, w as int, k as int) is None,
        decreases m - k,
    {
        let e = g.edges[k];
        if e.src == u && e.dst == w {
            proof {
                assert(first_edge(g.edges@, u as int, w as int, k + 1) == Some(k as int));
                lemma_first_edge_stays(g.edges@, u as int, w as int, k + 1, m as int);
            }
            return Some(k);
        }
        k = k + 1;
    }
    None
}

proof fn lemma_first_edge_range(edges: Seq<ShapeEdge>, u: int, w: int, k_end: int)
    ensures
        first_edge(edges, u, w, k_end) matches Some(k) ==> 0 <= k < k_end && edges[k].src == u && edges[k].dst == w,
    decreases k_end,
{
    if k_end > 0 {
        lemma_first_edge_range(edges, u, w, k_end - 1);
    }
}

proof fn lemma_first_edge_stays(edges: Seq<ShapeEdge>, u: int, w: int, a: int, b: int)
    requires
        0 <= a <= b,
        first_edge(edges, u, w, a) is Some,
    ensures
        first_edge(edges, u, w, b) == first_edge(edges, u, w, a),
    decreases b - a,
{
    if a < b {
        lemma_first_edge_stays(edges, u, w, a, b - 1);
    }
}

fn triangles_from_edge(
    g: &ShapeGraph,
    u: usize,
    v: usize,
    tu: ModalType,
    tv: ModalType,
    out: &mut Vec<CoherenceViolation>,
)
    requires
        g.wf(),
        u < g.nodes@.len(),
        v < g.nodes@.len(),
    ensures
        final(out)@ == old(out)@ + triangles_vw(g.nodes@, g.edges@, u as int, v as int, tu, tv, g.edges@.len() as int),
{
    let ghost base = out@;
    let m = g.edges.len();
    let mut b: usize = 0;
    while b < m
        invariant
            g.wf(),
            u < g.nodes@.len(),
            v < g.nodes@.len(),
            m == g.edges@.len(),
            b <= m,
            out@ == base + triangles_vw(g.nodes@, g.edges@, u as int, v as int, tu, tv, b as int),
        decreases m - b,
    {
        let vw = g.edges[b];
        let ghost before = out@;
        if vw.src == v {
            let w = vw.dst;
            match find_edge(g, u, w) {
                Some(uw) => {
                    let via = restriction_map(vw.modal_mode, tv);
                    let direct = restriction_map(g.edges[uw].modal_mode, tu);
                    proof {
                        assert(first_edge(g.edges@, u as int, w as int, g.edges@.len() as int) == Some(uw as int));
                        assert(g.edges@[b as int] == vw);
                    }
                    if !types_consistent(via, direct) {
                        out.push(
                            CoherenceViolation {
                                node_u: g.nodes[u].id,
                                node_v: g.nodes[v].id,
                                node_w: g.nodes[w].id,
                                via_uv_vw_type: via,
                                via_uw_type: direct,
                            },
                        );
                    }
                },
                None => {},
            }
        }
        proof {
            assert(out@ =~= base + triangles_vw(g.nodes@, g.edges@, u as int, v as int, tu, tv, b + 1));
        }
        b = b + 1;
    }
}

fn triangles_from_node(g: &ShapeGraph, u: usize, tu: ModalType, out: &mut Vec<CoherenceViolation>)
    requires
        g.wf(),
        u < g.nodes@.len(),
    ensures
        final(out)@ == old(out)@ + triangles_u(g.nodes@, g.edges@, u as int, tu, g.edges@.len() as int),
{
    let ghost base = out@;
    let m = g.edges.len();
    let mut a: usize = 0;
    while a < m
        invariant
            g.wf(),
            u < g.nodes@.len(),
            m == g.edges@.len(),
            a <= m,
            out@ == base + triangles_u(g.nodes@, g.edges@, u as int, tu, a as int),
        decreases m - a,
    {
        let uv = g.edges[a];
        if uv.src == u {
            let tv = restriction_map(uv.modal_mode, tu);
            triangles_from_edge(g, u, uv.dst, tu, tv, out);
        }
        proof {
            assert(out@ =~= base + triangles_u(g.nodes@, g.edges@, u as int, tu, a + 1));
        }
        a = a + 1;
    }
}

/// Check every triangle of `g` against the stalks (the types at the nodes).
pub fn check_sheaf_coherence(g: &ShapeGraph, stalks: &HashMap<NodeId, ModalType>) -> (r: SheafResult)
    requires
        g.wf(),
    ensures
        r.violations@ == triangles(g.nodes@, g.edges@, stalks@, g.nodes@.len() as int),
        r.violation_count == r.violations@.len(),
{
    let mut violations: Vec<CoherenceViolation> = Vec::new();
    let n = g.nodes.len();
    let mut i: usize = 0;
    while i < n
        invariant
            g.wf(),
            n == g.nodes@.len(),
            i <= n,
            violations@ == triangles(g.nodes@, g.edges@, stalks@, i as int),
        decreases n - i,
    {
        let u_id = g.nodes[i].id;
        match stalks.get(&u_id) {
            None => {},
            Some(tu_ref) => {
                let tu = *tu_ref;
                triangles_from_node(g, i, tu, &mut violations);
            },
        }
        proof {
            assert(violations@ =~= triangles(g.nodes@, g.edges@, stalks@, i + 1));
        }
        i = i + 1;
    }
    let count = violations.len();
    SheafResult { violation_count: count, violations }
}

/// The type of the last of the first `i_end` nodes with id `id`.
pub open spec fn last_type(nodes: Seq<ShapeNode>, id: NodeId, i_end: int) -> Option<ModalType>
    decreases i_end,
{
    if i_end <= 0 {
        None
    } else if nodes[i_end - 1].id == id {
        Some(nodes[i_end - 1].mtlg_type)
    } else {
        last_type(nodes, id, i_end - 1)
    }
}

/// The stalks of a graph: each node's id mapped to its type (a later node
/// with the same id wins).
pub fn build_stalks(g: &ShapeGraph) -> (r: HashMap<NodeId, ModalType>)
    ensures
        forall|id: NodeId| #[trigger] r@.contains_key(id) == last_type(g.nodes@, id, g.nodes@.len() as int) is Some,
        forall|id: NodeId| #[trigger] r@.contains_key(id) ==> r@[id] == last_type(g.nodes@, id, g.nodes@.len() as int)->0,
{
    let mut m: HashMap<NodeId, ModalType> = HashMap::new();
    let n = g.nodes.len();
    let mut i: usize = 0;
    while i < n
        invariant
            n == g.nodes@.len(),
            i <= n,
            forall|id: NodeId| #[trigger] m@.contains_key(id) == last_type(g.nodes@, id, i as int) is Some,
            forall|id: NodeId| #[trigger] m@.contains_key(id) ==> m@[id] == last_type(g.nodes@, id, i as int)->0,
        decreases n - i,
    {
        let node = g.nodes[i];
        m.insert(node.id, node.mtlg_type);
        i = i + 1;
    }
    m
}

} // verus!
