//! Type normalisation: oriented rewrite rules applied to (mode, category)
//! pairs until none applies.

use vstd::prelude::*;
use crate::types::{ModalMode, ModalType, TypeCategory, mode_eq};
use crate::shapes::{ShapeGraph, ShapeNode};

verus! {

/// An oriented type rewrite: (lhs mode, lhs category) → (rhs mode, rhs category).
#[derive(Clone, Copy, Debug, PartialEq, Eq, Structural)]
pub struct RewriteRule {
    pub lhs_mode: ModalMode,
    pub lhs_cat: TypeCategory,
    pub rhs_mode: ModalMode,
    pub rhs_cat: TypeCategory,
}

/// Rank of a mode in the path ordering: Diamond < Box < Lozenge.
pub open spec fn mode_rank(m: ModalMode) -> nat {
    match m {
        ModalMode::Diamond => 0,
        ModalMode::Box => 1,
        ModalMode::Lozenge => 2,
    }
}

/// Lexicographic order on (mode rank, category, arity).
pub open spec fn spec_lpo_gt(
    lhs: (ModalMode, TypeCategory, u8),
    rhs: (ModalMode, TypeCategory, u8),
) -> bool {
    ||| mode_rank(lhs.0) > mode_rank(rhs.0)
    ||| mode_rank(lhs.0) == mode_rank(rhs.0) && lhs.1.0 > rhs.1.0
    ||| mode_rank(lhs.0) == mode_rank(rhs.0) && lhs.1.0 == rhs.1.0 && lhs.2 > rhs.2
}

fn rank(m: ModalMode) -> (r: u32)
    ensures
        r == mode_rank(m),
{
    match m {
        ModalMode::Diamond => 0,
        ModalMode::Box => 1,
        ModalMode::Lozenge => 2,
    }
}

/// Lexicographic path ordering for modal types:
/// Diamond < Box < Lozenge, then category, then arity.
/// A rule lhs → rhs is oriented when lhs > rhs.
pub fn lpo_gt(lhs: (ModalMode, TypeCategory, u8), rhs: (ModalMode, TypeCategory, u8)) -> (r: bool)
    ensures
        r == spec_lpo_gt(lhs, rhs),
{
    let (rl, rr) = (rank(lhs.0), rank(rhs.0));
    if rl != rr {
        rl > rr
    } else if lhs.1.0 != rhs.1.0 {
        lhs.1.0 > rhs.1.0
    } else {
        lhs.2 > rhs.2
    }
}

/// The first rule whose left-hand side is `t`, if any, rewrites `t`.
pub open spec fn rewrite_step(rules: Seq<RewriteRule>, t: (ModalMode, TypeCategory)) -> Option<
    (ModalMode, TypeCategory),
>
    decreases rules.len(),
{
    if rules.len() == 0 {
        None
    } else if rules[0].lhs_mode == t.0 && rules[0].lhs_cat == t.1 {
        Some((rules[0].rhs_mode, rules[0].rhs_cat))
    } else {
        rewrite_step(rules.drop_first(), t)
    }
}

/// Rewriting from `t` reaches a normal form within `fuel` steps.
pub open spec fn terminates_within(rules: Seq<RewriteRule>, t: (ModalMode, TypeCategory), fuel: nat) -> bool
    decreases fuel,
{
    match rewrite_step(rules, t) {
        None => true,
        Some(t2) => fuel > 0 && terminates_within(rules, t2, (fuel - 1) as nat),
    }
}

/// The type reached after at most `fuel` rewrite steps.
pub open spec fn normal_form(rules: Seq<RewriteRule>, t: (ModalMode, TypeCategory), fuel: nat) -> (
    ModalMode,
    TypeCategory,
)
    decreases fuel,
{
    match rewrite_step(rules, t) {
        None => t,
        Some(t2) => if fuel == 0 {
            t
        } else {
            normal_form(rules, t2, (fuel - 1) as nat)
        },
    }
}

/// Rewriting from `t` terminates.
pub open spec fn terminates(rules: Seq<RewriteRule>, t: (ModalMode, TypeCategory)) -> bool {
    exists|fuel: nat| terminates_within(rules, t, fuel)
}

fn step(rules: &[RewriteRule], mode: ModalMode, cat: TypeCategory) -> (r: Option<
    (ModalMode, TypeCategory),
>)
    ensures
        r == rewrite_step(rules@, (mode, cat)),
{
    let n = rules.len();
    let mut i: usize = 0;
    assert(rules@.subrange(0, n as int) =~= rules@);
    while i < n
        invariant
            n == rules@.len(),
            i <= n,
            rewrite_step(rules@, (mode, cat)) == rewrite_step(
                rules@.subrange(i as int, n as int),
                (mode, cat),
            ),
        decreases n - i,
    {
        proof {
            let s = rules@.subrange(i as int, n as int);
            assert(s[0] == rules@[i as int]);
            assert(s.drop_first() =~= rules@.subrange(i + 1, n as int));
        }
        if mode_eq(rules[i].lhs_mode, mode) && rules[i].lhs_cat.0 == cat.0 {
            return Some((rules[i].rhs_mode, rules[i].rhs_cat));
        }
        i = i + 1;
    }
    None
}

proof fn lemma_fuel_mono(rules: Seq<RewriteRule>, t: (ModalMode, TypeCategory), f1: nat, f2: nat)
    requires
        terminates_within(rules, t, f1),
        f1 <= f2,
    ensures
        terminates_within(rules, t, f2),
        normal_form(rules, t, f1) == normal_form(rules, t, f2),
    decreases f1,
{
    match rewrite_step(rules, t) {
        None => {},
        Some(t2) => {
            lemma_fuel_mono(rules, t2, (f1 - 1) as nat, (f2 - 1) as nat);
        },
    }
}

/// Normalise a type under the rules: rewrite with the first matching rule
/// until no rule applies. Rewriting from the given type must terminate, as it
/// does for rules oriented by `lpo_gt` (see `law_oriented_rules_terminate`).
pub fn normalize_type(mode: ModalMode, cat: TypeCategory, rules: &[RewriteRule]) -> (r: (
    ModalMode,
    TypeCategory,
))
    requires
        terminates(rules@, (mode, cat)),
    ensures
        rewrite_step(rules@, r) is None,
        forall|fuel: nat|
            terminates_within(rules@, (mode, cat), fuel) ==> r == normal_form(
                rules@,
                (mode, cat),
                fuel,
            ),
{
    let ghost fuel0 = choose|fuel: nat| terminates_within(rules@, (mode, cat), fuel);
    let ghost mut fuel = fuel0;
    let mut cur_mode = mode;
    let mut cur_cat = cat;
    loop
        invariant
            terminates_within(rules@, (cur_mode, cur_cat), fuel),
            normal_form(rules@, (cur_mode, cur_cat), fuel) == normal_form(
                rules@,
                (mode, cat),
                fuel0,
            ),
            terminates_within(rules@, (mode, cat), fuel0),
        ensures
            rewrite_step(rules@, (cur_mode, cur_cat)) is None,
            normal_form(rules@, (cur_mode, cur_cat), fuel) == normal_form(
                rules@,
                (mode, cat),
                fuel0,
            ),
            terminates_within(rules@, (mode, cat), fuel0),
        decreases fuel,
    {
        match step(rules, cur_mode, cur_cat) {
            Some((m, c)) => {
                cur_mode = m;
                cur_cat = c;
                proof {
                    fuel = (fuel - 1) as nat;
                }
            },
            None => {
                break ;
            },
        }
    }
    proof {
        assert forall|f: nat| terminates_within(rules@, (mode, cat), f) implies (cur_mode, cur_cat)
            == normal_form(rules@, (mode, cat), f) by {
            if f <= fuel0 {
                lemma_fuel_mono(rules@, (mode, cat), f, fuel0);
            } else {
                lemma_fuel_mono(rules@, (mode, cat), fuel0, f);
            }
        }
    }
    (cur_mode, cur_cat)
}

/// Applies rewrite rules as type normalisations.
pub struct TypeNormalizer {
    pub rules: Vec<RewriteRule>,
}

/// The normal form that rewriting from `t` reaches.
pub open spec fn normalized(rules: Seq<RewriteRule>, t: (ModalMode, TypeCategory)) -> (ModalMode, TypeCategory) {
    normal_form(rules, t, choose|fuel: nat| terminates_within(rules, t, fuel))
}

/// Node `i` is the first node with its id.
pub open spec fn first_with_id(nodes: Seq<ShapeNode>, i: int) -> bool {
    forall|j: int| 0 <= j < i ==> nodes[j].id != nodes[i].id
}

/// The mode and category of a node's type.
pub open spec fn type_key(n: ShapeNode) -> (ModalMode, TypeCategory) {
    (n.mtlg_type.mode, n.mtlg_type.category)
}

/// `after` is `before` with the mode and category of its type set to `t`.
pub open spec fn retyped(after: ShapeNode, before: ShapeNode, t: (ModalMode, TypeCategory)) -> bool {
    after == ShapeNode {
        mtlg_type: ModalType { mode: t.0, category: t.1, ..before.mtlg_type },
        ..before
    }
}

impl TypeNormalizer {
    pub fn new(rules: Vec<RewriteRule>) -> (r: TypeNormalizer)
        ensures
            r.rules@ == rules@,
    {
        TypeNormalizer { rules }
    }

    /// Normalise the mode and category of the graph's node types. Nodes are
    /// looked up by id, so of several nodes sharing an id only the first is
    /// normalised. Rewriting must terminate from every node's type.
    pub fn apply_to_graph(&self, graph: &mut ShapeGraph)
        requires
            forall|i: int| 0 <= i < old(graph).nodes@.len() ==> terminates(self.rules@, type_key(#[trigger] old(graph).nodes@[i])),
        ensures
            final(graph).edges@ == old(graph).edges@,
            final(graph).nodes@.len() == old(graph).nodes@.len(),
            forall|i: int|
                0 <= i < old(graph).nodes@.len() ==> retyped(
                    #[trigger] final(graph).nodes@[i],
                    old(graph).nodes@[i],
                    if first_with_id(old(graph).nodes@, i) {
                        normalized(self.rules@, type_key(old(graph).nodes@[i]))
                    } else {
                        type_key(old(graph).nodes@[i])
                    },
                ),
    {
        let ghost orig = graph.nodes@;
        let n = graph.nodes.len();
        let mut i: usize = 0;
        while i < n
            invariant
                n == orig.len(),
                n == graph.nodes@.len(),
                graph.edges@ == old(graph).edges@,
                orig == old(graph).nodes@,
                i <= n,
                forall|k: int| 0 <= k < n ==> terminates(self.rules@, type_key(#[trigger] orig[k])),
                forall|k: int|
                    0 <= k < n ==> retyped(
                        #[trigger] graph.nodes@[k],
                        orig[k],
                        if first_with_id(orig, k) && k < i {
                            normalized(self.rules@, type_key(orig[k]))
                        } else {
                            type_key(orig[k])
                        },
                    ),
            decreases n - i,
        {
            let nid = graph.nodes[i].id;
            let mut j: usize = 0;
            while graph.nodes[j].id != nid
                invariant
                    n == graph.nodes@.len(),
                    i < n,
                    j <= i,
                    graph.nodes@[i as int].id == nid,
                    forall|k: int| 0 <= k < j ==> graph.nodes@[k].id != nid,
                decreases i - j,
            {
                j = j + 1;
            }
            let node = graph.nodes[j];
            let t = node.mtlg_type;
            proof {
                assert(graph.nodes@[j as int].id == orig[j as int].id);
                assert forall|k: int| 0 <= k < j implies orig[k].id != orig[j as int].id by {
                    assert(graph.nodes@[k].id == orig[k].id);
                }
                assert(first_with_id(orig, j as int));
                if j < i {
                    let nf = normalized(self.rules@, type_key(orig[j as int]));
                    let f = choose|fuel: nat| terminates_within(self.rules@, type_key(orig[j as int]), fuel);
                    assert(terminates_within(self.rules@, type_key(orig[j as int]), f));
                    lemma_normal_form_stops(self.rules@, type_key(orig[j as int]), f);
                    assert(terminates_within(self.rules@, (t.mode, t.category), 0));
                } else {
                    assert(terminates(self.rules@, type_key(orig[j as int])));
                }
            }
            let (m, c) = normalize_type(t.mode, t.category, self.rules.as_slice());
            proof {
                if j < i {
                    assert(terminates_within(self.rules@, (t.mode, t.category), 0));
                    assert((m, c) == normal_form(self.rules@, (t.mode, t.category), 0));
                } else {
                    let f = choose|fuel: nat| terminates_within(self.rules@, type_key(orig[j as int]), fuel);
                    assert(terminates_within(self.rules@, (t.mode, t.category), f));
                }
            }
            let ghost before = graph.nodes@;
            graph.nodes.set(j, ShapeNode { mtlg_type: ModalType { mode: m, category: c, ..t }, ..node });
            proof {
                assert forall|k: int|
                    0 <= k < n implies retyped(
                        #[trigger] graph.nodes@[k],
                        orig[k],
                        if first_with_id(orig, k) && k < i + 1 {
                            normalized(self.rules@, type_key(orig[k]))
                        } else {
                            type_key(orig[k])
                        },
                    ) by {
                    if k != j {
                        assert(graph.nodes@[k] == before[k]);
                        if k == i {
                            assert(orig[j as int].id == orig[i as int].id);
                            assert(!first_with_id(orig, k));
                        }
                    }
                }
            }
            i = i + 1;
        }
    }
}

/// Where rewriting stops, nothing rewrites: the normal form of a
/// terminating rewrite admits no further step.
proof fn lemma_normal_form_stops(rules: Seq<RewriteRule>, t: (ModalMode, TypeCategory), fuel: nat)
    requires
        terminates_within(rules, t, fuel),
    ensures
        rewrite_step(rules, normal_form(rules, t, fuel)) is None,
    decreases fuel,
{
    match rewrite_step(rules, t) {
        None => {},
        Some(t2) => {
            lemma_normal_form_stops(rules, t2, (fuel - 1) as nat);
        },
    }
}

/// The measure that oriented rules decrease.
pub open spec fn type_measure(t: (ModalMode, TypeCategory)) -> nat {
    mode_rank(t.0) * 0x1_0000_0000nat + t.1.0 as nat
}

/// Rules whose left-hand side is greater than their right-hand side in the
/// path ordering (at equal arity) always reach a normal form: each rewrite
/// strictly decreases the (mode rank, category) measure.
pub proof fn law_oriented_rules_terminate(rules: Seq<RewriteRule>, t: (ModalMode, TypeCategory))
    requires
        forall|i: int|
            0 <= i < rules.len() ==> spec_lpo_gt(
                (#[trigger] rules[i].lhs_mode, rules[i].lhs_cat, 0u8),
                (rules[i].rhs_mode, rules[i].rhs_cat, 0u8),
            ),
    ensures
        terminates_within(rules, t, type_measure(t)),
        terminates(rules, t),
    decreases type_measure(t),
{
    lemma_step_decreases(rules, t);
    match rewrite_step(rules, t) {
        None => {},
        Some(t2) => {
            law_oriented_rules_terminate(rules, t2);
            lemma_fuel_mono(rules, t2, type_measure(t2), (type_measure(t) - 1) as nat);
        },
    }
    assert(terminates_within(rules, t, type_measure(t)));
}

proof fn lemma_step_decreases(rules: Seq<RewriteRule>, t: (ModalMode, TypeCategory))
    requires
        forall|i: int|
            0 <= i < rules.len() ==> spec_lpo_gt(
                (#[trigger] rules[i].lhs_mode, rules[i].lhs_cat, 0u8),
                (rules[i].rhs_mode, rules[i].rhs_cat, 0u8),
            ),
    ensures
        rewrite_step(rules, t) matches Some(t2) ==> type_measure(t2) < type_measure(t),
    decreases rules.len(),
{
    if rules.len() > 0 {
        assert(spec_lpo_gt(
            (rules[0].lhs_mode, rules[0].lhs_cat, 0u8),
            (rules[0].rhs_mode, rules[0].rhs_cat, 0u8),
        ));
        assert forall|i: int| 0 <= i < rules.drop_first().len() implies spec_lpo_gt(
            (#[trigger] rules.drop_first()[i].lhs_mode, rules.drop_first()[i].lhs_cat, 0u8),
            (rules.drop_first()[i].rhs_mode, rules.drop_first()[i].rhs_cat, 0u8),
        ) by {
            assert(rules.drop_first()[i] == rules[i + 1]);
        }
        lemma_step_decreases(rules.drop_first(), t);
    }
}

} // verus!
