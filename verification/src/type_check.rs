//! Mode consistency of modal type derivations. Each application is checked
//! by a constraint solver on a ground formula; the solver's verdict is
//! passed in, and what follows from it is decided here.

use vstd::prelude::*;
use std::collections::HashMap;
use crate::types::{ModalType, ModalMode, Direction, spec_apply, spec_compatible};
use crate::semantics::decimal;
use crate::shapes::push_decimal;

verus! {

/// A modal type constraint: `functor_type` applied to `arg_type` yields `result_type`.
#[derive(Clone, Copy, Debug)]
pub struct ModalConstraint {
    pub functor_type: ModalType,
    pub arg_type: ModalType,
    pub result_type: ModalType,
}

/// Result of type checking a derivation.
#[derive(Debug)]
pub enum TypeCheckResult {
    Valid(ModalType),
    Invalid(String),
}

/// The model of a check result.
pub enum CheckView {
    Valid(ModalType),
    Invalid(Seq<char>),
}

impl View for TypeCheckResult {
    type V = CheckView;

    open spec fn view(&self) -> CheckView {
        match self {
            TypeCheckResult::Valid(t) => CheckView::Valid(*t),
            TypeCheckResult::Invalid(m) => CheckView::Invalid(m@),
        }
    }
}

impl TypeCheckResult {
    /// Whether the check succeeded.
    pub fn is_valid(&self) -> (r: bool)
        ensures
            r == (self@ is Valid),
    {
        match self {
            TypeCheckResult::Valid(_) => true,
            TypeCheckResult::Invalid(_) => false,
        }
    }
}

/// What a constraint solver answered on a formula.
#[derive(Clone, Copy, Debug, PartialEq, Eq, Structural)]
pub enum SolverVerdict {
    Sat,
    Unsat,
    Unknown,
}

/// The integer code of a mode in the solver's formulas.
pub open spec fn spec_mode_to_int(mode: ModalMode) -> u64 {
    match mode {
        ModalMode::Diamond => 1,
        ModalMode::Box => 2,
        ModalMode::Lozenge => 3,
    }
}

/// The integer code of a mode.
pub fn mode_to_int(mode: ModalMode) -> (r: u64)
    ensures
        r == spec_mode_to_int(mode),
{
    match mode {
        ModalMode::Diamond => 1,
        ModalMode::Box => 2,
        ModalMode::Lozenge => 3,
    }
}

/// The ground formula that the solver is asked about for one application:
/// positive arity, equal mode codes, and a direction code equal to the side.
pub open spec fn application_formula(functor: ModalType, arg: ModalType, arg_is_right: bool) -> bool {
    &&& functor.arity > 0
    &&& spec_mode_to_int(functor.mode) == spec_mode_to_int(arg.mode)
    &&& (if functor.direction == Direction::Right {
        1int
    } else {
        0int
    }) == (if arg_is_right {
        1int
    } else {
        0int
    })
}

/// The formula holds exactly when the functor is compatible with the argument.
pub proof fn law_formula_is_compatibility(functor: ModalType, arg: ModalType, arg_is_right: bool)
    ensures
        application_formula(functor, arg, arg_is_right) <==> spec_compatible(functor, arg, arg_is_right),
{
}

pub open spec fn msg_apply_failed() -> Seq<char> {
    "apply failed despite Z3 SAT"@
}

pub open spec fn msg_unsat() -> Seq<char> {
    "Z3 SMT solver returned UNSAT: Constraint violation"@
}

pub open spec fn msg_unknown() -> Seq<char> {
    "Z3 SMT returned UNKNOWN"@
}

pub open spec fn msg_empty() -> Seq<char> {
    "empty derivation"@
}

pub open spec fn msg_box_modes() -> Seq<char> {
    "box sharing requires both functors in □ mode"@
}

pub open spec fn msg_box_diverge() -> Seq<char> {
    "Z3 SMT UNSAT: □-sharing result types diverge logically"@
}

pub open spec fn msg_box_saturated() -> Seq<char> {
    "box sharing: one functor is structurally saturated"@
}

/// The outcome of one application given the solver's verdict.
pub open spec fn application_outcome(functor: ModalType, verdict: SolverVerdict) -> CheckView {
    match verdict {
        SolverVerdict::Sat => match spec_apply(functor) {
            Some(r) => CheckView::Valid(r),
            None => CheckView::Invalid(msg_apply_failed()),
        },
        SolverVerdict::Unsat => CheckView::Invalid(msg_unsat()),
        SolverVerdict::Unknown => CheckView::Invalid(msg_unknown()),
    }
}

/// Check one application given the solver's verdict on its formula: on
/// `Sat` the functor's type after one application, otherwise the solver's
/// answer as the reason.
pub fn check_application(functor: ModalType, arg: ModalType, arg_is_right: bool, verdict: SolverVerdict) -> (r:
    TypeCheckResult)
    ensures
        r@ == application_outcome(functor, verdict),
{
    match verdict {
        SolverVerdict::Sat => match functor.apply() {
            Some(result) => TypeCheckResult::Valid(result),
            None => TypeCheckResult::Invalid(String::from_str("apply failed despite Z3 SAT")),
        },
        SolverVerdict::Unsat => TypeCheckResult::Invalid(
            String::from_str("Z3 SMT solver returned UNSAT: Constraint violation"),
        ),
        SolverVerdict::Unknown => TypeCheckResult::Invalid(String::from_str("Z3 SMT returned UNKNOWN")),
    }
}

/// The outcome of a derivation from step `i` on, the current type being `current`:
/// the first failing step's outcome, else the last step's result.
pub open spec fn derivation_from(
    steps: Seq<(ModalType, ModalType, bool)>,
    verdicts: Seq<SolverVerdict>,
    i: int,
    current: ModalType,
) -> CheckView
    decreases steps.len() - i,
{
    if i >= steps.len() || i < 0 {
        CheckView::Valid(current)
    } else {
        match application_outcome(steps[i].0, verdicts[i]) {
            CheckView::Valid(next) => derivation_from(steps, verdicts, i + 1, next),
            err => err,
        }
    }
}

/// The outcome of a whole derivation.
pub open spec fn derivation_outcome(steps: Seq<(ModalType, ModalType, bool)>, verdicts: Seq<SolverVerdict>) -> CheckView {
    if steps.len() == 0 {
        CheckView::Invalid(msg_empty())
    } else {
        derivation_from(steps, verdicts, 0, steps[0].0)
    }
}

/// Check a derivation of `(functor, argument, argument is right)` steps,
/// `verdicts[i]` being the solver's answer for step `i`.
pub fn check_derivation(steps: &[(ModalType, ModalType, bool)], verdicts: &[SolverVerdict]) -> (r:
    TypeCheckResult)
    requires
        verdicts@.len() == steps@.len(),
    ensures
        r@ == derivation_outcome(steps@, verdicts@),
{
    if steps.len() == 0 {
        return TypeCheckResult::Invalid(String::from_str("empty derivation"));
    }
    let mut current = steps[0].0;
    let n = steps.len();
    let mut i: usize = 0;
    while i < n
        invariant
            n == steps@.len(),
            n == verdicts@.len(),
            n > 0,
            i <= n,
            derivation_from(steps@, verdicts@, i as int, current) == derivation_outcome(steps@, verdicts@),
        decreases n - i,
    {
        let (functor, arg, side) = steps[i];
        let r = check_application(functor, arg, side, verdicts[i]);
        match r {
            TypeCheckResult::Valid(next) => {
                current = next;
            },
            TypeCheckResult::Invalid(_) => {
                return r;
            },
        }
        i = i + 1;
    }
    TypeCheckResult::Valid(current)
}

/// Step `j` of a derivation succeeds on its own.
pub open spec fn step_ok(steps: Seq<(ModalType, ModalType, bool)>, verdicts: Seq<SolverVerdict>, j: int) -> bool {
    application_outcome(steps[j].0, verdicts[j]) is Valid
}

proof fn lemma_derivation_from(
    steps: Seq<(ModalType, ModalType, bool)>,
    verdicts: Seq<SolverVerdict>,
    i: int,
    current: ModalType,
)
    requires
        0 <= i < steps.len(),
        verdicts.len() == steps.len(),
    ensures
        (derivation_from(steps, verdicts, i, current) is Valid) <==> (forall|j: int|
            i <= j < steps.len() ==> #[trigger] step_ok(steps, verdicts, j)),
        (forall|j: int| i <= j < steps.len() ==> #[trigger] step_ok(steps, verdicts, j))
            ==> derivation_from(steps, verdicts, i, current) == application_outcome(
            steps[steps.len() - 1].0,
            verdicts[steps.len() - 1],
        ),
        forall|k: int|
            i <= k < steps.len() && !#[trigger] step_ok(steps, verdicts, k) && (forall|j: int|
                i <= j < k ==> step_ok(steps, verdicts, j)) ==> derivation_from(steps, verdicts, i, current)
                == application_outcome(steps[k].0, verdicts[k]),
    decreases steps.len() - i,
{
    match application_outcome(steps[i].0, verdicts[i]) {
        CheckView::Valid(next) => {
            if i + 1 < steps.len() {
                lemma_derivation_from(steps, verdicts, i + 1, next);
                assert forall|k: int|
                    i <= k < steps.len() && !#[trigger] step_ok(steps, verdicts, k) && (forall|j: int|
                        i <= j < k ==> step_ok(steps, verdicts, j)) implies derivation_from(steps, verdicts, i, current)
                        == application_outcome(steps[k].0, verdicts[k]) by {
                    assert(k != i);
                }
                if derivation_from(steps, verdicts, i, current) is Valid {
                    assert forall|j: int| i <= j < steps.len() implies #[trigger] step_ok(steps, verdicts, j) by {
                        if j > i {
                        }
                    }
                }
            } else {
                assert(derivation_from(steps, verdicts, i + 1, next) == CheckView::Valid(next));
            }
        },
        _ => {
            assert(!step_ok(steps, verdicts, i));
        },
    }
}

/// A derivation is checked step by step: with no step it is refused as
/// empty; otherwise it is valid exactly when every step is, a valid result
/// is what the last step gives, and a refusal is that of the first step
/// that fails.
pub proof fn law_derivation_steps(steps: Seq<(ModalType, ModalType, bool)>, verdicts: Seq<SolverVerdict>)
    requires
        verdicts.len() == steps.len(),
    ensures
        steps.len() == 0 ==> derivation_outcome(steps, verdicts) == CheckView::Invalid(msg_empty()),
        steps.len() > 0 ==> ((derivation_outcome(steps, verdicts) is Valid) <==> (forall|j: int|
            0 <= j < steps.len() ==> #[trigger] step_ok(steps, verdicts, j))),
        steps.len() > 0 && (forall|j: int| 0 <= j < steps.len() ==> #[trigger] step_ok(steps, verdicts, j))
            ==> derivation_outcome(steps, verdicts) == application_outcome(
            steps[steps.len() - 1].0,
            verdicts[steps.len() - 1],
        ),
        forall|k: int|
            0 <= k < steps.len() && !#[trigger] step_ok(steps, verdicts, k) && (forall|j: int|
                0 <= j < k ==> step_ok(steps, verdicts, j)) ==> derivation_outcome(steps, verdicts)
                == application_outcome(steps[k].0, verdicts[k]),
{
    if steps.len() > 0 {
        lemma_derivation_from(steps, verdicts, 0, steps[0].0);
    }
}

/// The outcome of checking that two box-mode functors share one argument.
pub open spec fn box_sharing_outcome(a: ModalType, b: ModalType) -> CheckView {
    if a.mode != ModalMode::Box || b.mode != ModalMode::Box {
        CheckView::Invalid(msg_box_modes())
    } else {
        match (spec_apply(a), spec_apply(b)) {
            (Some(ra), Some(rb)) => if ra.mode == rb.mode {
                CheckView::Valid(ra)
            } else {
                CheckView::Invalid(msg_box_diverge())
            },
            _ => CheckView::Invalid(msg_box_saturated()),
        }
    }
}

fn is_box(m: ModalMode) -> (r: bool)
    ensures
        r == (m == ModalMode::Box),
{
    match m {
        ModalMode::Box => true,
        _ => false,
    }
}

/// Validate a box-mode (sharing) application: both functors are in box
/// mode, neither is saturated, and their results agree in mode.
pub fn check_box_sharing(functor_a: ModalType, functor_b: ModalType, shared_arg: ModalType) -> (r:
    TypeCheckResult)
    ensures
        r@ == box_sharing_outcome(functor_a, functor_b),
{
    if !is_box(functor_a.mode) || !is_box(functor_b.mode) {
        return TypeCheckResult::Invalid(String::from_str("box sharing requires both functors in □ mode"));
    }
    match (functor_a.apply(), functor_b.apply()) {
        (Some(ra), Some(rb)) => if crate::types::mode_eq(ra.mode, rb.mode) {
            TypeCheckResult::Valid(ra)
        } else {
            TypeCheckResult::Invalid(String::from_str("Z3 SMT UNSAT: □-sharing result types diverge logically"))
        },
        _ => TypeCheckResult::Invalid(String::from_str("box sharing: one functor is structurally saturated")),
    }
}

/// `src node <src> not in Z3 environment`
pub open spec fn missing_source_message(src: u64) -> Seq<char> {
    "src node "@ + decimal(src as nat) + " not in Z3 environment"@
}

/// `edge (<src>→<dst>): Z3 SMT proves mode contradiction`
pub open spec fn mode_contradiction_message(src: u64, dst: u64) -> Seq<char> {
    "edge ("@ + decimal(src as nat) + "→"@ + decimal(dst as nat) + "): Z3 SMT proves mode contradiction"@
}

/// `edge (<src>→<dst>): structural SMT directional violation`
pub open spec fn direction_message(src: u64, dst: u64) -> Seq<char> {
    "edge ("@ + decimal(src as nat) + "→"@ + decimal(dst as nat) + "): structural SMT directional violation"@
}

/// The errors of one typed edge `(src, dst, mode, dst_is_right)`, given the
/// solver's verdict on the source's mode equalling the edge's: a source with
/// no type is reported alone; otherwise an `Unsat` verdict is a mode
/// contradiction, and a side that differs from the source's direction is a
/// directional violation.
pub open spec fn edge_errors(
    nodes: Map<u64, ModalType>,
    e: (u64, u64, ModalMode, bool),
    verdict: SolverVerdict,
) -> Seq<Seq<char>> {
    if !nodes.contains_key(e.0) {
        seq![missing_source_message(e.0)]
    } else {
        (if verdict == SolverVerdict::Unsat {
            seq![mode_contradiction_message(e.0, e.1)]
        } else {
            Seq::empty()
        }) + (if (nodes[e.0].direction == Direction::Right) != e.3 {
            seq![direction_message(e.0, e.1)]
        } else {
            Seq::empty()
        })
    }
}

/// The errors of the first `n` edges, in order.
pub open spec fn mode_errors(
    nodes: Map<u64, ModalType>,
    edges: Seq<(u64, u64, ModalMode, bool)>,
    verdicts: Seq<SolverVerdict>,
    n: int,
) -> Seq<Seq<char>>
    decreases n,
{
    if n <= 0 {
        Seq::empty()
    } else {
        mode_errors(nodes, edges, verdicts, n - 1) + edge_errors(nodes, edges[n - 1], verdicts[n - 1])
    }
}

fn edge_prefix(src: u64, dst: u64) -> (s: String)
    ensures
        s@ == "edge ("@ + decimal(src as nat) + "→"@ + decimal(dst as nat),
{
    let mut s = String::from_str("edge (");
    push_decimal(&mut s, src);
    s.append("→");
    push_decimal(&mut s, dst);
    proof {
        reveal_strlit("edge (");
        reveal_strlit("→");
    }
    s
}

/// Mode consistency of typed edges `(src, dst, edge mode, dst is right of
/// src)` over the node types `nodes`; `verdicts[i]` is the solver's answer on
/// the mode of edge `i`'s source equalling the edge's mode. Returns every
/// error, edge by edge.
pub fn mode_consistency_errors(
    nodes: &HashMap<u64, ModalType>,
    edges: &[(u64, u64, ModalMode, bool)],
    verdicts: &[SolverVerdict],
) -> (r: Vec<String>)
    requires
        verdicts@.len() == edges@.len(),
    ensures
        r@.map_values(|x: String| x@) == mode_errors(nodes@, edges@, verdicts@, edges@.len() as int),
{
    broadcast use vstd::std_specs::hash::group_hash_axioms;

    let mut out: Vec<String> = Vec::new();
    let n = edges.len();
    let mut i: usize = 0;
    while i < n
        invariant
            n == edges@.len(),
            n == verdicts@.len(),
            i <= n,
            out@.map_values(|x: String| x@) == mode_errors(nodes@, edges@, verdicts@, i as int),
        decreases n - i,
    {
        let (src, dst, _mode, dst_is_right) = edges[i];
        let ghost before = out@.map_values(|x: String| x@);
        match nodes.get(&src) {
            None => {
                let mut m = String::from_str("src node ");
                push_decimal(&mut m, src);
                m.append(" not in Z3 environment");
                proof {
                    reveal_strlit("src node ");
                    reveal_strlit(" not in Z3 environment");
                }
                out.push(m);
                proof {
                    assert(out@.map_values(|x: String| x@) =~= before + seq![missing_source_message(src)]);
                }
            },
            Some(t) => {
                let ghost mid = before;
                if verdicts[i] == SolverVerdict::Unsat {
                    let mut m = edge_prefix(src, dst);
                    m.append("): Z3 SMT proves mode contradiction");
                    proof {
                        reveal_strlit("): Z3 SMT proves mode contradiction");
                    }
                    out.push(m);
                    proof {
                        assert(out@.map_values(|x: String| x@) =~= before + seq![mode_contradiction_message(src, dst)]);
                    }
                }
                let ghost mid2 = out@.map_values(|x: String| x@);
                let right = match t.direction {
                    Direction::Right => true,
                    Direction::Left => false,
                };
                if right != dst_is_right {
                    let mut m = edge_prefix(src, dst);
                    m.append("): structural SMT directional violation");
                    proof {
                        reveal_strlit("): structural SMT directional violation");
                    }
                    out.push(m);
                    proof {
                        assert(out@.map_values(|x: String| x@) =~= mid2 + seq![direction_message(src, dst)]);
                    }
                }
                proof {
                    let e = edges@[i as int];
                    assert(out@.map_values(|x: String| x@) =~= before + edge_errors(nodes@, e, verdicts@[i as int]));
                }
            },
        }
        i = i + 1;
    }
    out
}

} // verus!
