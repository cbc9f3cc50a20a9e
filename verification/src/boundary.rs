//! Which grammar rules define token boundaries, and of which kind.

use vstd::prelude::*;
use crate::types::ModalMode;
use crate::semantics::TypedFact;

verus! {

/// Whether characters merge into one token or a boundary falls between them.
#[derive(Clone, Copy, Debug, PartialEq, Eq, Structural)]
pub enum BoundaryType {
    /// Characters should merge into a single token.
    Merge,
    /// A token boundary should be placed here.
    Split,
}

/// A leaf-level (character or byte) fact: diamond mode and category at most 2.
pub open spec fn spec_is_leaf_fact(f: TypedFact) -> bool {
    f.mode == ModalMode::Diamond && f.category.0 <= 2
}

/// Whether `f` is a leaf-level fact.
pub fn is_leaf_fact(f: &TypedFact) -> (r: bool)
    ensures
        r == spec_is_leaf_fact(*f),
{
    match f.mode {
        ModalMode::Diamond => f.category.0 <= 2,
        _ => false,
    }
}

/// A rule defines a boundary when it has at least two antecedents, all of
/// them leaf facts, and an assigned consequent category.
pub open spec fn spec_is_boundary_rule(antecedents: Seq<TypedFact>, consequent: TypedFact) -> bool {
    &&& antecedents.len() >= 2
    &&& forall|i: int| 0 <= i < antecedents.len() ==> spec_is_leaf_fact(#[trigger] antecedents[i])
    &&& consequent.category.0 > 0
}

/// Whether the rule `antecedents => consequent` defines a boundary.
pub fn is_boundary_rule(antecedents: &[TypedFact], consequent: TypedFact) -> (r: bool)
    ensures
        r == spec_is_boundary_rule(antecedents@, consequent),
{
    if antecedents.len() < 2 {
        return false;
    }
    let n = antecedents.len();
    let mut i: usize = 0;
    while i < n
        invariant
            n == antecedents@.len(),
            i <= n,
            forall|j: int| 0 <= j < i ==> spec_is_leaf_fact(#[trigger] antecedents@[j]),
        decreases n - i,
    {
        if !is_leaf_fact(&antecedents[i]) {
            return false;
        }
        i = i + 1;
    }
    consequent.category.0 > 0
}

/// A diamond consequent merges; any other mode splits.
pub open spec fn spec_boundary_type(consequent: TypedFact) -> BoundaryType {
    if consequent.mode == ModalMode::Diamond {
        BoundaryType::Merge
    } else {
        BoundaryType::Split
    }
}

/// The kind of boundary that a rule with this consequent defines.
pub fn infer_boundary_type(consequent: TypedFact) -> (r: BoundaryType)
    ensures
        r == spec_boundary_type(consequent),
{
    match consequent.mode {
        ModalMode::Diamond => BoundaryType::Merge,
        _ => BoundaryType::Split,
    }
}

} // verus!
