//! Modal data tracked per equivalence class of composed expressions, and
//! the canonical mode and category of a composition path. Modes are ordered
//! Lozenge > Box > Diamond.

use vstd::prelude::*;
use crate::types::{ModalMode, TypeCategory};
use crate::type_normalizer::mode_rank;

verus! {

/// The mode and category of an equivalence class.
#[derive(Clone, Copy, Debug, PartialEq, Eq, Structural)]
pub struct ModalData {
    pub mode: ModalMode,
    pub category: TypeCategory,
}

/// Diamond mode, unassigned category.
pub open spec fn default_data() -> ModalData {
    ModalData { mode: ModalMode::Diamond, category: TypeCategory(0) }
}

/// The merge of two classes' data: a component on which they disagree falls
/// back to its default (Diamond, category 0).
pub open spec fn join_spec(a: ModalData, b: ModalData) -> ModalData {
    ModalData {
        mode: if a.mode != b.mode {
            ModalMode::Diamond
        } else {
            a.mode
        },
        category: if a.category != b.category {
            TypeCategory(0)
        } else {
            a.category
        },
    }
}

/// The operands disagree on some component.
pub open spec fn join_changes(a: ModalData, b: ModalData) -> bool {
    a.mode != b.mode || a.category != b.category
}

/// The shape of an expression node, as far as modal data depends on it.
#[derive(Clone, Copy, Debug, PartialEq, Eq, Structural)]
pub enum NodeShape {
    DiamondApp,
    BoxApp,
    LozengeApp,
    Pred,
    Lam,
    Leaf,
}

/// Data of a node from its shape, its first child's data and its last child's data:
/// applications take their mode and the functor's category; predicates take
/// the functor's mode; abstractions take their body's data.
pub open spec fn make_spec(shape: NodeShape, first: ModalData, last: ModalData) -> ModalData {
    match shape {
        NodeShape::DiamondApp => ModalData { mode: ModalMode::Diamond, category: first.category },
        NodeShape::BoxApp => ModalData { mode: ModalMode::Box, category: first.category },
        NodeShape::LozengeApp => ModalData { mode: ModalMode::Lozenge, category: first.category },
        NodeShape::Pred => ModalData { mode: first.mode, category: TypeCategory(0) },
        NodeShape::Lam => last,
        NodeShape::Leaf => default_data(),
    }
}

impl ModalData {
    /// Merge `b` into `a`; returns whether `a` changed and whether it differs
    /// from `b`, which the join makes the same flag.
    pub fn join(a: &mut ModalData, b: ModalData) -> (r: (bool, bool))
        ensures
            *final(a) == join_spec(*old(a), b),
            r == (join_changes(*old(a), b), join_changes(*old(a), b)),
    {
        let changed_mode = !crate::types::mode_eq(a.mode, b.mode);
        let changed_cat = a.category.0 != b.category.0;
        if changed_mode {
            a.mode = ModalMode::Diamond;
        }
        if changed_cat {
            a.category = TypeCategory(0);
        }
        (changed_mode || changed_cat, changed_mode || changed_cat)
    }

    /// Data of a node of shape `shape` whose first child has `first` and
    /// last child has `last` (any value for a leaf).
    pub fn make(shape: NodeShape, first: ModalData, last: ModalData) -> (r: ModalData)
        ensures
            r == make_spec(shape, first, last),
    {
        match shape {
            NodeShape::DiamondApp => ModalData { mode: ModalMode::Diamond, category: first.category },
            NodeShape::BoxApp => ModalData { mode: ModalMode::Box, category: first.category },
            NodeShape::LozengeApp => ModalData { mode: ModalMode::Lozenge, category: first.category },
            NodeShape::Pred => ModalData { mode: first.mode, category: TypeCategory(0) },
            NodeShape::Lam => last,
            NodeShape::Leaf => ModalData { mode: ModalMode::Diamond, category: TypeCategory(0) },
        }
    }
}

/// The merge is commutative in its value and idempotent; merging equal data
/// changes nothing.
pub proof fn law_join_commutative_idempotent(a: ModalData, b: ModalData)
    ensures
        join_spec(a, b) == join_spec(b, a),
        join_spec(a, a) == a,
        !join_changes(a, a),
        join_changes(a, b) == join_changes(b, a),
{
}

/// The higher-ranked of two modes.
pub open spec fn max_mode(a: ModalMode, b: ModalMode) -> ModalMode {
    if mode_rank(a) >= mode_rank(b) {
        a
    } else {
        b
    }
}

/// The highest-ranked mode of a path, Diamond for an empty one.
pub open spec fn path_mode(path: Seq<(ModalMode, TypeCategory)>) -> ModalMode
    decreases path.len(),
{
    if path.len() == 0 {
        ModalMode::Diamond
    } else {
        max_mode(path_mode(path.drop_last()), path.last().0)
    }
}

/// The first assigned category of a path, category 0 when none is assigned.
pub open spec fn path_category(path: Seq<(ModalMode, TypeCategory)>) -> TypeCategory
    decreases path.len(),
{
    if path.len() == 0 {
        TypeCategory(0)
    } else if path[0].1.0 != 0 {
        path[0].1
    } else {
        path_category(path.drop_first())
    }
}

fn rank_of(m: ModalMode) -> (r: u8)
    ensures
        r == mode_rank(m),
{
    match m {
        ModalMode::Diamond => 0,
        ModalMode::Box => 1,
        ModalMode::Lozenge => 2,
    }
}

/// Knuth-Bendix normal form of a composition path: the highest-ranked mode
/// on the path and its first assigned category. `None` for paths shorter
/// than two hops.
pub fn canonicalize_path(path: &[(ModalMode, TypeCategory)]) -> (r: Option<(ModalMode, TypeCategory)>)
    ensures
        path@.len() < 2 ==> r is None,
        path@.len() >= 2 ==> r == Some((path_mode(path@), path_category(path@))),
{
    if path.len() < 2 {
        return None;
    }
    let n = path.len();
    let mut mode = ModalMode::Diamond;
    let mut i: usize = 0;
    while i < n
        invariant
            n == path@.len(),
            i <= n,
            mode == path_mode(path@.subrange(0, i as int)),
        decreases n - i,
    {
        let m = path[i].0;
        proof {
            assert(path@.subrange(0, i + 1).drop_last() =~= path@.subrange(0, i as int));
        }
        if rank_of(m) > rank_of(mode) {
            mode = m;
        }
        i = i + 1;
    }
    proof {
        assert(path@.subrange(0, n as int) =~= path@);
    }
    let mut category = TypeCategory(0);
    let mut j: usize = n;
    while j > 0
        invariant
            n == path@.len(),
            j <= n,
            category == path_category(path@.subrange(j as int, n as int)),
        decreases j,
    {
        j = j - 1;
        proof {
            let s = path@.subrange(j as int, n as int);
            assert(s.drop_first() =~= path@.subrange(j + 1, n as int));
            assert(s[0] == path@[j as int]);
        }
        if path[j].1.0 != 0 {
            category = path[j].1;
        }
    }
    proof {
        assert(path@.subrange(0, n as int) =~= path@);
    }
    Some((mode, category))
}

/// The canonical mode of a path is on the path and no mode on it ranks higher.
pub proof fn law_path_mode_is_max(path: Seq<(ModalMode, TypeCategory)>)
    requires
        path.len() >= 1,
    ensures
        exists|i: int| 0 <= i < path.len() && path[i].0 == path_mode(path),
        forall|i: int| 0 <= i < path.len() ==> mode_rank(#[trigger] path[i].0) <= mode_rank(path_mode(path)),
    decreases path.len(),
{
    let n = path.len() - 1;
    if path.len() == 1 {
        assert(path.drop_last().len() == 0);
        assert(path[0].0 == path_mode(path));
    } else {
        let rest = path.drop_last();
        law_path_mode_is_max(rest);
        let i = choose|i: int| 0 <= i < rest.len() && rest[i].0 == path_mode(rest);
        if mode_rank(path_mode(rest)) >= mode_rank(path[n].0) {
            assert(path[i].0 == path_mode(path));
        } else {
            assert(path[n].0 == path_mode(path));
        }
        assert forall|k: int| 0 <= k < path.len() implies mode_rank(#[trigger] path[k].0) <= mode_rank(
            path_mode(path),
        ) by {
            if k < n {
                assert(rest[k] == path[k]);
            }
        }
    }
}

} // verus!
