//! Identifiers and modal types shared by every part of the engine.

use vstd::prelude::*;

verus! {

/// Identifier of a graph node.
pub type NodeId = u64;

/// Identifier of a graph edge.
pub type EdgeId = u64;

/// Identifier of a context frame.
pub type ContextId = u64;

/// Identifier of a transient relative domain.
pub type TRDId = u32;

/// Identifier of an infon.
pub type InfonId = u64;

/// An assumption environment: bit `b` set means assumption `b` holds.
pub type Env = u64;

/// The three composition modes of the modal type logic.
#[derive(Clone, Copy, Debug, PartialEq, Eq, Hash, Structural)]
pub enum ModalMode {
    Diamond,
    Box,
    Lozenge,
}

/// Side on which a functor takes its argument.
#[derive(Clone, Copy, Debug, PartialEq, Eq, Hash, Structural)]
pub enum Direction {
    Left,
    Right,
}

/// A discovered type category; category 0 is the unassigned default.
#[derive(Clone, Copy, Debug, PartialEq, Eq, Hash, Structural)]
pub struct TypeCategory(pub u32);

impl TypeCategory {
    pub fn is_assigned(self) -> (r: bool)
        ensures
            r == (self.0 != 0),
    {
        self.0 != 0
    }

    pub fn id(self) -> (r: u32)
        ensures
            r == self.0,
    {
        self.0
    }
}

/// A modal type: mode, category, number of arguments still expected, and the
/// side on which the next argument is taken.
#[derive(Clone, Copy, Debug, PartialEq, Eq, Hash, Structural)]
pub struct ModalType {
    pub mode: ModalMode,
    pub category: TypeCategory,
    pub arity: u8,
    pub direction: Direction,
}

/// The type that results from one application, if the type still expects an argument.
pub open spec fn spec_apply(t: ModalType) -> Option<ModalType> {
    if t.arity > 0 {
        Some(ModalType { arity: (t.arity - 1) as u8, ..t })
    } else {
        None
    }
}

/// Whether `f` can take `arg` on the given side.
pub open spec fn spec_compatible(f: ModalType, arg: ModalType, arg_is_right: bool) -> bool {
    &&& f.arity > 0
    &&& f.mode == arg.mode
    &&& (f.direction == Direction::Right) == arg_is_right
}

impl ModalType {
    /// A saturated (zero-arity) type taking arguments on the right.
    pub fn atom(mode: ModalMode, category: TypeCategory) -> (r: ModalType)
        ensures
            r == (ModalType { mode, category, arity: 0, direction: Direction::Right }),
    {
        ModalType { mode, category, arity: 0, direction: Direction::Right }
    }

    /// A functor type expecting `arity` arguments on side `direction`.
    pub fn functor(mode: ModalMode, category: TypeCategory, arity: u8, direction: Direction) -> (r:
        ModalType)
        ensures
            r == (ModalType { mode, category, arity, direction }),
    {
        ModalType { mode, category, arity, direction }
    }

    /// Apply the type to one argument: the arity drops by one.
    pub fn apply(self) -> (r: Option<ModalType>)
        ensures
            r == spec_apply(self),
    {
        if self.arity > 0 {
            Some(ModalType { arity: self.arity - 1, ..self })
        } else {
            None
        }
    }

    /// Whether `self` can take `arg` on the given side.
    pub fn compatible_with(self, arg: ModalType, arg_is_right: bool) -> (r: bool)
        ensures
            r == spec_compatible(self, arg, arg_is_right),
    {
        let dir_right = match self.direction {
            Direction::Right => true,
            Direction::Left => false,
        };
        self.arity > 0 && mode_eq(self.mode, arg.mode) && dir_right == arg_is_right
    }
}

/// Mode equality, decided by variant.
pub fn mode_eq(a: ModalMode, b: ModalMode) -> (r: bool)
    ensures
        r == (a == b),
{
    match (a, b) {
        (ModalMode::Diamond, ModalMode::Diamond) => true,
        (ModalMode::Box, ModalMode::Box) => true,
        (ModalMode::Lozenge, ModalMode::Lozenge) => true,
        _ => false,
    }
}

/// The default type: a saturated, unassigned diamond atom.
pub open spec fn spec_default_type() -> ModalType {
    ModalType {
        mode: ModalMode::Diamond,
        category: TypeCategory(0),
        arity: 0,
        direction: Direction::Right,
    }
}

impl Default for ModalType {
    fn default() -> (r: ModalType)
        ensures
            r == spec_default_type(),
    {
        ModalType {
            mode: ModalMode::Diamond,
            category: TypeCategory(0),
            arity: 0,
            direction: Direction::Right,
        }
    }
}

} // verus!
