//! The modal fields of the line protocol: a mode named by a string, a
//! category and an arity, read into a modal type.

use vstd::prelude::*;
use crate::types::{ModalMode, ModalType, TypeCategory, Direction};

verus! {

/// The mode that a protocol string names: "box" and "lozenge" name their
/// modes; any other string, or none, names diamond.
pub open spec fn mode_named(s: Option<Seq<char>>) -> ModalMode {
    match s {
        Some(t) => if t == "box"@ {
            ModalMode::Box
        } else if t == "lozenge"@ {
            ModalMode::Lozenge
        } else {
            ModalMode::Diamond
        },
        None => ModalMode::Diamond,
    }
}

/// The view of an optional string.
pub open spec fn opt_view(s: Option<&str>) -> Option<Seq<char>> {
    match s {
        Some(t) => Some(t@),
        None => None,
    }
}

/// Read a mode from its protocol string.
pub fn parse_mode(s: Option<&str>) -> (r: ModalMode)
    ensures
        r == mode_named(opt_view(s)),
{
    match s {
        Some(t) => {
            let name = t.to_owned();
            if name == "box".to_owned() {
                ModalMode::Box
            } else if name == "lozenge".to_owned() {
                ModalMode::Lozenge
            } else {
                ModalMode::Diamond
            }
        },
        None => ModalMode::Diamond,
    }
}

/// The modal type of a protocol node: its mode, its category (0 when none is
/// given) and its arity (0 when none is given), taking arguments on the
/// right.
pub fn wire_modal_type(mode: Option<&str>, cat: Option<u32>, arity: Option<u8>) -> (r: ModalType)
    ensures
        r == (ModalType {
            mode: mode_named(opt_view(mode)),
            category: TypeCategory(
                match cat {
                    Some(c) => c,
                    None => 0,
                },
            ),
            arity: match arity {
                Some(a) => a,
                None => 0,
            },
            direction: Direction::Right,
        }),
{
    let m = parse_mode(mode);
    let c = match cat {
        Some(c) => TypeCategory(c),
        None => TypeCategory(0),
    };
    let a: u8 = match arity {
        Some(a) => a,
        None => 0,
    };
    if a > 0 {
        ModalType::functor(m, c, a, Direction::Right)
    } else {
        ModalType::atom(m, c)
    }
}

} // verus!
