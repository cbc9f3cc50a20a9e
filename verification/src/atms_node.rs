//! Horn-clause ATMS node.
//! Base-layer invariant: the label of a node is one minimal environment.
//! A second derivation is accepted only if it is strictly cheaper (fewer assumptions).

use vstd::prelude::*;
use crate::types::{NodeId, Env};
use crate::env::{subsumes, spec_subsumes, env_set};

verus! {

#[derive(Clone, Copy, Debug, PartialEq, Eq, Structural)]
pub enum NodeKind {
    Assumption,
    Derived,
}

#[derive(Clone, Debug)]
pub struct BaseNode {
    pub id: NodeId,
    pub kind: NodeKind,
    pub label: Option<Env>,
}

/// The node holds in `active_env`: it has a label and the label subsumes `active_env`.
pub open spec fn spec_is_active_in(label: Option<Env>, active_env: Env) -> bool {
    match label {
        Some(l) => spec_subsumes(l, active_env),
        None => false,
    }
}

/// Whether `env` replaces `label`: no label yet, or `env` is a strict subset of it.
pub open spec fn accepts_label(label: Option<Env>, env: Env) -> bool {
    match label {
        None => true,
        Some(existing) => spec_subsumes(env, existing) && env != existing,
    }
}

impl BaseNode {
    /// An assumption node, labelled with the singleton environment of its bit.
    pub fn assumption(id: NodeId, env_bit: u8) -> (r: BaseNode)
        requires
            env_bit < 64,
        ensures
            r.id == id,
            r.kind == NodeKind::Assumption,
            r.label == Some(1u64 << (env_bit as u64)),
            env_set(r.label.unwrap()) == Set::<u64>::empty().insert(env_bit as u64),
    {
        let env = crate::env::singleton(env_bit);
        BaseNode { id, kind: NodeKind::Assumption, label: Some(env) }
    }

    /// A derived node with no label yet.
    pub fn derived(id: NodeId) -> (r: BaseNode)
        ensures
            r.id == id,
            r.kind == NodeKind::Derived,
            r.label.is_none(),
    {
        BaseNode { id, kind: NodeKind::Derived, label: None }
    }

    /// The node is labelled and its label subsumes `active_env`.
    pub fn is_active_in(&self, active_env: Env) -> (r: bool)
        ensures
            r == spec_is_active_in(self.label, active_env),
    {
        match self.label {
            Some(l) => subsumes(l, active_env),
            None => false,
        }
    }

    /// Update the label under Horn-clause monotonicity: accept when unlabelled,
    /// or when `env` is a strict subset of the current label (a cheaper proof).
    /// Returns true exactly when the stored label changes.
    pub fn set_label(&mut self, env: Env) -> (changed: bool)
        ensures
            changed == accepts_label(old(self).label, env),
            final(self).label == (if changed { Some(env) } else { old(self).label }),
            final(self).id == old(self).id,
            final(self).kind == old(self).kind,
    {
        match self.label {
            None => {
                self.label = Some(env);
                true
            },
            Some(existing) => {
                if subsumes(env, existing) && env != existing {
                    self.label = Some(env);
                    true
                } else {
                    false
                }
            },
        }
    }
}

/// A label, once set, only ever shrinks: whatever `set_label` does, the new
/// label subsumes the old one, and setting the same environment twice changes
/// nothing the second time.
pub proof fn law_label_only_shrinks(label: Option<Env>, env: Env)
    ensures
        label.is_some() && accepts_label(label, env) ==> spec_subsumes(env, label.unwrap()),
        !accepts_label(Some(env), env),
        accepts_label(label, env) ==> !accepts_label(Some(env), env),
{
}

} // verus!
