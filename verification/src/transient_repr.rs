//! Transient representations: semantic content scoped to a context. A
//! representation is active while its context is open; popping the context
//! dissolves it. The attribution trace that a representation carries into
//! the graph is kept beside it by the caller, under the representation's id.

use vstd::prelude::*;
use crate::types::{NodeId, ContextId, ModalType, Env};
use crate::classes::{Lifecycle, Granularity};

verus! {

/// `serde_json::Value`, declared so that structured content can be carried;
/// it is opaque here, and nothing is assumed of its values.
#[verifier::external_type_specification]
#[verifier::external_body]
pub struct ExJsonValue(serde_json::Value);

/// The semantic content of a transient representation.
#[derive(Debug)]
pub enum RepContent {
    /// A lambda expression, as text.
    Lambda(String),
    /// A discourse update: new referents and conditions.
    DrsUpdate { referents: Vec<String>, conditions: Vec<String> },
    /// A structured output (code, query, ...), carried through unread.
    Structured(serde_json::Value),
}

/// A transient representation.
#[derive(Debug)]
pub struct Tr {
    pub id: u64,
    pub context_id: ContextId,
    pub content: RepContent,
    pub lifecycle: Lifecycle,
    pub atms_env: Env,
    /// Nodes whose derivations contributed to this representation, each once.
    pub provenance: Vec<NodeId>,
    pub mtlg_type: ModalType,
    pub granularity: Granularity,
}

impl Tr {
    /// A new active representation with no provenance.
    pub fn new(
        id: u64,
        context_id: ContextId,
        content: RepContent,
        atms_env: Env,
        mtlg_type: ModalType,
        granularity: Granularity,
    ) -> (r: Tr)
        ensures
            r.id == id,
            r.context_id == context_id,
            r.content == content,
            r.lifecycle == Lifecycle::Active,
            r.atms_env == atms_env,
            r.provenance@ == Seq::<NodeId>::empty(),
            r.mtlg_type == mtlg_type,
            r.granularity == granularity,
    {
        Tr {
            id,
            context_id,
            content,
            lifecycle: Lifecycle::Active,
            atms_env,
            provenance: Vec::new(),
            mtlg_type,
            granularity,
        }
    }

    /// Begin dissolution: the representation is dissolving, nothing else changes.
    pub fn begin_dissolve(&mut self)
        ensures
            *final(self) == (Tr { lifecycle: Lifecycle::Dissolving, ..*old(self) }),
    {
        self.lifecycle = Lifecycle::Dissolving;
    }

    /// Complete dissolution: the representation no longer holds in its context.
    pub fn complete_dissolve(&mut self)
        ensures
            *final(self) == (Tr { lifecycle: Lifecycle::Dissolved, ..*old(self) }),
    {
        self.lifecycle = Lifecycle::Dissolved;
    }

    pub fn is_active(&self) -> (r: bool)
        ensures
            r == (self.lifecycle == Lifecycle::Active),
    {
        match self.lifecycle {
            Lifecycle::Active => true,
            _ => false,
        }
    }

    /// Record that `node_id` contributed, unless it already did.
    pub fn add_provenance(&mut self, node_id: NodeId)
        ensures
            final(self).provenance@ == (if old(self).provenance@.contains(node_id) {
                old(self).provenance@
            } else {
                old(self).provenance@.push(node_id)
            }),
            *final(self) == (Tr { provenance: final(self).provenance, ..*old(self) }),
    {
        let n = self.provenance.len();
        let mut i: usize = 0;
        while i < n
            invariant
                n == self.provenance@.len(),
                i <= n,
                forall|j: int| 0 <= j < i ==> self.provenance@[j] != node_id,
            decreases n - i,
        {
            if self.provenance[i] == node_id {
                return ;
            }
            i = i + 1;
        }
        self.provenance.push(node_id);
    }
}

} // verus!
