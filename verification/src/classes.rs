//! Discovered node and edge classes, and the phases that transient
//! representations and attributions go through.

use vstd::prelude::*;

verus! {

/// A discovered node class; class 0 is the unassigned default.
#[derive(Clone, Copy, Debug, PartialEq, Eq, Hash, Structural, Default)]
pub struct NodeClass(pub u32);

impl NodeClass {
    /// Whether a class was assigned (the class is not 0).
    pub fn is_assigned(self) -> (r: bool)
        ensures
            r == (self.0 != 0),
    {
        self.0 != 0
    }
}

/// A discovered edge class; class 0 is the default.
#[derive(Clone, Copy, Debug, PartialEq, Eq, Hash, Structural, Default)]
pub struct EdgeClass(pub u32);

/// Lifecycle of a transient representation: active while its context is
/// open, dissolving on pop, dissolved once its trace has been applied.
#[derive(Clone, Copy, Debug, PartialEq, Eq, Structural)]
pub enum Lifecycle {
    Active,
    Dissolving,
    Dissolved,
}

/// Granularity of the semantic content of a transient representation.
#[derive(Clone, Copy, Debug, PartialEq, Eq, Structural)]
pub enum Granularity {
    /// A lambda term read as a proposition.
    Sentence,
    /// A discourse update binding variables across representations.
    Discourse,
    /// Spans several sentences; attribution waits for the end of the passage.
    Passage,
}

/// Phase of attribution for an (edge, domain) pair.
#[derive(Clone, Copy, Debug, PartialEq, Eq, Structural)]
pub enum AttributionPhase {
    Correlational,
    Causal,
}

/// An algebraic normalizer with no configuration of its own.
#[derive(Debug, Default)]
pub struct AlgebraicNormalizer;

impl AlgebraicNormalizer {
    /// The normalizer (it has no state to set up).
    pub fn new() -> (r: AlgebraicNormalizer)
        ensures
            r == AlgebraicNormalizer,
    {
        AlgebraicNormalizer
    }
}

} // verus!
