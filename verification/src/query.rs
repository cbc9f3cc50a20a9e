//! A query to the reasoning engine.

use vstd::prelude::*;
use crate::types::{ModalType, TRDId, spec_default_type};

verus! {

/// A query: its text, situation, optional domain, output language and the
/// modal type that the answer is expected to have.
#[derive(Debug)]
pub struct Query {
    pub text: String,
    pub situation_id: u64,
    pub trd: Option<TRDId>,
    pub target_language: String,
    pub expected_type: ModalType,
}

impl Query {
    /// A query with no domain and the default expected type.
    pub fn new(text: &str, situation_id: u64, target_language: &str) -> (r: Query)
        ensures
            r.text@ == text@,
            r.situation_id == situation_id,
            r.trd is None,
            r.target_language@ == target_language@,
            r.expected_type == spec_default_type(),
    {
        Query {
            text: String::from_str(text),
            situation_id,
            trd: None,
            target_language: String::from_str(target_language),
            expected_type: ModalType::default(),
        }
    }

    /// The same query, expecting an answer of type `ty`.
    pub fn with_expected_type(self, ty: ModalType) -> (r: Query)
        ensures
            r.expected_type == ty,
            r.text == self.text,
            r.situation_id == self.situation_id,
            r.trd == self.trd,
            r.target_language == self.target_language,
    {
        let mut q = self;
        q.expected_type = ty;
        q
    }
}

} // verus!
