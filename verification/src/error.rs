//! Error taxonomy: every component returns a typed failure; only the
//! command boundary turns one into a user-visible message.

use vstd::prelude::*;

verus! {

/// A failure from one of the core components.
#[derive(Debug, Clone, PartialEq, Eq)]
pub enum GhReplyError {
    /// Transport or application-level remote failure.
    GhError(String),
    /// Draft persistence failure.
    StoreError(String),
    /// Template expansion failure.
    TemplateError(String),
    /// Malformed JSON text.
    JsonError(String),
}

impl GhReplyError {
    /// The human-readable message carried by this error.
    pub fn message(&self) -> (r: &String)
        ensures
            r@ == self.message_spec(),
    {
        match self {
            GhReplyError::GhError(m) => m,
            GhReplyError::StoreError(m) => m,
            GhReplyError::TemplateError(m) => m,
            GhReplyError::JsonError(m) => m,
        }
    }

    pub open spec fn message_spec(&self) -> Seq<char> {
        match self {
            GhReplyError::GhError(m) => m@,
            GhReplyError::StoreError(m) => m@,
            GhReplyError::TemplateError(m) => m@,
            GhReplyError::JsonError(m) => m@,
        }
    }
}

} // verus!
