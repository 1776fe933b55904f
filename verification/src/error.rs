//! The error taxonomy every method answers with: a machine-readable code plus
//! a human-readable message.

use vstd::prelude::*;

verus! {

/// Error codes carried on the wire (snake_case names, see [`CodeErrorCode::wire_name`]).
#[derive(Debug, Clone, Copy, PartialEq, Eq, Structural)]
pub enum CodeErrorCode {
    /// The request is malformed or not yet answerable.
    Invalid,
    /// The target does not exist.
    NotFound,
    /// The request would escape the workspace confinement.
    Forbidden,
    /// The privileged side needs a credential the human must supply.
    NeedsCredential,
    /// Anything else (spawn failures, tool failures, broker failures).
    Internal,
}

impl CodeErrorCode {
    /// The snake_case name the code serializes to.
    pub fn wire_name(&self) -> (s: &'static str)
        ensures
            *self == CodeErrorCode::Invalid ==> s@ == "invalid"@,
            *self == CodeErrorCode::NotFound ==> s@ == "not_found"@,
            *self == CodeErrorCode::Forbidden ==> s@ == "forbidden"@,
            *self == CodeErrorCode::NeedsCredential ==> s@ == "needs_credential"@,
            *self == CodeErrorCode::Internal ==> s@ == "internal"@,
    {
        match self {
            CodeErrorCode::Invalid => "invalid",
            CodeErrorCode::NotFound => "not_found",
            CodeErrorCode::Forbidden => "forbidden",
            CodeErrorCode::NeedsCredential => "needs_credential",
            CodeErrorCode::Internal => "internal",
        }
    }
}

/// A typed failure: code + message.
#[derive(Debug)]
pub struct CodeError {
    pub code: CodeErrorCode,
    pub message: String,
}

impl CodeError {
    /// Build an error from a code and a message.
    pub fn new(code: CodeErrorCode, message: &str) -> (e: CodeError)
        ensures
            e.code == code,
            e.message@ == message@,
    {
        CodeError { code, message: message.to_owned() }
    }

    /// Build an error from a code and an owned message.
    pub fn from_string(code: CodeErrorCode, message: String) -> (e: CodeError)
        ensures
            e.code == code,
            e.message@ == message@,
    {
        CodeError { code, message }
    }
}

} // verus!
