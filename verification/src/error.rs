//! Errors reported by the CodeFacts workflows.
use vstd::prelude::*;

verus! {

/// An error of a CodeFacts workflow: a malformed tool request, or any other
/// refused input.
#[derive(Debug, PartialEq, Eq)]
pub enum CodeFactsError {
    /// The MCP request itself is invalid.
    Mcp(String),
    /// Any other refused input.
    Other(String),
}

/// The mathematical value of an error.
pub enum ErrorView {
    Mcp(Seq<char>),
    Other(Seq<char>),
}

pub open spec fn error_view(e: CodeFactsError) -> ErrorView {
    match e {
        CodeFactsError::Mcp(m) => ErrorView::Mcp(m@),
        CodeFactsError::Other(m) => ErrorView::Other(m@),
    }
}

impl CodeFactsError {
    /// The error's message.
    pub fn message(&self) -> (r: String)
        ensures
            r@ == match error_view(*self) {
                ErrorView::Mcp(m) => m,
                ErrorView::Other(m) => m,
            },
    {
        match self {
            CodeFactsError::Mcp(m) => m.clone(),
            CodeFactsError::Other(m) => m.clone(),
        }
    }
}

} // verus!
