//! Errors that can occur when acquiring metadata to create a graph from.
use vstd::prelude::*;
use crate::text::concat;

verus! {

/// Errors that can occur when acquiring metadata to create a graph from
#[derive(Debug)]
pub enum Error {
    /// --no-deps was specified when acquiring metadata
    NoResolveGraph,
    /// Running or reading `cargo metadata` failed; holds the error's message
    Metadata(String),
    /// A package specification was invalid
    InvalidPkgSpec(&'static str),
    /// Due to how the graph was built, all possible root nodes were actually
    /// filtered out, leaving an empty graph
    NoRootKrates,
}

/// The text the error is shown with.
pub open spec fn error_text(e: Error) -> Seq<char> {
    match e {
        Error::NoResolveGraph => "no resolution graph was provided"@,
        Error::Metadata(m) => m@,
        Error::InvalidPkgSpec(m) => "package spec was invalid: "@ + m@,
        Error::NoRootKrates => "no root crates available"@,
    }
}

impl Error {
    /// Whether the error is a refused package specification with the given
    /// reason.
    pub open spec fn is_invalid_pkg_spec(&self, reason: Seq<char>) -> bool {
        self matches Error::InvalidPkgSpec(m) && m@ == reason
    }

    /// The text the error is shown with.
    pub fn message(&self) -> (r: String)
        ensures
            r@ == error_text(*self),
    {
        match self {
            Error::NoResolveGraph => "no resolution graph was provided".to_string(),
            Error::Metadata(m) => m.clone(),
            Error::InvalidPkgSpec(m) => concat("package spec was invalid: ", m),
            Error::NoRootKrates => "no root crates available".to_string(),
        }
    }
}

} // verus!
