//! Errors of semantic analysis.

use vstd::prelude::*;
use crate::scope::{Path, Scope};

verus! {

#[derive(Debug, Clone, PartialEq, Eq, Hash)]
pub enum SemanticError {
    /// No declaration named `name` is visible from `scope`.
    UnresolvedName { name: String, scope: Scope },
    /// More than one distinct declaration named `name` is visible from `scope`.
    AmbiguousName { name: String, scope: Scope, candidates: Vec<Path> },
    /// Following a chain of type aliases came back to a path already on it.
    CyclicTypeAlias { chain: Vec<Path> },
    /// A type shape that legalization does not handle.
    UnsupportedConstruct { shape: String },
}

} // verus!
