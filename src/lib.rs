//! Semantic analysis of EXPRESS schemas: scopes and paths, name resolution,
//! the entity subtype graph, and legalization of type references; with the
//! token parsers of the exchange-file format and the naming of holder types.

pub mod ast;
pub mod error;
pub mod holder;
pub mod namespace;
pub mod scope;
pub mod subsuper;
pub mod token;
pub mod type_ref;
