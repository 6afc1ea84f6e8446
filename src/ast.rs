//! The parsed schema that semantic analysis starts from.

use vstd::prelude::*;

verus! {

/// Built-in scalar kinds.
#[derive(Debug, Clone, Copy, PartialEq, Eq, Hash, Structural)]
pub enum SimpleType {
    Integer,
    Real,
    String,
    Boolean,
    Logical,
    Binary,
    Number,
}

/// Cardinality of an aggregate, as unevaluated expression text.
#[derive(Debug, Clone, PartialEq, Eq, Hash)]
pub struct Bound {
    pub lower: Option<String>,
    pub upper: Option<String>,
}

/// A type expression as written in the schema.
#[derive(Debug, PartialEq, Eq, Hash)]
pub enum Type {
    Simple(SimpleType),
    Named(String),
    SetOf { base: Box<Type>, bound: Option<Bound> },
    List { base: Box<Type>, bound: Option<Bound>, unique: bool },
    Bag { base: Box<Type>, bound: Option<Bound> },
    Array { base: Box<Type>, bound: Bound, optional: bool, unique: bool },
    Enumeration { items: Vec<String> },
    Select { types: Vec<String> },
}

/// `SUBTYPE OF (a, b, ...)`
#[derive(Debug, Clone, PartialEq, Eq, Hash)]
pub struct SubtypeDecl {
    pub entity_references: Vec<String>,
}

#[derive(Debug, Clone, PartialEq, Eq, Hash)]
pub struct Entity {
    pub name: String,
    pub subtype_of: Option<SubtypeDecl>,
    /// Whether the entity states a `SUPERTYPE OF` constraint.
    pub has_supertype_decl: bool,
}

/// `TYPE name = underlying; END_TYPE;`
#[derive(Debug, PartialEq, Eq, Hash)]
pub struct TypeDecl {
    pub name: String,
    pub underlying: Type,
}

/// `USE FROM schema (names);` or `REFERENCE FROM schema (names);`
#[derive(Debug, Clone, PartialEq, Eq, Hash)]
pub struct Interface {
    pub schema: String,
    pub names: Vec<String>,
}

#[derive(Debug, PartialEq, Eq, Hash)]
pub struct Schema {
    pub name: String,
    pub entities: Vec<Entity>,
    pub types: Vec<TypeDecl>,
    pub interfaces: Vec<Interface>,
}

#[derive(Debug, PartialEq, Eq, Hash)]
pub struct SyntaxTree {
    pub schemas: Vec<Schema>,
}

/// The supertype names an entity lists.
pub open spec fn supertypes_of(e: Entity) -> Seq<String> {
    match e.subtype_of {
        Some(d) => d.entity_references@,
        None => Seq::empty(),
    }
}

} // verus!
