use espr::ast::{self, Entity, Interface, Schema, SubtypeDecl, SyntaxTree, TypeDecl};
use espr::error::SemanticError;
use espr::namespace::Namespace;
use espr::scope::{Path, Scope, ScopeKind};
use espr::subsuper::SubSuperGraph;
use espr::type_ref::{Bound, SimpleType, TypeRef};

fn entity(name: &str, supers: &[&str], has_supertype_decl: bool) -> Entity {
    Entity {
        name: name.to_string(),
        subtype_of: if supers.is_empty() {
            None
        } else {
            Some(SubtypeDecl { entity_references: supers.iter().map(|s| s.to_string()).collect() })
        },
        has_supertype_decl,
    }
}

fn type_decl(name: &str, underlying: ast::Type) -> TypeDecl {
    TypeDecl { name: name.to_string(), underlying }
}

fn named(name: &str) -> ast::Type {
    ast::Type::Named(name.to_string())
}

fn schema(name: &str, entities: Vec<Entity>, types: Vec<TypeDecl>, interfaces: Vec<Interface>) -> Schema {
    Schema { name: name.to_string(), entities, types, interfaces }
}

fn schema_scope(name: &str) -> Scope {
    Scope::root().pushed(ScopeKind::Schema, name)
}

fn decl(schema: &str, kind: ScopeKind, name: &str) -> Path {
    Path::new(&schema_scope(schema), kind, name)
}

/// SCHEMA_A declares an entity hierarchy and aliases; SCHEMA_B imports from it.
fn sample_tree() -> SyntaxTree {
    let a = schema(
        "SCHEMA_A",
        vec![
            entity("base", &[], true),
            entity("mid", &["base"], false),
            entity("leaf", &["mid", "base"], false),
            entity("twice", &["base", "base"], false),
        ],
        vec![
            type_decl("length", ast::Type::Simple(ast::SimpleType::Real)),
            type_decl("distance", named("length")),
            type_decl("far", named("distance")),
            type_decl("thing", named("base")),
            type_decl("points", ast::Type::List { base: Box::new(named("length")), bound: None, unique: false }),
            type_decl("alias_points", named("points")),
            type_decl("loop_a", named("loop_b")),
            type_decl("loop_b", named("loop_a")),
            type_decl("colour", ast::Type::Enumeration { items: vec!["RED".to_string()] }),
        ],
        vec![],
    );
    let b = schema(
        "SCHEMA_B",
        vec![entity("part", &["base"], false), entity("label", &[], false)],
        vec![],
        vec![Interface { schema: "SCHEMA_A".to_string(), names: vec!["base".to_string(), "length".to_string()] }],
    );
    let c = schema(
        "SCHEMA_C",
        vec![entity("label", &[], false)],
        vec![],
        vec![
            Interface { schema: "SCHEMA_A".to_string(), names: vec!["base".to_string()] },
            Interface { schema: "SCHEMA_B".to_string(), names: vec!["label".to_string(), "base".to_string()] },
        ],
    );
    let d = schema(
        "SCHEMA_D",
        vec![],
        vec![],
        vec![
            Interface { schema: "SCHEMA_B".to_string(), names: vec!["label".to_string()] },
            Interface { schema: "SCHEMA_C".to_string(), names: vec!["label".to_string()] },
        ],
    );
    SyntaxTree { schemas: vec![a, b, c, d] }
}

fn sample() -> (Namespace, SubSuperGraph) {
    let ns = Namespace::new(sample_tree());
    let ss = SubSuperGraph::new(&ns, &sample_tree()).unwrap();
    (ns, ss)
}

#[test]
fn scope_push_keeps_parent() {
    let root = Scope::root();
    let s = root.pushed(ScopeKind::Schema, "S");
    let e = s.pushed(ScopeKind::Entity, "e");
    assert_eq!(root.segments.len(), 0);
    assert_eq!(s.segments.len(), 1);
    assert_eq!(e.segments.len(), 2);
    assert_eq!(e.schema_name(), Some("S".to_string()));
    assert_eq!(root.schema_name(), None);
    let p = Path::new(&s, ScopeKind::Type, "t");
    assert_eq!(p.segments[1].name, "t");
    assert!(p.same(&decl("S", ScopeKind::Type, "t")));
    assert!(!p.same(&decl("S", ScopeKind::Entity, "t")));
}

#[test]
fn resolve_unknown_name_fails() {
    let (ns, _) = sample();
    let err = ns.resolve(&schema_scope("SCHEMA_A"), "UNKNOWN_TYPE").unwrap_err();
    assert_eq!(
        err,
        SemanticError::UnresolvedName { name: "UNKNOWN_TYPE".to_string(), scope: schema_scope("SCHEMA_A") }
    );
    let err = ns.resolve(&Scope::root(), "base").unwrap_err();
    assert!(matches!(err, SemanticError::UnresolvedName { .. }));
}

#[test]
fn resolve_local_and_imported() {
    let (ns, _) = sample();
    assert_eq!(ns.resolve(&schema_scope("SCHEMA_A"), "base").unwrap(), decl("SCHEMA_A", ScopeKind::Entity, "base"));
    let inner = schema_scope("SCHEMA_A").pushed(ScopeKind::Entity, "leaf");
    assert_eq!(ns.resolve(&inner, "length").unwrap(), decl("SCHEMA_A", ScopeKind::Type, "length"));
    assert_eq!(ns.resolve(&schema_scope("SCHEMA_B"), "base").unwrap(), decl("SCHEMA_A", ScopeKind::Entity, "base"));
    // Local declarations hide imported ones.
    assert_eq!(ns.resolve(&schema_scope("SCHEMA_C"), "label").unwrap(), decl("SCHEMA_C", ScopeKind::Entity, "label"));
    // Not listed in the interface.
    assert!(ns.resolve(&schema_scope("SCHEMA_B"), "mid").is_err());
}

#[test]
fn resolve_imports_of_one_declaration_twice_is_not_ambiguous() {
    let (ns, _) = sample();
    // SCHEMA_C lists `base` from SCHEMA_A, and from SCHEMA_B, which brings in the same one.
    assert_eq!(ns.resolve(&schema_scope("SCHEMA_C"), "base").unwrap(), decl("SCHEMA_A", ScopeKind::Entity, "base"));
}

#[test]
fn resolve_conflicting_imports_is_ambiguous() {
    let (ns, _) = sample();
    match ns.resolve(&schema_scope("SCHEMA_D"), "label").unwrap_err() {
        SemanticError::AmbiguousName { name, scope, candidates } => {
            assert_eq!(name, "label");
            assert_eq!(scope, schema_scope("SCHEMA_D"));
            assert_eq!(
                candidates,
                vec![decl("SCHEMA_B", ScopeKind::Entity, "label"), decl("SCHEMA_C", ScopeKind::Entity, "label")]
            );
        }
        other => panic!("unexpected {:?}", other),
    }
}

#[test]
fn resolve_is_repeatable() {
    let (ns, _) = sample();
    let scope = schema_scope("SCHEMA_B");
    let first = ns.resolve(&scope, "length");
    let second = ns.resolve(&scope, "length");
    assert_eq!(first, second);
    assert_eq!(first.unwrap(), decl("SCHEMA_A", ScopeKind::Type, "length"));
}

#[test]
fn subsuper_graph_lists_every_declared_supertype() {
    let (_, ss) = sample();
    let subs_of = |p: &Path| -> Vec<Path> {
        ss.super_to_sub.iter().find(|(k, _)| k == p).map(|(_, v)| v.clone()).unwrap_or_default()
    };
    let base = decl("SCHEMA_A", ScopeKind::Entity, "base");
    let mid = decl("SCHEMA_A", ScopeKind::Entity, "mid");
    assert_eq!(
        subs_of(&base),
        vec![
            decl("SCHEMA_A", ScopeKind::Entity, "mid"),
            decl("SCHEMA_A", ScopeKind::Entity, "leaf"),
            decl("SCHEMA_A", ScopeKind::Entity, "twice"),
            decl("SCHEMA_A", ScopeKind::Entity, "twice"),
            decl("SCHEMA_B", ScopeKind::Entity, "part"),
        ]
    );
    assert_eq!(subs_of(&mid), vec![decl("SCHEMA_A", ScopeKind::Entity, "leaf")]);
    assert_eq!(ss.super_to_sub.len(), 2);
}

#[test]
fn subsuper_graph_fails_on_unknown_supertype() {
    let ns = Namespace::new(SyntaxTree {
        schemas: vec![schema("S", vec![entity("e", &["missing"], false)], vec![], vec![])],
    });
    let tree = SyntaxTree { schemas: vec![schema("S", vec![entity("e", &["missing"], false)], vec![], vec![])] };
    let err = SubSuperGraph::new(&ns, &tree).unwrap_err();
    assert_eq!(
        err,
        SemanticError::UnresolvedName {
            name: "missing".to_string(),
            scope: schema_scope("S").pushed(ScopeKind::Entity, "e"),
        }
    );
}

#[test]
fn lookup_type_follows_aliases() {
    let (ns, _) = sample();
    let scope = schema_scope("SCHEMA_A");
    for name in ["length", "distance", "far"] {
        let t = ns.lookup_type(&scope, name).unwrap();
        assert!(t.is_simple(), "{}", name);
        assert_eq!(t, TypeRef::Named { name: name.to_string(), scope: scope.clone(), is_simple: true });
    }
    for name in ["thing", "points", "alias_points", "colour"] {
        let t = ns.lookup_type(&scope, name).unwrap();
        assert!(!t.is_simple(), "{}", name);
    }
    let t = ns.lookup_type(&schema_scope("SCHEMA_B"), "length").unwrap();
    assert_eq!(t, TypeRef::Named { name: "length".to_string(), scope: scope.clone(), is_simple: true });
}

#[test]
fn lookup_type_of_entity() {
    let (ns, _) = sample();
    let t = ns.lookup_type(&schema_scope("SCHEMA_B"), "base").unwrap();
    assert_eq!(
        t,
        TypeRef::Entity { name: "base".to_string(), scope: schema_scope("SCHEMA_A"), has_supertype_decl: true }
    );
    assert!(!t.is_simple());
    let t = ns.lookup_type(&schema_scope("SCHEMA_A"), "mid").unwrap();
    assert_eq!(
        t,
        TypeRef::Entity { name: "mid".to_string(), scope: schema_scope("SCHEMA_A"), has_supertype_decl: false }
    );
}

#[test]
fn lookup_type_detects_alias_cycle() {
    let (ns, _) = sample();
    match ns.lookup_type(&schema_scope("SCHEMA_A"), "loop_a").unwrap_err() {
        SemanticError::CyclicTypeAlias { chain } => {
            let a = decl("SCHEMA_A", ScopeKind::Type, "loop_a");
            let b = decl("SCHEMA_A", ScopeKind::Type, "loop_b");
            assert_eq!(chain, vec![a.clone(), b, a]);
        }
        other => panic!("unexpected {:?}", other),
    }
}

#[test]
fn lookup_type_reports_broken_alias() {
    let tree = SyntaxTree { schemas: vec![schema("S", vec![], vec![type_decl("t", named("nowhere"))], vec![])] };
    let ns = Namespace::new(tree);
    let err = ns.lookup_type(&schema_scope("S"), "t").unwrap_err();
    assert_eq!(err, SemanticError::UnresolvedName { name: "nowhere".to_string(), scope: schema_scope("S") });
}

#[test]
fn legalize_simple_and_named() {
    let (ns, ss) = sample();
    let scope = schema_scope("SCHEMA_A");
    let t = TypeRef::legalize(&ns, &ss, &scope, &ast::Type::Simple(ast::SimpleType::Integer)).unwrap();
    assert_eq!(t, TypeRef::SimpleType(SimpleType(ast::SimpleType::Integer)));
    assert!(t.is_simple());
    let t = TypeRef::legalize(&ns, &ss, &scope, &named("distance")).unwrap();
    assert!(t.is_simple());
    assert_eq!(
        SimpleType::legalize(&ns, &ss, &scope, &ast::SimpleType::Logical),
        SimpleType(ast::SimpleType::Logical)
    );
    let b = ast::Bound { lower: Some("1".to_string()), upper: None };
    assert_eq!(Bound::legalize(&ns, &ss, &scope, &b), Bound {});
}

#[test]
fn legalize_list_uniqueness() {
    let (ns, ss) = sample();
    let scope = schema_scope("SCHEMA_A");
    let plain = ast::Type::List { base: Box::new(named("length")), bound: None, unique: false };
    let unique = ast::Type::List {
        base: Box::new(named("length")),
        bound: Some(ast::Bound { lower: Some("1".to_string()), upper: Some("3".to_string()) }),
        unique: true,
    };
    let expected_base = TypeRef::Named { name: "length".to_string(), scope: scope.clone(), is_simple: true };
    match TypeRef::legalize(&ns, &ss, &scope, &plain).unwrap() {
        TypeRef::List { base, bound, unique } => {
            assert_eq!(*base, expected_base);
            assert_eq!(bound, None);
            assert!(!unique);
        }
        other => panic!("unexpected {:?}", other),
    }
    match TypeRef::legalize(&ns, &ss, &scope, &unique).unwrap() {
        TypeRef::List { base, bound, unique } => {
            assert_eq!(*base, expected_base);
            assert_eq!(bound, Some(Bound {}));
            assert!(unique);
        }
        other => panic!("unexpected {:?}", other),
    }
}

#[test]
fn legalize_set_round_trip() {
    let (ns, ss) = sample();
    let scope = schema_scope("SCHEMA_A");
    let set = ast::Type::SetOf {
        base: Box::new(ast::Type::SetOf { base: Box::new(named("base")), bound: None }),
        bound: Some(ast::Bound { lower: Some("0".to_string()), upper: None }),
    };
    let t = TypeRef::legalize(&ns, &ss, &scope, &set).unwrap();
    let expected = TypeRef::SetOf {
        base: Box::new(TypeRef::SetOf {
            base: Box::new(TypeRef::Entity {
                name: "base".to_string(),
                scope: scope.clone(),
                has_supertype_decl: true,
            }),
            bound: None,
        }),
        bound: Some(Bound {}),
    };
    assert_eq!(t, expected);
    assert!(!t.is_simple());
}

#[test]
fn legalize_unsupported_and_failing_shapes() {
    let (ns, ss) = sample();
    let scope = schema_scope("SCHEMA_A");
    let bag = ast::Type::Bag { base: Box::new(named("length")), bound: None };
    assert_eq!(
        TypeRef::legalize(&ns, &ss, &scope, &bag).unwrap_err(),
        SemanticError::UnsupportedConstruct { shape: "BAG".to_string() }
    );
    let sel = ast::Type::Select { types: vec!["base".to_string()] };
    assert_eq!(
        TypeRef::legalize(&ns, &ss, &scope, &sel).unwrap_err(),
        SemanticError::UnsupportedConstruct { shape: "SELECT".to_string() }
    );
    let arr = ast::Type::List {
        base: Box::new(ast::Type::Array {
            base: Box::new(named("length")),
            bound: ast::Bound { lower: Some("1".to_string()), upper: None },
            optional: false,
            unique: false,
        }),
        bound: None,
        unique: false,
    };
    assert_eq!(
        TypeRef::legalize(&ns, &ss, &scope, &arr).unwrap_err(),
        SemanticError::UnsupportedConstruct { shape: "ARRAY".to_string() }
    );
    let missing = ast::Type::SetOf { base: Box::new(named("nope")), bound: None };
    assert!(matches!(
        TypeRef::legalize(&ns, &ss, &scope, &missing).unwrap_err(),
        SemanticError::UnresolvedName { .. }
    ));
}

#[test]
fn subsuper_graph_is_empty_without_supertypes() {
    let tree = || SyntaxTree { schemas: vec![schema("S", vec![entity("e", &[], false)], vec![], vec![])] };
    let ns = Namespace::new(tree());
    assert!(SubSuperGraph::new(&ns, &tree()).unwrap().super_to_sub.is_empty());
    let empty = Namespace::new(SyntaxTree { schemas: vec![] });
    assert!(SubSuperGraph::new(&empty, &SyntaxTree { schemas: vec![] }).unwrap().super_to_sub.is_empty());
}

#[test]
fn subsuper_graph_reports_first_unresolved_reference() {
    let tree = || SyntaxTree {
        schemas: vec![schema(
            "S",
            vec![entity("base", &[], false), entity("a", &["base", "first"], false), entity("b", &["second"], false)],
            vec![],
            vec![],
        )],
    };
    let ns = Namespace::new(tree());
    let err = SubSuperGraph::new(&ns, &tree()).unwrap_err();
    assert_eq!(
        err,
        SemanticError::UnresolvedName {
            name: "first".to_string(),
            scope: schema_scope("S").pushed(ScopeKind::Entity, "a"),
        }
    );
}

#[test]
fn subsuper_graph_grows_by_appended_entity() {
    let tree = |extra: bool| {
        let mut entities = vec![entity("base", &[], false), entity("other", &[], false), entity("a", &["base"], false)];
        if extra {
            entities.push(entity("z", &["other", "base"], false));
        }
        SyntaxTree { schemas: vec![schema("S", entities, vec![], vec![])] }
    };
    let g1 = SubSuperGraph::new(&Namespace::new(tree(false)), &tree(false)).unwrap();
    let g2 = SubSuperGraph::new(&Namespace::new(tree(true)), &tree(true)).unwrap();
    let base = decl("S", ScopeKind::Entity, "base");
    let other = decl("S", ScopeKind::Entity, "other");
    assert_eq!(g1.super_to_sub, vec![(base.clone(), vec![decl("S", ScopeKind::Entity, "a")])]);
    assert_eq!(
        g2.super_to_sub,
        vec![
            (base, vec![decl("S", ScopeKind::Entity, "a"), decl("S", ScopeKind::Entity, "z")]),
            (other, vec![decl("S", ScopeKind::Entity, "z")]),
        ]
    );
}

#[test]
fn lookup_type_uses_first_declaration() {
    let tree = SyntaxTree {
        schemas: vec![schema(
            "S",
            vec![entity("e", &[], false)],
            vec![type_decl("t", ast::Type::Simple(ast::SimpleType::Integer)), type_decl("t", named("e"))],
            vec![],
        )],
    };
    let ns = Namespace::new(tree);
    assert!(ns.lookup_type(&schema_scope("S"), "t").unwrap().is_simple());
}

#[test]
fn resolve_follows_interfaces_transitively() {
    let iface = |schema: &str, name: &str| Interface { schema: schema.to_string(), names: vec![name.to_string()] };
    let tree = SyntaxTree {
        schemas: vec![
            schema("A", vec![], vec![type_decl("len", ast::Type::Simple(ast::SimpleType::Real))], vec![]),
            schema("B", vec![], vec![], vec![iface("A", "len")]),
            schema("C", vec![], vec![], vec![iface("B", "len")]),
            schema("X", vec![], vec![], vec![iface("Y", "y")]),
            schema("Y", vec![], vec![], vec![iface("X", "y")]),
        ],
    };
    let ns = Namespace::new(tree);
    assert_eq!(ns.resolve(&schema_scope("C"), "len").unwrap(), decl("A", ScopeKind::Type, "len"));
    assert!(ns.lookup_type(&schema_scope("C"), "len").unwrap().is_simple());
    let err = ns.resolve(&schema_scope("X"), "y").unwrap_err();
    assert_eq!(err, SemanticError::UnresolvedName { name: "y".to_string(), scope: schema_scope("X") });
}
