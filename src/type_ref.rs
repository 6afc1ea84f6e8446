//! The resolved type representation and the legalization of type expressions.

use vstd::prelude::*;
use vstd::string::*;
use crate::ast;
use crate::ast::SyntaxTree;
use crate::error::SemanticError;
use crate::namespace::{
    distinct_paths, has_path, local_visible, resolve_post, resolves_to, schema_declares, visible_within, Namespace,
};
use crate::scope::{decl_path, innermost_schema, same_text, Path, Scope, ScopeKind, SegmentView};
use crate::subsuper::SubSuperGraph;

verus! {

/// A built-in scalar kind.
#[derive(Debug, Clone, Copy, PartialEq, Eq, Hash, Structural)]
pub struct SimpleType(pub ast::SimpleType);

/// Cardinality of an aggregate. Bound expressions are not evaluated yet, so
/// a bound records only that one was given.
#[derive(Debug, Clone, Copy, PartialEq, Eq, Hash, Structural)]
pub struct Bound {}

#[derive(Debug, PartialEq, Eq, Hash)]
pub enum TypeRef {
    SimpleType(SimpleType),
    Named {
        name: String,
        /// Scope where the named type is declared
        scope: Scope,
        /// True if following the aliases from this type ends at a simple type:
        ///
        /// ```text
        /// TYPE a = INTEGER; END_TYPE;
        /// TYPE b = a; END_TYPE;
        /// ```
        ///
        /// Then both `a` and `b` are simple.
        is_simple: bool,
    },
    /// Declared as `ENTITY`
    Entity { name: String, scope: Scope, has_supertype_decl: bool },
    /// `SET OF base`; a set is always unique.
    SetOf { base: Box<TypeRef>, bound: Option<Bound> },
    /// `LIST OF [UNIQUE] base`
    List { base: Box<TypeRef>, bound: Option<Bound>, unique: bool },
}

impl TypeRef {
    pub open spec fn spec_is_simple(&self) -> bool {
        match self {
            TypeRef::SimpleType(..) => true,
            TypeRef::Named { is_simple, .. } => *is_simple,
            _ => false,
        }
    }

    #[verifier::when_used_as_spec(spec_is_simple)]
    pub fn is_simple(&self) -> (r: bool)
        ensures
            r == self.spec_is_simple(),
    {
        match self {
            TypeRef::SimpleType(..) => true,
            TypeRef::Named { is_simple, .. } => *is_simple,
            _ => false,
        }
    }
}

/// The scope of the top level of a schema.
pub open spec fn schema_scope(sn: Seq<char>) -> Seq<SegmentView> {
    seq![(ScopeKind::Schema, sn)]
}

/// Type declaration `ti` of schema `si` stands at path `p`.
pub open spec fn decl_matches(t: SyntaxTree, p: Seq<SegmentView>, si: int, ti: int) -> bool {
    0 <= si < t.schemas.len() && 0 <= ti < t.schemas@[si].types.len() && t.schemas@[si].name@ == p[0].1
        && t.schemas@[si].types@[ti].name@ == p[1].1
}

/// Declaration `ti` of schema `si` is the first type declaration at `p`, in
/// the order of schemas and then of declarations.
pub open spec fn first_decl(t: SyntaxTree, p: Seq<SegmentView>, si: int, ti: int) -> bool {
    decl_matches(t, p, si, ti) && forall|a: int, b: int|
        #[trigger] decl_matches(t, p, a, b) ==> !(a < si || (a == si && b < ti))
}

/// `p` is the path of a type declaration; the first one there has underlying type `ty`.
pub open spec fn underlying_at(t: SyntaxTree, p: Seq<SegmentView>, ty: ast::Type) -> bool {
    p.len() == 2 && p[0].0 == ScopeKind::Schema && p[1].0 == ScopeKind::Type && exists|si: int, ti: int|
        #[trigger] first_decl(t, p, si, ti) && t.schemas@[si].types@[ti].underlying == ty
}

/// Some type declaration stands at `p`.
pub open spec fn type_declared(t: SyntaxTree, p: Seq<SegmentView>) -> bool {
    p.len() == 2 && p[0].0 == ScopeKind::Schema && p[1].0 == ScopeKind::Type && exists|si: int, ti: int|
        #[trigger] decl_matches(t, p, si, ti)
}

/// Entity declaration `ei` of schema `si` stands at path `p`.
pub open spec fn entity_decl_matches(t: SyntaxTree, p: Seq<SegmentView>, si: int, ei: int) -> bool {
    0 <= si < t.schemas.len() && 0 <= ei < t.schemas@[si].entities.len() && t.schemas@[si].name@ == p[0].1
        && t.schemas@[si].entities@[ei].name@ == p[1].1
}

/// Some entity declaration stands at `p`.
pub open spec fn entity_declared(t: SyntaxTree, p: Seq<SegmentView>) -> bool {
    p.len() == 2 && p[0].0 == ScopeKind::Schema && p[1].0 == ScopeKind::Entity && exists|si: int, ei: int|
        #[trigger] entity_decl_matches(t, p, si, ei)
}

/// Declaration `ei` of schema `si` is the first entity declaration at `p`.
pub open spec fn first_entity(t: SyntaxTree, p: Seq<SegmentView>, si: int, ei: int) -> bool {
    entity_decl_matches(t, p, si, ei) && forall|a: int, b: int|
        #[trigger] entity_decl_matches(t, p, a, b) ==> !(a < si || (a == si && b < ei))
}

/// `p` is the path of an entity declaration; the first one there states
/// `has_supertype_decl == f`.
pub open spec fn entity_at(t: SyntaxTree, p: Seq<SegmentView>, f: bool) -> bool {
    p.len() == 2 && p[0].0 == ScopeKind::Schema && p[1].0 == ScopeKind::Entity && exists|si: int, ei: int|
        #[trigger] first_entity(t, p, si, ei) && t.schemas@[si].entities@[ei].has_supertype_decl == f
}

/// The type declared at `p` is an alias of the type declared at `q`.
pub open spec fn alias_next(ns: Namespace, p: Seq<SegmentView>, q: Seq<SegmentView>) -> bool {
    exists|m: String|
        #[trigger] underlying_at(ns.tree, p, ast::Type::Named(m)) && resolves_to(ns, schema_scope(p[0].1), m@, q)
            && q.len() == 2 && q[1].0 == ScopeKind::Type
}

/// The type declared at `p` is no alias, and it is simple exactly when `b`.
pub open spec fn alias_root(ns: Namespace, p: Seq<SegmentView>, b: bool) -> bool {
    exists|ty: ast::Type|
        #[trigger] underlying_at(ns.tree, p, ty) && match ty {
            ast::Type::Simple(_) => b,
            ast::Type::Named(m) => !b && exists|q: Seq<SegmentView>|
                resolves_to(ns, schema_scope(p[0].1), m@, q) && q.len() == 2 && q[1].0 == ScopeKind::Entity,
            _ => !b,
        }
}

/// Following the aliases from `p` ends, within `k` steps, at a type that is
/// simple exactly when `b`.
pub open spec fn alias_ends(ns: Namespace, p: Seq<SegmentView>, b: bool, k: nat) -> bool
    decreases k,
{
    alias_root(ns, p, b) || (k > 0 && exists|q: Seq<SegmentView>|
        #[trigger] alias_next(ns, p, q) && alias_ends(ns, q, b, (k - 1) as nat))
}

/// Following the aliases from `p` ends at a type that is simple exactly when `b`.
pub open spec fn alias_terminates(ns: Namespace, p: Seq<SegmentView>, b: bool) -> bool {
    exists|k: nat| alias_ends(ns, p, b, k)
}

/// Each path of `c` is an alias of the one after it.
pub open spec fn alias_chain(ns: Namespace, c: Seq<Seq<SegmentView>>) -> bool {
    forall|i: int| 0 <= i < c.len() - 1 ==> #[trigger] alias_next(ns, c[i], c[i + 1])
}

pub open spec fn paths_view(v: Seq<Path>) -> Seq<Seq<SegmentView>> {
    v.map_values(|p: Path| p@)
}

/// What following the aliases from `start` gives.
pub open spec fn alias_post(ns: Namespace, start: Seq<SegmentView>, r: Result<bool, SemanticError>) -> bool {
    match r {
        Ok(b) => alias_terminates(ns, start, b),
        Err(SemanticError::CyclicTypeAlias { chain }) => {
            let c = paths_view(chain@);
            c.len() >= 2 && c[0] == start && alias_chain(ns, c) && (exists|i: int|
                0 <= i < c.len() - 1 && c[i] == c.last()) && forall|i: int, j: int|
                0 <= i < j < c.len() - 1 ==> c[i] != c[j]
        },
        Err(e) => exists|c: Seq<Seq<SegmentView>>, m: String|
            c.len() >= 1 && c[0] == start && alias_chain(ns, c) && #[trigger] underlying_at(
                ns.tree,
                c.last(),
                ast::Type::Named(m),
            ) && resolve_post(ns, schema_scope(c.last()[0].1), m@, Err(e)),
    }
}

/// What `lookup_type` promises for `name` seen from `scope`.
pub open spec fn lookup_post(ns: Namespace, scope: Seq<SegmentView>, name: Seq<char>, r: Result<TypeRef, SemanticError>) -> bool {
    match r {
        Ok(TypeRef::Entity { name: n, scope: s, has_supertype_decl }) => n@ == name && exists|p: Seq<SegmentView>|
            #[trigger] resolves_to(ns, scope, name, p) && entity_at(ns.tree, p, has_supertype_decl) && s@
                == schema_scope(p[0].1),
        Ok(TypeRef::Named { name: n, scope: s, is_simple }) => n@ == name && exists|p: Seq<SegmentView>|
            #[trigger] resolves_to(ns, scope, name, p) && type_declared(ns.tree, p) && s@ == schema_scope(p[0].1)
                && alias_post(ns, p, Ok(is_simple)),
        Ok(_) => false,
        Err(e) => resolve_post(ns, scope, name, Err(e)) || exists|p: Seq<SegmentView>|
            #[trigger] resolves_to(ns, scope, name, p) && type_declared(ns.tree, p) && alias_post(ns, p, Err(e)),
    }
}

proof fn lemma_local_decl(t: SyntaxTree, sname: Seq<char>, name: Seq<char>, p: Seq<SegmentView>)
    requires
        local_visible(t, sname, name, p),
    ensures
        p.len() == 2,
        p[0].0 == ScopeKind::Schema,
        p[1].1 == name,
        p[1].0 == ScopeKind::Entity || p[1].0 == ScopeKind::Type,
        p[1].0 == ScopeKind::Type ==> type_declared(t, p),
        p[1].0 == ScopeKind::Entity ==> entity_declared(t, p),
{
    let si = choose|si: int|
        0 <= si < t.schemas.len() && si < t.schemas.len() && (#[trigger] t.schemas@[si]).name@ == sname
            && schema_declares(t.schemas@[si], name, p);
    let s = t.schemas@[si];
    if p == decl_path(s.name@, ScopeKind::Type, name) && exists|i: int|
        0 <= i < s.types.len() && (#[trigger] s.types@[i]).name@ == name {
        let ti = choose|i: int| 0 <= i < s.types.len() && (#[trigger] s.types@[i]).name@ == name;
        assert(decl_matches(t, p, si, ti));
    } else {
        let ei = choose|i: int| 0 <= i < s.entities.len() && (#[trigger] s.entities@[i]).name@ == name;
        assert(entity_decl_matches(t, p, si, ei));
    }
}

/// A resolved name is the path of an entity or a type declaration of that name.
proof fn lemma_resolved_decl(ns: Namespace, scope: Seq<SegmentView>, name: Seq<char>, p: Seq<SegmentView>)
    requires
        resolves_to(ns, scope, name, p),
    ensures
        p.len() == 2,
        p[0].0 == ScopeKind::Schema,
        p[1].1 == name,
        p[1].0 == ScopeKind::Entity || p[1].0 == ScopeKind::Type,
        p[1].0 == ScopeKind::Type ==> type_declared(ns.tree, p),
        p[1].0 == ScopeKind::Entity ==> entity_declared(ns.tree, p),
{
    lemma_visible_decl(ns.tree, innermost_schema(scope).unwrap(), name, p, ns.tree.schemas.len() as nat);
}

proof fn lemma_visible_decl(t: SyntaxTree, sname: Seq<char>, name: Seq<char>, p: Seq<SegmentView>, d: nat)
    requires
        visible_within(t, sname, name, p, d),
    ensures
        p.len() == 2,
        p[0].0 == ScopeKind::Schema,
        p[1].1 == name,
        p[1].0 == ScopeKind::Entity || p[1].0 == ScopeKind::Type,
        p[1].0 == ScopeKind::Type ==> type_declared(t, p),
        p[1].0 == ScopeKind::Entity ==> entity_declared(t, p),
    decreases d,
{
    if local_visible(t, sname, name, p) {
        lemma_local_decl(t, sname, name, p);
    } else {
        crate::namespace::lemma_visible_unfold(t, sname, name, p, d);
        let (si, k) = choose|si: int, k: int|
            0 <= si < t.schemas.len() && t.schemas@[si].name@ == sname
                && #[trigger] crate::namespace::imported_through(t, si, k, name, p, d);
        lemma_visible_decl(t, t.schemas@[si].interfaces@[k].schema@, name, p, (d - 1) as nat);
    }
}

/// A chain of distinct paths drawn from `all` is no longer than `all`.
proof fn lemma_distinct_within(chain: Seq<Path>, all: Seq<Path>)
    requires
        distinct_paths(chain),
        forall|i: int| 0 <= i < chain.len() ==> has_path(all, #[trigger] chain[i]@),
    ensures
        chain.len() <= all.len(),
{
    let cv = paths_view(chain);
    let av = paths_view(all);
    assert(cv.no_duplicates()) by {
        assert forall|i: int, j: int| 0 <= i < cv.len() && 0 <= j < cv.len() && i != j implies cv[i] != cv[j] by {
            assert(cv[i] == chain[i]@ && cv[j] == chain[j]@);
        }
    }
    cv.unique_seq_to_set();
    av.lemma_cardinality_of_set();
    assert(cv.to_set().subset_of(av.to_set())) by {
        assert forall|x: Seq<SegmentView>| cv.to_set().contains(x) implies av.to_set().contains(x) by {
            let i = choose|i: int| 0 <= i < cv.len() && cv[i] == x;
            assert(cv[i] == chain[i]@);
            let j = choose|j: int| 0 <= j < all.len() && (#[trigger] all[j])@ == chain[i]@;
            assert(av[j] == all[j]@);
        }
    }
    vstd::set_lib::lemma_len_subset(cv.to_set(), av.to_set());
}

/// The paths of every type declaration of every schema.
fn type_paths(t: &SyntaxTree) -> (r: Vec<Path>)
    ensures
        forall|p: Seq<SegmentView>| type_declared(*t, p) ==> has_path(r@, p),
{
    let mut r: Vec<Path> = Vec::new();
    let mut si: usize = 0;
    while si < t.schemas.len()
        invariant
            si <= t.schemas.len(),
            forall|a: int, b: int|
                0 <= a < si && 0 <= b < t.schemas@[a].types.len() ==> has_path(
                    r@,
                    decl_path(t.schemas@[a].name@, ScopeKind::Type, (#[trigger] t.schemas@[a].types@[b]).name@),
                ),
        decreases t.schemas.len() - si,
    {
        let s = &t.schemas[si];
        let mut ti: usize = 0;
        while ti < s.types.len()
            invariant
                si < t.schemas.len(),
                s == t.schemas@[si as int],
                ti <= s.types.len(),
                forall|a: int, b: int|
                    0 <= a < si && 0 <= b < t.schemas@[a].types.len() || a == si && 0 <= b < ti ==> has_path(
                        r@,
                        decl_path(t.schemas@[a].name@, ScopeKind::Type, (#[trigger] t.schemas@[a].types@[b]).name@),
                    ),
            decreases s.types.len() - ti,
        {
            let ghost before = r@;
            let p = crate::namespace::make_decl_path(s.name.as_str(), ScopeKind::Type, s.types[ti].name.as_str());
            r.push(p);
            assert forall|a: int, b: int|
                0 <= a < si && 0 <= b < t.schemas@[a].types.len() || a == si && 0 <= b < ti + 1 implies has_path(
                    r@,
                    decl_path(t.schemas@[a].name@, ScopeKind::Type, (#[trigger] t.schemas@[a].types@[b]).name@),
                ) by {
                let q = decl_path(t.schemas@[a].name@, ScopeKind::Type, t.schemas@[a].types@[b].name@);
                if a == si && b == ti {
                    assert(r@[before.len() as int]@ == q);
                } else {
                    let j = choose|j: int| 0 <= j < before.len() && (#[trigger] before[j])@ == q;
                    assert(r@[j] == before[j]);
                }
            }
            ti = ti + 1;
        }
        si = si + 1;
    }
    assert forall|p: Seq<SegmentView>| type_declared(*t, p) implies has_path(r@, p) by {
        let (a, b) = choose|a: int, b: int| #[trigger] decl_matches(*t, p, a, b);
        assert(t.schemas@[a].types@[b].name@ == p[1].1);
        assert(p =~= decl_path(t.schemas@[a].name@, ScopeKind::Type, t.schemas@[a].types@[b].name@));
    }
    r
}

/// The underlying type of the type declared at `p`.
fn find_underlying<'a>(t: &'a SyntaxTree, p: &Path) -> (r: Option<&'a ast::Type>)
    requires
        p@.len() == 2,
        p@[0].0 == ScopeKind::Schema,
        p@[1].0 == ScopeKind::Type,
    ensures
        match r {
            Some(ty) => underlying_at(*t, p@, *ty),
            None => !type_declared(*t, p@),
        },
{
    let sn = &p.segments[0].name;
    let n = &p.segments[1].name;
    assert(sn@ == p@[0].1 && n@ == p@[1].1);
    let mut si: usize = 0;
    while si < t.schemas.len()
        invariant
            si <= t.schemas.len(),
            p@.len() == 2,
            p@[0].0 == ScopeKind::Schema,
            p@[1].0 == ScopeKind::Type,
            sn@ == p@[0].1,
            n@ == p@[1].1,
            forall|a: int, b: int|
                0 <= a < si && 0 <= b < t.schemas@[a].types.len() && t.schemas@[a].name@ == p@[0].1 ==> (#[trigger] t.schemas@[a].types@[b]).name@ != p@[1].1,
        decreases t.schemas.len() - si,
    {
        let s = &t.schemas[si];
        if same_text(&s.name, sn.as_str()) {
            let mut ti: usize = 0;
            while ti < s.types.len()
                invariant
                    si < t.schemas.len(),
                    s == t.schemas@[si as int],
                    p@.len() == 2,
                    p@[0].0 == ScopeKind::Schema,
                    p@[1].0 == ScopeKind::Type,
                    s.name@ == p@[0].1,
                    n@ == p@[1].1,
                    ti <= s.types.len(),
                    forall|b: int| 0 <= b < ti ==> (#[trigger] s.types@[b]).name@ != p@[1].1,
                    forall|a: int, b: int|
                        0 <= a < si && 0 <= b < t.schemas@[a].types.len() && t.schemas@[a].name@ == p@[0].1 ==> (#[trigger] t.schemas@[a].types@[b]).name@ != p@[1].1,
                decreases s.types.len() - ti,
            {
                if same_text(&s.types[ti].name, n.as_str()) {
                    assert(t.schemas@[si as int].types@[ti as int].name@ == p@[1].1);
                    assert forall|a: int, b: int| #[trigger] decl_matches(*t, p@, a, b) implies !(a < si || (a == si && b < ti)) by {
                        if a == si && b < ti {
                            assert(s.types@[b] == t.schemas@[a].types@[b]);
                        }
                    }
                    assert(first_decl(*t, p@, si as int, ti as int));
                    return Some(&s.types[ti].underlying);
                }
                ti = ti + 1;
            }
        }
        si = si + 1;
    }
    assert forall|a: int, b: int| !#[trigger] decl_matches(*t, p@, a, b) by {
        if decl_matches(*t, p@, a, b) {
            assert(t.schemas@[a].types@[b].name@ == p@[1].1);
        }
    }
    None
}

/// Whether the entity declared at `p` states a supertype constraint.
fn find_entity_flag(t: &SyntaxTree, p: &Path) -> (r: Option<bool>)
    requires
        p@.len() == 2,
        p@[0].0 == ScopeKind::Schema,
        p@[1].0 == ScopeKind::Entity,
    ensures
        match r {
            Some(f) => entity_at(*t, p@, f),
            None => !entity_declared(*t, p@),
        },
{
    let sn = &p.segments[0].name;
    let n = &p.segments[1].name;
    let mut si: usize = 0;
    while si < t.schemas.len()
        invariant
            si <= t.schemas.len(),
            p@.len() == 2,
            p@[0].0 == ScopeKind::Schema,
            p@[1].0 == ScopeKind::Entity,
            sn@ == p@[0].1,
            n@ == p@[1].1,
            forall|a: int, b: int|
                0 <= a < si && 0 <= b < t.schemas@[a].entities.len() && t.schemas@[a].name@ == p@[0].1 ==> (#[trigger] t.schemas@[a].entities@[b]).name@ != p@[1].1,
        decreases t.schemas.len() - si,
    {
        let s = &t.schemas[si];
        if same_text(&s.name, sn.as_str()) {
            let mut ei: usize = 0;
            while ei < s.entities.len()
                invariant
                    si < t.schemas.len(),
                    s == t.schemas@[si as int],
                    p@.len() == 2,
                    p@[0].0 == ScopeKind::Schema,
                    p@[1].0 == ScopeKind::Entity,
                    s.name@ == p@[0].1,
                    n@ == p@[1].1,
                    ei <= s.entities.len(),
                    forall|b: int| 0 <= b < ei ==> (#[trigger] s.entities@[b]).name@ != p@[1].1,
                    forall|a: int, b: int|
                        0 <= a < si && 0 <= b < t.schemas@[a].entities.len() && t.schemas@[a].name@ == p@[0].1 ==> (#[trigger] t.schemas@[a].entities@[b]).name@ != p@[1].1,
                decreases s.entities.len() - ei,
            {
                if same_text(&s.entities[ei].name, n.as_str()) {
                    assert(t.schemas@[si as int].entities@[ei as int].name@ == p@[1].1);
                    assert forall|a: int, b: int| #[trigger] entity_decl_matches(*t, p@, a, b) implies !(a < si || (a == si && b < ei)) by {
                        if a == si && b < ei {
                            assert(s.entities@[b] == t.schemas@[a].entities@[b]);
                        }
                    }
                    assert(first_entity(*t, p@, si as int, ei as int));
                    return Some(s.entities[ei].has_supertype_decl);
                }
                ei = ei + 1;
            }
        }
        si = si + 1;
    }
    assert forall|a: int, b: int| !#[trigger] entity_decl_matches(*t, p@, a, b) by {
        if entity_decl_matches(*t, p@, a, b) {
            assert(t.schemas@[a].entities@[b].name@ == p@[1].1);
        }
    }
    None
}

fn contains_path(v: &Vec<Path>, p: &Path) -> (r: bool)
    ensures
        r == has_path(v@, p@),
{
    let mut i: usize = 0;
    while i < v.len()
        invariant
            i <= v.len(),
            forall|j: int| 0 <= j < i ==> (#[trigger] v@[j])@ != p@,
        decreases v.len() - i,
    {
        if v[i].same(p) {
            return true;
        }
        i = i + 1;
    }
    false
}

impl Namespace {
    /// Follows the aliases from the type declared at `start` to the first type
    /// that is no alias, and tells whether that one is simple.
    pub fn alias_is_simple(&self, start: &Path) -> (r: Result<bool, SemanticError>)
        requires
            type_declared(self.tree, start@),
        ensures
            alias_post(*self, start@, r),
    {
        let all = type_paths(&self.tree);
        let mut chain: Vec<Path> = Vec::new();
        let mut cur = start.copy();
        assert(paths_view(chain@.push(cur)) =~= seq![start@]);
        loop
            invariant
                type_declared(self.tree, cur@),
                forall|p: Seq<SegmentView>| type_declared(self.tree, p) ==> has_path(all@, p),
                distinct_paths(chain@),
                forall|i: int| 0 <= i < chain.len() ==> has_path(all@, #[trigger] chain@[i]@),
                chain.len() <= all.len(),
                paths_view(chain@.push(cur))[0] == start@,
                alias_chain(*self, paths_view(chain@.push(cur))),
                forall|b: bool, k: nat| #[trigger] alias_ends(*self, cur@, b, k) ==> alias_ends(*self, start@, b, (k + chain.len()) as nat),
            decreases all.len() - chain.len(),
        {
            let ghost c = paths_view(chain@.push(cur));
            if contains_path(&chain, &cur) {
                let ghost j = choose|j: int| 0 <= j < chain.len() && (#[trigger] chain@[j])@ == cur@;
                let ghost old_chain = chain@;
                chain.push(cur);
                assert(paths_view(chain@) =~= c);
                assert forall|a: int, b: int| 0 <= a < b < c.len() - 1 implies c[a] != c[b] by {
                    assert(c[a] == old_chain[a]@ && c[b] == old_chain[b]@);
                }
                assert(c[j] == c.last());
                return Err(SemanticError::CyclicTypeAlias { chain });
            }
            let ghost before = chain@;
            chain.push(cur.copy());
            proof {
                assert forall|i: int, j: int| 0 <= i < chain.len() && 0 <= j < chain.len() && i != j implies (#[trigger] chain@[i])@ != (#[trigger] chain@[j])@ by {
                    if i < before.len() && j < before.len() {
                        assert(chain@[i] == before[i] && chain@[j] == before[j]);
                    } else if i < before.len() {
                        assert(chain@[i] == before[i]);
                    } else if j < before.len() {
                        assert(chain@[j] == before[j]);
                    }
                }
                assert forall|i: int| 0 <= i < chain.len() implies has_path(all@, #[trigger] chain@[i]@) by {
                    if i < before.len() {
                        assert(chain@[i] == before[i]);
                    }
                }
                lemma_distinct_within(chain@, all@);
            }
            let ty = find_underlying(&self.tree, &cur);
            match ty {
                None => {
                    assert(false);
                    return Ok(false);
                },
                Some(ast::Type::Simple(_)) => {
                    assert(alias_root(*self, cur@, true));
                    assert(alias_ends(*self, cur@, true, 0));
                    assert(alias_ends(*self, start@, true, (0 + before.len()) as nat));
                    assert(alias_terminates(*self, start@, true));
                    return Ok(true);
                },
                Some(ast::Type::Named(m)) => {
                    let scope = Scope::root().pushed(ScopeKind::Schema, cur.segments[0].name.as_str());
                    assert(scope@ =~= schema_scope(cur@[0].1));
                    let res = self.resolve(&scope, m.as_str());
                    match res {
                        Err(e) => {
                            assert(underlying_at(self.tree, c.last(), ast::Type::Named(*m)));
                            return Err(e);
                        },
                        Ok(q) => {
                            proof {
                                lemma_resolved_decl(*self, scope@, m@, q@);
                            }
                            if q.segments[1].kind == ScopeKind::Entity {
                                assert(alias_root(*self, cur@, false));
                                assert(alias_ends(*self, cur@, false, 0));
                                assert(alias_ends(*self, start@, false, (0 + before.len()) as nat));
                                assert(alias_terminates(*self, start@, false));
                                return Ok(false);
                            }
                            proof {
                                assert(alias_next(*self, cur@, q@));
                                let c2 = paths_view(chain@.push(q));
                                assert(c2 =~= c.push(q@));
                                assert forall|i: int| 0 <= i < c2.len() - 1 implies #[trigger] alias_next(*self, c2[i], c2[i + 1]) by {
                                    if i < c.len() - 1 {
                                        assert(c2[i] == c[i] && c2[i + 1] == c[i + 1]);
                                    }
                                }
                                assert forall|b: bool, k: nat| #[trigger] alias_ends(*self, q@, b, k) implies alias_ends(*self, start@, b, (k + chain.len()) as nat) by {
                                    assert(alias_ends(*self, cur@, b, (k + 1) as nat));
                                    assert(alias_ends(*self, start@, b, ((k + 1) + before.len()) as nat));
                                }
                            }
                            cur = q;
                        },
                    }
                },
                Some(_) => {
                    assert(alias_root(*self, cur@, false));
                    assert(alias_ends(*self, cur@, false, 0));
                    assert(alias_ends(*self, start@, false, (0 + before.len()) as nat));
                    assert(alias_terminates(*self, start@, false));
                    return Ok(false);
                },
            }
        }
    }

    /// The type reference that `name` denotes as seen from `scope`.
    pub fn lookup_type(&self, scope: &Scope, name: &str) -> (r: Result<TypeRef, SemanticError>)
        ensures
            lookup_post(*self, scope@, name@, r),
    {
        let p = match self.resolve(scope, name) {
            Ok(p) => p,
            Err(e) => return Err(e),
        };
        proof {
            lemma_resolved_decl(*self, scope@, name@, p@);
        }
        let decl_scope = Scope::root().pushed(ScopeKind::Schema, p.segments[0].name.as_str());
        assert(decl_scope@ =~= schema_scope(p@[0].1));
        if p.segments[1].kind == ScopeKind::Entity {
            match find_entity_flag(&self.tree, &p) {
                Some(f) => Ok(TypeRef::Entity { name: String::from_str(name), scope: decl_scope, has_supertype_decl: f }),
                None => {
                    assert(false);
                    Err(SemanticError::UnresolvedName { name: String::from_str(name), scope: scope.copy() })
                },
            }
        } else {
            match self.alias_is_simple(&p) {
                Ok(b) => Ok(TypeRef::Named { name: String::from_str(name), scope: decl_scope, is_simple: b }),
                Err(e) => Err(e),
            }
        }
    }
}

/// The keyword of a type shape that legalization does not handle.
pub open spec fn shape_name(ty: ast::Type) -> Seq<char> {
    match ty {
        ast::Type::Bag { .. } => "BAG"@,
        ast::Type::Array { .. } => "ARRAY"@,
        ast::Type::Enumeration { .. } => "ENUMERATION"@,
        ast::Type::Select { .. } => "SELECT"@,
        _ => Seq::empty(),
    }
}

/// `tr` is the legalized form of `ty` seen from `scope`.
pub open spec fn legalized(ns: Namespace, scope: Seq<SegmentView>, ty: ast::Type, tr: TypeRef) -> bool
    decreases ty,
{
    match ty {
        ast::Type::Simple(s) => tr == TypeRef::SimpleType(SimpleType(s)),
        ast::Type::Named(n) => lookup_post(ns, scope, n@, Ok(tr)),
        ast::Type::SetOf { base, bound } => match tr {
            TypeRef::SetOf { base: b, bound: bd } => legalized(ns, scope, *base, *b) && bd.is_some()
                == bound.is_some(),
            _ => false,
        },
        ast::Type::List { base, bound, unique } => match tr {
            TypeRef::List { base: b, bound: bd, unique: u } => legalized(ns, scope, *base, *b) && bd.is_some()
                == bound.is_some() && u == unique,
            _ => false,
        },
        _ => false,
    }
}

/// Legalizing `ty` seen from `scope` fails with `e`.
pub open spec fn legalize_fails(ns: Namespace, scope: Seq<SegmentView>, ty: ast::Type, e: SemanticError) -> bool
    decreases ty,
{
    match ty {
        ast::Type::Simple(_) => false,
        ast::Type::Named(n) => lookup_post(ns, scope, n@, Err(e)),
        ast::Type::SetOf { base, .. } => legalize_fails(ns, scope, *base, e),
        ast::Type::List { base, .. } => legalize_fails(ns, scope, *base, e),
        _ => match e {
            SemanticError::UnsupportedConstruct { shape } => shape@ == shape_name(ty),
            _ => false,
        },
    }
}

impl SimpleType {
    /// The IR form of a built-in scalar kind.
    pub fn legalize(_ns: &Namespace, _ss: &SubSuperGraph, _scope: &Scope, input: &ast::SimpleType) -> (r: SimpleType)
        ensures
            r.0 == *input,
    {
        SimpleType(*input)
    }
}

impl Bound {
    /// The IR form of a bound; its expressions are not evaluated yet.
    pub fn legalize(_ns: &Namespace, _ss: &SubSuperGraph, _scope: &Scope, _input: &ast::Bound) -> (r: Bound)
        ensures
            r == (Bound {}),
    {
        Bound {}
    }
}

fn legalize_bound(ns: &Namespace, ss: &SubSuperGraph, scope: &Scope, bound: &Option<ast::Bound>) -> (r: Option<Bound>)
    ensures
        r.is_some() == bound.is_some(),
{
    match bound {
        Some(b) => Some(Bound::legalize(ns, ss, scope, b)),
        None => None,
    }
}

impl TypeRef {
    /// Resolves the type expression `ty` written in `scope`.
    pub fn legalize(ns: &Namespace, ss: &SubSuperGraph, scope: &Scope, ty: &ast::Type) -> (r: Result<TypeRef, SemanticError>)
        ensures
            match r {
                Ok(tr) => legalized(*ns, scope@, *ty, tr),
                Err(e) => legalize_fails(*ns, scope@, *ty, e),
            },
        decreases ty,
    {
        match ty {
            ast::Type::Simple(s) => Ok(TypeRef::SimpleType(SimpleType(*s))),
            ast::Type::Named(name) => ns.lookup_type(scope, name.as_str()),
            ast::Type::SetOf { base, bound } => {
                let base = match TypeRef::legalize(ns, ss, scope, base) {
                    Ok(b) => b,
                    Err(e) => return Err(e),
                };
                Ok(TypeRef::SetOf { base: Box::new(base), bound: legalize_bound(ns, ss, scope, bound) })
            },
            ast::Type::List { base, bound, unique } => {
                let base = match TypeRef::legalize(ns, ss, scope, base) {
                    Ok(b) => b,
                    Err(e) => return Err(e),
                };
                Ok(TypeRef::List { base: Box::new(base), bound: legalize_bound(ns, ss, scope, bound), unique: *unique })
            },
            ast::Type::Bag { .. } => Err(SemanticError::UnsupportedConstruct { shape: String::from_str("BAG") }),
            ast::Type::Array { .. } => Err(SemanticError::UnsupportedConstruct { shape: String::from_str("ARRAY") }),
            ast::Type::Enumeration { .. } => Err(
                SemanticError::UnsupportedConstruct { shape: String::from_str("ENUMERATION") },
            ),
            ast::Type::Select { .. } => Err(SemanticError::UnsupportedConstruct { shape: String::from_str("SELECT") }),
        }
    }
}

/// Whether a legalized aggregate keeps its elements unique: a set always
/// does, a list as its flag says.
pub open spec fn unique_elements(tr: TypeRef) -> bool {
    match tr {
        TypeRef::SetOf { .. } => true,
        TypeRef::List { unique, .. } => unique,
        _ => false,
    }
}

/// A legalized `LIST` is unique exactly when it was written `UNIQUE`; a
/// legalized `SET` is unique whatever was written.
pub proof fn lemma_legalize_uniqueness(ns: Namespace, scope: Seq<SegmentView>, ty: ast::Type, tr: TypeRef)
    requires
        legalized(ns, scope, ty, tr),
    ensures
        ty is List ==> tr is List && unique_elements(tr) == ty->List_unique,
        ty is SetOf ==> tr is SetOf && unique_elements(tr),
{
}

/// Legalizing an aggregate keeps its shape: the legalized base is the
/// legalization of the written base, a bound is present exactly when one was
/// written, and a list keeps its uniqueness flag.
pub proof fn lemma_legalize_aggregate_round_trip(ns: Namespace, scope: Seq<SegmentView>, ty: ast::Type, tr: TypeRef)
    requires
        legalized(ns, scope, ty, tr),
    ensures
        ty is SetOf ==> tr is SetOf && legalized(ns, scope, *ty->SetOf_base, *tr->SetOf_base)
            && tr->SetOf_bound.is_some() == ty->SetOf_bound.is_some(),
        ty is List ==> tr is List && legalized(ns, scope, *ty->List_base, *tr->List_base)
            && tr->List_bound.is_some() == ty->List_bound.is_some() && tr->List_unique == ty->List_unique,
{
}

/// A path has at most one underlying type.
pub open spec fn consistent_type_decls(t: SyntaxTree) -> bool {
    forall|p: Seq<SegmentView>, a: ast::Type, b: ast::Type|
        #[trigger] underlying_at(t, p, a) && #[trigger] underlying_at(t, p, b) ==> a == b
}

/// The first declaration at a path is unique, so its underlying type is too.
proof fn lemma_consistent_type_decls(t: SyntaxTree)
    ensures
        consistent_type_decls(t),
{
    assert forall|p: Seq<SegmentView>, a: ast::Type, b: ast::Type|
        #[trigger] underlying_at(t, p, a) && #[trigger] underlying_at(t, p, b) implies a == b by {
        let (s1, t1) = choose|si: int, ti: int| #[trigger] first_decl(t, p, si, ti) && t.schemas@[si].types@[ti].underlying == a;
        let (s2, t2) = choose|si: int, ti: int| #[trigger] first_decl(t, p, si, ti) && t.schemas@[si].types@[ti].underlying == b;
        assert(decl_matches(t, p, s1, t1) && decl_matches(t, p, s2, t2));
        assert(s1 == s2 && t1 == t2);
    }
}

proof fn lemma_resolves_unique(ns: Namespace, scope: Seq<SegmentView>, name: Seq<char>, p: Seq<SegmentView>, q: Seq<SegmentView>)
    requires
        resolves_to(ns, scope, name, p),
        resolves_to(ns, scope, name, q),
    ensures
        p == q,
{
}

proof fn lemma_alias_ends_functional(ns: Namespace, p: Seq<SegmentView>, b1: bool, k1: nat, b2: bool, k2: nat)
    requires
        consistent_type_decls(ns.tree),
        alias_ends(ns, p, b1, k1),
        alias_ends(ns, p, b2, k2),
    ensures
        b1 == b2,
    decreases k1,
{
    let t = ns.tree;
    if alias_root(ns, p, b1) {
        let ty1 = choose|ty: ast::Type| #[trigger] underlying_at(t, p, ty) && match ty {
            ast::Type::Simple(_) => b1,
            ast::Type::Named(m) => !b1 && exists|q: Seq<SegmentView>|
                resolves_to(ns, schema_scope(p[0].1), m@, q) && q.len() == 2 && q[1].0 == ScopeKind::Entity,
            _ => !b1,
        };
        if alias_root(ns, p, b2) {
            let ty2 = choose|ty: ast::Type| #[trigger] underlying_at(t, p, ty) && match ty {
                ast::Type::Simple(_) => b2,
                ast::Type::Named(m) => !b2 && exists|q: Seq<SegmentView>|
                    resolves_to(ns, schema_scope(p[0].1), m@, q) && q.len() == 2 && q[1].0 == ScopeKind::Entity,
                _ => !b2,
            };
            assert(ty1 == ty2);
        } else {
            let q2 = choose|q: Seq<SegmentView>| #[trigger] alias_next(ns, p, q) && alias_ends(ns, q, b2, (k2 - 1) as nat);
            let m2 = choose|m: String| #[trigger] underlying_at(t, p, ast::Type::Named(m)) && resolves_to(ns, schema_scope(p[0].1), m@, q2)
                && q2.len() == 2 && q2[1].0 == ScopeKind::Type;
            assert(ty1 == ast::Type::Named(m2));
            let q1 = choose|q: Seq<SegmentView>|
                resolves_to(ns, schema_scope(p[0].1), m2@, q) && q.len() == 2 && q[1].0 == ScopeKind::Entity;
            lemma_resolves_unique(ns, schema_scope(p[0].1), m2@, q1, q2);
        }
    } else {
        let q1 = choose|q: Seq<SegmentView>| #[trigger] alias_next(ns, p, q) && alias_ends(ns, q, b1, (k1 - 1) as nat);
        let m1 = choose|m: String| #[trigger] underlying_at(t, p, ast::Type::Named(m)) && resolves_to(ns, schema_scope(p[0].1), m@, q1)
            && q1.len() == 2 && q1[1].0 == ScopeKind::Type;
        if alias_root(ns, p, b2) {
            let ty2 = choose|ty: ast::Type| #[trigger] underlying_at(t, p, ty) && match ty {
                ast::Type::Simple(_) => b2,
                ast::Type::Named(m) => !b2 && exists|q: Seq<SegmentView>|
                    resolves_to(ns, schema_scope(p[0].1), m@, q) && q.len() == 2 && q[1].0 == ScopeKind::Entity,
                _ => !b2,
            };
            assert(ty2 == ast::Type::Named(m1));
            let q2 = choose|q: Seq<SegmentView>|
                resolves_to(ns, schema_scope(p[0].1), m1@, q) && q.len() == 2 && q[1].0 == ScopeKind::Entity;
            lemma_resolves_unique(ns, schema_scope(p[0].1), m1@, q1, q2);
        } else {
            let q2 = choose|q: Seq<SegmentView>| #[trigger] alias_next(ns, p, q) && alias_ends(ns, q, b2, (k2 - 1) as nat);
            let m2 = choose|m: String| #[trigger] underlying_at(t, p, ast::Type::Named(m)) && resolves_to(ns, schema_scope(p[0].1), m@, q2)
                && q2.len() == 2 && q2[1].0 == ScopeKind::Type;
            assert(ast::Type::Named(m1) == ast::Type::Named(m2));
            lemma_resolves_unique(ns, schema_scope(p[0].1), m1@, q1, q2);
            lemma_alias_ends_functional(ns, q1, b1, (k1 - 1) as nat, b2, (k2 - 1) as nat);
        }
    }
}

/// A named type reference is simple exactly when following its aliases ends
/// at a built-in scalar type, and not simple exactly when they end elsewhere
/// (an entity, an aggregate, an enumeration or a select).
pub proof fn lemma_named_is_simple(ns: Namespace, scope: Seq<SegmentView>, name: Seq<char>, tr: TypeRef)
    requires
        lookup_post(ns, scope, name, Ok(tr)),
        tr is Named,
    ensures
        exists|p: Seq<SegmentView>|
            resolves_to(ns, scope, name, p) && (tr.spec_is_simple() <==> alias_terminates(ns, p, true)) && (
            !tr.spec_is_simple() <==> alias_terminates(ns, p, false)),
{
    let p = choose|p: Seq<SegmentView>|
        #[trigger] resolves_to(ns, scope, name, p) && type_declared(ns.tree, p) && alias_post(ns, p, Ok(tr->Named_is_simple));
    let b = tr->Named_is_simple;
    let k = choose|k: nat| alias_ends(ns, p, b, k);
    lemma_consistent_type_decls(ns.tree);
    assert forall|c: bool| alias_terminates(ns, p, c) implies c == b by {
        let k2 = choose|k2: nat| alias_ends(ns, p, c, k2);
        lemma_alias_ends_functional(ns, p, b, k, c, k2);
    }
    assert(resolves_to(ns, scope, name, p));
}

/// `a` and `b` are the same type reference, names and scopes compared by view.
pub open spec fn same_ref(a: TypeRef, b: TypeRef) -> bool
    decreases a,
{
    match (a, b) {
        (TypeRef::SimpleType(x), TypeRef::SimpleType(y)) => x == y,
        (TypeRef::Named { name: n1, scope: s1, is_simple: f1 }, TypeRef::Named { name: n2, scope: s2, is_simple: f2 }) =>
            n1@ == n2@ && s1@ == s2@ && f1 == f2,
        (
            TypeRef::Entity { name: n1, scope: s1, has_supertype_decl: f1 },
            TypeRef::Entity { name: n2, scope: s2, has_supertype_decl: f2 },
        ) => n1@ == n2@ && s1@ == s2@ && f1 == f2,
        (TypeRef::SetOf { base: b1, bound: d1 }, TypeRef::SetOf { base: b2, bound: d2 }) => same_ref(*b1, *b2) && d1
            == d2,
        (TypeRef::List { base: b1, bound: d1, unique: u1 }, TypeRef::List { base: b2, bound: d2, unique: u2 }) =>
            same_ref(*b1, *b2) && d1 == d2 && u1 == u2,
        _ => false,
    }
}

proof fn lemma_entity_at_functional(t: SyntaxTree, p: Seq<SegmentView>, f1: bool, f2: bool)
    requires
        entity_at(t, p, f1),
        entity_at(t, p, f2),
    ensures
        f1 == f2,
{
    let (s1, e1) = choose|si: int, ei: int| #[trigger] first_entity(t, p, si, ei) && t.schemas@[si].entities@[ei].has_supertype_decl == f1;
    let (s2, e2) = choose|si: int, ei: int| #[trigger] first_entity(t, p, si, ei) && t.schemas@[si].entities@[ei].has_supertype_decl == f2;
    assert(entity_decl_matches(t, p, s1, e1) && entity_decl_matches(t, p, s2, e2));
}

/// Looking a name up twice from the same scope gives the same type reference.
pub proof fn lemma_lookup_deterministic(ns: Namespace, scope: Seq<SegmentView>, name: Seq<char>, r1: TypeRef, r2: TypeRef)
    requires
        lookup_post(ns, scope, name, Ok(r1)),
        lookup_post(ns, scope, name, Ok(r2)),
    ensures
        same_ref(r1, r2),
{
    lemma_consistent_type_decls(ns.tree);
    match (r1, r2) {
        (TypeRef::Entity { has_supertype_decl: f1, .. }, TypeRef::Entity { has_supertype_decl: f2, .. }) => {
            let p1 = choose|p: Seq<SegmentView>| #[trigger] resolves_to(ns, scope, name, p) && entity_at(ns.tree, p, f1) && r1->Entity_scope@ == schema_scope(p[0].1);
            let p2 = choose|p: Seq<SegmentView>| #[trigger] resolves_to(ns, scope, name, p) && entity_at(ns.tree, p, f2) && r2->Entity_scope@ == schema_scope(p[0].1);
            lemma_resolves_unique(ns, scope, name, p1, p2);
            lemma_entity_at_functional(ns.tree, p1, f1, f2);
        },
        (TypeRef::Named { is_simple: f1, .. }, TypeRef::Named { is_simple: f2, .. }) => {
            let p1 = choose|p: Seq<SegmentView>| #[trigger] resolves_to(ns, scope, name, p) && type_declared(ns.tree, p) && r1->Named_scope@ == schema_scope(p[0].1) && alias_post(ns, p, Ok(f1));
            let p2 = choose|p: Seq<SegmentView>| #[trigger] resolves_to(ns, scope, name, p) && type_declared(ns.tree, p) && r2->Named_scope@ == schema_scope(p[0].1) && alias_post(ns, p, Ok(f2));
            lemma_resolves_unique(ns, scope, name, p1, p2);
            let k1 = choose|k: nat| alias_ends(ns, p1, f1, k);
            let k2 = choose|k: nat| alias_ends(ns, p1, f2, k);
            lemma_alias_ends_functional(ns, p1, f1, k1, f2, k2);
        },
        (TypeRef::Entity { .. }, TypeRef::Named { .. }) => {
            let p1 = choose|p: Seq<SegmentView>| #[trigger] resolves_to(ns, scope, name, p) && entity_at(ns.tree, p, r1->Entity_has_supertype_decl) && r1->Entity_scope@ == schema_scope(p[0].1);
            let p2 = choose|p: Seq<SegmentView>| #[trigger] resolves_to(ns, scope, name, p) && type_declared(ns.tree, p) && r2->Named_scope@ == schema_scope(p[0].1) && alias_post(ns, p, Ok(r2->Named_is_simple));
            lemma_resolves_unique(ns, scope, name, p1, p2);
        },
        (TypeRef::Named { .. }, TypeRef::Entity { .. }) => {
            let p1 = choose|p: Seq<SegmentView>| #[trigger] resolves_to(ns, scope, name, p) && type_declared(ns.tree, p) && r1->Named_scope@ == schema_scope(p[0].1) && alias_post(ns, p, Ok(r1->Named_is_simple));
            let p2 = choose|p: Seq<SegmentView>| #[trigger] resolves_to(ns, scope, name, p) && entity_at(ns.tree, p, r2->Entity_has_supertype_decl) && r2->Entity_scope@ == schema_scope(p[0].1);
            lemma_resolves_unique(ns, scope, name, p1, p2);
        },
        _ => {},
    }
}

/// Legalizing the same type expression twice from the same scope gives the
/// same type reference.
pub proof fn lemma_legalize_deterministic(ns: Namespace, scope: Seq<SegmentView>, ty: ast::Type, r1: TypeRef, r2: TypeRef)
    requires
        legalized(ns, scope, ty, r1),
        legalized(ns, scope, ty, r2),
    ensures
        same_ref(r1, r2),
    decreases ty,
{
    match ty {
        ast::Type::Named(n) => lemma_lookup_deterministic(ns, scope, n@, r1, r2),
        ast::Type::SetOf { base, .. } => {
            lemma_legalize_deterministic(ns, scope, *base, *r1->SetOf_base, *r2->SetOf_base);
            if r1->SetOf_bound is Some {
                assert(r1->SetOf_bound->Some_0 == r2->SetOf_bound->Some_0);
            }
        },
        ast::Type::List { base, .. } => {
            lemma_legalize_deterministic(ns, scope, *base, *r1->List_base, *r2->List_base);
            if r1->List_bound is Some {
                assert(r1->List_bound->Some_0 == r2->List_bound->Some_0);
            }
        },
        _ => {},
    }
}

} // verus!
