//! The symbol table over every schema of a compilation unit, and name resolution.

use vstd::prelude::*;
use vstd::string::*;
use crate::ast::{Interface, Schema, SyntaxTree};
use crate::error::SemanticError;
use crate::scope::{decl_path, innermost_schema, same_text, Path, Scope, ScopeKind, SegmentView};

verus! {

/// Every declaration of every schema, addressable by path.
#[derive(Debug)]
pub struct Namespace {
    pub tree: SyntaxTree,
}

pub open spec fn has_entity(s: Schema, name: Seq<char>) -> bool {
    exists|i: int| 0 <= i < s.entities.len() && (#[trigger] s.entities@[i]).name@ == name
}

pub open spec fn has_type(s: Schema, name: Seq<char>) -> bool {
    exists|i: int| 0 <= i < s.types.len() && (#[trigger] s.types@[i]).name@ == name
}

/// `p` is the path of a declaration named `name` at the top level of `s`.
pub open spec fn schema_declares(s: Schema, name: Seq<char>, p: Seq<SegmentView>) -> bool {
    (has_entity(s, name) && p == decl_path(s.name@, ScopeKind::Entity, name)) || (has_type(s, name)
        && p == decl_path(s.name@, ScopeKind::Type, name))
}

pub open spec fn local_visible_upto(
    t: SyntaxTree,
    sname: Seq<char>,
    name: Seq<char>,
    p: Seq<SegmentView>,
    n: int,
) -> bool {
    exists|si: int|
        0 <= si < n && si < t.schemas.len() && (#[trigger] t.schemas@[si]).name@ == sname
            && schema_declares(t.schemas@[si], name, p)
}

/// `p` names a declaration `name` local to a schema called `sname`.
pub open spec fn local_visible(t: SyntaxTree, sname: Seq<char>, name: Seq<char>, p: Seq<SegmentView>) -> bool {
    local_visible_upto(t, sname, name, p, t.schemas.len() as int)
}

/// The interface lists `name` among what it brings in.
pub open spec fn lists(f: Interface, name: Seq<char>) -> bool {
    exists|j: int| 0 <= j < f.names.len() && (#[trigger] f.names@[j])@ == name
}

/// Local declarations come first; the interface is consulted only when
/// there is none, and what an imported schema itself imports is followed, up
/// to `d` interfaces deep.
pub open spec fn visible_within(t: SyntaxTree, sname: Seq<char>, name: Seq<char>, p: Seq<SegmentView>, d: nat) -> bool
    decreases d,
{
    local_visible(t, sname, name, p) || ((forall|q: Seq<SegmentView>| !local_visible(t, sname, name, q)) && d > 0
        && exists|si: int, k: int|
        0 <= si < t.schemas.len() && t.schemas@[si].name@ == sname && 0 <= k < t.schemas@[si].interfaces.len()
            && lists(#[trigger] t.schemas@[si].interfaces@[k], name) && visible_within(
            t,
            t.schemas@[si].interfaces@[k].schema@,
            name,
            p,
            (d - 1) as nat,
        ))
}

/// Through interface `k` of schema `si`, `name` is brought in from a schema
/// where, looking `d - 1` interfaces further at most, it denotes `p`.
pub open spec fn imported_through(t: SyntaxTree, si: int, k: int, name: Seq<char>, p: Seq<SegmentView>, d: nat) -> bool {
    d > 0 && 0 <= k < t.schemas@[si].interfaces.len() && lists(t.schemas@[si].interfaces@[k], name)
        && visible_within(t, t.schemas@[si].interfaces@[k].schema@, name, p, (d - 1) as nat)
}

/// `p` names a declaration `name` that a schema called `sname` brings in through its interface.
pub open spec fn imported_visible(t: SyntaxTree, sname: Seq<char>, name: Seq<char>, p: Seq<SegmentView>, d: nat) -> bool {
    exists|si: int, k: int|
        0 <= si < t.schemas.len() && t.schemas@[si].name@ == sname && #[trigger] imported_through(t, si, k, name, p, d)
}

pub proof fn lemma_visible_unfold(t: SyntaxTree, sname: Seq<char>, name: Seq<char>, p: Seq<SegmentView>, d: nat)
    ensures
        visible_within(t, sname, name, p, d) == (local_visible(t, sname, name, p) || ((forall|q: Seq<SegmentView>|
            !local_visible(t, sname, name, q)) && imported_visible(t, sname, name, p, d))),
{
    if d > 0 && exists|si: int, k: int|
        0 <= si < t.schemas.len() && t.schemas@[si].name@ == sname && 0 <= k < t.schemas@[si].interfaces.len()
            && lists(#[trigger] t.schemas@[si].interfaces@[k], name) && visible_within(
            t,
            t.schemas@[si].interfaces@[k].schema@,
            name,
            p,
            (d - 1) as nat,
        ) {
        let (si, k) = choose|si: int, k: int|
            0 <= si < t.schemas.len() && t.schemas@[si].name@ == sname && 0 <= k < t.schemas@[si].interfaces.len()
                && lists(#[trigger] t.schemas@[si].interfaces@[k], name) && visible_within(
                t,
                t.schemas@[si].interfaces@[k].schema@,
                name,
                p,
                (d - 1) as nat,
            );
        assert(imported_through(t, si, k, name, p, d));
    }
    if imported_visible(t, sname, name, p, d) {
        let (si, k) = choose|si: int, k: int|
            0 <= si < t.schemas.len() && t.schemas@[si].name@ == sname && #[trigger] imported_through(t, si, k, name, p, d);
        assert(d > 0);
        assert(visible_within(t, t.schemas@[si].interfaces@[k].schema@, name, p, (d - 1) as nat));
        assert(0 <= k < t.schemas@[si].interfaces.len() && lists(t.schemas@[si].interfaces@[k], name));
    }
    reveal_with_fuel(visible_within, 1);
}

/// `p` is a declaration `name` visible in schemas called `sname`. An import
/// chain longer than the number of schemas revisits a schema and adds nothing.
pub open spec fn visible(t: SyntaxTree, sname: Seq<char>, name: Seq<char>, p: Seq<SegmentView>) -> bool {
    visible_within(t, sname, name, p, t.schemas.len() as nat)
}

/// `p` is a candidate for `name` as seen from `scope`.
pub open spec fn visible_from(ns: Namespace, scope: Seq<SegmentView>, name: Seq<char>, p: Seq<SegmentView>) -> bool {
    match innermost_schema(scope) {
        Some(sn) => visible(ns.tree, sn, name, p),
        None => false,
    }
}

/// `name` seen from `scope` resolves to `p` and to nothing else.
pub open spec fn resolves_to(ns: Namespace, scope: Seq<SegmentView>, name: Seq<char>, p: Seq<SegmentView>) -> bool {
    visible_from(ns, scope, name, p) && forall|q: Seq<SegmentView>| visible_from(ns, scope, name, q) ==> q == p
}

pub open spec fn has_path(v: Seq<Path>, q: Seq<SegmentView>) -> bool {
    exists|i: int| 0 <= i < v.len() && (#[trigger] v[i])@ == q
}

pub open spec fn distinct_paths(v: Seq<Path>) -> bool {
    forall|i: int, j: int| 0 <= i < v.len() && 0 <= j < v.len() && i != j ==> (#[trigger] v[i])@ != (#[trigger] v[j])@
}

/// What `resolve` promises for `name` seen from `scope`.
pub open spec fn resolve_post(
    ns: Namespace,
    scope: Seq<SegmentView>,
    name: Seq<char>,
    r: Result<Path, SemanticError>,
) -> bool {
    match r {
        Ok(p) => resolves_to(ns, scope, name, p@),
        Err(SemanticError::UnresolvedName { name: n, scope: s }) => n@ == name && s@ == scope && forall|
            q: Seq<SegmentView>,
        | !visible_from(ns, scope, name, q),
        Err(SemanticError::AmbiguousName { name: n, scope: s, candidates }) => n@ == name && s@ == scope
            && candidates.len() >= 2 && distinct_paths(candidates@) && forall|q: Seq<SegmentView>|
            has_path(candidates@, q) == visible_from(ns, scope, name, q),
        _ => false,
    }
}

fn has_entity_named(s: &Schema, name: &str) -> (r: bool)
    ensures
        r == has_entity(*s, name@),
{
    let mut i: usize = 0;
    while i < s.entities.len()
        invariant
            i <= s.entities.len(),
            forall|j: int| 0 <= j < i ==> (#[trigger] s.entities@[j]).name@ != name@,
        decreases s.entities.len() - i,
    {
        if same_text(&s.entities[i].name, name) {
            return true;
        }
        i = i + 1;
    }
    false
}

fn has_type_named(s: &Schema, name: &str) -> (r: bool)
    ensures
        r == has_type(*s, name@),
{
    let mut i: usize = 0;
    while i < s.types.len()
        invariant
            i <= s.types.len(),
            forall|j: int| 0 <= j < i ==> (#[trigger] s.types@[j]).name@ != name@,
        decreases s.types.len() - i,
    {
        if same_text(&s.types[i].name, name) {
            return true;
        }
        i = i + 1;
    }
    false
}

fn lists_name(f: &Interface, name: &str) -> (r: bool)
    ensures
        r == lists(*f, name@),
{
    let mut i: usize = 0;
    while i < f.names.len()
        invariant
            i <= f.names.len(),
            forall|j: int| 0 <= j < i ==> (#[trigger] f.names@[j])@ != name@,
        decreases f.names.len() - i,
    {
        if same_text(&f.names[i], name) {
            return true;
        }
        i = i + 1;
    }
    false
}

/// The path of a top-level declaration.
pub fn make_decl_path(schema: &str, kind: ScopeKind, name: &str) -> (r: Path)
    ensures
        r@ == decl_path(schema@, kind, name@),
{
    let scope = Scope::root().pushed(ScopeKind::Schema, schema);
    let r = Path::new(&scope, kind, name);
    assert(r@ =~= decl_path(schema@, kind, name@));
    r
}

fn add_candidate(cands: &mut Vec<Path>, p: Path)
    requires
        distinct_paths(old(cands)@),
    ensures
        distinct_paths(final(cands)@),
        forall|q: Seq<SegmentView>| has_path(final(cands)@, q) == (has_path(old(cands)@, q) || q == p@),
{
    let mut i: usize = 0;
    while i < cands.len()
        invariant
            cands@ == old(cands)@,
            distinct_paths(cands@),
            i <= cands.len(),
            forall|j: int| 0 <= j < i ==> (#[trigger] cands@[j])@ != p@,
        decreases cands.len() - i,
    {
        if cands[i].same(&p) {
            assert(has_path(cands@, p@));
            return;
        }
        i = i + 1;
    }
    let ghost before = cands@;
    cands.push(p);
    assert forall|q: Seq<SegmentView>| has_path(cands@, q) == (has_path(before, q) || q == p@) by {
        if has_path(before, q) {
            let j = choose|j: int| 0 <= j < before.len() && (#[trigger] before[j])@ == q;
            assert(cands@[j] == before[j]);
        }
        if q == p@ {
            assert(cands@[before.len() as int] == p);
        }
        if has_path(cands@, q) {
            let j = choose|j: int| 0 <= j < cands@.len() && (#[trigger] cands@[j])@ == q;
            if j < before.len() {
                assert(before[j] == cands@[j]);
            }
        }
    }
}

/// Adds the paths of every declaration `name` local to a schema called `sname`.
fn collect_local(t: &SyntaxTree, sname: &str, name: &str, cands: &mut Vec<Path>)
    requires
        distinct_paths(old(cands)@),
    ensures
        distinct_paths(final(cands)@),
        forall|q: Seq<SegmentView>|
            #![trigger has_path(final(cands)@, q)]
            #![trigger local_visible(*t, sname@, name@, q)]
            has_path(final(cands)@, q) == (has_path(old(cands)@, q) || local_visible(*t, sname@, name@, q)),
{
    let ghost start = cands@;
    let mut i: usize = 0;
    while i < t.schemas.len()
        invariant
            i <= t.schemas.len(),
            distinct_paths(cands@),
            forall|q: Seq<SegmentView>|
                #![trigger has_path(cands@, q)]
                #![trigger local_visible_upto(*t, sname@, name@, q, i as int)]
                has_path(cands@, q) == (has_path(start, q) || local_visible_upto(*t, sname@, name@, q, i as int)),
        decreases t.schemas.len() - i,
    {
        let s = &t.schemas[i];
        let ghost mid = cands@;
        if same_text(&s.name, sname) {
            if has_entity_named(s, name) {
                add_candidate(cands, make_decl_path(sname, ScopeKind::Entity, name));
            }
            if has_type_named(s, name) {
                add_candidate(cands, make_decl_path(sname, ScopeKind::Type, name));
            }
        }
        assert forall|q: Seq<SegmentView>|
            has_path(cands@, q) == (has_path(mid, q) || (s.name@ == sname@ && schema_declares(*s, name@, q))) by {
        }
        assert forall|q: Seq<SegmentView>|
            #![trigger has_path(cands@, q)]
            #![trigger local_visible_upto(*t, sname@, name@, q, i + 1)]
            has_path(cands@, q) == (has_path(start, q) || local_visible_upto(*t, sname@, name@, q, i + 1)) by {
            assert(has_path(mid, q) == (has_path(start, q) || local_visible_upto(*t, sname@, name@, q, i as int)));
            if local_visible_upto(*t, sname@, name@, q, i + 1) && !local_visible_upto(*t, sname@, name@, q, i as int) {
                let si = choose|si: int|
                    0 <= si < i + 1 && si < t.schemas.len() && (#[trigger] t.schemas@[si]).name@ == sname@
                        && schema_declares(t.schemas@[si], name@, q);
                assert(si == i);
            }
            if local_visible_upto(*t, sname@, name@, q, i as int) {
                let si = choose|si: int|
                    0 <= si < i && si < t.schemas.len() && (#[trigger] t.schemas@[si]).name@ == sname@
                        && schema_declares(t.schemas@[si], name@, q);
                assert(local_visible_upto(*t, sname@, name@, q, i + 1));
            }
            if s.name@ == sname@ && schema_declares(*s, name@, q) {
                assert(t.schemas@[i as int].name@ == sname@);
                assert(local_visible_upto(*t, sname@, name@, q, i + 1));
            }
        }
        i = i + 1;
    }
}

/// Moves the paths of `sub` into `cands`, leaving out repeats.
fn merge_candidates(cands: &mut Vec<Path>, sub: &Vec<Path>)
    requires
        distinct_paths(old(cands)@),
    ensures
        distinct_paths(final(cands)@),
        forall|q: Seq<SegmentView>| #[trigger] has_path(final(cands)@, q) == (has_path(old(cands)@, q) || has_path(sub@, q)),
{
    let ghost start = cands@;
    let mut i: usize = 0;
    while i < sub.len()
        invariant
            i <= sub.len(),
            distinct_paths(cands@),
            forall|q: Seq<SegmentView>| #[trigger] has_path(cands@, q) == (has_path(start, q) || exists|j: int|
                0 <= j < i && (#[trigger] sub@[j])@ == q),
        decreases sub.len() - i,
    {
        add_candidate(cands, sub[i].copy());
        i = i + 1;
    }
}

/// Collects into the empty `cands` every declaration `name` visible in
/// schemas called `sname`, following interfaces up to `d` deep.
fn collect_visible(t: &SyntaxTree, sn: &str, name: &str, d: usize, cands: &mut Vec<Path>)
    requires
        old(cands)@.len() == 0,
    ensures
        distinct_paths(final(cands)@),
        forall|q: Seq<SegmentView>|
            #![trigger has_path(final(cands)@, q)]
            #![trigger visible_within(*t, sn@, name@, q, d as nat)]
            has_path(final(cands)@, q) == visible_within(*t, sn@, name@, q, d as nat),
    decreases d,
{
        collect_local(t, sn, name, cands);
        if cands.len() != 0 {
            assert(has_path(cands@, cands@[0]@));
            assert(local_visible(*t, sn@, name@, cands@[0]@));
            assert forall|q: Seq<SegmentView>|
                #![trigger has_path(cands@, q)]
                #![trigger visible_within(*t, sn@, name@, q, d as nat)]
                has_path(cands@, q) == visible_within(*t, sn@, name@, q, d as nat) by {
            }
        } else {
            assert forall|q: Seq<SegmentView>| !local_visible(*t, sn@, name@, q) by {
                if local_visible(*t, sn@, name@, q) {
                    assert(has_path(cands@, q));
                }
            }
            let mut i: usize = 0;
            while i < t.schemas.len() && d > 0
                invariant
                    i <= t.schemas.len(),
                    distinct_paths(cands@),
                    forall|q: Seq<SegmentView>| has_path(cands@, q) == exists|si: int, k: int|
                        0 <= si < i && t.schemas@[si].name@ == sn@
                            && #[trigger] imported_through(*t, si, k, name@, q, d as nat),
                decreases t.schemas.len() - i,
            {
                let s = &t.schemas[i];
                if same_text(&s.name, sn) {
                    let mut k: usize = 0;
                    while k < s.interfaces.len()
                        invariant
                            d > 0,
                            i < t.schemas.len(),
                            s == t.schemas@[i as int],
                            s.name@ == sn@,
                            k <= s.interfaces.len(),
                            distinct_paths(cands@),
                            forall|q: Seq<SegmentView>| has_path(cands@, q) == ((exists|si: int, kk: int|
                                0 <= si < i && t.schemas@[si].name@ == sn@
                                    && #[trigger] imported_through(*t, si, kk, name@, q, d as nat)) || exists|kk: int|
                                0 <= kk < k && #[trigger] imported_through(*t, i as int, kk, name@, q, d as nat)),
                        decreases s.interfaces.len() - k,
                    {
                        let f = &s.interfaces[k];
                        let ghost mid = cands@;
                        if lists_name(f, name) {
                            let mut sub: Vec<Path> = Vec::new();
                            collect_visible(t, f.schema.as_str(), name, d - 1, &mut sub);
                            merge_candidates(cands, &sub);
                        }
                        assert forall|q: Seq<SegmentView>| has_path(cands@, q) == ((exists|si: int, kk: int|
                            0 <= si < i && t.schemas@[si].name@ == sn@
                                && #[trigger] imported_through(*t, si, kk, name@, q, d as nat)) || exists|kk: int|
                            0 <= kk < k + 1 && #[trigger] imported_through(*t, i as int, kk, name@, q, d as nat)) by {
                            if imported_through(*t, i as int, k as int, name@, q, d as nat) {
                                assert(has_path(cands@, q));
                            }
                        }
                        k = k + 1;
                    }
                    assert forall|q: Seq<SegmentView>| has_path(cands@, q) == exists|si: int, kk: int|
                        0 <= si < i + 1 && t.schemas@[si].name@ == sn@
                            && #[trigger] imported_through(*t, si, kk, name@, q, d as nat) by {
                        if exists|si: int, kk: int|
                            0 <= si < i + 1 && t.schemas@[si].name@ == sn@
                                && #[trigger] imported_through(*t, si, kk, name@, q, d as nat) {
                            let (si, kk) = choose|si: int, kk: int|
                                0 <= si < i + 1 && t.schemas@[si].name@ == sn@
                                    && #[trigger] imported_through(*t, si, kk, name@, q, d as nat);
                            if si == i {
                                assert(0 <= kk < k);
                            }
                        }
                    }
                } else {
                    assert forall|q: Seq<SegmentView>| has_path(cands@, q) == exists|si: int, kk: int|
                        0 <= si < i + 1 && t.schemas@[si].name@ == sn@
                            && #[trigger] imported_through(*t, si, kk, name@, q, d as nat) by {
                        if exists|si: int, kk: int|
                            0 <= si < i + 1 && t.schemas@[si].name@ == sn@
                                && #[trigger] imported_through(*t, si, kk, name@, q, d as nat) {
                            let (si, kk) = choose|si: int, kk: int|
                                0 <= si < i + 1 && t.schemas@[si].name@ == sn@
                                    && #[trigger] imported_through(*t, si, kk, name@, q, d as nat);
                            assert(si != i);
                        }
                    }
                }
                i = i + 1;
            }
            assert forall|q: Seq<SegmentView>|
                #![trigger has_path(cands@, q)]
                #![trigger visible_within(*t, sn@, name@, q, d as nat)]
                has_path(cands@, q) == visible_within(*t, sn@, name@, q, d as nat) by {
                lemma_visible_unfold(*t, sn@, name@, q, d as nat);
                assert(imported_visible(*t, sn@, name@, q, d as nat) == exists|si: int, k: int|
                    0 <= si < t.schemas.len() && t.schemas@[si].name@ == sn@
                        && #[trigger] imported_through(*t, si, k, name@, q, d as nat));
            }
        }
}

impl Namespace {
    /// Registers every declaration of every schema of `tree`.
    pub fn new(tree: SyntaxTree) -> (r: Namespace)
        ensures
            r.tree == tree,
    {
        Namespace { tree }
    }

    /// The declaration that `name` denotes as seen from `scope`.
    pub fn resolve(&self, scope: &Scope, name: &str) -> (r: Result<Path, SemanticError>)
        ensures
            resolve_post(*self, scope@, name@, r),
    {
        let t = &self.tree;
        let mut cands: Vec<Path> = Vec::new();
        match scope.schema_name() {
            None => {},
            Some(sname) => {
                let sn: &str = sname.as_str();
                collect_visible(t, sn, name, t.schemas.len(), &mut cands);
                assert(innermost_schema(scope@) == Some(sn@));
            },
        }
        assert forall|q: Seq<SegmentView>|
            #![trigger has_path(cands@, q)]
            #![trigger visible_from(*self, scope@, name@, q)]
            has_path(cands@, q) == visible_from(*self, scope@, name@, q) by {
            if has_path(cands@, q) && innermost_schema(scope@).is_none() {
                let j = choose|j: int| 0 <= j < cands@.len() && (#[trigger] cands@[j])@ == q;
            }
        }
        if cands.len() == 0 {
            return Err(SemanticError::UnresolvedName { name: String::from_str(name), scope: scope.copy() });
        }
        if cands.len() == 1 {
            let ghost c = cands@;
            let p = cands.pop().unwrap();
            proof {
                assert(c[0] == p);
                assert(has_path(c, p@));
                assert forall|q: Seq<SegmentView>| visible_from(*self, scope@, name@, q) implies q == p@ by {
                    let j = choose|j: int| 0 <= j < c.len() && (#[trigger] c[j])@ == q;
                }
            }
            return Ok(p);
        }
        assert(cands@[0]@ != cands@[1]@);
        Err(SemanticError::AmbiguousName { name: String::from_str(name), scope: scope.copy(), candidates: cands })
    }
}

/// Resolution depends only on the namespace, the scope and the name: two
/// resolutions of the same name from the same scope either both succeed with
/// the same path or both fail with the same kind of error.
pub proof fn lemma_resolve_deterministic(
    ns: Namespace,
    scope: Seq<SegmentView>,
    name: Seq<char>,
    r1: Result<Path, SemanticError>,
    r2: Result<Path, SemanticError>,
)
    requires
        resolve_post(ns, scope, name, r1),
        resolve_post(ns, scope, name, r2),
    ensures
        r1 is Ok <==> r2 is Ok,
        r1 is Ok ==> r1->Ok_0@ == r2->Ok_0@,
        (r1 is Err && r1->Err_0 is UnresolvedName) <==> (r2 is Err && r2->Err_0 is UnresolvedName),
{
    lemma_resolve_outcome(ns, scope, name, r1);
    lemma_resolve_outcome(ns, scope, name, r2);
}

proof fn lemma_resolve_outcome(ns: Namespace, scope: Seq<SegmentView>, name: Seq<char>, r: Result<Path, SemanticError>)
    requires
        resolve_post(ns, scope, name, r),
    ensures
        r is Ok ==> resolves_to(ns, scope, name, r->Ok_0@),
        (r is Err && r->Err_0 is UnresolvedName) <==> forall|q: Seq<SegmentView>| !visible_from(ns, scope, name, q),
        (r is Err && r->Err_0 is AmbiguousName) ==> exists|a: Seq<SegmentView>, b: Seq<SegmentView>|
            a != b && visible_from(ns, scope, name, a) && visible_from(ns, scope, name, b),
{
    match r {
        Ok(p) => {
            assert(visible_from(ns, scope, name, p@));
        },
        Err(SemanticError::AmbiguousName { candidates, .. }) => {
            let a = candidates@[0]@;
            let b = candidates@[1]@;
            assert(has_path(candidates@, a));
            assert(has_path(candidates@, b));
            assert(visible_from(ns, scope, name, a));
        },
        _ => {},
    }
}

} // verus!
