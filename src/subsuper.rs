//! The graph from each supertype to the entities that declare it.

use vstd::prelude::*;
use crate::ast::{supertypes_of, SyntaxTree};
use crate::error::SemanticError;
use crate::namespace::{has_path, resolve_post, resolves_to, Namespace};
use crate::scope::{decl_path, Path, Scope, ScopeKind, SegmentView};

verus! {

/// Subtype-supertype graph: each entry is a supertype with its subtypes in
/// declaration order. Keys are distinct and stand in the order in which their
/// first subtype is met; subtype lists are never empty and keep repeats.
///
/// A subtype is recorded under the path of its declaration (schema, then
/// entity), the same form that resolution gives for the supertype.
#[derive(Debug)]
pub struct SubSuperGraph {
    pub super_to_sub: Vec<(Path, Vec<Path>)>,
}

/// A `(supertype, subtype)` pair of declaration paths.
pub type Edge = (Seq<SegmentView>, Seq<SegmentView>);

/// `sub` stands in the subtype list of `sup`.
pub open spec fn graph_has(g: Seq<(Path, Vec<Path>)>, sup: Seq<SegmentView>, sub: Seq<SegmentView>) -> bool {
    exists|k: int| 0 <= k < g.len() && (#[trigger] g[k]).0@ == sup && has_path(g[k].1@, sub)
}

pub open spec fn distinct_keys(g: Seq<(Path, Vec<Path>)>) -> bool {
    forall|i: int, j: int| 0 <= i < g.len() && 0 <= j < g.len() && i != j ==> (#[trigger] g[i]).0@ != (#[trigger] g[j]).0@
}

pub open spec fn has_key(g: Seq<(Path, Vec<Path>)>, key: Seq<SegmentView>) -> bool {
    exists|k: int| 0 <= k < g.len() && (#[trigger] g[k]).0@ == key
}

pub open spec fn paths_of(v: Seq<Path>) -> Seq<Seq<SegmentView>> {
    v.map_values(|p: Path| p@)
}

/// The subtypes that `edges` gives for `key`, in order, repeats kept.
pub open spec fn subtypes_in(edges: Seq<Edge>, key: Seq<SegmentView>) -> Seq<Seq<SegmentView>>
    decreases edges.len(),
{
    if edges.len() == 0 {
        Seq::empty()
    } else {
        subtypes_in(edges.drop_last(), key) + if edges.last().0 == key {
            seq![edges.last().1]
        } else {
            Seq::empty()
        }
    }
}

/// The supertypes of `edges` in order of first appearance.
pub open spec fn keys_in(edges: Seq<Edge>) -> Seq<Seq<SegmentView>>
    decreases edges.len(),
{
    if edges.len() == 0 {
        Seq::empty()
    } else if keys_in(edges.drop_last()).contains(edges.last().0) {
        keys_in(edges.drop_last())
    } else {
        keys_in(edges.drop_last()).push(edges.last().0)
    }
}

pub open spec fn keys_of(g: Seq<(Path, Vec<Path>)>) -> Seq<Seq<SegmentView>> {
    g.map_values(|x: (Path, Vec<Path>)| x.0@)
}

/// The graph holds exactly `edges`: keys in order of first appearance, distinct keys, each with the non-empty
/// list of its subtypes in the order of `edges`, and a key for every
/// supertype that `edges` names.
pub open spec fn graph_matches(g: Seq<(Path, Vec<Path>)>, edges: Seq<Edge>) -> bool {
    &&& distinct_keys(g)
    &&& keys_of(g) == keys_in(edges)
    &&& forall|k: int|
        0 <= k < g.len() ==> paths_of((#[trigger] g[k]).1@) == subtypes_in(edges, g[k].0@) && g[k].1.len() > 0
    &&& forall|key: Seq<SegmentView>| #[trigger] subtypes_in(edges, key).len() > 0 ==> has_key(g, key)
}

/// The scope in which an entity's own names are resolved.
pub open spec fn entity_scope(t: SyntaxTree, si: int, ei: int) -> Seq<SegmentView> {
    seq![(ScopeKind::Schema, t.schemas@[si].name@), (ScopeKind::Entity, t.schemas@[si].entities@[ei].name@)]
}

/// The path of entity `ei` of schema `si`.
pub open spec fn entity_path(t: SyntaxTree, si: int, ei: int) -> Seq<SegmentView> {
    decl_path(t.schemas@[si].name@, ScopeKind::Entity, t.schemas@[si].entities@[ei].name@)
}

pub open spec fn declared_supertype(t: SyntaxTree, si: int, ei: int, j: int) -> bool {
    0 <= si < t.schemas.len() && 0 <= ei < t.schemas@[si].entities.len() && 0 <= j < supertypes_of(
        t.schemas@[si].entities@[ei],
    ).len()
}

pub open spec fn supertype_name(t: SyntaxTree, si: int, ei: int, j: int) -> Seq<char> {
    supertypes_of(t.schemas@[si].entities@[ei])[j]@
}

/// Reference `(a, b, c)` comes before `(si, ei, j)`: schemas first, then
/// entities, then the references of one entity.
pub open spec fn visited_before(a: int, b: int, c: int, si: int, ei: int, j: int) -> bool {
    a < si || (a == si && b < ei) || (a == si && b == ei && c < j)
}

/// The `j`-th supertype named by entity `ei` of schema `si` resolves.
pub open spec fn reference_resolves(ns: Namespace, t: SyntaxTree, si: int, ei: int, j: int) -> bool {
    exists|p: Seq<SegmentView>| #[trigger] resolves_to(ns, entity_scope(t, si, ei), supertype_name(t, si, ei, j), p)
}

/// The path that the `j`-th supertype named by entity `ei` of schema `si` resolves to.
pub open spec fn resolved_supertype(ns: Namespace, t: SyntaxTree, si: int, ei: int, j: int) -> Seq<SegmentView> {
    choose|p: Seq<SegmentView>| resolves_to(ns, entity_scope(t, si, ei), supertype_name(t, si, ei, j), p)
}

/// The edges of the first `j` supertype references of entity `ei` of schema `si`.
pub open spec fn entity_edges(ns: Namespace, t: SyntaxTree, si: int, ei: int, j: int) -> Seq<Edge>
    decreases j,
{
    if j <= 0 {
        Seq::empty()
    } else {
        entity_edges(ns, t, si, ei, j - 1).push((resolved_supertype(ns, t, si, ei, j - 1), entity_path(t, si, ei)))
    }
}

/// The edges of the first `ei` entities of schema `si`.
pub open spec fn schema_edges(ns: Namespace, t: SyntaxTree, si: int, ei: int) -> Seq<Edge>
    decreases ei,
{
    if ei <= 0 {
        Seq::empty()
    } else {
        schema_edges(ns, t, si, ei - 1) + entity_edges(
            ns,
            t,
            si,
            ei - 1,
            supertypes_of(t.schemas@[si].entities@[ei - 1]).len() as int,
        )
    }
}

/// The edges of the first `si` schemas.
pub open spec fn tree_edges(ns: Namespace, t: SyntaxTree, si: int) -> Seq<Edge>
    decreases si,
{
    if si <= 0 {
        Seq::empty()
    } else {
        tree_edges(ns, t, si - 1) + schema_edges(ns, t, si - 1, t.schemas@[si - 1].entities.len() as int)
    }
}

/// Every supertype edge of `t`, in traversal order.
pub open spec fn all_edges(ns: Namespace, t: SyntaxTree) -> Seq<Edge> {
    tree_edges(ns, t, t.schemas.len() as int)
}

/// The `j`-th supertype named by entity `ei` of schema `si` resolves, and the
/// graph lists that entity under it.
pub open spec fn edge_recorded(ns: Namespace, t: SyntaxTree, g: Seq<(Path, Vec<Path>)>, si: int, ei: int, j: int) -> bool {
    exists|p: Seq<SegmentView>|
        #[trigger] resolves_to(ns, entity_scope(t, si, ei), supertype_name(t, si, ei, j), p) && graph_has(
            g,
            p,
            entity_path(t, si, ei),
        )
}

pub open spec fn supertype_unresolved(ns: Namespace, t: SyntaxTree, si: int, ei: int, j: int) -> bool {
    forall|p: Seq<SegmentView>| !#[trigger] resolves_to(ns, entity_scope(t, si, ei), supertype_name(t, si, ei, j), p)
}

proof fn lemma_subtypes_push(edges: Seq<Edge>, e: Edge, key: Seq<SegmentView>)
    ensures
        subtypes_in(edges.push(e), key) == subtypes_in(edges, key) + if e.0 == key {
            seq![e.1]
        } else {
            Seq::empty()
        },
        e.0 == key ==> subtypes_in(edges.push(e), key) == subtypes_in(edges, key).push(e.1),
        e.0 != key ==> subtypes_in(edges.push(e), key) == subtypes_in(edges, key),
{
    assert(edges.push(e).drop_last() =~= edges);
    assert(subtypes_in(edges, key) + Seq::<Seq<SegmentView>>::empty() =~= subtypes_in(edges, key));
    assert(subtypes_in(edges, key) + seq![e.1] =~= subtypes_in(edges, key).push(e.1));
}

proof fn lemma_paths_push(v: Seq<Path>, p: Path)
    ensures
        paths_of(v.push(p)) == paths_of(v).push(p@),
{
    assert(paths_of(v.push(p)) =~= paths_of(v).push(p@));
}

fn add_edge(g: &mut Vec<(Path, Vec<Path>)>, sup: Path, sub: Path, Ghost(edges): Ghost<Seq<Edge>>)
    requires
        graph_matches(old(g)@, edges),
    ensures
        graph_matches(final(g)@, edges.push((sup@, sub@))),
        graph_has(final(g)@, sup@, sub@),
        forall|a: Seq<SegmentView>, b: Seq<SegmentView>|
            graph_has(old(g)@, a, b) ==> #[trigger] graph_has(final(g)@, a, b),
{
    let ghost e: Edge = (sup@, sub@);
    let ghost edges2 = edges.push(e);
    let mut k: usize = 0;
    while k < g.len()
        invariant
            g@ == old(g)@,
            graph_matches(g@, edges),
            e == (sup@, sub@),
            edges2 == edges.push(e),
            k <= g.len(),
            forall|i: int| 0 <= i < k ==> (#[trigger] g@[i]).0@ != sup@,
        decreases g.len() - k,
    {
        if g[k].0.same(&sup) {
            let ghost before = g@;
            let ghost sub_v = sub@;
            let mut entry = g.remove(k);
            assert(entry == before[k as int]);
            let ghost old_list = entry.1@;
            entry.1.push(sub);
            proof {
                lemma_paths_push(old_list, entry.1@.last());
                assert(entry.1@ =~= old_list.push(entry.1@.last()));
                assert(entry.1@.last()@ == sub_v);
                assert(entry.0@ == sup@);
                lemma_subtypes_push(edges, e, sup@);
                assert(paths_of(entry.1@) == subtypes_in(edges2, entry.0@));
            }
            assert(has_path(entry.1@, sub_v)) by {
                assert(entry.1@[old_list.len() as int]@ == sub_v);
            }
            let ghost new_entry = entry;
            g.insert(k, entry);
            assert(g@ =~= before.update(k as int, new_entry));
            assert forall|a: Seq<SegmentView>, b: Seq<SegmentView>|
                graph_has(before, a, b) implies #[trigger] graph_has(g@, a, b) by {
                let i = choose|i: int| 0 <= i < before.len() && (#[trigger] before[i]).0@ == a && has_path(before[i].1@, b);
                if i == k {
                    let j = choose|j: int| 0 <= j < old_list.len() && (#[trigger] old_list[j])@ == b;
                    assert(g@[i].1@[j] == old_list[j]);
                }
                assert(has_path(g@[i].1@, b));
            }
            assert forall|i: int| 0 <= i < g@.len() implies paths_of((#[trigger] g@[i]).1@) == subtypes_in(edges2, g@[i].0@)
                && g@[i].1.len() > 0 by {
                lemma_subtypes_push(edges, e, g@[i].0@);
                if i != k {
                    assert(g@[i] == before[i]);
                    assert(before[i].0@ != before[k as int].0@);
                }
            }
            assert forall|key: Seq<SegmentView>| #[trigger] subtypes_in(edges2, key).len() > 0 implies has_key(g@, key) by {
                lemma_subtypes_push(edges, e, key);
                if key == sup@ {
                    assert(g@[k as int].0@ == key);
                } else {
                    assert(subtypes_in(edges, key).len() > 0);
                    let i = choose|i: int| 0 <= i < before.len() && (#[trigger] before[i]).0@ == key;
                    assert(g@[i].0@ == before[i].0@);
                }
            }
            proof {
                assert(edges2.drop_last() =~= edges);
                assert(keys_of(before)[k as int] == sup@);
                assert(keys_in(edges).contains(sup@));
                assert(keys_of(g@) =~= keys_of(before));
            }
            assert(g@[k as int].0@ == sup@);
            return;
        }
        k = k + 1;
    }
    let ghost before = g@;
    let ghost sub_v = sub@;
    let mut list: Vec<Path> = Vec::new();
    list.push(sub);
    assert(list@[0]@ == sub_v);
    assert(paths_of(list@) =~= seq![sub_v]);
    g.push((sup, list));
    proof {
        lemma_subtypes_push(edges, e, sup@);
        if subtypes_in(edges, sup@).len() > 0 {
            let i = choose|i: int| 0 <= i < before.len() && (#[trigger] before[i]).0@ == sup@;
            assert(false);
        }
        assert(subtypes_in(edges, sup@) =~= Seq::<Seq<SegmentView>>::empty());
        assert(subtypes_in(edges2, sup@) =~= seq![sub_v]);
    }
    assert forall|a: Seq<SegmentView>, b: Seq<SegmentView>|
        graph_has(before, a, b) implies #[trigger] graph_has(g@, a, b) by {
        let i = choose|i: int| 0 <= i < before.len() && (#[trigger] before[i]).0@ == a && has_path(before[i].1@, b);
        assert(g@[i] == before[i]);
    }
    assert forall|i: int| 0 <= i < g@.len() implies paths_of((#[trigger] g@[i]).1@) == subtypes_in(edges2, g@[i].0@)
        && g@[i].1.len() > 0 by {
        lemma_subtypes_push(edges, e, g@[i].0@);
        if i < before.len() {
            assert(g@[i] == before[i]);
        }
    }
    assert forall|key: Seq<SegmentView>| #[trigger] subtypes_in(edges2, key).len() > 0 implies has_key(g@, key) by {
        lemma_subtypes_push(edges, e, key);
        if key == sup@ {
            assert(g@[before.len() as int].0@ == key);
        } else {
            assert(subtypes_in(edges, key).len() > 0);
            let i = choose|i: int| 0 <= i < before.len() && (#[trigger] before[i]).0@ == key;
            assert(g@[i] == before[i]);
        }
    }
    proof {
        assert(edges2.drop_last() =~= edges);
        if keys_in(edges).contains(sup@) {
            let i = choose|i: int| 0 <= i < keys_in(edges).len() && keys_in(edges)[i] == sup@;
            assert(keys_of(before)[i] == before[i].0@);
        }
        assert(keys_of(g@) =~= keys_of(before).push(sup@));
    }
    assert(g@[before.len() as int].0@ == sup@);
}

/// Two graphs that hold the same edges are the same: the same keys in the
/// same order, each with the same subtype list.
pub proof fn lemma_graph_deterministic(g1: Seq<(Path, Vec<Path>)>, g2: Seq<(Path, Vec<Path>)>, edges: Seq<Edge>)
    requires
        graph_matches(g1, edges),
        graph_matches(g2, edges),
    ensures
        g1.len() == g2.len(),
        forall|k: int| 0 <= k < g1.len() ==> (#[trigger] g1[k]).0@ == g2[k].0@ && paths_of(g1[k].1@) == paths_of(g2[k].1@),
{
    assert(keys_of(g1).len() == g1.len() && keys_of(g2).len() == g2.len());
    assert forall|k: int| 0 <= k < g1.len() implies (#[trigger] g1[k]).0@ == g2[k].0@ && paths_of(g1[k].1@) == paths_of(g2[k].1@) by {
        assert(keys_of(g1)[k] == g1[k].0@ && keys_of(g2)[k] == g2[k].0@);
    }
}

impl SubSuperGraph {
    /// Records, for every entity and every supertype it declares, the entity
    /// under the resolved supertype, in traversal order and with repeats
    /// kept. Fails with the error of the first supertype name that does not
    /// resolve.
    pub fn new(ns: &Namespace, st: &SyntaxTree) -> (r: Result<Self, SemanticError>)
        ensures
            match r {
                Ok(g) => graph_matches(g.super_to_sub@, all_edges(*ns, *st)) && forall|si: int, ei: int, j: int|
                    #[trigger] declared_supertype(*st, si, ei, j) ==> edge_recorded(*ns, *st, g.super_to_sub@, si, ei, j),
                Err(e) => exists|si: int, ei: int, j: int|
                    #[trigger] declared_supertype(*st, si, ei, j) && supertype_unresolved(*ns, *st, si, ei, j)
                        && resolve_post(*ns, entity_scope(*st, si, ei), supertype_name(*st, si, ei, j), Err(e))
                        && forall|a: int, b: int, c: int|
                        #[trigger] declared_supertype(*st, a, b, c) && visited_before(a, b, c, si, ei, j)
                            ==> reference_resolves(*ns, *st, a, b, c),
            },
    {
        let mut g: Vec<(Path, Vec<Path>)> = Vec::new();
        let root = Scope::root();
        let mut si: usize = 0;
        assert(keys_of(g@) =~= keys_in(tree_edges(*ns, *st, 0)));
        assert(graph_matches(g@, tree_edges(*ns, *st, 0)));
        while si < st.schemas.len()
            invariant
                si <= st.schemas.len(),
                root@ == Seq::<SegmentView>::empty(),
                graph_matches(g@, tree_edges(*ns, *st, si as int)),
                forall|a: int, b: int, c: int|
                    #[trigger] declared_supertype(*st, a, b, c) && a < si ==> edge_recorded(*ns, *st, g@, a, b, c),
            decreases st.schemas.len() - si,
        {
            let schema = &st.schemas[si];
            let scope = root.pushed(ScopeKind::Schema, schema.name.as_str());
            let mut ei: usize = 0;
            assert(tree_edges(*ns, *st, si as int) + schema_edges(*ns, *st, si as int, 0) =~= tree_edges(*ns, *st, si as int));
            while ei < schema.entities.len()
                invariant
                    si < st.schemas.len(),
                    schema == st.schemas@[si as int],
                    scope@ == seq![(ScopeKind::Schema, schema.name@)],
                    ei <= schema.entities.len(),
                    graph_matches(g@, tree_edges(*ns, *st, si as int) + schema_edges(*ns, *st, si as int, ei as int)),
                    forall|a: int, b: int, c: int|
                        #[trigger] declared_supertype(*st, a, b, c) && (a < si || (a == si && b < ei)) ==> edge_recorded(
                            *ns,
                            *st,
                            g@,
                            a,
                            b,
                            c,
                        ),
                decreases schema.entities.len() - ei,
            {
                let entity = &schema.entities[ei];
                let escope = scope.pushed(ScopeKind::Entity, entity.name.as_str());
                assert(escope@ =~= entity_scope(*st, si as int, ei as int));
                let ghost base = tree_edges(*ns, *st, si as int) + schema_edges(*ns, *st, si as int, ei as int);
                assert(base + entity_edges(*ns, *st, si as int, ei as int, 0) =~= base);
                if let Some(supertypes) = &entity.subtype_of {
                    let mut j: usize = 0;
                    while j < supertypes.entity_references.len()
                        invariant
                            si < st.schemas.len(),
                            ei < schema.entities.len(),
                            schema == st.schemas@[si as int],
                            entity == schema.entities@[ei as int],
                            entity.subtype_of == Some(*supertypes),
                            escope@ == entity_scope(*st, si as int, ei as int),
                            scope@ == seq![(ScopeKind::Schema, schema.name@)],
                            j <= supertypes.entity_references.len(),
                            base == tree_edges(*ns, *st, si as int) + schema_edges(*ns, *st, si as int, ei as int),
                            graph_matches(g@, base + entity_edges(*ns, *st, si as int, ei as int, j as int)),
                            forall|a: int, b: int, c: int|
                                #[trigger] declared_supertype(*st, a, b, c) && visited_before(a, b, c, si as int, ei as int, j as int)
                                    ==> edge_recorded(*ns, *st, g@, a, b, c),
                        decreases supertypes.entity_references.len() - j,
                    {
                        let name = &supertypes.entity_references[j];
                        assert(supertype_name(*st, si as int, ei as int, j as int) == name@);
                        let res = ns.resolve(&escope, name.as_str());
                        match res {
                            Ok(sup) => {
                                let sub = Path::new(&scope, ScopeKind::Entity, entity.name.as_str());
                                assert(sub@ =~= entity_path(*st, si as int, ei as int));
                                let ghost sup_v = sup@;
                                let ghost before = g@;
                                let ghost done = base + entity_edges(*ns, *st, si as int, ei as int, j as int);
                                proof {
                                    let c = resolved_supertype(*ns, *st, si as int, ei as int, j as int);
                                    assert(resolves_to(*ns, entity_scope(*st, si as int, ei as int), supertype_name(*st, si as int, ei as int, j as int), sup_v));
                                    assert(resolves_to(*ns, entity_scope(*st, si as int, ei as int), supertype_name(*st, si as int, ei as int, j as int), c));
                                    assert(c == sup_v);
                                    assert(done.push((sup_v, sub@)) =~= base + entity_edges(*ns, *st, si as int, ei as int, j + 1));
                                }
                                add_edge(&mut g, sup, sub, Ghost(done));
                                assert forall|a: int, b: int, c: int|
                                    #[trigger] declared_supertype(*st, a, b, c) && visited_before(a, b, c, si as int, ei as int, j + 1)
                                        implies edge_recorded(*ns, *st, g@, a, b, c) by {
                                    if a == si && b == ei && c == j {
                                        assert(resolves_to(*ns, entity_scope(*st, a, b), supertype_name(*st, a, b, c), sup_v));
                                    } else {
                                        let p = choose|p: Seq<SegmentView>|
                                            #[trigger] resolves_to(*ns, entity_scope(*st, a, b), supertype_name(*st, a, b, c), p)
                                                && graph_has(before, p, entity_path(*st, a, b));
                                        assert(graph_has(g@, p, entity_path(*st, a, b)));
                                    }
                                }
                            },
                            Err(e) => {
                                assert(declared_supertype(*st, si as int, ei as int, j as int));
                                assert forall|p: Seq<SegmentView>|
                                    !#[trigger] resolves_to(*ns, entity_scope(*st, si as int, ei as int), supertype_name(*st, si as int, ei as int, j as int), p) by {
                                    if resolves_to(*ns, entity_scope(*st, si as int, ei as int), supertype_name(*st, si as int, ei as int, j as int), p) {
                                        match e {
                                            SemanticError::AmbiguousName { candidates, .. } => {
                                                assert(has_path(candidates@, candidates@[0]@));
                                                assert(has_path(candidates@, candidates@[1]@));
                                            },
                                            _ => {},
                                        }
                                    }
                                }
                                assert forall|a: int, b: int, c: int|
                                    #[trigger] declared_supertype(*st, a, b, c) && visited_before(a, b, c, si as int, ei as int, j as int)
                                        implies reference_resolves(*ns, *st, a, b, c) by {
                                    let p = choose|p: Seq<SegmentView>|
                                        #[trigger] resolves_to(*ns, entity_scope(*st, a, b), supertype_name(*st, a, b, c), p)
                                            && graph_has(g@, p, entity_path(*st, a, b));
                                }
                                return Err(e);
                            },
                        }
                        j = j + 1;
                    }
                    assert(base + entity_edges(*ns, *st, si as int, ei as int, j as int) =~= tree_edges(*ns, *st, si as int)
                        + schema_edges(*ns, *st, si as int, ei + 1));
                } else {
                    assert(supertypes_of(*entity).len() == 0);
                    assert(base =~= tree_edges(*ns, *st, si as int) + schema_edges(*ns, *st, si as int, ei + 1));
                }
                ei = ei + 1;
            }
            assert(tree_edges(*ns, *st, si as int) + schema_edges(*ns, *st, si as int, ei as int) =~= tree_edges(*ns, *st, si + 1));
            si = si + 1;
        }
        Ok(SubSuperGraph { super_to_sub: g })
    }
}

} // verus!
