//! Addressing primitives: immutable scopes and the paths that identify declarations.

use vstd::prelude::*;

verus! {

/// Nesting levels recognised while walking a schema.
#[derive(Debug, Clone, Copy, PartialEq, Eq, Hash, Structural)]
pub enum ScopeKind {
    Schema,
    Entity,
    Type,
    Function,
    Procedure,
    Attribute,
}

/// One `(kind, name)` step of a scope or a path.
#[derive(Debug, Clone, PartialEq, Eq, Hash)]
pub struct Segment {
    pub kind: ScopeKind,
    pub name: String,
}

pub type SegmentView = (ScopeKind, Seq<char>);

impl View for Segment {
    type V = SegmentView;

    open spec fn view(&self) -> SegmentView {
        (self.kind, self.name@)
    }
}

pub open spec fn segments_view(v: Seq<Segment>) -> Seq<SegmentView> {
    v.map_values(|s: Segment| s@)
}

/// A cursor describing where a walk over the syntax tree currently stands.
#[derive(Debug, Clone, PartialEq, Eq, Hash)]
pub struct Scope {
    pub segments: Vec<Segment>,
}

impl View for Scope {
    type V = Seq<SegmentView>;

    open spec fn view(&self) -> Seq<SegmentView> {
        segments_view(self.segments@)
    }
}

/// The fully qualified identity of one declaration.
#[derive(Debug, Clone, PartialEq, Eq, Hash)]
pub struct Path {
    pub segments: Vec<Segment>,
}

impl View for Path {
    type V = Seq<SegmentView>;

    open spec fn view(&self) -> Seq<SegmentView> {
        segments_view(self.segments@)
    }
}

/// The path of a declaration of `kind` named `name` at the top level of schema `schema`.
pub open spec fn decl_path(schema: Seq<char>, kind: ScopeKind, name: Seq<char>) -> Seq<SegmentView> {
    seq![(ScopeKind::Schema, schema), (kind, name)]
}

/// The name of the innermost schema segment of a scope, if any.
pub open spec fn innermost_schema(s: Seq<SegmentView>) -> Option<Seq<char>>
    decreases s.len(),
{
    if s.len() == 0 {
        None
    } else if s.last().0 == ScopeKind::Schema {
        Some(s.last().1)
    } else {
        innermost_schema(s.drop_last())
    }
}

impl Segment {
    pub fn copy(&self) -> (r: Segment)
        ensures
            r@ == self@,
    {
        Segment { kind: self.kind, name: self.name.clone() }
    }
}

fn copy_segments(v: &Vec<Segment>) -> (r: Vec<Segment>)
    ensures
        segments_view(r@) == segments_view(v@),
{
    let mut r: Vec<Segment> = Vec::new();
    let mut i: usize = 0;
    while i < v.len()
        invariant
            i <= v.len(),
            segments_view(r@) == segments_view(v@.subrange(0, i as int)),
        decreases v.len() - i,
    {
        let ghost old_r = r@;
        r.push(v[i].copy());
        assert(v@.subrange(0, i + 1) =~= v@.subrange(0, i as int).push(v@[i as int]));
        assert(segments_view(r@) =~= segments_view(old_r).push(v@[i as int]@));
        i = i + 1;
    }
    assert(v@.subrange(0, v.len() as int) =~= v@);
    r
}

fn appended(v: &Vec<Segment>, kind: ScopeKind, name: &str) -> (r: Vec<Segment>)
    ensures
        segments_view(r@) == segments_view(v@).push((kind, name@)),
{
    let mut r = copy_segments(v);
    let seg = Segment { kind, name: String::from_str(name) };
    r.push(seg);
    assert(segments_view(r@) =~= segments_view(v@).push((kind, name@)));
    r
}

/// Character-wise equality of two strings.
pub fn same_text(a: &String, b: &str) -> (r: bool)
    ensures
        r == (a@ == b@),
{
    let x: &str = a.as_str();
    let n = x.unicode_len();
    let m = b.unicode_len();
    if n != m {
        return false;
    }
    let mut i: usize = 0;
    while i < n
        invariant
            n == x@.len(),
            m == b@.len(),
            n == m,
            i <= n,
            x@ == a@,
            forall|j: int| 0 <= j < i ==> x@[j] == b@[j],
        decreases n - i,
    {
        if x.get_char(i) != b.get_char(i) {
            return false;
        }
        i = i + 1;
    }
    assert(x@ =~= b@);
    true
}

impl Scope {
    /// The empty scope.
    pub fn root() -> (r: Scope)
        ensures
            r@ == Seq::<SegmentView>::empty(),
    {
        let r = Scope { segments: Vec::new() };
        assert(r@ =~= Seq::<SegmentView>::empty());
        r
    }

    /// A new scope one level deeper; `self` is left as it is.
    pub fn pushed(&self, kind: ScopeKind, name: &str) -> (r: Scope)
        ensures
            r@ == self@.push((kind, name@)),
    {
        Scope { segments: appended(&self.segments, kind, name) }
    }

    pub fn copy(&self) -> (r: Scope)
        ensures
            r@ == self@,
    {
        Scope { segments: copy_segments(&self.segments) }
    }

    /// The name of the innermost enclosing schema.
    pub fn schema_name(&self) -> (r: Option<String>)
        ensures
            match r {
                Some(n) => innermost_schema(self@) == Some(n@),
                None => innermost_schema(self@).is_none(),
            },
    {
        let mut i: usize = self.segments.len();
        assert(self@.subrange(0, i as int) =~= self@);
        while i > 0
            invariant
                i <= self.segments.len(),
                innermost_schema(self@) == innermost_schema(self@.subrange(0, i as int)),
            decreases i,
        {
            let seg = &self.segments[i - 1];
            assert(self@.subrange(0, i as int).drop_last() =~= self@.subrange(0, i - 1));
            if seg.kind == ScopeKind::Schema {
                return Some(seg.name.clone());
            }
            i = i - 1;
        }
        None
    }
}

impl Path {
    /// The identity of a declaration of `kind` named `name` inside `scope`.
    pub fn new(scope: &Scope, kind: ScopeKind, name: &str) -> (r: Path)
        ensures
            r@ == scope@.push((kind, name@)),
    {
        Path { segments: appended(&scope.segments, kind, name) }
    }

    pub fn copy(&self) -> (r: Path)
        ensures
            r@ == self@,
    {
        Path { segments: copy_segments(&self.segments) }
    }

    /// Structural equality of two paths.
    pub fn same(&self, other: &Path) -> (r: bool)
        ensures
            r == (self@ == other@),
    {
        if self.segments.len() != other.segments.len() {
            assert(self@.len() != other@.len());
            return false;
        }
        let mut i: usize = 0;
        while i < self.segments.len()
            invariant
                self.segments.len() == other.segments.len(),
                i <= self.segments.len(),
                forall|j: int| 0 <= j < i ==> self@[j] == other@[j],
            decreases self.segments.len() - i,
        {
            let a = &self.segments[i];
            let b = &other.segments[i];
            if a.kind != b.kind || !same_text(&a.name, b.name.as_str()) {
                assert(self@[i as int] != other@[i as int]);
                return false;
            }
            i = i + 1;
        }
        assert(self@ =~= other@);
        true
    }
}

} // verus!
