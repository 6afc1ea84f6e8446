//! Names of holder types: the holder of `A` is `AHolder`, and the holder of
//! `Option<A>` is `Option<AHolder>`.

use vstd::prelude::*;
use vstd::string::*;

verus! {

broadcast use vstd::std_specs::vec::group_vec_axioms;

/// A path naming a type, such as `::some::Struct` or `Option<A>`.
#[derive(Debug, PartialEq, Eq)]
pub struct TypePath {
    /// Whether the path starts with `::`.
    pub leading_colon: bool,
    pub segments: Vec<PathSegment>,
}

#[derive(Debug, PartialEq, Eq)]
pub struct PathSegment {
    pub ident: String,
    pub arguments: PathArguments,
}

#[derive(Debug, PartialEq, Eq)]
pub enum PathArguments {
    /// No arguments.
    Plain,
    /// `<A, B>`
    AngleBracketed(Vec<GenericArgument>),
    /// `(A) -> B`, kept as text.
    Parenthesized(String),
}

#[derive(Debug, PartialEq, Eq)]
pub enum GenericArgument {
    Type(TypePath),
    /// A lifetime or a constant, kept as text.
    Other(String),
}

/// The holder of `p` exists: `p` has a last segment, and neither it nor a
/// type argument inside it has parenthesized arguments.
pub open spec fn has_holder(p: TypePath) -> bool
    decreases p,
{
    let n = p.segments.len();
    n > 0 && match p.segments[n - 1].arguments {
        PathArguments::Plain => true,
        PathArguments::AngleBracketed(args) => forall|j: int|
            0 <= j < args.len() ==> (#[trigger] args[j] is Type ==> has_holder(args[j]->Type_0)),
        PathArguments::Parenthesized(_) => false,
    }
}

/// `q` is the holder of `p`: the last segment `X` becomes `XHolder`, and
/// when it has type arguments, each of them becomes its holder instead.
pub open spec fn holder_of(q: TypePath, p: TypePath) -> bool
    decreases p,
{
    let n = p.segments.len();
    n > 0 && q.leading_colon == p.leading_colon && q.segments.len() == n && (forall|i: int|
        0 <= i < n - 1 ==> #[trigger] q.segments[i] == p.segments[i]) && match p.segments[n - 1].arguments {
        PathArguments::Plain => q.segments[n - 1].ident@ == p.segments[n - 1].ident@ + "Holder"@
            && q.segments[n - 1].arguments == PathArguments::Plain,
        PathArguments::AngleBracketed(args) => q.segments[n - 1].ident == p.segments[n - 1].ident && match q.segments[n
            - 1].arguments {
            PathArguments::AngleBracketed(qargs) => qargs.len() == args.len() && forall|j: int|
                0 <= j < args.len() ==> match #[trigger] args[j] {
                    GenericArgument::Type(a) => qargs[j] is Type && holder_of(qargs[j]->Type_0, a),
                    _ => qargs[j] == args[j],
                },
            _ => false,
        },
        PathArguments::Parenthesized(_) => false,
    }
}

/// The name of the holder of a struct named `ident`.
pub fn as_holder_ident(ident: String) -> (r: String)
    ensures
        r@ == ident@ + "Holder"@,
{
    let mut r = ident;
    r.append("Holder");
    r
}

/// The holder of the type that `input` names, or `None` where `input` has no
/// segment or has parenthesized arguments.
pub fn as_holder_path(input: TypePath) -> (r: Option<TypePath>)
    ensures
        r is Some <==> has_holder(input),
        r is Some ==> holder_of(r->Some_0, input),
    decreases input,
{
    let ghost p = input;
    let TypePath { leading_colon, mut segments } = input;
    let n = segments.len();
    if n == 0 {
        return None;
    }
    let last = segments.pop().unwrap();
    assert(last == p.segments[n - 1]);
    let PathSegment { ident, arguments } = last;
    let new_last = match arguments {
        PathArguments::Plain => PathSegment { ident: as_holder_ident(ident), arguments: PathArguments::Plain },
        PathArguments::AngleBracketed(args) => {
            let ghost orig = args;
            let mut rest = args;
            let mut out: Vec<GenericArgument> = Vec::new();
            let total = rest.len();
            let mut k: usize = 0;
            while k < total
                invariant
                    p == input,
                    total == orig.len(),
                    p.segments.len() == n,
                    n > 0,
                    p.segments[n - 1].arguments == PathArguments::AngleBracketed(orig),
                    k <= orig.len(),
                    out.len() == k,
                    rest@ == orig@.subrange(k as int, orig.len() as int),
                    forall|j: int| 0 <= j < k ==> match #[trigger] orig[j] {
                        GenericArgument::Type(a) => out[j] is Type && holder_of(out[j]->Type_0, a),
                        _ => out[j] == orig[j],
                    },
                    forall|j: int| 0 <= j < k ==> (#[trigger] orig[j] is Type ==> has_holder(orig[j]->Type_0)),
                decreases total - k,
            {
                let a = rest.remove(0);
                assert(a == orig[k as int]);
                match a {
                    GenericArgument::Type(t) => {
                        assert(decreases_to!(p => t)) by {
                            let s = p.segments[n - 1];
                            assert(decreases_to!(p => p.segments));
                            assert(decreases_to!(p.segments => s));
                            assert(decreases_to!(s => s.arguments));
                            assert(s.arguments->AngleBracketed_0 == orig);
                            assert(decreases_to!(s.arguments => s.arguments->AngleBracketed_0));
                            assert(decreases_to!(orig => orig[k as int]));
                            assert(decreases_to!(orig[k as int] => t));
                        }
                        match as_holder_path(t) {
                            Some(h) => out.push(GenericArgument::Type(h)),
                            None => {
                                assert(orig[k as int] is Type && !has_holder(orig[k as int]->Type_0));
                                assert(!has_holder(p));
                                return None;
                            },
                        }
                    },
                    other => out.push(other),
                }
                k = k + 1;
            }
            PathSegment { ident, arguments: PathArguments::AngleBracketed(out) }
        },
        PathArguments::Parenthesized(_) => return None,
    };
    segments.push(new_last);
    Some(TypePath { leading_colon, segments })
}

/// Where the runtime crate was found, as seen from the crate being compiled.
#[derive(Debug, PartialEq, Eq)]
pub enum CrateLocation {
    /// The crate being compiled is the runtime crate itself.
    Itself,
    /// The runtime crate is a dependency under this name.
    Name(String),
}

/// The path through which generated code reaches the runtime crate: `crate`
/// inside the crate itself, `::name` from a dependent crate.
pub fn ruststep_crate(found: CrateLocation) -> (r: TypePath)
    ensures
        r.segments.len() == 1,
        r.segments[0].arguments == PathArguments::Plain,
        match found {
            CrateLocation::Itself => !r.leading_colon && r.segments[0].ident@ == "crate"@,
            CrateLocation::Name(name) => r.leading_colon && r.segments[0].ident == name,
        },
{
    let (leading_colon, ident) = match found {
        CrateLocation::Itself => (false, String::from_str("crate")),
        CrateLocation::Name(name) => (true, name),
    };
    let mut segments: Vec<PathSegment> = Vec::new();
    segments.push(PathSegment { ident, arguments: PathArguments::Plain });
    TypePath { leading_colon, segments }
}

} // verus!
