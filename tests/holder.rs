use espr::holder::{
    as_holder_ident, as_holder_path, ruststep_crate, CrateLocation, GenericArgument, PathArguments, PathSegment,
    TypePath,
};

fn seg(ident: &str) -> PathSegment {
    PathSegment { ident: ident.to_string(), arguments: PathArguments::Plain }
}

fn path(leading_colon: bool, idents: &[&str]) -> TypePath {
    TypePath { leading_colon, segments: idents.iter().map(|i| seg(i)).collect() }
}

fn option_of(inner: TypePath) -> TypePath {
    TypePath {
        leading_colon: false,
        segments: vec![PathSegment {
            ident: "Option".to_string(),
            arguments: PathArguments::AngleBracketed(vec![GenericArgument::Type(inner)]),
        }],
    }
}

#[test]
fn holder_path() {
    let holder = as_holder_path(path(true, &["some", "Struct"])).unwrap();
    let ans = path(true, &["some", "StructHolder"]);
    assert_eq!(holder, ans);
}

#[test]
fn optional_holder_path() {
    let holder = as_holder_path(option_of(path(true, &["some", "Struct"]))).unwrap();
    let ans = option_of(path(true, &["some", "StructHolder"]));
    assert_eq!(holder, ans);
}

#[test]
fn holder_path_keeps_other_arguments_and_refuses_parenthesized() {
    let p = TypePath {
        leading_colon: false,
        segments: vec![PathSegment {
            ident: "Map".to_string(),
            arguments: PathArguments::AngleBracketed(vec![
                GenericArgument::Other("'a".to_string()),
                GenericArgument::Type(path(false, &["A"])),
            ]),
        }],
    };
    let q = TypePath {
        leading_colon: false,
        segments: vec![PathSegment {
            ident: "Map".to_string(),
            arguments: PathArguments::AngleBracketed(vec![
                GenericArgument::Other("'a".to_string()),
                GenericArgument::Type(path(false, &["AHolder"])),
            ]),
        }],
    };
    assert_eq!(as_holder_path(p).unwrap(), q);
    let f = TypePath {
        leading_colon: false,
        segments: vec![PathSegment { ident: "Fn".to_string(), arguments: PathArguments::Parenthesized("(A)".to_string()) }],
    };
    assert!(as_holder_path(f).is_none());
    assert!(as_holder_path(option_of(TypePath { leading_colon: false, segments: vec![] })).is_none());
    assert!(as_holder_path(path(false, &[])).is_none());
}

#[test]
fn holder_ident_and_crate_path() {
    assert_eq!(as_holder_ident("A".to_string()), "AHolder");
    assert_eq!(ruststep_crate(CrateLocation::Itself), path(false, &["crate"]));
    assert_eq!(ruststep_crate(CrateLocation::Name("ruststep".to_string())), path(true, &["ruststep"]));
}
