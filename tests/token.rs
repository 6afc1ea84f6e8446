use espr::token::{
    anchor_name, constant_entity_name, constant_value_name, entity_instance_name, enumeration, integer, keyword,
    lhs_occurrence_name, real_text, resource, rhs_occurrence_name, sign, signature_content, standard_keyword,
    tag_name, user_defined_keyword, value_instance_name, LValue, RValue, RealText, URI,
};

#[test]
fn string() {
    let (res, s) = espr::token::string("'vim'").unwrap();
    assert_eq!(res, "");
    assert_eq!(s, "vim");
}

#[test]
fn string_keeps_remainder_and_rejects_unclosed() {
    let (res, s) = espr::token::string("'a b',1").unwrap();
    assert_eq!(s, "a b");
    assert_eq!(res, ",1");
    assert!(espr::token::string("'open").is_err());
    assert!(espr::token::string("vim").is_err());
    assert_eq!(espr::token::string("''").unwrap(), ("", String::new()));
}

#[test]
fn resource_scenario() {
    let (res, uri) = resource("<http://x>").unwrap();
    assert_eq!(res, "");
    assert_eq!(uri, URI("http://x".to_string()));
    assert!(resource("<http://x").is_err());
}

#[test]
fn anchor_name_reads_fragment() {
    assert_eq!(anchor_name("<#frag>rest").unwrap(), ("rest", "#frag".to_string()));
}

#[test]
fn instance_name_scenarios() {
    assert_eq!(entity_instance_name("#11").unwrap(), ("", "11".to_string()));
    assert_eq!(value_instance_name("@11").unwrap(), ("", "11".to_string()));
    assert_eq!(entity_instance_name("#12=").unwrap(), ("=", "12".to_string()));
    assert!(entity_instance_name("#").is_err());
    assert!(entity_instance_name("@11").is_err());
    assert!(value_instance_name("#11").is_err());
}

#[test]
fn constant_name_scenarios() {
    assert_eq!(constant_entity_name("#CONST").unwrap(), ("", "CONST".to_string()));
    assert_eq!(constant_value_name("@CONST2 x").unwrap(), (" x", "CONST2".to_string()));
    assert!(constant_entity_name("#const").is_err());
    assert!(constant_entity_name("#1A").is_err());
}

#[test]
fn enumeration_scenario() {
    assert_eq!(enumeration(".RED.").unwrap(), ("", "RED".to_string()));
    assert_eq!(enumeration(".T.,").unwrap(), (",", "T".to_string()));
    assert!(enumeration(".RED").is_err());
    assert!(enumeration("..").is_err());
}

#[test]
fn sign_and_integer() {
    assert_eq!(sign("+1").unwrap(), ("1", '+'));
    assert_eq!(sign("-").unwrap(), ("", '-'));
    assert!(sign("1").is_err());
    assert_eq!(integer("123").unwrap(), ("", 123));
    assert_eq!(integer("-45,").unwrap(), (",", -45));
    assert_eq!(integer("+ 7").unwrap(), ("", 7));
    assert_eq!(integer("9223372036854775807").unwrap(), ("", i64::MAX));
    assert!(integer("9223372036854775808").is_err());
    assert_eq!(integer("-9223372036854775808").unwrap(), ("", i64::MIN));
    assert!(integer("-9223372036854775809").is_err());
    assert!(integer("-").is_err());
    assert!(integer("x1").is_err());
}

#[test]
fn keywords() {
    assert_eq!(standard_keyword("IFCWALL2(").unwrap(), ("(", "IFCWALL2".to_string()));
    assert!(standard_keyword("wall").is_err());
    assert_eq!(user_defined_keyword("!MY_KW").unwrap(), ("_KW", "MY".to_string()));
    assert_eq!(keyword("!ABC").unwrap(), ("", "ABC".to_string()));
    assert_eq!(keyword("ABC").unwrap(), ("", "ABC".to_string()));
    assert!(keyword("!abc").is_err());
    assert!(keyword("1").is_err());
}

#[test]
fn tag_and_signature() {
    assert_eq!(tag_name("aB3-x").unwrap(), ("-x", "aB3".to_string()));
    assert!(tag_name("3a").is_err());
    assert_eq!(signature_content("ab+/=9 rest").unwrap(), (" rest", "ab+/=9".to_string()));
    assert!(signature_content("*").is_err());
}

#[test]
fn occurrence_names() {
    assert_eq!(lhs_occurrence_name("#5").unwrap(), ("", LValue::Entity("5".to_string())));
    assert_eq!(lhs_occurrence_name("@6").unwrap(), ("", LValue::Value("6".to_string())));
    assert!(lhs_occurrence_name("#A").is_err());
    assert_eq!(rhs_occurrence_name("#5").unwrap(), ("", RValue::Entity("5".to_string())));
    assert_eq!(rhs_occurrence_name("@6").unwrap(), ("", RValue::Value("6".to_string())));
    assert_eq!(rhs_occurrence_name("#C1").unwrap(), ("", RValue::ConstantEntity("C1".to_string())));
    assert_eq!(rhs_occurrence_name("@V").unwrap(), ("", RValue::ConstantValue("V".to_string())));
    assert!(rhs_occurrence_name("$").is_err());
}

#[test]
fn string_decodes_escapes() {
    assert_eq!(espr::token::string("'it''s'").unwrap(), ("", "it's".to_string()));
    assert_eq!(espr::token::string("'a\\\\b\\X\\'x").unwrap(), ("x", "a\\b\\X\\".to_string()));
    assert_eq!(espr::token::string("''''").unwrap(), ("", "'".to_string()));
    assert!(espr::token::string("'it''").is_err());
}

#[test]
fn real_text_reads_the_token() {
    assert_eq!(real_text("1.5,").unwrap(), (",", RealText { negative: false, text: "1.5".to_string() }));
    assert_eq!(real_text("- 2.E3)").unwrap(), (")", RealText { negative: true, text: "2.E3".to_string() }));
    assert_eq!(real_text("3.25E-2").unwrap(), ("", RealText { negative: false, text: "3.25E-2".to_string() }));
    assert_eq!(real_text("4.0E").unwrap(), ("E", RealText { negative: false, text: "4.0".to_string() }));
    assert!(real_text("12").is_err());
    assert!(real_text(".5").is_err());
}
