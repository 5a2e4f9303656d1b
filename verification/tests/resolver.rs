use header_catalog::catalog::Catalog;
use header_catalog::model::{Member, Stmt, Value};
use header_catalog::parse::parse;
use header_catalog::render::render;
use header_catalog::resolve::{lookup, resolve_all, Emitted, NameSet};

fn b(text: &str) -> Vec<u8> {
    text.as_bytes().to_vec()
}

fn s(bytes: &[u8]) -> &str {
    std::str::from_utf8(bytes).expect("text")
}

fn member(ident: &str, type_: &str, dims: Option<&str>) -> Member {
    Member { ident: b(ident), type_: b(type_), dims: dims.map(b) }
}

fn value(ident: &str, value: Option<&str>) -> Value {
    Value { ident: b(ident), value: value.map(b) }
}

/// `+name` for a declaration, `?name` for an undefined type.
fn names(out: &[Emitted]) -> Vec<String> {
    out.iter()
        .map(|e| match e {
            Emitted::Declaration { name, .. } => format!("+{}", s(name)),
            Emitted::UndefinedReferencedType { name } => format!("?{}", s(name)),
        })
        .collect()
}

#[test]
fn alias_text() {
    assert_eq!(s(&render(b"uint", &Stmt::Alias(b("unsigned~int")))), "pub type uint = unsigned~int;\n\n");
}

#[test]
fn enum_text() {
    let definition = Stmt::Enum(vec![value("A", Some("1")), value("B", None), value("C", Some("A~+~1"))]);
    assert_eq!(
        s(&render(b"E", &definition)),
        "#[repr(C)]\npub enum E {\n\tA=1,\n\tB,\n\tC=A~+~1,\n}\n\n"
    );
    assert_eq!(s(&render(b"Z", &Stmt::Enum(vec![]))), "#[repr(C)]\npub enum Z {\n}\n\n");
}

#[test]
fn struct_text() {
    let definition = Stmt::Struct(vec![member("a", "int", None), member("name", "char", Some("32"))]);
    assert_eq!(
        s(&render(b"S", &definition)),
        "#[repr(C)]\npub struct S {\n\tpub a: int,\n\tpub name: char[32],\n}\n\n"
    );
    assert_eq!(s(&render(b"Z", &Stmt::Struct(vec![]))), "#[repr(C)]\npub struct Z {\n}\n\n");
}

#[test]
fn missing_member_type_is_reported_once_and_the_struct_is_declared() {
    let mut types = Catalog::new();
    types.insert(b("S"), Stmt::Struct(vec![member("a", "missing_t", None)]));
    let mut known = NameSet::new();
    let mut out = Vec::new();
    assert!(lookup(b"S", &types, &mut known, &mut out));
    assert_eq!(names(&out), vec!["?missing_t", "+S"]);
    match &out[1] {
        Emitted::Declaration { text, .. } => {
            assert_eq!(s(text), "#[repr(C)]\npub struct S {\n\tpub a: missing_t,\n}\n\n")
        }
        other => panic!("not a declaration: {:?}", other),
    }
}

#[test]
fn missing_type_shared_by_two_members_is_reported_once() {
    let mut types = Catalog::new();
    types.insert(b("S"), Stmt::Struct(vec![member("a", "m", None), member("b", "m", None)]));
    let mut known = NameSet::new();
    let mut out = Vec::new();
    assert!(lookup(b"S", &types, &mut known, &mut out));
    assert_eq!(names(&out), vec!["?m", "+S"]);
}

#[test]
fn resolving_a_name_twice_declares_it_once() {
    let mut types = Catalog::new();
    types.insert(b("a"), Stmt::Alias(b("int")));
    let mut known = NameSet::new();
    let mut out = Vec::new();
    assert!(lookup(b"a", &types, &mut known, &mut out));
    assert!(lookup(b"a", &types, &mut known, &mut out));
    assert_eq!(names(&out), vec!["+a"]);
}

#[test]
fn resolving_a_missing_name_twice_reports_it_once() {
    let types = Catalog::new();
    let mut known = NameSet::new();
    let mut out = Vec::new();
    assert!(!lookup(b"nope", &types, &mut known, &mut out));
    // the name was visited: the second call emits nothing
    assert!(lookup(b"nope", &types, &mut known, &mut out));
    assert_eq!(names(&out), vec!["?nope"]);
}

#[test]
fn seeded_alias_resolves_without_a_diagnostic() {
    let mut types = Catalog::new();
    types.insert(b("S"), Stmt::Struct(vec![member("n", "uint32_T", None)]));
    types.seed(&[("uint32_T", "u32")]);
    let out = resolve_all(&types);
    assert_eq!(names(&out), vec!["+uint32_T", "+S"]);
    match &out[0] {
        Emitted::Declaration { text, .. } => assert_eq!(s(text), "pub type uint32_T = u32;\n\n"),
        other => panic!("not a declaration: {:?}", other),
    }
}

#[test]
fn member_types_are_declared_before_the_struct() {
    let mut types = Catalog::new();
    types.insert(b("Outer"), Stmt::Struct(vec![member("i", "Inner", None), member("e", "E", Some("2"))]));
    types.insert(b("Inner"), Stmt::Struct(vec![member("x", "T", None)]));
    types.insert(b("T"), Stmt::Alias(b("int")));
    types.insert(b("E"), Stmt::Enum(vec![value("A", None)]));
    let out = resolve_all(&types);
    assert_eq!(names(&out), vec!["+T", "+Inner", "+E", "+Outer"]);
}

#[test]
fn alias_target_is_not_resolved() {
    let mut types = Catalog::new();
    types.insert(b("a"), Stmt::Alias(b("nowhere")));
    assert_eq!(names(&resolve_all(&types)), vec!["+a"]);
}

#[test]
fn array_dimension_is_not_resolved() {
    let mut types = Catalog::new();
    types.insert(b("N"), Stmt::Alias(b("int")));
    types.insert(b("S"), Stmt::Struct(vec![member("a", "N", Some("M"))]));
    assert_eq!(names(&resolve_all(&types)), vec!["+N", "+S"]);
}

#[test]
fn cycles_end() {
    let mut types = Catalog::new();
    types.insert(b("A"), Stmt::Struct(vec![member("b", "B", None)]));
    types.insert(b("B"), Stmt::Struct(vec![member("a", "A", None), member("me", "B", None)]));
    assert_eq!(names(&resolve_all(&types)), vec!["+B", "+A"]);
}

#[test]
fn independent_names_come_in_first_declared_order() {
    let mut types = Catalog::new();
    types.insert(b("z"), Stmt::Alias(b("1")));
    types.insert(b("a"), Stmt::Alias(b("2")));
    types.insert(b("m"), Stmt::Alias(b("3")));
    assert_eq!(names(&resolve_all(&types)), vec!["+z", "+a", "+m"]);
    assert!(resolve_all(&Catalog::new()).is_empty());
}

#[test]
fn every_entry_is_declared_once_in_a_run() {
    let mut types = Catalog::new();
    types.insert(b("A"), Stmt::Struct(vec![member("x", "C", None), member("y", "B", None)]));
    types.insert(b("B"), Stmt::Struct(vec![member("x", "C", None), member("q", "int", None)]));
    types.insert(b("C"), Stmt::Alias(b("char")));
    let out = names(&resolve_all(&types));
    assert_eq!(out, vec!["+C", "?int", "+B", "+A"]);
}

#[test]
fn name_set_holds_what_was_put_in() {
    let mut known = NameSet::new();
    assert!(!known.contains(b"a"));
    known.insert(b("a"));
    known.insert(b("a"));
    known.insert(b("b"));
    assert!(known.contains(b"a"));
    assert!(known.contains(b"b"));
    assert!(!known.contains(b"c"));
    assert!(!known.contains(b""));
}

#[test]
fn header_text_to_declarations() {
    let source = "\rtypedef unsigned int uint;\
                  \rtypedef struct { uint32_T id; uint n[2]; double w; } rec;\
                  \rtypedef enum { RED, GREEN = 5 } color;";
    let parsed = parse(source);
    assert!(parsed.diagnostics.is_empty());
    let mut types = parsed.types;
    types.seed(&[("uint32_T", "u32")]);
    let mut text = String::new();
    let mut missing = Vec::new();
    for emitted in resolve_all(&types) {
        match emitted {
            Emitted::Declaration { text: t, .. } => text.push_str(s(&t)),
            Emitted::UndefinedReferencedType { name } => missing.push(s(&name).to_string()),
        }
    }
    assert_eq!(missing, vec!["double"]);
    assert_eq!(
        text,
        "pub type uint = unsigned~int;\n\n\
         pub type uint32_T = u32;\n\n\
         #[repr(C)]\npub struct rec {\n\tpub id: uint32_T,\n\tpub n: uint[2],\n\tpub w: double,\n}\n\n\
         #[repr(C)]\npub enum color {\n\tRED,\n\tGREEN=5,\n}\n\n"
    );
}
