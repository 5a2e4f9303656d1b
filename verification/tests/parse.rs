use header_catalog::classify::Kind;
use header_catalog::model::Stmt;
use header_catalog::parse::{parse, Diagnostic};

fn s(bytes: &[u8]) -> &str {
    std::str::from_utf8(bytes).expect("text")
}

fn show(tokens: &[Vec<u8>]) -> String {
    let words: Vec<&str> = tokens.iter().map(|t| s(t)).collect();
    words.join(" ")
}

fn shown(diagnostic: &Diagnostic) -> String {
    match diagnostic {
        Diagnostic::MalformedLiteral { at, statement } => {
            format!("literal@{}:{}", at, show(statement))
        }
        Diagnostic::UnexpectedCharacter { at, byte, statement } => {
            format!("byte{}@{}:{}", byte, at, show(statement))
        }
        Diagnostic::UnbalancedNesting { at, statement } => {
            format!("unbalanced@{}:{}", at, show(statement))
        }
        Diagnostic::UnrecognizedStatement { statement } => format!("unrecognized:{}", show(statement)),
    }
}

fn diagnostics_of(source: &str) -> Vec<String> {
    parse(source).diagnostics.iter().map(shown).collect()
}

#[test]
fn empty_source_gives_an_empty_catalog() {
    let parsed = parse("");
    assert_eq!(parsed.types.len(), 0);
    assert!(parsed.kinds.is_empty());
    assert!(parsed.diagnostics.is_empty());
}

#[test]
fn declarations_are_registered_in_source_order() {
    let source = "\rtypedef unsigned int uint;\rtypedef struct { uint a; char b[4]; } S;\r\
                  typedef enum { A = 1, B } E;\rint f(int);\rtypedef void (*cb)(int);";
    let parsed = parse(source);
    assert_eq!(
        parsed.kinds,
        vec![Kind::Alias, Kind::Struct, Kind::Enum, Kind::Function, Kind::FunctionType]
    );
    assert!(parsed.diagnostics.is_empty());
    assert_eq!(parsed.types.len(), 3);
    assert_eq!(s(parsed.types.name(0)), "uint");
    assert_eq!(s(parsed.types.name(1)), "S");
    assert_eq!(s(parsed.types.name(2)), "E");
    match parsed.types.get(b"S") {
        Some(Stmt::Struct(members)) => {
            assert_eq!(members.len(), 2);
            assert_eq!(s(&members[0].ident), "a");
            assert_eq!(s(&members[0].type_), "uint");
            assert!(members[0].dims.is_none());
            assert_eq!(s(&members[1].ident), "b");
            assert_eq!(s(&members[1].type_), "char");
            assert_eq!(members[1].dims.as_ref().map(|d| s(d)), Some("4"));
        }
        other => panic!("not a struct: {:?}", other),
    }
}

#[test]
fn unrecognized_statement_is_reported_and_the_run_goes_on() {
    let parsed = parse("int x; typedef int a;");
    assert_eq!(parsed.kinds, vec![Kind::Unrecognized, Kind::Alias]);
    assert_eq!(parsed.diagnostics.iter().map(shown).collect::<Vec<_>>(), vec!["unrecognized:int x"]);
    assert!(parsed.types.get(b"a").is_some());
}

#[test]
fn unrecognized_statement_without_semicolon_is_reported_whole() {
    // a directive ends with its last closer and carries no `;`
    let parsed = parse("__declspec(x) int y; typedef int a;");
    assert_eq!(parsed.kinds, vec![Kind::Function, Kind::Unrecognized, Kind::Alias]);
    assert_eq!(parsed.diagnostics.iter().map(shown).collect::<Vec<_>>(), vec!["unrecognized:int y"]);
    let lone = parse(";");
    assert_eq!(lone.kinds, vec![Kind::Unrecognized]);
    assert_eq!(lone.diagnostics.iter().map(shown).collect::<Vec<_>>(), vec!["unrecognized:"]);
}

#[test]
fn function_pointer_typedef_is_handled_and_not_reported() {
    let parsed = parse("typedef void (*cb)(void (*)(int)); typedef int (*f)(void);");
    assert_eq!(parsed.kinds, vec![Kind::FunctionType, Kind::FunctionType]);
    assert!(parsed.diagnostics.is_empty());
    assert_eq!(parsed.types.len(), 0);
}

#[test]
fn directive_needs_no_semicolon() {
    let parsed = parse("__pragma(pack(push, 8)) typedef int a; __declspec(align(8)) typedef int b;");
    assert_eq!(parsed.kinds, vec![Kind::Function, Kind::Alias, Kind::Function, Kind::Alias]);
    assert!(parsed.diagnostics.is_empty());
    assert_eq!(parsed.types.len(), 2);
}

#[test]
fn unmatched_closer_is_reported_with_its_offset() {
    let parsed = parse("typedef int a; } typedef int b;");
    assert_eq!(parsed.diagnostics.iter().map(shown).collect::<Vec<_>>(), vec!["unbalanced@15:}"]);
    assert_eq!(parsed.kinds, vec![Kind::Alias, Kind::Alias]);
    assert!(parsed.types.get(b"a").is_some());
    assert!(parsed.types.get(b"b").is_some());
}

#[test]
fn unmatched_closer_breaks_off_the_statement_in_progress() {
    assert_eq!(
        diagnostics_of("typedef int ) a; typedef int b;"),
        vec!["unbalanced@12:typedef int )", "unrecognized:a"]
    );
    let parsed = parse("typedef int ) a; typedef int b;");
    assert_eq!(parsed.types.len(), 1);
    assert!(parsed.types.get(b"b").is_some());
}

#[test]
fn unterminated_literal_is_reported_and_ends_the_run() {
    let parsed = parse("typedef int a; char c = 'x; typedef int b;");
    assert_eq!(
        parsed.diagnostics.iter().map(shown).collect::<Vec<_>>(),
        vec!["literal@24:char c ="]
    );
    assert_eq!(parsed.kinds, vec![Kind::Alias]);
    assert_eq!(parsed.types.len(), 1);
}

#[test]
fn unexpected_byte_breaks_off_the_statement_and_the_run_goes_on() {
    let parsed = parse("typedef int # a; typedef int b;");
    assert_eq!(
        parsed.diagnostics.iter().map(shown).collect::<Vec<_>>(),
        vec!["byte35@12:typedef int", "unrecognized:a"]
    );
    assert_eq!(parsed.kinds, vec![Kind::Unrecognized, Kind::Alias]);
    assert_eq!(parsed.types.len(), 1);
    assert!(parsed.types.get(b"b").is_some());
}

#[test]
fn tokens_after_the_last_statement_declare_nothing() {
    let parsed = parse("typedef int a; typedef int b");
    assert_eq!(parsed.kinds, vec![Kind::Alias]);
    assert!(parsed.diagnostics.is_empty());
    assert_eq!(parsed.types.len(), 1);
}

#[test]
fn later_declaration_of_a_name_overwrites_the_earlier_one() {
    let parsed = parse("typedef int t; typedef char u; typedef long t;");
    assert_eq!(parsed.types.len(), 2);
    assert_eq!(s(parsed.types.name(0)), "t");
    match parsed.types.get(b"t") {
        Some(Stmt::Alias(target)) => assert_eq!(s(target), "long"),
        other => panic!("not an alias: {:?}", other),
    }
}
