use header_catalog::lexer::{is_whitespace, LexError, Tokenizer};

fn items_of(text: &str) -> Vec<Result<String, LexError>> {
    let mut tokenizer = Tokenizer::new(text);
    let mut items = Vec::new();
    while let Some(item) = tokenizer.next() {
        items.push(item.map(|token| String::from_utf8(token).expect("text")));
    }
    items
}

fn tokens_of(text: &str) -> Vec<String> {
    items_of(text).into_iter().map(|item| item.expect("a token")).collect()
}

#[test]
fn it_works() {
    let mut tokenizer = Tokenizer::new("abc def = == ! != xyz ... < << <<= > >> >>=");
    let mut seen = Vec::new();
    while let Some(item) = tokenizer.next() {
        let token = String::from_utf8(item.unwrap()).unwrap();
        println!("{}", token);
        seen.push(token);
    }
    assert_eq!(
        seen,
        vec!["abc", "def", "=", "==", "!", "!=", "xyz", "...", "<", "<<", "<<=", ">", ">>", ">>="]
    );
}

#[test]
fn comma_separates_identifiers() {
    assert_eq!(tokens_of("a,b"), vec!["a", ",", "b"]);
}

#[test]
fn arrow_is_one_token() {
    assert_eq!(tokens_of("x->y"), vec!["x", "->", "y"]);
}

#[test]
fn angle_operators() {
    assert_eq!(tokens_of("a<<=b"), vec!["a", "<<=", "b"]);
    assert_eq!(tokens_of("a<b"), vec!["a", "<", "b"]);
    assert_eq!(tokens_of("a<<b"), vec!["a", "<<", "b"]);
    assert_eq!(tokens_of("a>>=b"), vec!["a", ">>=", "b"]);
    assert_eq!(tokens_of("a>=b"), vec!["a", ">=", "b"]);
    assert_eq!(tokens_of("a<=b"), vec!["a", "<=", "b"]);
    assert_eq!(tokens_of("a<>b"), vec!["a", "<", ">", "b"]);
}

#[test]
fn punctuation_is_never_joined() {
    assert_eq!(
        tokens_of(";;,,{{}}[[]](())??::"),
        vec![
            ";", ";", ",", ",", "{", "{", "}", "}", "[", "[", "]", "]", "(", "(", ")", ")", "?",
            "?", ":", ":"
        ]
    );
}

#[test]
fn dots() {
    assert_eq!(tokens_of("."), vec!["."]);
    assert_eq!(tokens_of(".."), vec![".", "."]);
    assert_eq!(tokens_of("..."), vec!["..."]);
    assert_eq!(tokens_of("...."), vec!["...", "."]);
    assert_eq!(tokens_of("a.b"), vec!["a", ".", "b"]);
}

#[test]
fn operators_with_equals() {
    assert_eq!(tokens_of("*= ^= != == /="), vec!["*=", "^=", "!=", "==", "/="]);
    assert_eq!(tokens_of("* ^ ! = /"), vec!["*", "^", "!", "=", "/"]);
    assert_eq!(tokens_of("**"), vec!["*", "*"]);
    assert_eq!(tokens_of("==="), vec!["==", "="]);
}

#[test]
fn doubled_operators() {
    assert_eq!(tokens_of("&& || ++"), vec!["&&", "||", "++"]);
    assert_eq!(tokens_of("&= |= +="), vec!["&=", "|=", "+="]);
    assert_eq!(tokens_of("& | +"), vec!["&", "|", "+"]);
    assert_eq!(tokens_of("&&&"), vec!["&&", "&"]);
    assert_eq!(tokens_of("&|"), vec!["&", "|"]);
}

#[test]
fn minus_operators() {
    assert_eq!(tokens_of("- -- -= ->"), vec!["-", "--", "-=", "->"]);
    assert_eq!(tokens_of("a-b"), vec!["a", "-", "b"]);
    assert_eq!(tokens_of("-->"), vec!["--", ">"]);
}

#[test]
fn identifiers_and_numbers() {
    assert_eq!(tokens_of("_a1 B_2 c"), vec!["_a1", "B_2", "c"]);
    assert_eq!(tokens_of("12 3.5 1.2.3"), vec!["12", "3.5", "1.2.3"]);
    assert_eq!(tokens_of("1a"), vec!["1", "a"]);
    assert_eq!(tokens_of("a1.5"), vec!["a1", ".", "5"]);
    assert_eq!(tokens_of("0x1F"), vec!["0", "x1F"]);
}

#[test]
fn whitespace_is_skipped() {
    assert_eq!(tokens_of("  a\t\tb\r\nc \n"), vec!["a", "b", "c"]);
    assert_eq!(tokens_of(""), Vec::<String>::new());
    assert_eq!(tokens_of(" \t\r\n"), Vec::<String>::new());
}

#[test]
fn whitespace_bytes() {
    assert!(is_whitespace(b' '));
    assert!(is_whitespace(b'\t'));
    assert!(is_whitespace(b'\r'));
    assert!(is_whitespace(b'\n'));
    assert!(!is_whitespace(b'a'));
    assert!(!is_whitespace(0x0b));
    assert!(!is_whitespace(0));
}

#[test]
fn string_literals() {
    assert_eq!(tokens_of("\"abc\""), vec!["\"abc\""]);
    assert_eq!(tokens_of("\"a b\" c"), vec!["\"a b\"", "c"]);
    assert_eq!(tokens_of("\"\""), vec!["\"\""]);
    assert_eq!(tokens_of("\"a\\\"b\" c"), vec!["\"a\\\"b\"", "c"]);
    assert_eq!(tokens_of("\"it's\""), vec!["\"it's\""]);
}

#[test]
fn character_literals() {
    assert_eq!(tokens_of("'a'"), vec!["'a'"]);
    assert_eq!(tokens_of("'\\''"), vec!["'\\''"]);
    assert_eq!(tokens_of("'\"' x"), vec!["'\"'", "x"]);
}

#[test]
fn backslash_escapes_exactly_one_byte() {
    // the literal is "\\": the first backslash escapes the second, so the
    // quote after them closes the literal
    assert_eq!(tokens_of("\"\\\\\" x"), vec!["\"\\\\\"", "x"]);
    assert_eq!(tokens_of("'\\\\' x"), vec!["'\\\\'", "x"]);
}

#[test]
fn unterminated_string_is_an_error() {
    let mut tokenizer = Tokenizer::new("a \"bc");
    assert_eq!(tokenizer.next(), Some(Ok(b"a".to_vec())));
    assert_eq!(tokenizer.next(), Some(Err(LexError::MalformedLiteral { at: 2 })));
    assert_eq!(tokenizer.next(), None);
    assert!(!tokenizer.available());
}

#[test]
fn unterminated_character_is_an_error() {
    assert_eq!(items_of("'a"), vec![Err(LexError::MalformedLiteral { at: 0 })]);
    assert_eq!(items_of("x '\\'"), vec![Ok("x".to_string()), Err(LexError::MalformedLiteral { at: 2 })]);
    assert_eq!(items_of("\"a\\"), vec![Err(LexError::MalformedLiteral { at: 0 })]);
}

#[test]
fn unexpected_byte_is_an_error_and_scanning_goes_on() {
    assert_eq!(
        items_of("a % b"),
        vec![
            Ok("a".to_string()),
            Err(LexError::UnexpectedCharacter { at: 2, byte: b'%' }),
            Ok("b".to_string())
        ]
    );
    assert_eq!(
        items_of("#x"),
        vec![Err(LexError::UnexpectedCharacter { at: 0, byte: b'#' }), Ok("x".to_string())]
    );
    assert_eq!(
        items_of("\u{e9}"),
        vec![
            Err(LexError::UnexpectedCharacter { at: 0, byte: 0xc3 }),
            Err(LexError::UnexpectedCharacter { at: 1, byte: 0xa9 })
        ]
    );
}

#[test]
fn bytes_beyond_ascii_pass_inside_literals() {
    let mut tokenizer = Tokenizer::new("\"\u{e9}\" z");
    assert_eq!(tokenizer.next(), Some(Ok("\"\u{e9}\"".as_bytes().to_vec())));
    assert_eq!(tokenizer.next(), Some(Ok(b"z".to_vec())));
    assert_eq!(tokenizer.next(), None);
}

#[test]
fn token_start_gives_the_offset_of_the_last_token() {
    let mut tokenizer = Tokenizer::new("  ab  cd");
    assert_eq!(tokenizer.next(), Some(Ok(b"ab".to_vec())));
    assert_eq!(tokenizer.token_start(), 2);
    assert_eq!(tokenizer.next(), Some(Ok(b"cd".to_vec())));
    assert_eq!(tokenizer.token_start(), 6);
}

#[test]
fn stepping_by_hand() {
    let mut tokenizer = Tokenizer::new("ab c");
    assert!(tokenizer.available());
    assert_eq!(tokenizer.current(), Some(b'a'));
    assert_eq!(tokenizer.peek(), Some(b'b'));
    tokenizer.step();
    assert_eq!(tokenizer.current(), Some(b'b'));
    assert_eq!(tokenizer.peek(), Some(b' '));
    assert_eq!(tokenizer.slice(), b"a".to_vec());
    tokenizer.step_n(2);
    assert_eq!(tokenizer.current(), Some(b'c'));
    assert_eq!(tokenizer.peek(), None);
    assert_eq!(tokenizer.slice(), b"ab ".to_vec());
    tokenizer.step();
    assert!(!tokenizer.available());
    assert_eq!(tokenizer.current(), None);
    assert_eq!(tokenizer.peek(), None);
    assert_eq!(tokenizer.slice(), b"ab c".to_vec());
}

#[test]
fn skip_whitespace_stops_at_the_first_other_byte() {
    let mut tokenizer = Tokenizer::new(" \t\r\nx y");
    tokenizer.skip_whitespace();
    assert_eq!(tokenizer.current(), Some(b'x'));
    tokenizer.skip_whitespace();
    assert_eq!(tokenizer.current(), Some(b'x'));
    assert_eq!(tokenizer.slice(), b" \t\r\n".to_vec());
}

#[test]
fn identifier_reads_to_the_end_of_the_run() {
    let mut tokenizer = Tokenizer::new("ab_9-c");
    assert_eq!(tokenizer.identifier(), b"ab_9".to_vec());
    assert_eq!(tokenizer.current(), Some(b'-'));
    assert_eq!(tokenizer.identifier(), b"ab_9".to_vec());
}

#[test]
fn number_reads_digits_and_dots() {
    let mut tokenizer = Tokenizer::new("12.5.x");
    assert_eq!(tokenizer.number(), b"12.5.".to_vec());
    assert_eq!(tokenizer.current(), Some(b'x'));
}

#[test]
fn string_reads_past_the_closing_quote() {
    let mut tokenizer = Tokenizer::new("\"a\\\"b\"c");
    tokenizer.step();
    assert_eq!(tokenizer.string(), Ok(b"\"a\\\"b\"".to_vec()));
    assert_eq!(tokenizer.current(), Some(b'c'));

    let mut open = Tokenizer::new("\"abc'");
    open.step();
    assert_eq!(open.string(), Err(LexError::MalformedLiteral { at: 0 }));
    assert!(!open.available());
}

#[test]
fn character_reads_past_the_closing_quote() {
    let mut tokenizer = Tokenizer::new("'\\n';");
    tokenizer.step();
    assert_eq!(tokenizer.character(), Ok(b"'\\n'".to_vec()));
    assert_eq!(tokenizer.current(), Some(b';'));

    let mut open = Tokenizer::new("'a\"");
    open.step();
    assert_eq!(open.character(), Err(LexError::MalformedLiteral { at: 0 }));
    assert!(!open.available());
}
