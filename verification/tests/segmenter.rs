use header_catalog::lexer::Tokenizer;
use header_catalog::segment::{Segment, Segmenter};

fn toks(text: &str) -> Vec<Vec<u8>> {
    let mut tokenizer = Tokenizer::new(text);
    let mut tokens = Vec::new();
    while let Some(item) = tokenizer.next() {
        tokens.push(item.expect("a token"));
    }
    tokens
}

/// Feeds the tokens of `text` and gives the segments closed, each as
/// `S:` or `U:` and its tokens, and the number of tokens left pending.
fn segments_of(text: &str) -> (Vec<String>, usize) {
    let mut segmenter = Segmenter::new();
    let mut out = Vec::new();
    for token in toks(text) {
        match segmenter.push(token) {
            Some(Segment::Statement(tokens)) => out.push(format!("S:{}", show(&tokens))),
            Some(Segment::Unbalanced(tokens)) => out.push(format!("U:{}", show(&tokens))),
            None => {}
        }
    }
    (out, segmenter.pending())
}

fn show(tokens: &[Vec<u8>]) -> String {
    let words: Vec<&str> = tokens.iter().map(|t| std::str::from_utf8(t).expect("text")).collect();
    words.join(" ")
}

#[test]
fn semicolon_at_depth_zero_ends_a_statement() {
    assert_eq!(
        segments_of("int a ; int b ;"),
        (vec!["S:int a ;".to_string(), "S:int b ;".to_string()], 0)
    );
}

#[test]
fn semicolon_inside_brackets_does_not_end_a_statement() {
    assert_eq!(
        segments_of("typedef struct { int a ; int b [ 2 ] ; } S ; x"),
        (vec!["S:typedef struct { int a ; int b [ 2 ] ; } S ;".to_string()], 1)
    );
}

#[test]
fn directive_ends_with_its_last_closer() {
    assert_eq!(
        segments_of("__pragma ( pack ( push , 8 ) ) typedef int a ; __declspec ( x ) int b ;"),
        (
            vec![
                "S:__pragma ( pack ( push , 8 ) )".to_string(),
                "S:typedef int a ;".to_string(),
                "S:__declspec ( x )".to_string(),
                "S:int b ;".to_string()
            ],
            0
        )
    );
}

#[test]
fn other_statements_go_on_after_a_closer() {
    assert_eq!(segments_of("int f ( void ) ;"), (vec!["S:int f ( void ) ;".to_string()], 0));
    assert_eq!(segments_of("int f ( void )"), (vec![], 5));
}

#[test]
fn unmatched_closer_is_surfaced_and_the_next_statement_starts_after_it() {
    assert_eq!(
        segments_of("int a ) int b ; } ;"),
        (
            vec![
                "U:int a )".to_string(),
                "S:int b ;".to_string(),
                "U:}".to_string(),
                "S:;".to_string()
            ],
            0
        )
    );
}

#[test]
fn segments_and_rest_hold_every_token_once_in_order() {
    let text = "a ( b ; ) ; ] c { d } ; __pragma ( e ) f [ g ";
    let mut segmenter = Segmenter::new();
    let mut seen: Vec<Vec<u8>> = Vec::new();
    for token in toks(text) {
        match segmenter.push(token) {
            Some(Segment::Statement(tokens)) | Some(Segment::Unbalanced(tokens)) => {
                seen.extend(tokens)
            }
            None => {}
        }
    }
    seen.extend(segmenter.take());
    assert_eq!(seen, toks(text));
    assert_eq!(segmenter.pending(), 0);
}

#[test]
fn balanced_input_is_reproduced_by_its_statements() {
    let text = "typedef struct { int a ; } A ; int f ( int ) ; __pragma ( x ) typedef int b ;";
    let mut segmenter = Segmenter::new();
    let mut seen: Vec<Vec<u8>> = Vec::new();
    for token in toks(text) {
        match segmenter.push(token) {
            Some(Segment::Statement(tokens)) => seen.extend(tokens),
            Some(Segment::Unbalanced(_)) => panic!("the input is balanced"),
            None => {}
        }
    }
    assert_eq!(segmenter.pending(), 0);
    assert_eq!(seen, toks(text));
}

#[test]
fn take_gives_up_the_statement_in_progress() {
    let mut segmenter = Segmenter::new();
    for token in toks("int a ( b") {
        assert!(segmenter.push(token).is_none());
    }
    assert_eq!(segmenter.pending(), 4);
    assert_eq!(show(&segmenter.take()), "int a ( b");
    assert_eq!(segmenter.pending(), 0);
    // the depth is forgotten too
    let mut closed = Vec::new();
    for token in toks("c ;") {
        if let Some(Segment::Statement(tokens)) = segmenter.push(token) {
            closed.push(show(&tokens));
        }
    }
    assert_eq!(closed, vec!["c ;".to_string()]);
}
