//! From source text to catalog: scans the text, cuts the tokens into
//! statements and classifies each statement.

use vstd::prelude::*;
use vstd::string::*;
use crate::bytes::{is_word, texts};
use crate::catalog::{unique, Catalog};
use crate::classify::{classify, parse_statement, stripped, table_after, Kind};
use crate::lexer::{
    clean_from,
    lemma_scan_advances,
    lexemes,
    scan,
    tokens_from,
    whitespace_end,
    LexError,
    Tokenizer,
};
use crate::model::StmtView;
use crate::segment::{feed, idle, lemma_run_push, run, Segment, SegmentView, Segmenter, State};

verus! {

/// Something in the source that was reported and passed over. None of
/// these stops the run.
#[derive(Debug)]
pub enum Diagnostic {
    /// A literal that opens at byte `at` is never closed. `statement` holds
    /// the tokens of the statement that it breaks off.
    MalformedLiteral { at: usize, statement: Vec<Vec<u8>> },
    /// The byte at offset `at` starts no token. `statement` holds the
    /// tokens of the statement that it breaks off.
    UnexpectedCharacter { at: usize, byte: u8, statement: Vec<Vec<u8>> },
    /// The closer that starts at byte `at` matches no opener. `statement`
    /// holds the tokens up to and including it.
    UnbalancedNesting { at: usize, statement: Vec<Vec<u8>> },
    /// No recognizer accepts the statement. `statement` holds its tokens
    /// without the `;` that ends it.
    UnrecognizedStatement { statement: Vec<Vec<u8>> },
}

/// Mathematical value of a [`Diagnostic`].
pub enum DiagnosticView {
    MalformedLiteral { at: usize, statement: Seq<Seq<u8>> },
    UnexpectedCharacter { at: usize, byte: u8, statement: Seq<Seq<u8>> },
    UnbalancedNesting { at: usize, statement: Seq<Seq<u8>> },
    UnrecognizedStatement { statement: Seq<Seq<u8>> },
}

impl View for Diagnostic {
    type V = DiagnosticView;

    open spec fn view(&self) -> DiagnosticView {
        match self {
            Diagnostic::MalformedLiteral { at, statement } => DiagnosticView::MalformedLiteral {
                at: *at,
                statement: texts(statement@),
            },
            Diagnostic::UnexpectedCharacter { at, byte, statement } => {
                DiagnosticView::UnexpectedCharacter {
                    at: *at,
                    byte: *byte,
                    statement: texts(statement@),
                }
            },
            Diagnostic::UnbalancedNesting { at, statement } => DiagnosticView::UnbalancedNesting {
                at: *at,
                statement: texts(statement@),
            },
            Diagnostic::UnrecognizedStatement { statement } => {
                DiagnosticView::UnrecognizedStatement { statement: texts(statement@) }
            },
        }
    }
}

/// The values of a list of diagnostics.
pub open spec fn diagnostic_views(diagnostics: Seq<Diagnostic>) -> Seq<DiagnosticView> {
    diagnostics.map_values(|d: Diagnostic| d@)
}

/// What a run over a source text yields.
pub struct Parsed {
    /// The types that the text declares.
    pub types: Catalog,
    /// The kind of each complete statement, in source order.
    pub kinds: Vec<Kind>,
    /// What was reported on the way, in source order.
    pub diagnostics: Vec<Diagnostic>,
}

/// Where a run stands: the statement in progress and what was gathered.
pub struct Progress {
    pub state: State,
    pub table: Seq<(Seq<u8>, StmtView)>,
    pub kinds: Seq<Kind>,
    pub diagnostics: Seq<DiagnosticView>,
}

/// A run that has seen nothing yet.
pub open spec fn start() -> Progress {
    Progress {
        state: idle(),
        table: Seq::empty(),
        kinds: Seq::empty(),
        diagnostics: Seq::empty(),
    }
}

/// The diagnostic for a scanner error that breaks off `statement`.
pub open spec fn lexical(error: LexError, statement: Seq<Seq<u8>>) -> DiagnosticView {
    match error {
        LexError::MalformedLiteral { at } => DiagnosticView::MalformedLiteral { at, statement },
        LexError::UnexpectedCharacter { at, byte } => DiagnosticView::UnexpectedCharacter {
            at,
            byte,
            statement,
        },
    }
}

/// The run after one more item of the scanner, which starts at byte `at`.
///
/// A scanner error is reported with the statement in progress, which is
/// given up. A token goes to the segmenter. A statement that it completes
/// is classified: its kind is logged, the type that it declares is
/// registered, and it is reported, without the `;` that ends it, if nothing
/// recognizes it. Tokens that end in an unmatched closer are reported and
/// given up.
pub open spec fn after_item(p: Progress, item: Result<Seq<u8>, LexError>, at: int) -> Progress {
    match item {
        Err(error) => Progress {
            state: idle(),
            diagnostics: p.diagnostics.push(lexical(error, p.state.pending)),
            ..p
        },
        Ok(token) => match feed(p.state, token).1 {
            None => Progress { state: feed(p.state, token).0, ..p },
            Some(SegmentView::Unbalanced(statement)) => Progress {
                state: feed(p.state, token).0,
                diagnostics: p.diagnostics.push(
                    DiagnosticView::UnbalancedNesting { at: at as usize, statement },
                ),
                ..p
            },
            Some(SegmentView::Statement(statement)) => Progress {
                state: feed(p.state, token).0,
                table: table_after(p.table, statement),
                kinds: p.kinds.push(classify(statement)),
                diagnostics: if classify(statement) == Kind::Unrecognized {
                    p.diagnostics.push(
                        DiagnosticView::UnrecognizedStatement { statement: stripped(statement) },
                    )
                } else {
                    p.diagnostics
                },
            },
        },
    }
}

/// The run at the end of `text`, for a run that stands at `p` when the
/// scanner stands at offset `pos`.
pub open spec fn parse_from(text: Seq<u8>, pos: int, p: Progress) -> Progress
    decreases text.len() - pos,
{
    let step = scan(text, pos);
    if 0 <= pos && step.item is Some {
        proof {
            lemma_scan_advances(text, pos);
        }
        parse_from(text, step.next, after_item(p, step.item->0, whitespace_end(text, pos)))
    } else {
        p
    }
}

/// The table and the log of kinds after the statements among `segments`
/// are classified in order.
pub open spec fn classified(segments: Seq<SegmentView>) -> (Seq<(Seq<u8>, StmtView)>, Seq<Kind>)
    decreases segments.len(),
{
    if segments.len() == 0 {
        (Seq::empty(), Seq::empty())
    } else {
        let before = classified(segments.drop_last());
        match segments.last() {
            SegmentView::Statement(statement) => (
                table_after(before.0, statement),
                before.1.push(classify(statement)),
            ),
            SegmentView::Unbalanced(statement) => before,
        }
    }
}

/// Whether the run `p` is what segmenting and classifying `tokens` gives.
pub open spec fn follows(p: Progress, tokens: Seq<Seq<u8>>) -> bool {
    &&& p.state == run(idle(), tokens).1
    &&& p.table == classified(run(idle(), tokens).0).0
    &&& p.kinds == classified(run(idle(), tokens).0).1
}

/// A run that follows the tokens read so far goes on following them to
/// the end of a text that the scanner gets through.
pub proof fn lemma_parse_follows(text: Seq<u8>, pos: int, p: Progress, seen: Seq<Seq<u8>>)
    requires
        0 <= pos,
        clean_from(text, pos),
        follows(p, seen),
    ensures
        follows(parse_from(text, pos, p), seen + tokens_from(text, pos)),
    decreases text.len() - pos,
{
    let step = scan(text, pos);
    if step.item is Some {
        lemma_scan_advances(text, pos);
        let rest = lexemes(text, step.next);
        assert(lexemes(text, pos) == seq![step.item->0] + rest);
        assert(lexemes(text, pos)[0] is Ok);
        let token = step.item->0->Ok_0;
        assert forall|i: int| 0 <= i < rest.len() implies (#[trigger] rest[i]) is Ok by {
            assert(lexemes(text, pos)[i + 1] == rest[i]);
        }
        let q = after_item(p, step.item->0, whitespace_end(text, pos));
        lemma_run_push(idle(), seen, token);
        assert(follows(q, seen.push(token))) by {
            let before = run(idle(), seen);
            match feed(before.1, token).1 {
                Some(segment) => {
                    assert(before.0.push(segment).drop_last() =~= before.0);
                },
                None => {},
            }
        }
        lemma_parse_follows(text, step.next, q, seen.push(token));
        assert(seen.push(token) + tokens_from(text, step.next) =~= seen + tokens_from(text, pos));
    } else {
        assert(seen + tokens_from(text, pos) =~= seen);
    }
}

/// On a text that the scanner gets through without an error, parsing is
/// segmenting the tokens of the text and classifying the statements in
/// order.
pub proof fn lemma_parse_is_segmenting(text: Seq<u8>)
    requires
        clean_from(text, 0),
    ensures
        follows(parse_from(text, 0, start()), tokens_from(text, 0)),
{
    let none = Seq::<Seq<u8>>::empty();
    assert(run(idle(), none).0 =~= Seq::<SegmentView>::empty());
    lemma_parse_follows(text, 0, start(), none);
    assert(none + tokens_from(text, 0) =~= tokens_from(text, 0));
}

/// Builds the catalog of the types that `source` declares.
///
/// Tokens that are left after the last complete statement declare nothing.
pub fn parse(source: &str) -> (parsed: Parsed)
    ensures
        parsed.types@ == parse_from(source.spec_bytes(), 0, start()).table,
        parsed.kinds@ == parse_from(source.spec_bytes(), 0, start()).kinds,
        diagnostic_views(parsed.diagnostics@) == parse_from(
            source.spec_bytes(),
            0,
            start(),
        ).diagnostics,
        unique(parsed.types@),
{
    let ghost text = source.spec_bytes();
    let mut tokenizer = Tokenizer::new(source);
    let mut segmenter = Segmenter::new();
    let mut types = Catalog::new();
    let mut kinds: Vec<Kind> = Vec::new();
    let mut diagnostics: Vec<Diagnostic> = Vec::new();
    assert(diagnostic_views(diagnostics@) =~= Seq::<DiagnosticView>::empty());
    loop
        invariant
            tokenizer.text() == text,
            0 <= tokenizer.offset(),
            segmenter.wf(),
            unique(types@),
            parse_from(text, 0, start()) == parse_from(
                text,
                tokenizer.offset(),
                Progress {
                    state: segmenter@,
                    table: types@,
                    kinds: kinds@,
                    diagnostics: diagnostic_views(diagnostics@),
                },
            ),
        ensures
            types@ == parse_from(text, 0, start()).table,
            kinds@ == parse_from(text, 0, start()).kinds,
            diagnostic_views(diagnostics@) == parse_from(text, 0, start()).diagnostics,
            unique(types@),
        decreases text.len() - tokenizer.offset(),
    {
        let ghost pos = tokenizer.offset();
        let ghost before = diagnostic_views(diagnostics@);
        proof {
            lemma_scan_advances(text, pos);
        }
        let item = match tokenizer.next() {
            Some(item) => item,
            None => {
                break ;
            },
        };
        match item {
            Err(error) => {
                let statement = segmenter.take();
                let diagnostic = match error {
                    LexError::MalformedLiteral { at } => Diagnostic::MalformedLiteral {
                        at,
                        statement,
                    },
                    LexError::UnexpectedCharacter { at, byte } => Diagnostic::UnexpectedCharacter {
                        at,
                        byte,
                        statement,
                    },
                };
                diagnostics.push(diagnostic);
                assert(diagnostic_views(diagnostics@) =~= before.push(diagnostic@));
            },
            Ok(token) => {
                let at = tokenizer.token_start();
                match segmenter.push(token) {
                    None => {},
                    Some(Segment::Unbalanced(statement)) => {
                        let diagnostic = Diagnostic::UnbalancedNesting { at, statement };
                        diagnostics.push(diagnostic);
                        assert(diagnostic_views(diagnostics@) =~= before.push(diagnostic@));
                    },
                    Some(Segment::Statement(statement)) => {
                        let kind = parse_statement(statement.as_slice(), &mut types);
                        kinds.push(kind);
                        if kind == Kind::Unrecognized {
                            let ghost whole = texts(statement@);
                            let mut statement = statement;
                            let n = statement.len();
                            if n >= 1 && is_word(statement[n - 1].as_slice(), ";") {
                                statement.pop();
                            }
                            assert(texts(statement@) =~= stripped(whole));
                            let diagnostic = Diagnostic::UnrecognizedStatement { statement };
                            diagnostics.push(diagnostic);
                            assert(diagnostic_views(diagnostics@) =~= before.push(diagnostic@));
                        }
                    },
                }
            },
        }
    }
    Parsed { types, kinds, diagnostics }
}

} // verus!
