//! Lexical scanner: splits preprocessed C source text into tokens.
//!
//! The scanner works on the bytes of the text. What it produces is defined by
//! the spec functions of this module: [`scan`] says what the next item is and
//! where the scanner stands afterwards, [`lexemes`] is the whole stream.

use vstd::prelude::*;
use vstd::string::*;
use crate::bytes::copy_range;

verus! {

/// What stops the scanner.
#[derive(Debug, Clone, Copy, PartialEq, Eq, Structural)]
pub enum LexError {
    /// A string or character literal that opens at byte `at` is never closed.
    MalformedLiteral { at: usize },
    /// The byte at offset `at` starts no token.
    UnexpectedCharacter { at: usize, byte: u8 },
}

/// Whether `b` is a space, a tab, a carriage return or a line feed.
pub open spec fn spec_is_whitespace(b: u8) -> bool {
    b == ' ' as u8 || b == '\t' as u8 || b == '\r' as u8 || b == '\n' as u8
}

/// Whether `b` separates tokens without being one: space, tab, carriage
/// return or line feed.
#[verifier::when_used_as_spec(spec_is_whitespace)]
pub fn is_whitespace(b: u8) -> (r: bool)
    ensures
        r == spec_is_whitespace(b),
{
    b == ' ' as u8 || b == '\t' as u8 || b == '\r' as u8 || b == '\n' as u8
}

/// Bytes that always form a token of their own.
pub open spec fn is_punctuation(b: u8) -> bool {
    b == ';' as u8 || b == ',' as u8 || b == '{' as u8 || b == '}' as u8 || b == '[' as u8 || b
        == ']' as u8 || b == '(' as u8 || b == ')' as u8 || b == '?' as u8 || b == ':' as u8
}

/// Operators that may be followed by one `=`.
pub open spec fn takes_equals(b: u8) -> bool {
    b == '*' as u8 || b == '^' as u8 || b == '!' as u8 || b == '=' as u8 || b == '/' as u8
}

/// Operators that may be doubled or followed by one `=`.
pub open spec fn doubles(b: u8) -> bool {
    b == '&' as u8 || b == '|' as u8 || b == '+' as u8
}

/// Operators that may be doubled, and then still be followed by `=`.
pub open spec fn is_angle(b: u8) -> bool {
    b == '<' as u8 || b == '>' as u8
}

/// Bytes that open a punctuation or operator token.
pub open spec fn is_operator_start(b: u8) -> bool {
    is_punctuation(b) || b == '.' as u8 || takes_equals(b) || doubles(b) || is_angle(b) || b
        == '-' as u8
}

/// `0` to `9`.
pub open spec fn is_digit(b: u8) -> bool {
    '0' as u8 <= b <= '9' as u8
}

/// Bytes that open an identifier: a letter or `_`.
pub open spec fn is_identifier_start(b: u8) -> bool {
    b == '_' as u8 || 'a' as u8 <= b <= 'z' as u8 || 'A' as u8 <= b <= 'Z' as u8
}

/// Bytes that an identifier goes on with: a letter, `_` or a digit.
pub open spec fn is_identifier_byte(b: u8) -> bool {
    is_identifier_start(b) || is_digit(b)
}

/// Bytes that a numeric literal goes on with: a digit or `.`.
pub open spec fn is_number_byte(b: u8) -> bool {
    is_digit(b) || b == '.' as u8
}

/// Bytes that open a string or a character literal.
pub open spec fn is_quote(b: u8) -> bool {
    b == '"' as u8 || b == '\'' as u8
}

/// The byte at offset `i`, if the text is that long.
pub open spec fn byte_at(text: Seq<u8>, i: int) -> Option<u8> {
    if 0 <= i < text.len() {
        Some(text[i])
    } else {
        None
    }
}

/// First offset at or after `from` that holds no whitespace.
pub open spec fn whitespace_end(text: Seq<u8>, from: int) -> int
    decreases text.len() - from,
{
    if 0 <= from < text.len() && is_whitespace(text[from]) {
        whitespace_end(text, from + 1)
    } else {
        from
    }
}

/// First offset at or after `from` that holds no identifier byte.
pub open spec fn identifier_end(text: Seq<u8>, from: int) -> int
    decreases text.len() - from,
{
    if 0 <= from < text.len() && is_identifier_byte(text[from]) {
        identifier_end(text, from + 1)
    } else {
        from
    }
}

/// First offset at or after `from` that holds neither a digit nor a dot.
pub open spec fn number_end(text: Seq<u8>, from: int) -> int
    decreases text.len() - from,
{
    if 0 <= from < text.len() && is_number_byte(text[from]) {
        number_end(text, from + 1)
    } else {
        from
    }
}

/// Offset just past the quote that closes a literal whose body starts at
/// `from`. A backslash escapes exactly the byte after it. `None` when the
/// text ends first.
pub open spec fn literal_end(text: Seq<u8>, from: int, quote: u8) -> Option<int>
    decreases text.len() - from,
{
    if from < 0 || from >= text.len() {
        None
    } else if text[from] == '\\' as u8 {
        if from + 1 < text.len() {
            literal_end(text, from + 2, quote)
        } else {
            None
        }
    } else if text[from] == quote {
        Some(from + 1)
    } else {
        literal_end(text, from + 1, quote)
    }
}

/// Offset just past the punctuation or operator token that starts at `start`.
pub open spec fn operator_end(text: Seq<u8>, start: int) -> int
    recommends
        0 <= start < text.len(),
        is_operator_start(text[start]),
{
    let b = text[start];
    let c = byte_at(text, start + 1);
    let d = byte_at(text, start + 2);
    let eq = Some('=' as u8);
    if is_punctuation(b) {
        start + 1
    } else if b == '.' as u8 {
        if c == Some(b) && d == Some(b) {
            start + 3
        } else {
            start + 1
        }
    } else if takes_equals(b) {
        if c == eq {
            start + 2
        } else {
            start + 1
        }
    } else if doubles(b) {
        if c == eq || c == Some(b) {
            start + 2
        } else {
            start + 1
        }
    } else if is_angle(b) {
        if c == eq {
            start + 2
        } else if c == Some(b) {
            if d == eq {
                start + 3
            } else {
                start + 2
            }
        } else {
            start + 1
        }
    } else {
        if c == Some('>' as u8) || c == Some(b) || c == eq {
            start + 2
        } else {
            start + 1
        }
    }
}

/// One step of the scanner: the item found and the offset reached.
pub struct Scan {
    pub item: Option<Result<Seq<u8>, LexError>>,
    pub next: int,
}

/// What the scanner finds from offset `pos` on.
///
/// Whitespace is skipped first. At the end of the text there is no item.
/// Otherwise the first byte decides the kind of token. A literal that is
/// never closed is an error that uses up the rest of the text. A byte that
/// starts no token is an error that uses up that byte.
pub open spec fn scan(text: Seq<u8>, pos: int) -> Scan {
    let start = whitespace_end(text, pos);
    if start < 0 || start >= text.len() {
        Scan { item: None, next: start }
    } else {
        let b = text[start];
        if is_operator_start(b) {
            let end = operator_end(text, start);
            Scan { item: Some(Ok(text.subrange(start, end))), next: end }
        } else if is_identifier_start(b) {
            let end = identifier_end(text, start + 1);
            Scan { item: Some(Ok(text.subrange(start, end))), next: end }
        } else if is_digit(b) {
            let end = number_end(text, start + 1);
            Scan { item: Some(Ok(text.subrange(start, end))), next: end }
        } else if is_quote(b) {
            match literal_end(text, start + 1, b) {
                Some(end) => Scan { item: Some(Ok(text.subrange(start, end))), next: end },
                None => Scan {
                    item: Some(Err(LexError::MalformedLiteral { at: start as usize })),
                    next: text.len() as int,
                },
            }
        } else {
            Scan {
                item: Some(Err(LexError::UnexpectedCharacter { at: start as usize, byte: b })),
                next: start + 1,
            }
        }
    }
}

/// The stream of items that the scanner produces from offset `pos` to the
/// end of the text.
pub open spec fn lexemes(text: Seq<u8>, pos: int) -> Seq<Result<Seq<u8>, LexError>>
    decreases text.len() - pos,
{
    let step = scan(text, pos);
    if 0 <= pos && step.item is Some {
        proof {
            lemma_scan_advances(text, pos);
        }
        seq![step.item->0] + lexemes(text, step.next)
    } else {
        Seq::empty()
    }
}

/// Whether the scanner gets from offset `pos` to the end of `text` without
/// an error.
pub open spec fn clean_from(text: Seq<u8>, pos: int) -> bool {
    forall|i: int| 0 <= i < lexemes(text, pos).len() ==> (#[trigger] lexemes(text, pos)[i]) is Ok
}

/// The tokens of `text` from offset `pos` on, for a text that the scanner
/// gets through without an error.
pub open spec fn tokens_from(text: Seq<u8>, pos: int) -> Seq<Seq<u8>> {
    lexemes(text, pos).map_values(|item: Result<Seq<u8>, LexError>| item->Ok_0)
}

/// The view of an item that the scanner hands out.
pub open spec fn item_view(item: Option<Result<Vec<u8>, LexError>>) -> Option<
    Result<Seq<u8>, LexError>,
> {
    match item {
        None => None,
        Some(Ok(token)) => Some(Ok(token@)),
        Some(Err(error)) => Some(Err(error)),
    }
}

/// `whitespace_end` in plain terms: the bytes from `from` up to it are
/// whitespace, and the byte at it, if there is one, is not.
pub proof fn lemma_whitespace_end(text: Seq<u8>, from: int)
    requires
        0 <= from <= text.len(),
    ensures
        from <= whitespace_end(text, from) <= text.len(),
        forall|i: int| from <= i < whitespace_end(text, from) ==> is_whitespace(#[trigger] text[i]),
        whitespace_end(text, from) < text.len() ==> !is_whitespace(
            text[whitespace_end(text, from)],
        ),
    decreases text.len() - from,
{
    if from < text.len() && is_whitespace(text[from]) {
        lemma_whitespace_end(text, from + 1);
    }
}

/// `identifier_end` in plain terms: the bytes from `from` up to it are
/// identifier bytes, and the byte at it, if there is one, is not.
pub proof fn lemma_identifier_end(text: Seq<u8>, from: int)
    requires
        0 <= from <= text.len(),
    ensures
        from <= identifier_end(text, from) <= text.len(),
        forall|i: int|
            from <= i < identifier_end(text, from) ==> is_identifier_byte(#[trigger] text[i]),
        identifier_end(text, from) < text.len() ==> !is_identifier_byte(
            text[identifier_end(text, from)],
        ),
    decreases text.len() - from,
{
    if from < text.len() && is_identifier_byte(text[from]) {
        lemma_identifier_end(text, from + 1);
    }
}

/// `number_end` in plain terms: the bytes from `from` up to it are digits
/// and dots, and the byte at it, if there is one, is neither.
pub proof fn lemma_number_end(text: Seq<u8>, from: int)
    requires
        0 <= from <= text.len(),
    ensures
        from <= number_end(text, from) <= text.len(),
        forall|i: int| from <= i < number_end(text, from) ==> is_number_byte(#[trigger] text[i]),
        number_end(text, from) < text.len() ==> !is_number_byte(text[number_end(text, from)]),
    decreases text.len() - from,
{
    if from < text.len() && is_number_byte(text[from]) {
        lemma_number_end(text, from + 1);
    }
}

/// A literal that is closed ends within the text, in its quote.
pub proof fn lemma_literal_end(text: Seq<u8>, from: int, quote: u8)
    requires
        0 <= from,
    ensures
        literal_end(text, from, quote) matches Some(end) ==> from < end <= text.len() && text[end
            - 1] == quote,
    decreases text.len() - from,
{
    if from < text.len() {
        if text[from] == '\\' as u8 {
            if from + 1 < text.len() {
                lemma_literal_end(text, from + 2, quote);
            }
        } else if text[from] != quote {
            lemma_literal_end(text, from + 1, quote);
        }
    }
}

/// Every item uses up at least one byte, and the scanner never runs past
/// the end of the text.
pub proof fn lemma_scan_advances(text: Seq<u8>, pos: int)
    requires
        0 <= pos,
    ensures
        scan(text, pos).item is Some ==> pos < scan(text, pos).next <= text.len(),
        scan(text, pos).item matches Some(Ok(token)) ==> token.len() > 0,
        scan(text, pos).item is None && pos <= text.len() ==> scan(text, pos).next == text.len(),
{
    if pos <= text.len() {
        lemma_whitespace_end(text, pos);
        let start = whitespace_end(text, pos);
        if start < text.len() {
            lemma_identifier_end(text, start + 1);
            lemma_number_end(text, start + 1);
            lemma_literal_end(text, start + 1, text[start]);
        }
    } else {
        assert(whitespace_end(text, pos) == pos);
    }
}

/// Scanner over the bytes of one source text.
///
/// `mark` is where the token in progress starts, `offset` is the next byte
/// to read; `mark <= offset <= text.len()` always holds.
pub struct Tokenizer {
    text: Vec<u8>,
    last: usize,
    pos: usize,
}

impl Tokenizer {
    #[verifier::type_invariant]
    spec fn inv(&self) -> bool {
        self.last <= self.pos <= self.text.len()
    }

    /// The bytes being scanned.
    pub closed spec fn text(&self) -> Seq<u8> {
        self.text@
    }

    /// Offset of the next byte to read.
    pub closed spec fn offset(&self) -> int {
        self.pos as int
    }

    /// Offset at which the token in progress starts.
    pub closed spec fn mark(&self) -> int {
        self.last as int
    }

    /// A scanner at the start of the bytes of `line`.
    pub fn new(line: &str) -> (t: Self)
        ensures
            t.text() == line.spec_bytes(),
            t.offset() == 0,
            t.mark() == 0,
    {
        Tokenizer { text: line.as_bytes_vec(), last: 0, pos: 0 }
    }

    /// Offset at which the token read last starts.
    pub fn token_start(&self) -> (at: usize)
        ensures
            at == self.mark(),
    {
        self.last
    }

    /// Whether a byte is left to read.
    pub fn available(&self) -> (r: bool)
        ensures
            r == (self.offset() < self.text().len()),
            0 <= self.mark() <= self.offset() <= self.text().len(),
    {
        proof {
            use_type_invariant(self);
        }
        self.pos < self.text.len()
    }

    /// Moves past one byte.
    pub fn step(&mut self)
        requires
            old(self).offset() < old(self).text().len(),
        ensures
            final(self).text() == old(self).text(),
            final(self).mark() == old(self).mark(),
            final(self).offset() == old(self).offset() + 1,
    {
        proof {
            use_type_invariant(&*self);
        }
        self.pos += 1;
    }

    /// Moves past `n` bytes.
    pub fn step_n(&mut self, n: usize)
        requires
            old(self).offset() + n <= old(self).text().len(),
        ensures
            final(self).text() == old(self).text(),
            final(self).mark() == old(self).mark(),
            final(self).offset() == old(self).offset() + n,
    {
        proof {
            use_type_invariant(&*self);
        }
        self.pos += n;
    }

    /// The next byte to read.
    pub fn current(&self) -> (r: Option<u8>)
        ensures
            r == byte_at(self.text(), self.offset()),
    {
        if self.available() {
            Some(self.text[self.pos])
        } else {
            None
        }
    }

    /// The byte after the next one.
    pub fn peek(&self) -> (r: Option<u8>)
        ensures
            r == byte_at(self.text(), self.offset() + 1),
    {
        proof {
            use_type_invariant(self);
        }
        if self.text.len() - self.pos > 1 {
            Some(self.text[self.pos + 1])
        } else {
            None
        }
    }

    /// Moves to the first byte that is no whitespace.
    pub fn skip_whitespace(&mut self)
        ensures
            final(self).text() == old(self).text(),
            final(self).mark() == old(self).mark(),
            final(self).offset() == whitespace_end(old(self).text(), old(self).offset()),
    {
        proof {
            use_type_invariant(&*self);
        }
        while self.pos < self.text.len() && is_whitespace(self.text[self.pos])
            invariant
                self.text == old(self).text,
                self.last == old(self).last,
                self.last <= self.pos <= self.text.len(),
                whitespace_end(self.text@, self.pos as int) == whitespace_end(
                    old(self).text@,
                    old(self).pos as int,
                ),
            decreases self.text.len() - self.pos,
        {
            self.pos += 1;
        }
    }

    /// The bytes from the mark up to the offset.
    pub fn slice(&self) -> (token: Vec<u8>)
        ensures
            token@ == self.text().subrange(self.mark(), self.offset()),
    {
        proof {
            use_type_invariant(self);
        }
        copy_range(self.text.as_slice(), self.last, self.pos)
    }

    /// Reads on to the end of an identifier and returns the token.
    pub fn identifier(&mut self) -> (token: Vec<u8>)
        ensures
            final(self).text() == old(self).text(),
            final(self).mark() == old(self).mark(),
            final(self).offset() == identifier_end(old(self).text(), old(self).offset()),
            token@ == old(self).text().subrange(old(self).mark(), final(self).offset()),
    {
        proof {
            use_type_invariant(&*self);
        }
        while self.pos < self.text.len() && Self::identifier_byte(self.text[self.pos])
            invariant
                self.text == old(self).text,
                self.last == old(self).last,
                self.last <= self.pos <= self.text.len(),
                identifier_end(self.text@, self.pos as int) == identifier_end(
                    old(self).text@,
                    old(self).pos as int,
                ),
            decreases self.text.len() - self.pos,
        {
            self.pos += 1;
        }
        self.slice()
    }

    /// Reads on to the end of a numeric literal and returns the token.
    pub fn number(&mut self) -> (token: Vec<u8>)
        ensures
            final(self).text() == old(self).text(),
            final(self).mark() == old(self).mark(),
            final(self).offset() == number_end(old(self).text(), old(self).offset()),
            token@ == old(self).text().subrange(old(self).mark(), final(self).offset()),
    {
        proof {
            use_type_invariant(&*self);
        }
        while self.pos < self.text.len() && Self::number_byte(self.text[self.pos])
            invariant
                self.text == old(self).text,
                self.last == old(self).last,
                self.last <= self.pos <= self.text.len(),
                number_end(self.text@, self.pos as int) == number_end(
                    old(self).text@,
                    old(self).pos as int,
                ),
            decreases self.text.len() - self.pos,
        {
            self.pos += 1;
        }
        self.slice()
    }

    /// Reads on past the `'` that closes a character literal and returns the
    /// token; if there is none, reads to the end of the text and fails.
    pub fn character(&mut self) -> (r: Result<Vec<u8>, LexError>)
        ensures
            final(self).text() == old(self).text(),
            final(self).mark() == old(self).mark(),
            match literal_end(old(self).text(), old(self).offset(), '\'' as u8) {
                Some(end) => final(self).offset() == end && r is Ok && r->Ok_0@ == old(
                    self,
                ).text().subrange(old(self).mark(), end),
                None => final(self).offset() == old(self).text().len() && r == Err::<
                    Vec<u8>,
                    LexError,
                >(LexError::MalformedLiteral { at: old(self).mark() as usize }),
            },
    {
        self.literal('\'' as u8)
    }

    /// Reads on past the `"` that closes a string literal and returns the
    /// token; if there is none, reads to the end of the text and fails.
    pub fn string(&mut self) -> (r: Result<Vec<u8>, LexError>)
        ensures
            final(self).text() == old(self).text(),
            final(self).mark() == old(self).mark(),
            match literal_end(old(self).text(), old(self).offset(), '"' as u8) {
                Some(end) => final(self).offset() == end && r is Ok && r->Ok_0@ == old(
                    self,
                ).text().subrange(old(self).mark(), end),
                None => final(self).offset() == old(self).text().len() && r == Err::<
                    Vec<u8>,
                    LexError,
                >(LexError::MalformedLiteral { at: old(self).mark() as usize }),
            },
    {
        self.literal('"' as u8)
    }

    /// The next item of the stream, or `None` at the end of the text.
    pub fn next(&mut self) -> (r: Option<Result<Vec<u8>, LexError>>)
        ensures
            final(self).text() == old(self).text(),
            item_view(r) == scan(old(self).text(), old(self).offset()).item,
            final(self).offset() == scan(old(self).text(), old(self).offset()).next,
            final(self).mark() == whitespace_end(old(self).text(), old(self).offset()),
            lexemes(old(self).text(), old(self).offset()) == match item_view(r) {
                Some(item) => seq![item] + lexemes(final(self).text(), final(self).offset()),
                None => Seq::empty(),
            },
    {
        proof {
            use_type_invariant(&*self);
            lemma_whitespace_end(self.text@, self.pos as int);
        }
        self.skip_whitespace();
        proof {
            use_type_invariant(&*self);
        }
        self.last = self.pos;
        let b = match self.current() {
            Some(b) => b,
            None => {
                return None;
            },
        };
        self.step();
        let c = self.current();
        let d = self.peek();
        let eq = Some('=' as u8);
        if Self::punctuation(b) {
            Some(Ok(self.slice()))
        } else if b == '.' as u8 {
            if c == Some(b) && d == Some(b) {
                self.step_n(2);
            }
            Some(Ok(self.slice()))
        } else if b == '*' as u8 || b == '^' as u8 || b == '!' as u8 || b == '=' as u8 || b
            == '/' as u8 {
            if c == eq {
                self.step();
            }
            Some(Ok(self.slice()))
        } else if b == '&' as u8 || b == '|' as u8 || b == '+' as u8 {
            if c == eq || c == Some(b) {
                self.step();
            }
            Some(Ok(self.slice()))
        } else if b == '<' as u8 || b == '>' as u8 {
            if c == eq {
                self.step();
            } else if c == Some(b) {
                self.step();
                if d == eq {
                    self.step();
                }
            }
            Some(Ok(self.slice()))
        } else if b == '-' as u8 {
            if c == Some('>' as u8) || c == Some(b) || c == eq {
                self.step();
            }
            Some(Ok(self.slice()))
        } else if b == '_' as u8 || ('a' as u8 <= b && b <= 'z' as u8) || ('A' as u8 <= b && b
            <= 'Z' as u8) {
            Some(Ok(self.identifier()))
        } else if '0' as u8 <= b && b <= '9' as u8 {
            Some(Ok(self.number()))
        } else if b == '"' as u8 {
            Some(self.string())
        } else if b == '\'' as u8 {
            Some(self.character())
        } else {
            Some(Err(LexError::UnexpectedCharacter { at: self.last, byte: b }))
        }
    }

    fn punctuation(b: u8) -> (r: bool)
        ensures
            r == is_punctuation(b),
    {
        b == ';' as u8 || b == ',' as u8 || b == '{' as u8 || b == '}' as u8 || b == '[' as u8
            || b == ']' as u8 || b == '(' as u8 || b == ')' as u8 || b == '?' as u8 || b
            == ':' as u8
    }

    fn identifier_byte(b: u8) -> (r: bool)
        ensures
            r == is_identifier_byte(b),
    {
        b == '_' as u8 || ('a' as u8 <= b && b <= 'z' as u8) || ('A' as u8 <= b && b
            <= 'Z' as u8) || ('0' as u8 <= b && b <= '9' as u8)
    }

    fn number_byte(b: u8) -> (r: bool)
        ensures
            r == is_number_byte(b),
    {
        ('0' as u8 <= b && b <= '9' as u8) || b == '.' as u8
    }

    fn literal(&mut self, quote: u8) -> (r: Result<Vec<u8>, LexError>)
        ensures
            final(self).text() == old(self).text(),
            final(self).mark() == old(self).mark(),
            match literal_end(old(self).text(), old(self).offset(), quote) {
                Some(end) => final(self).offset() == end && r is Ok && r->Ok_0@ == old(
                    self,
                ).text().subrange(old(self).mark(), end),
                None => final(self).offset() == old(self).text().len() && r == Err::<
                    Vec<u8>,
                    LexError,
                >(LexError::MalformedLiteral { at: old(self).mark() as usize }),
            },
    {
        proof {
            use_type_invariant(&*self);
        }
        while self.pos < self.text.len()
            invariant
                self.text == old(self).text,
                self.last == old(self).last,
                self.last <= self.pos <= self.text.len(),
                literal_end(self.text@, self.pos as int, quote) == literal_end(
                    old(self).text@,
                    old(self).pos as int,
                    quote,
                ),
            decreases self.text.len() - self.pos,
        {
            let b = self.text[self.pos];
            self.pos += 1;
            if b == '\\' as u8 {
                if self.pos < self.text.len() {
                    self.pos += 1;
                }
            } else if b == quote {
                return Ok(self.slice());
            }
        }
        Err(LexError::MalformedLiteral { at: self.last })
    }
}

} // verus!
