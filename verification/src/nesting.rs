//! Bracket nesting over a list of tokens.

use vstd::prelude::*;
use vstd::string::*;
use crate::bytes::{is_word, word};

verus! {

/// Whether the token opens a nesting level: `{`, `[` or `(`.
pub open spec fn is_opener(token: Seq<u8>) -> bool {
    token == word("{") || token == word("[") || token == word("(")
}

/// Whether the token closes a nesting level: `}`, `]` or `)`.
pub open spec fn is_closer(token: Seq<u8>) -> bool {
    token == word("}") || token == word("]") || token == word(")")
}

/// The nesting depth after `token`, for a depth of `depth` before it. A
/// closer at depth zero encloses nothing and leaves the depth at zero.
pub open spec fn depth_after(depth: nat, token: Seq<u8>) -> nat {
    if is_opener(token) {
        depth + 1
    } else if is_closer(token) && depth > 0 {
        (depth - 1) as nat
    } else {
        depth
    }
}

/// Index of the first token at or after `from` that spells `sep` at nesting
/// depth zero, the depth at `from` being `depth`; the length of `body` if
/// there is none.
pub open spec fn field_end(body: Seq<Seq<u8>>, sep: Seq<u8>, from: int, depth: nat) -> int
    decreases body.len() - from,
{
    if from < 0 || from >= body.len() {
        body.len() as int
    } else if depth == 0 && body[from] == sep {
        from
    } else {
        field_end(body, sep, from + 1, depth_after(depth, body[from]))
    }
}

/// `field_end` stays within the body and, short of its end, stops at a
/// separator.
pub proof fn lemma_field_end(body: Seq<Seq<u8>>, sep: Seq<u8>, from: int, depth: nat)
    requires
        0 <= from <= body.len(),
    ensures
        from <= field_end(body, sep, from, depth) <= body.len(),
        field_end(body, sep, from, depth) < body.len() ==> body[field_end(body, sep, from, depth)]
            == sep,
    decreases body.len() - from,
{
    if from < body.len() && !(depth == 0 && body[from] == sep) {
        lemma_field_end(body, sep, from + 1, depth_after(depth, body[from]));
    }
}

/// The three openers differ from the closer of their own kind.
pub proof fn lemma_brackets_differ()
    ensures
        word("(") != word(")"),
        word("[") != word("]"),
        word("{") != word("}"),
{
    reveal_strlit("(");
    reveal_strlit(")");
    reveal_strlit("[");
    reveal_strlit("]");
    reveal_strlit("{");
    reveal_strlit("}");
    is_ascii_spec_bytes("(");
    is_ascii_spec_bytes(")");
    is_ascii_spec_bytes("[");
    is_ascii_spec_bytes("]");
    is_ascii_spec_bytes("{");
    is_ascii_spec_bytes("}");
    assert(word("(")[0] != word(")")[0]);
    assert(word("[")[0] != word("]")[0]);
    assert(word("{")[0] != word("}")[0]);
}

/// Whether the token opens a nesting level.
pub fn opens(token: &[u8]) -> (r: bool)
    ensures
        r == is_opener(token@),
{
    is_word(token, "{") || is_word(token, "[") || is_word(token, "(")
}

/// Whether the token closes a nesting level.
pub fn closes(token: &[u8]) -> (r: bool)
    ensures
        r == is_closer(token@),
{
    is_word(token, "}") || is_word(token, "]") || is_word(token, ")")
}

} // verus!
