//! Byte-string helpers shared by the scanner, the classifier and the emitter.

use vstd::prelude::*;
use vstd::string::*;

verus! {

/// Owned copy of `text[from..to]`.
pub fn copy_range(text: &[u8], from: usize, to: usize) -> (out: Vec<u8>)
    requires
        from <= to <= text@.len(),
    ensures
        out@ == text@.subrange(from as int, to as int),
{
    let mut out: Vec<u8> = Vec::new();
    let mut i: usize = from;
    while i < to
        invariant
            from <= i <= to <= text@.len(),
            out@ == text@.subrange(from as int, i as int),
        decreases to - i,
    {
        out.push(text[i]);
        i += 1;
        assert(out@ =~= text@.subrange(from as int, i as int));
    }
    out
}

/// Whether two byte strings hold the same bytes.
pub fn bytes_eq(a: &[u8], b: &[u8]) -> (r: bool)
    ensures
        r == (a@ == b@),
{
    if a.len() != b.len() {
        return false;
    }
    let mut i: usize = 0;
    while i < a.len()
        invariant
            a@.len() == b@.len(),
            0 <= i <= a@.len(),
            a@.subrange(0, i as int) == b@.subrange(0, i as int),
        decreases a@.len() - i,
    {
        if a[i] != b[i] {
            return false;
        }
        i += 1;
        assert(a@.subrange(0, i as int) =~= a@.subrange(0, i - 1).push(a@[i - 1]));
        assert(b@.subrange(0, i as int) =~= b@.subrange(0, i - 1).push(b@[i - 1]));
    }
    assert(a@ =~= a@.subrange(0, i as int));
    assert(b@ =~= b@.subrange(0, i as int));
    true
}

/// Whether `token` spells exactly `text`.
pub fn is_word(token: &[u8], text: &str) -> (r: bool)
    ensures
        r == (token@ == word(text)),
{
    bytes_eq(token, text.as_bytes())
}

/// Appends `tail` to `out`.
pub fn push_bytes(out: &mut Vec<u8>, tail: &[u8])
    ensures
        final(out)@ == old(out)@ + tail@,
{
    let mut i: usize = 0;
    while i < tail.len()
        invariant
            0 <= i <= tail@.len(),
            out@ == old(out)@ + tail@.subrange(0, i as int),
        decreases tail@.len() - i,
    {
        out.push(tail[i]);
        i += 1;
        assert(out@ =~= old(out)@ + tail@.subrange(0, i as int));
    }
    assert(tail@ =~= tail@.subrange(0, i as int));
}

/// Appends the bytes of `text` to `out`.
pub fn push_str(out: &mut Vec<u8>, text: &str)
    ensures
        final(out)@ == old(out)@ + word(text),
{
    push_bytes(out, text.as_bytes());
}

/// The bytes of `text`, as a token has them.
pub open spec fn word(text: &str) -> Seq<u8> {
    text.spec_bytes()
}

/// The texts of a list of tokens.
pub open spec fn texts(tokens: Seq<Vec<u8>>) -> Seq<Seq<u8>> {
    tokens.map_values(|token: Vec<u8>| token@)
}

/// `parts` written one after the other, with `sep` between neighbours.
pub open spec fn joined(parts: Seq<Seq<u8>>, sep: Seq<u8>) -> Seq<u8>
    decreases parts.len(),
{
    if parts.len() == 0 {
        Seq::empty()
    } else if parts.len() == 1 {
        parts[0]
    } else {
        joined(parts.drop_last(), sep) + sep + parts.last()
    }
}

/// Joins the tokens with `sep` between neighbours.
pub fn join(parts: &[Vec<u8>], sep: &str) -> (out: Vec<u8>)
    ensures
        out@ == joined(texts(parts@), word(sep)),
{
    let mut out: Vec<u8> = Vec::new();
    let mut i: usize = 0;
    while i < parts.len()
        invariant
            0 <= i <= parts@.len(),
            out@ == joined(texts(parts@).subrange(0, i as int), word(sep)),
        decreases parts@.len() - i,
    {
        if i > 0 {
            push_str(&mut out, sep);
        }
        push_bytes(&mut out, parts[i].as_slice());
        i += 1;
        proof {
            let now = texts(parts@).subrange(0, i as int);
            assert(now.drop_last() =~= texts(parts@).subrange(0, i - 1));
            assert(now.last() == parts@[i - 1]@);
            if i == 1 {
                assert(out@ =~= parts@[0]@);
            }
        }
    }
    assert(texts(parts@).subrange(0, i as int) =~= texts(parts@));
    out
}

/// Index of the first token that spells `text`.
pub fn position(tokens: &[Vec<u8>], text: &str) -> (r: Option<usize>)
    ensures
        texts(tokens@).index_of_first(word(text)) == match r {
            Some(i) => Some(i as int),
            None => None,
        },
{
    let ghost all = texts(tokens@);
    let mut i: usize = 0;
    while i < tokens.len()
        invariant
            0 <= i <= tokens@.len(),
            all == texts(tokens@),
            forall|j: int| 0 <= j < i ==> (#[trigger] all[j]) != word(text),
        decreases tokens@.len() - i,
    {
        if is_word(tokens[i].as_slice(), text) {
            proof {
                all.index_of_first_ensures(word(text));
                assert(all[i as int] == word(text));
            }
            return Some(i);
        }
        i += 1;
    }
    proof {
        all.index_of_first_ensures(word(text));
    }
    None
}

} // verus!
