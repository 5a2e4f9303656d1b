//! Statement segmenter: groups a stream of tokens into top-level
//! statements by following the nesting of brackets.

use vstd::prelude::*;
use vstd::string::*;
use crate::bytes::{is_word, texts, word};
use crate::nesting::{closes, is_closer, is_opener, opens};

verus! {

/// A run of tokens that the segmenter has closed.
#[derive(Debug)]
pub enum Segment {
    /// A complete statement, the token that ends it included.
    Statement(Vec<Vec<u8>>),
    /// Tokens up to and including a closer that matches no opener.
    Unbalanced(Vec<Vec<u8>>),
}

/// Mathematical value of a [`Segment`].
pub enum SegmentView {
    Statement(Seq<Seq<u8>>),
    Unbalanced(Seq<Seq<u8>>),
}

impl View for Segment {
    type V = SegmentView;

    open spec fn view(&self) -> SegmentView {
        match self {
            Segment::Statement(tokens) => SegmentView::Statement(texts(tokens@)),
            Segment::Unbalanced(tokens) => SegmentView::Unbalanced(texts(tokens@)),
        }
    }
}

impl SegmentView {
    /// The tokens of the segment.
    pub open spec fn tokens(self) -> Seq<Seq<u8>> {
        match self {
            SegmentView::Statement(tokens) => tokens,
            SegmentView::Unbalanced(tokens) => tokens,
        }
    }
}

/// The view of a segment that may be there.
pub open spec fn segment_view(segment: Option<Segment>) -> Option<SegmentView> {
    match segment {
        Some(s) => Some(s@),
        None => None,
    }
}

/// Mathematical value of a [`Segmenter`]: the tokens of the statement in
/// progress and the number of brackets that are open in it.
pub struct State {
    pub pending: Seq<Seq<u8>>,
    pub depth: nat,
}

/// The state between two statements.
pub open spec fn idle() -> State {
    State { pending: Seq::empty(), depth: 0 }
}

/// Whether the token marks a compiler directive, a statement that ends
/// with its last closing bracket.
pub open spec fn is_marker(token: Seq<u8>) -> bool {
    token == word("__pragma") || token == word("__declspec")
}

/// What one token does to the segmenter: the state after it and the segment
/// that it closes, if any.
///
/// The token joins the statement in progress. An opener raises the depth.
/// A closer at depth zero matches nothing and closes the tokens so far as
/// unbalanced. A closer that brings the depth back to zero ends a statement
/// that starts with a directive marker. A `;` at depth zero ends any
/// statement.
pub open spec fn feed(state: State, token: Seq<u8>) -> (State, Option<SegmentView>) {
    let pending = state.pending.push(token);
    if is_opener(token) {
        (State { pending, depth: state.depth + 1 }, None)
    } else if is_closer(token) {
        if state.depth == 0 {
            (idle(), Some(SegmentView::Unbalanced(pending)))
        } else if state.depth == 1 && is_marker(pending[0]) {
            (idle(), Some(SegmentView::Statement(pending)))
        } else {
            (State { pending, depth: (state.depth - 1) as nat }, None)
        }
    } else if token == word(";") && state.depth == 0 {
        (idle(), Some(SegmentView::Statement(pending)))
    } else {
        (State { pending, depth: state.depth }, None)
    }
}

/// The segments closed while `tokens` are fed in order, and the state that
/// is left.
pub open spec fn run(state: State, tokens: Seq<Seq<u8>>) -> (Seq<SegmentView>, State)
    decreases tokens.len(),
{
    if tokens.len() == 0 {
        (Seq::empty(), state)
    } else {
        let before = run(state, tokens.drop_last());
        let step = feed(before.1, tokens.last());
        match step.1 {
            Some(segment) => (before.0.push(segment), step.0),
            None => (before.0, step.0),
        }
    }
}

/// The tokens of all the segments, one after the other.
pub open spec fn segment_tokens(segments: Seq<SegmentView>) -> Seq<Seq<u8>> {
    segments.map_values(|s: SegmentView| s.tokens()).flatten()
}

/// One token either joins the statement in progress or closes it together
/// with it: nothing is dropped, doubled or moved.
pub proof fn lemma_feed_keeps_tokens(state: State, token: Seq<u8>)
    ensures
        match feed(state, token).1 {
            Some(segment) => segment.tokens() == state.pending.push(token) && feed(
                state,
                token,
            ).0 == idle(),
            None => feed(state, token).0.pending == state.pending.push(token),
        },
{
}

/// Segmenting loses no token and makes none up: the tokens of the closed
/// segments, in order, followed by the tokens of the statement still in
/// progress, are the tokens that were pending before, followed by the
/// tokens fed. So on input whose nesting is balanced and whose last
/// statement is complete, the statements written one after the other give
/// every input token once, in the order of the input.
pub proof fn lemma_run_keeps_tokens(state: State, tokens: Seq<Seq<u8>>)
    ensures
        segment_tokens(run(state, tokens).0) + run(state, tokens).1.pending == state.pending
            + tokens,
    decreases tokens.len(),
{
    if tokens.len() == 0 {
        assert(segment_tokens(run(state, tokens).0) =~= Seq::<Seq<u8>>::empty());
        assert(state.pending + tokens =~= state.pending);
    } else {
        let before = run(state, tokens.drop_last());
        lemma_run_keeps_tokens(state, tokens.drop_last());
        lemma_feed_keeps_tokens(before.1, tokens.last());
        let step = feed(before.1, tokens.last());
        let lists = before.0.map_values(|s: SegmentView| s.tokens());
        assert(state.pending + tokens =~= (state.pending + tokens.drop_last()).push(
            tokens.last(),
        ));
        match step.1 {
            Some(segment) => {
                assert(before.0.push(segment).map_values(|s: SegmentView| s.tokens())
                    =~= lists.push(segment.tokens()));
                lists.lemma_flatten_push(segment.tokens());
                assert(lists.flatten() + before.1.pending.push(tokens.last()) =~= (lists.flatten()
                    + before.1.pending).push(tokens.last()));
                assert(segment_tokens(run(state, tokens).0) + run(state, tokens).1.pending
                    =~= state.pending + tokens);
            },
            None => {
                assert(lists.flatten() + before.1.pending.push(tokens.last()) =~= (lists.flatten()
                    + before.1.pending).push(tokens.last()));
            },
        }
    }
}

/// Whether every segment is a complete statement: the nesting of the
/// tokens fed was balanced, no closer came without its opener.
pub open spec fn balanced(segments: Seq<SegmentView>) -> bool {
    forall|i: int| 0 <= i < segments.len() ==> (#[trigger] segments[i]) is Statement
}

/// On tokens whose nesting is balanced and whose last statement is
/// complete, the statements, written one after the other, are the tokens:
/// each token stands in exactly one statement, in the order of the input.
pub proof fn lemma_statements_are_the_input(tokens: Seq<Seq<u8>>)
    requires
        balanced(run(idle(), tokens).0),
        run(idle(), tokens).1.pending.len() == 0,
    ensures
        segment_tokens(run(idle(), tokens).0) == tokens,
{
    lemma_run_keeps_tokens(idle(), tokens);
    assert(run(idle(), tokens).1.pending =~= Seq::<Seq<u8>>::empty());
    assert(segment_tokens(run(idle(), tokens).0) + Seq::<Seq<u8>>::empty() =~= segment_tokens(
        run(idle(), tokens).0,
    ));
    assert(idle().pending + tokens =~= tokens);
}

/// Feeding one more token extends the run by one step.
pub proof fn lemma_run_push(state: State, tokens: Seq<Seq<u8>>, token: Seq<u8>)
    ensures
        run(state, tokens.push(token)) == match feed(run(state, tokens).1, token).1 {
            Some(segment) => (
                run(state, tokens).0.push(segment),
                feed(run(state, tokens).1, token).0,
            ),
            None => (run(state, tokens).0, feed(run(state, tokens).1, token).0),
        },
{
    assert(tokens.push(token).drop_last() =~= tokens);
}

/// Collects tokens into statements.
pub struct Segmenter {
    statement: Vec<Vec<u8>>,
    balance: usize,
}

impl View for Segmenter {
    type V = State;

    closed spec fn view(&self) -> State {
        State { pending: texts(self.statement@), depth: self.balance as nat }
    }
}

impl Segmenter {
    /// No more brackets are open than tokens are pending.
    pub closed spec fn wf(&self) -> bool {
        self.balance <= self.statement@.len()
    }

    /// A segmenter between two statements.
    pub fn new() -> (s: Self)
        ensures
            s.wf(),
            s@ == idle(),
    {
        let s = Segmenter { statement: Vec::new(), balance: 0 };
        assert(s@.pending =~= Seq::<Seq<u8>>::empty());
        s
    }

    /// Number of tokens of the statement in progress.
    pub fn pending(&self) -> (n: usize)
        ensures
            n == self@.pending.len(),
    {
        self.statement.len()
    }

    /// Takes the next token and hands out the segment that it closes.
    pub fn push(&mut self, token: Vec<u8>) -> (r: Option<Segment>)
        requires
            old(self).wf(),
        ensures
            final(self).wf(),
            final(self)@ == feed(old(self)@, token@).0,
            segment_view(r) == feed(old(self)@, token@).1,
    {
        let opener = opens(token.as_slice());
        let closer = closes(token.as_slice());
        let end = is_word(token.as_slice(), ";");
        let ghost before = texts(self.statement@);
        self.statement.push(token);
        assert(texts(self.statement@) =~= before.push(token@));
        if opener {
            assert(self.balance < self.statement.len());
            self.balance += 1;
            None
        } else if closer {
            if self.balance == 0 {
                Some(Segment::Unbalanced(self.take()))
            } else if self.balance == 1 && (is_word(self.statement[0].as_slice(), "__pragma")
                || is_word(self.statement[0].as_slice(), "__declspec")) {
                Some(Segment::Statement(self.take()))
            } else {
                self.balance -= 1;
                None
            }
        } else if end && self.balance == 0 {
            Some(Segment::Statement(self.take()))
        } else {
            None
        }
    }

    /// Gives up the statement in progress and hands out its tokens.
    pub fn take(&mut self) -> (tokens: Vec<Vec<u8>>)
        ensures
            final(self).wf(),
            final(self)@ == idle(),
            texts(tokens@) == old(self)@.pending,
    {
        let mut tokens: Vec<Vec<u8>> = Vec::new();
        core::mem::swap(&mut self.statement, &mut tokens);
        self.balance = 0;
        assert(self@.pending =~= Seq::<Seq<u8>>::empty());
        tokens
    }
}

} // verus!
