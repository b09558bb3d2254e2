use vstd::prelude::*;

use crate::token::Token;
use crate::token::TokenizeStatus;

verus! {

broadcast use vstd::string::axiom_spec_iter;

/// The mathematical model of the tokenizer: the local instruction buffer,
/// the pending-match stack of unresolved `[` positions, and the cumulative
/// offset that translates local indices into global ones.
#[verifier::ext_equal]
pub ghost struct ParserView {
    pub toks: Seq<Token>,
    pub stack: Seq<usize>,
    pub prev: nat,
}

/// The tokenizer at the start of a session: nothing buffered, nothing
/// pending, no offset.
pub open spec fn initial_parser() -> ParserView {
    ParserView { toks: Seq::<Token>::empty(), stack: Seq::<usize>::empty(), prev: 0 as nat }
}

impl ParserView {
    pub open spec fn push_tok(self, t: Token) -> ParserView {
        ParserView { toks: self.toks.push(t), ..self }
    }

    /// On `[`: the current local position joins the pending-match stack and
    /// a placeholder forward jump is appended.
    pub open spec fn open_bracket(self) -> ParserView {
        ParserView {
            toks: self.toks.push(Token::JumpForward(0)),
            stack: self.stack.push(self.toks.len() as usize),
            ..self
        }
    }

    /// On `]` with a pending `[`: the placeholder at the popped local index
    /// is rewritten to the closer's global position, and a backward jump to
    /// the opener's global position is appended.
    pub open spec fn close_bracket(self) -> ParserView {
        let i = self.stack.last();
        let p = self.toks.len();
        ParserView {
            toks: self.toks.update(i as int, Token::JumpForward((p + self.prev) as usize)).push(
                Token::JumpBackward((i + self.prev) as usize),
            ),
            stack: self.stack.drop_last(),
            ..self
        }
    }

    /// Discarding the fragment: the buffer and the stack are cleared and
    /// the local position count folds into the cumulative offset.
    pub open spec fn reset(self) -> ParserView {
        ParserView {
            toks: Seq::<Token>::empty(),
            stack: Seq::<usize>::empty(),
            prev: self.prev + self.toks.len(),
        }
    }

    /// One recognized character that does not end the scan.
    pub open spec fn consume(self, c: char) -> ParserView {
        if c == '>' {
            self.push_tok(Token::PointerIncrement)
        } else if c == '<' {
            self.push_tok(Token::PointerDecrement)
        } else if c == '+' {
            self.push_tok(Token::DataIncrement)
        } else if c == '-' {
            self.push_tok(Token::DataDecrement)
        } else if c == '.' {
            self.push_tok(Token::Output)
        } else if c == ',' {
            self.push_tok(Token::Input)
        } else if c == '[' {
            self.open_bracket()
        } else if c == ']' {
            self.close_bracket()
        } else {
            self
        }
    }
}

/// What one `tokenize` call does to the tokenizer state, character by
/// character: the quit character stops the scan at once, an unmatched `]`
/// discards the fragment and stops, every other character is consumed in
/// order (unrecognized ones change nothing).
pub open spec fn spec_tokenize(st: ParserView, cs: Seq<char>) -> (ParserView, TokenizeStatus)
    decreases cs.len(),
{
    if cs.len() == 0 {
        (st, TokenizeStatus::Done)
    } else if cs[0] == '?' {
        (st, TokenizeStatus::Quit)
    } else if cs[0] == ']' && st.stack.len() == 0 {
        (st.reset(), TokenizeStatus::Unbalanced)
    } else {
        spec_tokenize(st.consume(cs[0]), cs.drop_first())
    }
}

/// The token at `at` is a forward jump whose stored target is `target`.
pub open spec fn matched_fwd(toks: Seq<Token>, at: int, target: int) -> bool {
    toks[at] matches Token::JumpForward(f) && f == target
}

/// The token at `at` is a backward jump whose stored target is `target`.
pub open spec fn matched_bwd(toks: Seq<Token>, at: int, target: int) -> bool {
    toks[at] matches Token::JumpBackward(b) && b == target
}

/// How many forward jumps a buffer holds.
pub open spec fn count_fwd(toks: Seq<Token>) -> nat
    decreases toks.len(),
{
    if toks.len() == 0 {
        0
    } else {
        count_fwd(toks.drop_last()) + (if toks.last() is JumpForward {
            1nat
        } else {
            0nat
        })
    }
}

/// How many backward jumps a buffer holds.
pub open spec fn count_bwd(toks: Seq<Token>) -> nat
    decreases toks.len(),
{
    if toks.len() == 0 {
        0
    } else {
        count_bwd(toks.drop_last()) + (if toks.last() is JumpBackward {
            1nat
        } else {
            0nat
        })
    }
}

/// The resolution invariant of a partially scanned fragment. Positions on
/// the pending-match stack rise strictly, lie inside the buffer and hold
/// placeholder forward jumps; every backward jump and every forward jump
/// off the stack carries its partner's global position, and the partner
/// carries its own; forward jumps outnumber backward jumps by exactly the
/// pending opens.
pub open spec fn pending_wf(st: ParserView) -> bool {
    &&& st.prev + st.toks.len() <= usize::MAX
    &&& forall|k1: int, k2: int|
        0 <= k1 < k2 < st.stack.len() ==> st.stack[k1] < st.stack[k2]
    &&& forall|k: int|
        0 <= k < st.stack.len() ==> st.stack[k] < st.toks.len() && st.toks[#[trigger] st.stack[k] as int] == Token::JumpForward(0)
    &&& forall|j: int|
        0 <= j < st.toks.len() ==> (#[trigger] st.toks[j] matches Token::JumpBackward(b) ==> st.prev
            <= b && b - st.prev < j && matched_fwd(st.toks, b - st.prev, j + st.prev))
    &&& forall|i: int|
        0 <= i < st.toks.len() && !st.stack.contains(i as usize) ==> (#[trigger] st.toks[i] matches Token::JumpForward(
            f,
        ) ==> i + st.prev < f && f - st.prev < st.toks.len() && matched_bwd(
            st.toks,
            f - st.prev,
            i + st.prev,
        ))
    &&& count_fwd(st.toks) == count_bwd(st.toks) + st.stack.len()
}

/// A fully resolved fragment relative to the offset `base`: each jump
/// stores its partner's global position, and the partners point back.
pub open spec fn resolved_frag(toks: Seq<Token>, base: nat) -> bool {
    &&& forall|j: int|
        0 <= j < toks.len() ==> (#[trigger] toks[j] matches Token::JumpBackward(b) ==> base <= b
            && b - base < j && matched_fwd(toks, b - base, j + base))
    &&& forall|i: int|
        0 <= i < toks.len() ==> (#[trigger] toks[i] matches Token::JumpForward(f) ==> i + base < f
            && f - base < toks.len() && matched_bwd(toks, f - base, i + base))
}

proof fn lemma_count_push(toks: Seq<Token>, t: Token)
    ensures
        count_fwd(toks.push(t)) == count_fwd(toks) + (if t is JumpForward {
            1nat
        } else {
            0nat
        }),
        count_bwd(toks.push(t)) == count_bwd(toks) + (if t is JumpBackward {
            1nat
        } else {
            0nat
        }),
{
    assert(toks.push(t).drop_last() =~= toks);
    assert(toks.push(t).last() == t);
}

proof fn lemma_count_update_fwd(toks: Seq<Token>, i: int, t: Token)
    requires
        0 <= i < toks.len(),
        toks[i] is JumpForward,
        t is JumpForward,
    ensures
        count_fwd(toks.update(i, t)) == count_fwd(toks),
        count_bwd(toks.update(i, t)) == count_bwd(toks),
    decreases toks.len(),
{
    let u = toks.update(i, t);
    if i == toks.len() - 1 {
        assert(u.drop_last() =~= toks.drop_last());
        assert(u.last() == t);
    } else {
        assert(u.drop_last() =~= toks.drop_last().update(i, t));
        assert(u.last() == toks.last());
        lemma_count_update_fwd(toks.drop_last(), i, t);
    }
}

proof fn lemma_push_wf(st: ParserView, t: Token)
    requires
        pending_wf(st),
        !(t is JumpForward),
        !(t is JumpBackward),
        st.prev + st.toks.len() + 1 <= usize::MAX,
    ensures
        pending_wf(st.push_tok(t)),
{
    let new = st.push_tok(t);
    lemma_count_push(st.toks, t);
    assert forall|j: int|
        0 <= j < new.toks.len() implies (#[trigger] new.toks[j] matches Token::JumpBackward(b)
        ==> new.prev <= b && b - new.prev < j && matched_fwd(new.toks, b - new.prev, j + new.prev)) by {
        if j < st.toks.len() {
            assert(new.toks[j] == st.toks[j]);
            if new.toks[j] is JumpBackward {
                assert(matched_fwd(st.toks, new.toks[j]->JumpBackward_0 - st.prev, j + st.prev));
            }
        }
    }
    assert forall|i: int|
        0 <= i < new.toks.len() && !new.stack.contains(i as usize) implies (
    #[trigger] new.toks[i] matches Token::JumpForward(f) ==> i + new.prev < f && f - new.prev
        < new.toks.len() && matched_bwd(new.toks, f - new.prev, i + new.prev)) by {
        if i < st.toks.len() {
            assert(new.toks[i] == st.toks[i]);
            if new.toks[i] is JumpForward {
                assert(matched_bwd(st.toks, new.toks[i]->JumpForward_0 - st.prev, i + st.prev));
            }
        }
    }
}

proof fn lemma_open_wf(st: ParserView)
    requires
        pending_wf(st),
        st.prev + st.toks.len() + 1 <= usize::MAX,
    ensures
        pending_wf(st.open_bracket()),
{
    let new = st.open_bracket();
    let p = st.toks.len() as int;
    lemma_count_push(st.toks, Token::JumpForward(0));
    assert(new.stack.last() == p as usize);
    assert forall|k: int|
        0 <= k < new.stack.len() implies new.stack[k] < new.toks.len() && new.toks[
    #[trigger] new.stack[k] as int] == Token::JumpForward(0) by {
        if k < st.stack.len() {
            assert(new.stack[k] == st.stack[k]);
            assert(new.toks[st.stack[k] as int] == st.toks[st.stack[k] as int]);
        } else {
            assert(new.stack[k] == p as usize);
            assert(new.toks[p] == Token::JumpForward(0));
        }
    }
    assert forall|j: int|
        0 <= j < new.toks.len() implies (#[trigger] new.toks[j] matches Token::JumpBackward(b)
        ==> new.prev <= b && b - new.prev < j && matched_fwd(new.toks, b - new.prev, j + new.prev)) by {
        if j < st.toks.len() {
            assert(new.toks[j] == st.toks[j]);
            if new.toks[j] is JumpBackward {
                assert(matched_fwd(st.toks, new.toks[j]->JumpBackward_0 - st.prev, j + st.prev));
            }
        }
    }
    assert forall|i: int|
        0 <= i < new.toks.len() && !new.stack.contains(i as usize) implies (
    #[trigger] new.toks[i] matches Token::JumpForward(f) ==> i + new.prev < f && f - new.prev
        < new.toks.len() && matched_bwd(new.toks, f - new.prev, i + new.prev)) by {
        if i < st.toks.len() {
            if st.stack.contains(i as usize) {
                let k = choose|k: int| 0 <= k < st.stack.len() && st.stack[k] == i as usize;
                assert(new.stack[k] == i as usize);
                assert(new.stack.contains(i as usize));
            }
            assert(new.toks[i] == st.toks[i]);
            if new.toks[i] is JumpForward && !st.stack.contains(i as usize) {
                assert(matched_bwd(st.toks, new.toks[i]->JumpForward_0 - st.prev, i + st.prev));
            }
        } else {
            assert(new.stack[new.stack.len() - 1] == i as usize);
            assert(new.stack.contains(i as usize));
        }
    }
}

proof fn lemma_close_wf(st: ParserView)
    requires
        pending_wf(st),
        st.stack.len() > 0,
        st.prev + st.toks.len() + 1 <= usize::MAX,
    ensures
        pending_wf(st.close_bracket()),
{
    let new = st.close_bracket();
    let i = st.stack.last();
    let p = st.toks.len() as int;
    let prev = st.prev;
    let closer = Token::JumpBackward((i + prev) as usize);
    let opener = Token::JumpForward((p + prev) as usize);
    let t1 = st.toks.update(i as int, opener);
    assert(st.stack[st.stack.len() - 1] == i);
    assert(i < st.toks.len() && st.toks[i as int] == Token::JumpForward(0));
    lemma_count_update_fwd(st.toks, i as int, opener);
    lemma_count_push(t1, closer);
    // the remaining stack: strictly below the popped top, placeholders kept
    assert forall|k: int|
        0 <= k < new.stack.len() implies new.stack[k] < new.toks.len() && new.toks[
    #[trigger] new.stack[k] as int] == Token::JumpForward(0) by {
        assert(new.stack[k] == st.stack[k]);
        assert(st.stack[k] < i);
        assert(new.toks[st.stack[k] as int] == st.toks[st.stack[k] as int]);
    }
    // every backward jump is matched, the fresh one by the rewritten opener
    assert forall|j: int|
        0 <= j < new.toks.len() implies (#[trigger] new.toks[j] matches Token::JumpBackward(b)
        ==> new.prev <= b && b - new.prev < j && matched_fwd(new.toks, b - new.prev, j + new.prev)) by {
        if j == i as int {
            assert(new.toks[j] == opener);
        } else if j < p {
            assert(new.toks[j] == st.toks[j]);
            if new.toks[j] is JumpBackward {
                let b = new.toks[j]->JumpBackward_0;
                assert(matched_fwd(st.toks, b - prev, j + prev));
                // the old partner is a resolved forward jump, never the
                // placeholder at the popped position
                assert(b - prev != i as int) by {
                    if b - prev == i as int {
                        assert(st.toks[i as int]->JumpForward_0 == j + prev);
                        assert(j + prev == 0);
                        assert(b - prev < j);
                    }
                }
                assert(new.toks[b - prev] == st.toks[b - prev]);
            }
        } else {
            assert(new.toks[j] == closer);
            assert(new.toks[i as int] == opener);
            assert(matched_fwd(new.toks, i as int, p + prev));
        }
    }
    // every forward jump off the stack is matched, the rewritten one by the
    // fresh closer
    assert forall|i2: int|
        0 <= i2 < new.toks.len() && !new.stack.contains(i2 as usize) implies (
    #[trigger] new.toks[i2] matches Token::JumpForward(f) ==> i2 + new.prev < f && f - new.prev
        < new.toks.len() && matched_bwd(new.toks, f - new.prev, i2 + new.prev)) by {
        if i2 == i as int {
            assert(new.toks[i2] == opener);
            assert(new.toks[p] == closer);
            assert(matched_bwd(new.toks, p, i as int + prev));
        } else if i2 < p {
            assert(new.toks[i2] == st.toks[i2]);
            if st.stack.contains(i2 as usize) {
                let k = choose|k: int| 0 <= k < st.stack.len() && st.stack[k] == i2 as usize;
                assert(k < st.stack.len() - 1);
                assert(new.stack[k] == i2 as usize);
                assert(new.stack.contains(i2 as usize));
            }
            if new.toks[i2] is JumpForward && !st.stack.contains(i2 as usize) {
                let f = new.toks[i2]->JumpForward_0;
                assert(matched_bwd(st.toks, f - prev, i2 + prev));
                assert(f - prev != i as int);
                assert(new.toks[f - prev] == st.toks[f - prev]);
            }
        }
    }
}

proof fn lemma_consume_wf(st: ParserView, c: char)
    requires
        pending_wf(st),
        st.prev + st.toks.len() + 1 <= usize::MAX,
        !(c == ']' && st.stack.len() == 0),
    ensures
        pending_wf(st.consume(c)),
        st.consume(c).prev + st.consume(c).toks.len() <= st.prev + st.toks.len() + 1,
{
    if c == '>' || c == '<' || c == '+' || c == '-' || c == '.' || c == ',' {
        lemma_push_wf(st, st.consume(c).toks.last());
    } else if c == '[' {
        lemma_open_wf(st);
    } else if c == ']' {
        lemma_close_wf(st);
    }
}

/// Scanning any chunk preserves the resolution invariant, and grows the
/// state by at most one instruction per character.
pub proof fn lemma_tokenize_wf(st: ParserView, cs: Seq<char>)
    requires
        pending_wf(st),
        st.prev + st.toks.len() + cs.len() <= usize::MAX,
    ensures
        pending_wf(spec_tokenize(st, cs).0),
        spec_tokenize(st, cs).0.prev + spec_tokenize(st, cs).0.toks.len() <= st.prev
            + st.toks.len() + cs.len(),
    decreases cs.len(),
{
    if cs.len() == 0 {
    } else if cs[0] == '?' {
    } else if cs[0] == ']' && st.stack.len() == 0 {
    } else {
        lemma_consume_wf(st, cs[0]);
        lemma_tokenize_wf(st.consume(cs[0]), cs.drop_first());
    }
}

/// A well-balanced fragment — one whose pending-match stack is empty under
/// the resolution invariant — holds exactly as many forward as backward
/// jumps, and each pair's mutual targets are consistent: the forward jump
/// stores the backward jump's global position and vice versa.
pub proof fn lemma_balanced_fragment(st: ParserView)
    requires
        pending_wf(st),
        st.stack.len() == 0,
    ensures
        resolved_frag(st.toks, st.prev),
        count_fwd(st.toks) == count_bwd(st.toks),
{
    assert forall|i: int| 0 <= i < st.toks.len() implies !st.stack.contains(
        #[trigger] (i as usize),
    ) by {
        assert(st.stack.len() == 0);
    }
}

/// A well-balanced program scanned from a fresh tokenizer — one whose scan
/// leaves no pending open — yields as many forward as backward jumps, with
/// each pair's mutual targets consistent.
pub proof fn lemma_balanced_program(cs: Seq<char>)
    requires
        cs.len() <= usize::MAX,
        spec_tokenize(initial_parser(), cs).0.stack.len() == 0,
    ensures
        resolved_frag(
            spec_tokenize(initial_parser(), cs).0.toks,
            spec_tokenize(initial_parser(), cs).0.prev,
        ),
        count_fwd(spec_tokenize(initial_parser(), cs).0.toks) == count_bwd(
            spec_tokenize(initial_parser(), cs).0.toks,
        ),
{
    lemma_tokenize_wf(initial_parser(), cs);
    lemma_balanced_fragment(spec_tokenize(initial_parser(), cs).0);
}

/// Feeding one chunk and then another yields exactly the state and verdict
/// of feeding their concatenation in one call, as long as the first chunk
/// ran to completion: the pending state carried between calls is all that
/// resolution ever needs.
pub proof fn lemma_tokenize_chunked(st: ParserView, a: Seq<char>, b: Seq<char>)
    requires
        spec_tokenize(st, a).1 == TokenizeStatus::Done,
    ensures
        spec_tokenize(st, a + b) == spec_tokenize(spec_tokenize(st, a).0, b),
    decreases a.len(),
{
    if a.len() == 0 {
        assert(a + b =~= b);
    } else {
        assert((a + b)[0] == a[0]);
        assert((a + b).len() > 0);
        assert((a + b).drop_first() =~= a.drop_first() + b);
        lemma_tokenize_chunked(st.consume(a[0]), a.drop_first(), b);
    }
}

/// A scan that reports an unbalanced close leaves an empty buffer, an
/// empty pending-match stack, and nothing for the engine to take.
pub proof fn lemma_unbalanced_resets(st: ParserView, cs: Seq<char>)
    requires
        spec_tokenize(st, cs).1 == TokenizeStatus::Unbalanced,
    ensures
        spec_tokenize(st, cs).0.toks == Seq::<Token>::empty(),
        spec_tokenize(st, cs).0.stack == Seq::<usize>::empty(),
    decreases cs.len(),
{
    if cs.len() == 0 {
    } else if cs[0] == '?' {
    } else if cs[0] == ']' && st.stack.len() == 0 {
    } else {
        lemma_unbalanced_resets(st.consume(cs[0]), cs.drop_first());
    }
}

/// The tokenizer. `tokens` is the local buffer of the fragment being
/// scanned; `match_stack` records the local positions of `[` instructions
/// still awaiting their `]`.
pub struct Parser {
    pub tokens: Vec<Token>,
    pub match_stack: Vec<usize>,
    pub cursor: usize,
    pub prev_cursor: usize,
}

impl View for Parser {
    type V = ParserView;

    open spec fn view(&self) -> ParserView {
        ParserView { toks: self.tokens@, stack: self.match_stack@, prev: self.prev_cursor as nat }
    }
}

impl Parser {
    /// The local position counter equals the buffer's length, and every
    /// pending position lies inside the buffer.
    pub open spec fn wf(&self) -> bool {
        &&& self.cursor == self.tokens@.len()
        &&& forall|k: int|
            0 <= k < self.match_stack@.len() ==> #[trigger] self.match_stack@[k]
                < self.tokens@.len()
    }

    pub fn new() -> (p: Parser)
        ensures
            p@ == initial_parser(),
            p.wf(),
            pending_wf(p@),
    {
        Parser { tokens: Vec::new(), match_stack: Vec::new(), cursor: 0, prev_cursor: 0 }
    }

    fn push_token(&mut self, token: Token)
        requires
            old(self).cursor == old(self).tokens@.len(),
        ensures
            final(self)@ == old(self)@.push_tok(token),
            final(self).cursor == final(self).tokens@.len(),
    {
        self.tokens.push(token);
        self.cursor = self.tokens.len();
        proof {
            assert(self@ =~= old(self)@.push_tok(token));
        }
    }

    fn push_match(&mut self, token: Token) -> (r: Result<(), ()>)
        requires
            old(self).wf(),
            old(self)@.prev + old(self)@.toks.len() <= usize::MAX,
        ensures
            final(self).wf(),
            token is JumpForward ==> r is Ok && final(self)@ == old(self)@.open_bracket(),
            token is JumpBackward && old(self)@.stack.len() > 0 ==> r is Ok && final(self)@ == old(
                self,
            )@.close_bracket(),
            token is JumpBackward && old(self)@.stack.len() == 0 ==> r is Err && final(self)@
                == old(self)@.reset(),
            !(token is JumpForward) && !(token is JumpBackward) ==> r is Ok && final(self)@ == old(
                self,
            )@,
    {
        match token {
            Token::JumpForward(_) => {
                let cursor = self.cursor;
                self.match_stack.push(cursor);
                self.push_token(Token::JumpForward(0));
                proof {
                    assert(self@ =~= old(self)@.open_bracket());
                    assert forall|k: int| 0 <= k < self.match_stack@.len() implies #[trigger] self.match_stack@[k] < self.tokens@.len() by {
                        if k < old(self).match_stack@.len() {
                            assert(self.match_stack@[k] == old(self).match_stack@[k]);
                        } else {
                            assert(self.match_stack@[k] == cursor);
                        }
                    }
                }
                Ok(())
            },
            Token::JumpBackward(_) => {
                match self.match_stack.pop() {
                    None => {
                        self.reset();
                        Err(())
                    },
                    Some(i) => {
                        let prev_cursor = self.prev_cursor;
                        self.tokens[i] = Token::JumpForward(self.cursor + prev_cursor);
                        self.push_token(Token::JumpBackward(i + prev_cursor));
                        proof {
                            assert(self@ =~= old(self)@.close_bracket());
                            assert forall|k: int| 0 <= k < self.match_stack@.len() implies #[trigger] self.match_stack@[k] < self.tokens@.len() by {
                                assert(self.match_stack@[k] == old(self).match_stack@[k]);
                            }
                        }
                        Ok(())
                    },
                }
            },
            _ => Ok(()),
        }
    }

    /// Clears the local buffer and the pending-match stack for the next
    /// fragment, folding the local position count into the cumulative
    /// offset.
    pub fn reset(&mut self)
        requires
            old(self).wf(),
            old(self)@.prev + old(self)@.toks.len() <= usize::MAX,
        ensures
            final(self)@ == old(self)@.reset(),
            final(self).wf(),
            pending_wf(final(self)@),
    {
        self.tokens = Vec::new();
        self.match_stack = Vec::new();
        self.prev_cursor = self.prev_cursor + self.cursor;
        self.cursor = 0;
        proof {
            assert(self@ =~= old(self)@.reset());
        }
    }

    /// Scans one chunk of text, appending instructions to the local buffer
    /// and resolving bracket pairs as `]` arrive. The effect on the state
    /// and the returned verdict are exactly `spec_tokenize`; the resolution
    /// invariant is preserved.
    pub fn tokenize(&mut self, input: &str) -> (status: TokenizeStatus)
        requires
            old(self).wf(),
            old(self)@.prev + old(self)@.toks.len() + input@.len() <= usize::MAX,
        ensures
            final(self).wf(),
            (final(self)@, status) == spec_tokenize(old(self)@, input@),
            pending_wf(old(self)@) ==> pending_wf(final(self)@),
    {
        let ghost st0 = self@;
        proof {
            assert(input@.skip(0) =~= input@);
            if pending_wf(st0) {
                lemma_tokenize_wf(st0, input@);
            }
        }
        for c in it: input.chars()
            invariant
                st0 == old(self)@,
                self.wf(),
                it.seq() == input@,
                self@.prev + self@.toks.len() + (input@.len() - it.index()) <= usize::MAX,
                spec_tokenize(st0, input@) == spec_tokenize(self@, input@.skip(it.index())),
                pending_wf(st0) ==> pending_wf(spec_tokenize(st0, input@).0),
        {
            let ghost j = it.index();
            let ghost pre = self@;
            proof {
                assert(c == input@[j]);
                assert(input@.skip(j)[0] == input@[j]);
                assert(input@.skip(j).len() > 0);
                assert(input@.skip(j).drop_first() =~= input@.skip(j + 1));
            }
            match c {
                '>' => self.push_token(Token::PointerIncrement),
                '<' => self.push_token(Token::PointerDecrement),
                '+' => self.push_token(Token::DataIncrement),
                '-' => self.push_token(Token::DataDecrement),
                '.' => self.push_token(Token::Output),
                ',' => self.push_token(Token::Input),
                '[' => {
                    // an opener never fails to push; the branch only
                    // mirrors the closer's shape
                    if self.push_match(Token::JumpForward(0)).is_err() {
                        proof {
                            assert(false);
                        }
                        return TokenizeStatus::Done;
                    }
                },
                ']' => {
                    if self.push_match(Token::JumpBackward(0)).is_err() {
                        proof {
                            assert(pre.stack.len() == 0);
                            assert(spec_tokenize(pre, input@.skip(j)) == (
                                pre.reset(),
                                TokenizeStatus::Unbalanced,
                            ));
                            assert((self@, TokenizeStatus::Unbalanced) == spec_tokenize(
                                st0,
                                input@,
                            ));
                        }
                        return TokenizeStatus::Unbalanced;
                    }
                },
                '?' => {
                    proof {
                        assert(spec_tokenize(pre, input@.skip(j)) == (pre, TokenizeStatus::Quit));
                        assert((self@, TokenizeStatus::Quit) == spec_tokenize(st0, input@));
                    }
                    return TokenizeStatus::Quit;
                },
                _ => (),
            }
            proof {
                assert(self@ == pre.consume(c));
                assert(spec_tokenize(pre, input@.skip(j)) == spec_tokenize(self@, input@.skip(j + 1)));
            }
        }
        proof {
            assert(input@.skip(input@.len() as int) =~= Seq::<char>::empty());
        }
        TokenizeStatus::Done
    }
}

} // verus!
