use vstd::prelude::*;

use crate::brain::Brain;
use crate::brain::BrainView;
use crate::brain::initial_brain;
use crate::parser::matched_bwd;
use crate::parser::matched_fwd;
use crate::parser::resolved_frag;
use crate::token::RunStatus;
use crate::token::Token;

verus! {

/// The mathematical model of the engine: the accumulated instruction list,
/// the instruction pointer, and the tape.
#[verifier::ext_equal]
pub ghost struct EngineView {
    pub toks: Seq<Token>,
    pub pc: nat,
    pub tape: BrainView,
}

/// A fully resolved global instruction list: every backward jump stores
/// the position of an earlier forward jump that stores the backward jump's
/// own position, and every forward jump the reverse.
pub open spec fn resolved_seq(toks: Seq<Token>) -> bool {
    &&& forall|j: int|
        0 <= j < toks.len() ==> (#[trigger] toks[j] matches Token::JumpBackward(b) ==> b < j
            && matched_fwd(toks, b as int, j))
    &&& forall|i: int|
        0 <= i < toks.len() ==> (#[trigger] toks[i] matches Token::JumpForward(f) ==> i < f && f
            < toks.len() && matched_bwd(toks, f as int, i))
}

/// A balanced fragment, resolved against the current end of the list,
/// keeps the whole list resolved when appended: its targets land inside
/// itself, and the old pairs are untouched.
pub proof fn lemma_extend_resolved(a: Seq<Token>, b: Seq<Token>)
    requires
        resolved_seq(a),
        resolved_frag(b, a.len() as nat),
    ensures
        resolved_seq(a + b),
{
    let g = a + b;
    let n = a.len() as int;
    assert forall|j: int|
        0 <= j < g.len() implies (#[trigger] g[j] matches Token::JumpBackward(bt) ==> bt < j
        && matched_fwd(g, bt as int, j)) by {
        if g[j] is JumpBackward {
            let bt = g[j]->JumpBackward_0;
            if j < n {
                assert(g[j] == a[j]);
                assert(matched_fwd(a, bt as int, j));
                assert(g[bt as int] == a[bt as int]);
            } else {
                assert(g[j] == b[j - n]);
                assert(matched_fwd(b, bt - n, (j - n) + n));
                assert(g[bt as int] == b[bt - n]);
            }
        }
    }
    assert forall|i: int|
        0 <= i < g.len() implies (#[trigger] g[i] matches Token::JumpForward(f) ==> i < f && f
        < g.len() && matched_bwd(g, f as int, i)) by {
        if g[i] is JumpForward {
            let f = g[i]->JumpForward_0;
            if i < n {
                assert(g[i] == a[i]);
                assert(matched_bwd(a, f as int, i));
                assert(g[f as int] == a[f as int]);
            } else {
                assert(g[i] == b[i - n]);
                assert(matched_bwd(b, f - n, (i - n) + n));
                assert(g[f as int] == b[f - n]);
            }
        }
    }
}

/// Execution pauses at the end of the list and on an input instruction.
pub open spec fn stopped(s: EngineView) -> bool {
    s.pc >= s.toks.len() || s.toks[s.pc as int] is Input
}

/// One execution step. A forward jump on a zero cell resumes just past its
/// matching backward jump; a backward jump unconditionally returns to its
/// matching forward jump, so the loop condition is re-evaluated; every
/// other instruction acts on the tape and advances by one.
pub open spec fn spec_step(s: EngineView) -> EngineView {
    match s.toks[s.pc as int] {
        Token::PointerIncrement => EngineView {
            pc: (s.pc + 1) as nat,
            tape: s.tape.ptr_right(),
            ..s
        },
        Token::PointerDecrement => EngineView {
            pc: (s.pc + 1) as nat,
            tape: s.tape.ptr_left(),
            ..s
        },
        Token::DataIncrement => EngineView { pc: (s.pc + 1) as nat, tape: s.tape.add(1), ..s },
        Token::DataDecrement => EngineView { pc: (s.pc + 1) as nat, tape: s.tape.decrement(), ..s },
        Token::Output => EngineView { pc: (s.pc + 1) as nat, tape: s.tape.output(), ..s },
        Token::Input => s,
        Token::JumpForward(t) => if s.tape.cell() == 0 {
            EngineView { pc: (t + 1) as nat, ..s }
        } else {
            EngineView { pc: (s.pc + 1) as nat, ..s }
        },
        Token::JumpBackward(t) => EngineView { pc: t as nat, ..s },
    }
}

/// Execution from a state with a step budget: steps until the end of the
/// list, an input instruction, or the budget's exhaustion.
pub open spec fn spec_run(s: EngineView, fuel: nat) -> EngineView
    decreases fuel,
{
    if fuel == 0 || stopped(s) {
        s
    } else {
        spec_run(spec_step(s), (fuel - 1) as nat)
    }
}

/// The verdict a finished `interpret` call owes for its final state.
pub open spec fn run_status(s: EngineView) -> RunStatus {
    if s.pc >= s.toks.len() {
        RunStatus::Done
    } else if s.toks[s.pc as int] is Input {
        RunStatus::NeedInput
    } else {
        RunStatus::OutOfFuel
    }
}

/// The engine's invariant: a resolved instruction list, the instruction
/// pointer inside it or one past its end, and a well-formed tape.
pub open spec fn engine_wf(s: EngineView) -> bool {
    &&& resolved_seq(s.toks)
    &&& s.pc <= s.toks.len()
    &&& s.tape.wf()
}

proof fn lemma_step_wf(s: EngineView)
    requires
        engine_wf(s),
        !stopped(s),
    ensures
        engine_wf(spec_step(s)),
        spec_step(s).toks == s.toks,
{
    match s.toks[s.pc as int] {
        Token::JumpForward(t) => {
            assert(matched_bwd(s.toks, t as int, s.pc as int));
        },
        Token::JumpBackward(t) => {
            assert(matched_fwd(s.toks, t as int, s.pc as int));
        },
        _ => {},
    }
}

/// Running preserves the engine's invariant and never touches the list.
pub proof fn lemma_run_wf(s: EngineView, fuel: nat)
    requires
        engine_wf(s),
    ensures
        engine_wf(spec_run(s, fuel)),
        spec_run(s, fuel).toks == s.toks,
    decreases fuel,
{
    if fuel > 0 && !stopped(s) {
        lemma_step_wf(s);
        lemma_run_wf(spec_step(s), (fuel - 1) as nat);
    }
}

/// The engine: reads the accumulated instruction list and executes it
/// against the tape.
pub struct Interpreter {
    pub brain: Brain,
    pub tokens: Vec<Token>,
    pub cursor: usize,
}

impl View for Interpreter {
    type V = EngineView;

    open spec fn view(&self) -> EngineView {
        EngineView { toks: self.tokens@, pc: self.cursor as nat, tape: self.brain@ }
    }
}

impl Interpreter {
    pub open spec fn wf(&self) -> bool {
        engine_wf(self@)
    }

    pub fn new() -> (r: Interpreter)
        ensures
            r@ == (EngineView { toks: Seq::<Token>::empty(), pc: 0 as nat, tape: initial_brain() }),
            r.wf(),
    {
        let r = Interpreter { brain: Brain::new(), tokens: Vec::new(), cursor: 0 };
        proof {
            assert(r@ =~= (EngineView {
                toks: Seq::<Token>::empty(),
                pc: 0 as nat,
                tape: initial_brain(),
            }));
        }
        r
    }

    /// Appends a balanced, fully resolved fragment to the global
    /// instruction list: pure bookkeeping, no execution.
    pub fn take_tokens(&mut self, tokens: Vec<Token>)
        requires
            old(self).wf(),
            resolved_frag(tokens@, old(self)@.toks.len() as nat),
        ensures
            final(self).wf(),
            final(self)@ == (EngineView { toks: old(self)@.toks + tokens@, ..old(self)@ }),
    {
        let ghost frag = tokens@;
        let mut tokens = tokens;
        self.tokens.append(&mut tokens);
        proof {
            lemma_extend_resolved(old(self).tokens@, frag);
            assert(self@ =~= (EngineView { toks: old(self)@.toks + frag, ..old(self)@ }));
        }
    }

    /// Executes from the current position to the end of the (possibly just
    /// extended) list, pausing on an input instruction and giving up after
    /// `fuel` steps. The state afterwards is exactly `spec_run` of the
    /// state before, and the verdict describes where execution stands.
    pub fn interpret(&mut self, fuel: usize) -> (status: RunStatus)
        requires
            old(self).wf(),
        ensures
            final(self).wf(),
            final(self)@ == spec_run(old(self)@, fuel as nat),
            status == run_status(final(self)@),
    {
        let mut n: usize = fuel;
        while n > 0 && self.cursor < self.tokens.len()
            invariant
                self.wf(),
                spec_run(old(self)@, fuel as nat) == spec_run(self@, n as nat),
            decreases n,
        {
            let cursor = self.cursor;
            let ghost pre = self@;
            match self.tokens[cursor] {
                Token::PointerIncrement => {
                    self.brain.ptr_right();
                    self.cursor = cursor + 1;
                },
                Token::PointerDecrement => {
                    self.brain.ptr_left();
                    self.cursor = cursor + 1;
                },
                Token::DataIncrement => {
                    self.brain.increment();
                    self.cursor = cursor + 1;
                },
                Token::DataDecrement => {
                    self.brain.decrement();
                    self.cursor = cursor + 1;
                },
                Token::Output => {
                    self.brain.output();
                    self.cursor = cursor + 1;
                },
                Token::Input => {
                    proof {
                        assert(stopped(self@));
                        assert(spec_run(self@, n as nat) == self@);
                    }
                    return RunStatus::NeedInput;
                },
                Token::JumpForward(i) => self.forward(i),
                Token::JumpBackward(i) => self.backward(i),
            }
            proof {
                assert(self@ =~= spec_step(pre));
                lemma_step_wf(pre);
                assert(spec_run(pre, n as nat) == spec_run(self@, (n - 1) as nat));
            }
            n = n - 1;
        }
        proof {
            assert(spec_run(self@, n as nat) == self@);
        }
        if self.cursor >= self.tokens.len() {
            RunStatus::Done
        } else {
            match self.tokens[self.cursor] {
                Token::Input => RunStatus::NeedInput,
                _ => RunStatus::OutOfFuel,
            }
        }
    }

    /// Feeds the engine the line of text it paused for: the line acts on
    /// the tape as `BrainView::input` and execution may resume past the
    /// input instruction.
    pub fn supply_input(&mut self, line: &str)
        requires
            old(self).wf(),
            old(self)@.pc < old(self)@.toks.len(),
            old(self)@.toks[old(self)@.pc as int] is Input,
        ensures
            final(self).wf(),
            final(self)@ == (EngineView {
                toks: old(self)@.toks,
                pc: (old(self)@.pc + 1) as nat,
                tape: old(self)@.tape.input(line@),
            }),
    {
        proof {
            assert(self.cursor < self.tokens.len());
        }
        self.brain.input(line);
        self.cursor = self.cursor + 1;
        proof {
            assert(self@ =~= (EngineView {
                toks: old(self)@.toks,
                pc: (old(self)@.pc + 1) as nat,
                tape: old(self)@.tape.input(line@),
            }));
        }
    }

    fn forward(&mut self, i: usize)
        requires
            old(self).wf(),
            old(self)@.pc < old(self)@.toks.len(),
            old(self)@.toks[old(self)@.pc as int] == Token::JumpForward(i),
        ensures
            final(self)@ == spec_step(old(self)@),
    {
        proof {
            assert(matched_bwd(self@.toks, i as int, self@.pc as int));
        }
        if self.brain.is_zero() {
            proof {
                assert(i < self.tokens.len());
            }
            self.cursor = i + 1;
        } else {
            self.cursor = self.cursor + 1;
        }
    }

    fn backward(&mut self, i: usize)
        requires
            old(self).wf(),
            old(self)@.pc < old(self)@.toks.len(),
            old(self)@.toks[old(self)@.pc as int] == Token::JumpBackward(i),
        ensures
            final(self)@ == spec_step(old(self)@),
    {
        self.cursor = i;
    }
}

} // verus!
