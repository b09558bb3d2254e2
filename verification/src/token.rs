use vstd::prelude::*;

verus! {

/// The eight instructions of the language.
///
/// The `usize` carried by the two jump variants is an absolute index into
/// the fully accumulated instruction list: a resolved `JumpForward` stores
/// the position of its matching `JumpBackward`, and vice versa. A
/// `JumpForward` is written with the placeholder target `0` when its `[` is
/// scanned, and rewritten once the matching `]` is found.
#[derive(Copy, Clone, Debug, PartialEq, Eq, Structural)]
pub enum Token {
    PointerIncrement,
    PointerDecrement,
    DataIncrement,
    DataDecrement,
    Input,
    Output,
    JumpForward(usize),
    JumpBackward(usize),
}

/// What one `tokenize` call reports back to its caller.
#[derive(Copy, Clone, Debug, PartialEq, Eq, Structural)]
pub enum TokenizeStatus {
    /// The whole chunk was scanned. The fragment is complete only if the
    /// pending-match stack is empty; otherwise the caller must supply
    /// another chunk before committing.
    Done,
    /// A `]` arrived with no open `[` in scope. The fragment's buffer was
    /// discarded, the pending state cleared, and the rest of the chunk
    /// abandoned.
    Unbalanced,
    /// The quit character was seen. Scanning stopped at once and nothing
    /// was committed; the shell is expected to terminate the session.
    Quit,
}

/// What one `interpret` call reports back to its caller.
#[derive(Copy, Clone, Debug, PartialEq, Eq, Structural)]
pub enum RunStatus {
    /// The instruction pointer reached the end of the instruction list.
    Done,
    /// Execution stopped on an `Input` instruction; the caller must obtain
    /// a line of text and hand it over through `supply_input`.
    NeedInput,
    /// The step budget ran out before execution stopped.
    OutOfFuel,
}

} // verus!
