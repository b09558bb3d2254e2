//! An interactive interpreter for a minimal tape-based language with eight
//! instructions: pointer moves, cell increment/decrement, byte input/output,
//! and a matched pair of conditional jump brackets.
//!
//! The crate holds the core: an incremental tokenizer that resolves bracket
//! pairs across successive chunks of text, and an engine that walks the
//! resolved instruction list over a growable byte tape. Reading console lines
//! and printing belong to the surrounding shell, which feeds the core plain
//! text and displays the states it returns.

pub mod brain;
pub mod engine;
pub mod parser;
pub mod token;
