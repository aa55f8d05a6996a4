//! A streaming Brainfuck interpreter.
//!
//! Program text arrives in chunks (as from a pipe or an interactive
//! session).  The loader strips whitespace, appends the remaining bytes to
//! an append-only instruction buffer, and pairs loop delimiters
//! incrementally, even when the `[` and the `]` of one loop arrive in
//! different chunks.  The engine then dispatches one instruction at a time
//! against a tape of byte cells, using the table of matched delimiter
//! pairs to resolve jumps.

pub mod engine;
pub mod interpreter;
pub mod loader;
