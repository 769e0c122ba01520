//! A tokenizer for argument lines: one line of text becomes a sequence of
//! positional, keyword and flag arguments. Strings may stand bare, in a run of
//! quote characters, or in a stack of brackets.
//!
//! [`arg::parse`] is the entry point, [`grammar`] says what a line means,
//! [`kmp`] finds the closing delimiter, [`text`] walks a string by scalars and
//! [`laws`] holds what is proved of every line.

pub mod arg;
pub mod classes;
pub mod grammar;
pub mod kmp;
pub mod laws;
pub mod message;
pub mod text;
