//! A verified LR(0) parser generator.
//!
//! Given a grammar over single-character symbols, the library computes the
//! canonical collection of LR(0) item sets, derives the automaton's
//! transition function, compiles a shift/reduce/goto parsing table while
//! detecting grammars that are not LR(0), and drives a stack-based
//! recognizer over that table to accept or reject an input string.

pub mod grammar;
pub mod item;
pub mod family;
