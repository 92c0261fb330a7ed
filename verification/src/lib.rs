//! A regular-expression engine: an AST of character-class predicates and the
//! usual combinators is compiled, by a generalized Thompson construction,
//! into a nondeterministic finite automaton, which is then simulated against
//! input either one character at a time or in bulk.

pub mod builder;
pub mod charset;
pub mod nfa;

pub use builder::{NFABuilder, Regex};
pub use charset::CharSet;
pub use nfa::NFA;
