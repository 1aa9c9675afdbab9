//! The language in which topologies of streams are written down: its words
//! and the lexer that reads them.

pub mod domain;
pub mod lex;
