//! A small JSON reader in two stages: a lexer that turns text into tokens and a
//! recursive-descent parser that turns tokens into a tree of values.

pub mod lexer;
pub mod parser;
