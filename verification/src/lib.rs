//! A lexer and recursive-descent parser for arithmetic expressions with
//! game-style selector literals, plus a box-drawing tree pretty-printer.
//!
//! Raw text is tokenized into a sequence of tokens terminated by an
//! end-of-file token, the token sequence is parsed into a syntax tree with
//! two precedence tiers (additive and multiplicative), and any node that
//! offers a label and an ordered child list can be rendered as a tree.

pub mod chars;
pub mod errors;
pub mod lexer;
pub mod parser;
pub mod pretty;
pub mod selector;
pub mod text;
