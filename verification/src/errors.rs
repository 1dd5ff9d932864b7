//! Error values produced by the tokenizer.
//!
//! Every error is terminal for the call that produced it: no partial result
//! accompanies one. Each variant carries the offending character or literal
//! text, and nothing else.

use vstd::prelude::*;

verus! {

/// A tokenization failure.
#[derive(Debug, Clone)]
pub enum LexError {
    /// A character that starts no token.
    InvalidCharacter(char),
    /// A numeric literal that is not a well-formed integer or float.
    MalformedNumericLiteral(String),
    /// A selector whose kind character is missing (`None`) or unrecognized.
    MalformedSelector(Option<char>),
    /// A string literal or selector bracket group that reaches the end of
    /// the input before its closing delimiter.
    UnterminatedLiteralGroup,
}

/// The mathematical shape of a `LexError`.
pub enum LexErrorModel {
    InvalidCharacter(char),
    MalformedNumericLiteral(Seq<char>),
    MalformedSelector(Option<char>),
    UnterminatedLiteralGroup,
}

impl View for LexError {
    type V = LexErrorModel;

    open spec fn view(&self) -> LexErrorModel {
        match self {
            LexError::InvalidCharacter(c) => LexErrorModel::InvalidCharacter(*c),
            LexError::MalformedNumericLiteral(t) => LexErrorModel::MalformedNumericLiteral(t@),
            LexError::MalformedSelector(c) => LexErrorModel::MalformedSelector(*c),
            LexError::UnterminatedLiteralGroup => LexErrorModel::UnterminatedLiteralGroup,
        }
    }
}

} // verus!
