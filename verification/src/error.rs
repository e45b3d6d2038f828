//! The ways in which reading an expression can fail.
use vstd::prelude::*;

verus! {

/// What the parser was looking for when the tokens stopped matching the
/// grammar.
#[derive(Debug, Clone, Copy, PartialEq, Eq, Structural)]
pub enum SyntaxError {
    /// A number, `-` or `(` was expected, and another token stood there.
    UnexpectedToken,
    /// A number, `-` or `(` was expected, and the input had ended.
    UnexpectedEnd,
    /// A `)` was expected to close a group.
    MissingRightParen,
}

/// Why an expression could not be read.
#[derive(Debug, Clone, Copy, PartialEq, Eq, Structural)]
pub enum ParseError {
    /// A character begins no token, or a numeric literal holds more than one
    /// decimal point.
    Lexical,
    /// The tokens do not follow the grammar.
    Syntax(SyntaxError),
}

impl ParseError {
    /// Reports whether this is a lexical error.
    pub fn is_lexical(&self) -> (r: bool)
        ensures
            r == (*self == ParseError::Lexical),
    {
        match self {
            ParseError::Lexical => true,
            ParseError::Syntax(_) => false,
        }
    }

    /// Reports whether this is a syntax error, of whatever kind.
    pub fn is_syntax(&self) -> (r: bool)
        ensures
            r == (*self is Syntax),
    {
        match self {
            ParseError::Lexical => false,
            ParseError::Syntax(_) => true,
        }
    }
}

} // verus!
