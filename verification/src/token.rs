//! The lexical units of an expression.
use vstd::prelude::*;
use crate::number::Decimal;
use crate::number::Number;

verus! {

/// The mathematical model of a token.
pub ghost enum Lexeme {
    Num(Decimal),
    Add,
    Subtract,
    Multiply,
    Divide,
    Caret,
    LeftParen,
    RightParen,
    And,
    Or,
    EOF,
}

/// One lexical unit: a number, an operator, a parenthesis, or the explicit
/// end-of-input marker.
#[derive(Debug, PartialEq, Eq)]
pub enum Token {
    Num(Number),
    Add,
    Subtract,
    Multiply,
    Divide,
    Caret,
    LeftParen,
    RightParen,
    And,
    Or,
    EOF,
}

impl View for Token {
    type V = Lexeme;

    open spec fn view(&self) -> Lexeme {
        match *self {
            Token::Num(n) => Lexeme::Num(n@),
            Token::Add => Lexeme::Add,
            Token::Subtract => Lexeme::Subtract,
            Token::Multiply => Lexeme::Multiply,
            Token::Divide => Lexeme::Divide,
            Token::Caret => Lexeme::Caret,
            Token::LeftParen => Lexeme::LeftParen,
            Token::RightParen => Lexeme::RightParen,
            Token::And => Lexeme::And,
            Token::Or => Lexeme::Or,
            Token::EOF => Lexeme::EOF,
        }
    }
}

impl Clone for Token {
    fn clone(&self) -> (r: Token)
        ensures
            r@ == self@,
    {
        match self {
            Token::Num(n) => Token::Num(n.clone()),
            Token::Add => Token::Add,
            Token::Subtract => Token::Subtract,
            Token::Multiply => Token::Multiply,
            Token::Divide => Token::Divide,
            Token::Caret => Token::Caret,
            Token::LeftParen => Token::LeftParen,
            Token::RightParen => Token::RightParen,
            Token::And => Token::And,
            Token::Or => Token::Or,
            Token::EOF => Token::EOF,
        }
    }
}

/// The model of what one lexing step hands back: a token, or nothing when the
/// input cannot be lexed.
pub open spec fn token_view(t: Option<Token>) -> Option<Lexeme> {
    match t {
        Some(t) => Some(t@),
        None => None,
    }
}

/// The models of a run of tokens, in order.
pub open spec fn tokens_view(ts: Seq<Token>) -> Seq<Lexeme> {
    Seq::new(ts.len(), |i: int| ts[i]@)
}

} // verus!
