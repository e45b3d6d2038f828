//! A recursive-descent parser with one token of lookahead.
//!
//! The parser holds a tokenizer and the token it is looking at. It asks the
//! tokenizer for a token only when it moves past the current one, so a
//! lexical error surfaces at the moment the parser reaches it. Before it
//! asks, it drops the blanks that the tokenizer stands on: spaces and tabs
//! may stand between the tokens of an expression.
use vstd::prelude::*;
use crate::ast::BinaryOp;
use crate::ast::Expr;
use crate::ast::Node;
use crate::error::ParseError;
use crate::error::SyntaxError;
use crate::grammar::atom;
use crate::grammar::binary;
use crate::grammar::chain;
use crate::grammar::expression;
use crate::grammar::lemma_progress;
use crate::grammar::lemma_shift_consumes;
use crate::grammar::operand;
use crate::grammar::parse_text;
use crate::grammar::power;
use crate::grammar::shift;
use crate::grammar::start;
use crate::grammar::unary;
use crate::grammar::Cursor;
use crate::grammar::Level;
use crate::token::Token;
use crate::tokenizer::Tokenizer;

verus! {

/// The model of a parse result: the model of the tree, or the error.
pub open spec fn parsed_view(r: Result<Node, ParseError>) -> Result<Expr, ParseError> {
    match r {
        Ok(node) => Ok(node@),
        Err(e) => Err(e),
    }
}

/// Finds the operator that `token` writes at `level`, if any.
fn operator_at(level: Level, token: &Token) -> (r: Option<BinaryOp>)
    ensures
        r == level.operator(token@),
{
    match (level, token) {
        (Level::BitOr, Token::Or) => Some(BinaryOp::Or),
        (Level::BitAnd, Token::And) => Some(BinaryOp::And),
        (Level::AddSub, Token::Add) => Some(BinaryOp::Add),
        (Level::AddSub, Token::Subtract) => Some(BinaryOp::Subtract),
        (Level::Term, Token::Multiply) => Some(BinaryOp::Multiply),
        (Level::Term, Token::Divide) => Some(BinaryOp::Divide),
        _ => None,
    }
}

/// A parser over one expression.
pub struct Parser {
    tokenizer: Tokenizer,
    current_token: Token,
}

impl View for Parser {
    type V = Cursor;

    /// The current token and the text that the tokenizer has not consumed.
    closed spec fn view(&self) -> Cursor {
        Cursor { current: self.current_token@, rest: self.tokenizer@ }
    }
}

impl Parser {
    /// Starts a parser on `input` and reads the first token, after any
    /// blanks before it, into the lookahead. Fails with a lexical error where
    /// no token begins there.
    pub fn new(input: &str) -> (r: Result<Parser, ParseError>)
        ensures
            match r {
                Ok(parser) => start(input@) == Some(parser@),
                Err(e) => e == ParseError::Lexical && start(input@) is None,
            },
    {
        let mut tokenizer = Tokenizer::new(input);
        tokenizer.skip_blanks();
        match tokenizer.next() {
            Some(token) => Ok(Parser { tokenizer, current_token: token }),
            None => Err(ParseError::Lexical),
        }
    }

    /// Reads one whole expression at the cursor and returns its tree. The
    /// cursor stops at the first token that the expression does not take;
    /// that token need not be `EOF`.
    pub fn parse(&mut self) -> (r: Result<Node, ParseError>)
        ensures
            (parsed_view(r), final(self)@) == expression(old(self)@),
    {
        self.parse_binary(Level::BitOr)
    }

    /// The token that the parser is looking at.
    pub fn current_token(&self) -> (r: &Token)
        ensures
            r@ == self@.current,
    {
        &self.current_token
    }

    /// Moves the lookahead to the next token, past any blanks before it.
    fn advance(&mut self) -> (r: Result<(), ParseError>)
        ensures
            final(self)@ == shift(old(self)@).1,
            r is Ok <==> shift(old(self)@).0,
            r is Err ==> r == Err::<(), ParseError>(ParseError::Lexical),
    {
        self.tokenizer.skip_blanks();
        match self.tokenizer.next() {
            Some(token) => {
                self.current_token = token;
                Ok(())
            },
            None => Err(ParseError::Lexical),
        }
    }

    /// Reads a number or a group in parentheses.
    fn parse_atom(&mut self) -> (r: Result<Node, ParseError>)
        ensures
            (parsed_view(r), final(self)@) == atom(old(self)@),
        decreases old(self)@.pending(), 0int, 0int,
    {
        proof {
            lemma_shift_consumes(self@);
        }
        match &self.current_token {
            Token::Num(n) => {
                let number = n.clone();
                match self.advance() {
                    Ok(()) => Ok(Node::Number(number)),
                    Err(e) => Err(e),
                }
            },
            Token::LeftParen => {
                match self.advance() {
                    Ok(()) => {},
                    Err(e) => {
                        return Err(e);
                    },
                }
                let inner = match self.parse_binary(Level::BitOr) {
                    Ok(inner) => inner,
                    Err(e) => {
                        return Err(e);
                    },
                };
                match &self.current_token {
                    Token::RightParen => match self.advance() {
                        Ok(()) => Ok(inner),
                        Err(e) => Err(e),
                    },
                    _ => Err(ParseError::Syntax(SyntaxError::MissingRightParen)),
                }
            },
            Token::EOF => Err(ParseError::Syntax(SyntaxError::UnexpectedEnd)),
            _ => Err(ParseError::Syntax(SyntaxError::UnexpectedToken)),
        }
    }

    /// Reads an atom with any number of `-` before it.
    fn parse_unary(&mut self) -> (r: Result<Node, ParseError>)
        ensures
            (parsed_view(r), final(self)@) == unary(old(self)@),
        decreases old(self)@.pending(), 1int, 0int,
    {
        proof {
            lemma_shift_consumes(self@);
        }
        match &self.current_token {
            Token::Subtract => {
                match self.advance() {
                    Ok(()) => {},
                    Err(e) => {
                        return Err(e);
                    },
                }
                match self.parse_unary() {
                    Ok(inner) => Ok(Node::Negative(Box::new(inner))),
                    Err(e) => Err(e),
                }
            },
            _ => self.parse_atom(),
        }
    }

    /// Reads a base and, after `^`, its exponent, which is itself a power.
    fn parse_power(&mut self) -> (r: Result<Node, ParseError>)
        ensures
            (parsed_view(r), final(self)@) == power(old(self)@),
        decreases old(self)@.pending(), 2int, 0int,
    {
        proof {
            lemma_progress(Level::Term, Expr::Number(arbitrary()), self@);
        }
        let base = match self.parse_unary() {
            Ok(base) => base,
            Err(e) => {
                return Err(e);
            },
        };
        match &self.current_token {
            Token::Caret => {
                proof {
                    lemma_shift_consumes(self@);
                }
                match self.advance() {
                    Ok(()) => {},
                    Err(e) => {
                        return Err(e);
                    },
                }
                match self.parse_power() {
                    Ok(exponent) => Ok(Node::Caret(Box::new(base), Box::new(exponent))),
                    Err(e) => Err(e),
                }
            },
            _ => Ok(base),
        }
    }

    /// Reads one operand of `level`: a construct of the next tighter level.
    fn parse_operand(&mut self, level: Level) -> (r: Result<Node, ParseError>)
        ensures
            (parsed_view(r), final(self)@) == operand(level, old(self)@),
        decreases old(self)@.pending(), 9 - 2 * level.strength(), 0int,
    {
        match level {
            Level::BitOr => self.parse_binary(Level::BitAnd),
            Level::BitAnd => self.parse_binary(Level::AddSub),
            Level::AddSub => self.parse_binary(Level::Term),
            Level::Term => self.parse_power(),
        }
    }

    /// Reads a run of operands of `level` with its operators between them,
    /// joining each operand to what stands on its left.
    fn parse_binary(&mut self, level: Level) -> (r: Result<Node, ParseError>)
        ensures
            (parsed_view(r), final(self)@) == binary(level, old(self)@),
        decreases old(self)@.pending(), 10 - 2 * level.strength(), 1int,
    {
        proof {
            lemma_progress(level, Expr::Number(arbitrary()), self@);
        }
        let mut left = match self.parse_operand(level) {
            Ok(first) => first,
            Err(e) => {
                return Err(e);
            },
        };
        loop
            invariant
                self@.pending() <= old(self)@.pending(),
                chain(level, left@, self@) == binary(level, old(self)@),
            decreases self@.pending(),
        {
            let op = match operator_at(level, &self.current_token) {
                Some(op) => op,
                None => {
                    return Ok(left);
                },
            };
            proof {
                lemma_shift_consumes(self@);
            }
            match self.advance() {
                Ok(()) => {},
                Err(e) => {
                    return Err(e);
                },
            }
            proof {
                lemma_progress(level, left@, self@);
            }
            let right = match self.parse_operand(level) {
                Ok(right) => right,
                Err(e) => {
                    return Err(e);
                },
            };
            left = op.apply(left, right);
        }
    }
}

/// Parses the expression that `input` starts with and returns its tree.
///
/// Blanks between tokens are dropped. Fails with a lexical error where the
/// parser meets text that yields no token, and with a syntax error where the
/// tokens do not follow the grammar. Tokens after the expression are left
/// unread, but for the one that follows it directly.
pub fn parse(input: &str) -> (r: Result<Node, ParseError>)
    ensures
        parsed_view(r) == parse_text(input@),
{
    match Parser::new(input) {
        Ok(mut parser) => parser.parse(),
        Err(e) => Err(e),
    }
}

} // verus!
