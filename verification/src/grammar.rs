//! The grammar of expressions, as functions on a cursor.
//!
//! From the loosest binding to the tightest:
//!
//! ```text
//! bitor  := bitand ('|' bitand)*
//! bitand := addsub ('&' addsub)*
//! addsub := term (('+' | '-') term)*
//! term   := power (('*' | '/') power)*
//! power  := unary ('^' power)?
//! unary  := '-' unary | atom
//! atom   := Number | '(' bitor ')'
//! ```
//!
//! The four binary levels group to the left; `^` groups to the right. Each
//! function reads one construct at the cursor and gives the tree it found, or
//! the error that stopped it, together with the cursor it stopped at.
//!
//! Blanks (spaces and tabs) may stand between tokens: they are dropped before
//! each token is lexed.
use vstd::prelude::*;
use crate::ast::BinaryOp;
use crate::ast::Expr;
use crate::error::ParseError;
use crate::error::SyntaxError;
use crate::token::Lexeme;
use crate::tokenizer::lemma_scan_consumes;
use crate::tokenizer::lemma_skip_blanks_len;
use crate::tokenizer::scan;
use crate::tokenizer::skip_blanks;

verus! {

/// Where a parse stands: the token under inspection and the text that has not
/// been lexed yet.
pub ghost struct Cursor {
    pub current: Lexeme,
    pub rest: Seq<char>,
}

impl Cursor {
    /// How much is still ahead: the characters not lexed yet, and one more
    /// while the current token is not `EOF`.
    pub open spec fn pending(self) -> nat {
        if self.current == Lexeme::EOF {
            self.rest.len()
        } else {
            self.rest.len() + 1
        }
    }
}

/// The outcome of reading one construct: the tree or the error, and the
/// cursor afterwards.
pub type Parsed = (Result<Expr, ParseError>, Cursor);

/// The next token of `text` as the parser sees it: one lexing step on the
/// text without its leading blanks.
pub open spec fn next_token(text: Seq<char>) -> (Option<Lexeme>, Seq<char>) {
    scan(skip_blanks(text))
}

/// The cursor that `text` starts with, or `None` where its first token
/// cannot be lexed.
pub open spec fn start(text: Seq<char>) -> Option<Cursor> {
    match next_token(text) {
        (Some(t), rest) => Some(Cursor { current: t, rest }),
        (None, _) => None,
    }
}

/// Replaces the current token by the next one. Where the lexing step yields
/// no token the flag is `false` and the current token stays; the text that
/// the step consumed is gone either way.
pub open spec fn shift(c: Cursor) -> (bool, Cursor) {
    match next_token(c.rest) {
        (Some(t), rest) => (true, Cursor { current: t, rest }),
        (None, rest) => (false, Cursor { current: c.current, rest }),
    }
}

/// The four left-associative levels of the grammar.
#[derive(Debug, Clone, Copy, PartialEq, Eq, Structural)]
pub enum Level {
    BitOr,
    BitAnd,
    AddSub,
    Term,
}

impl Level {
    /// How tightly the operators of the level bind: the loosest level has
    /// strength zero.
    pub open spec fn strength(self) -> int {
        match self {
            Level::BitOr => 0,
            Level::BitAnd => 1,
            Level::AddSub => 2,
            Level::Term => 3,
        }
    }

    /// The operator that `token` writes at this level, if any.
    pub open spec fn operator(self, token: Lexeme) -> Option<BinaryOp> {
        match (self, token) {
            (Level::BitOr, Lexeme::Or) => Some(BinaryOp::Or),
            (Level::BitAnd, Lexeme::And) => Some(BinaryOp::And),
            (Level::AddSub, Lexeme::Add) => Some(BinaryOp::Add),
            (Level::AddSub, Lexeme::Subtract) => Some(BinaryOp::Subtract),
            (Level::Term, Lexeme::Multiply) => Some(BinaryOp::Multiply),
            (Level::Term, Lexeme::Divide) => Some(BinaryOp::Divide),
            _ => None,
        }
    }
}

/// A shift never adds to what is pending, and takes from it whenever the
/// current token is not `EOF`.
pub proof fn lemma_shift_consumes(c: Cursor)
    ensures
        shift(c).1.pending() <= c.pending(),
        c.current != Lexeme::EOF ==> shift(c).1.pending() < c.pending(),
{
    lemma_skip_blanks_len(c.rest);
    lemma_scan_consumes(skip_blanks(c.rest));
}

/// `atom := Number | '(' bitor ')'`
pub open spec fn atom(c: Cursor) -> Parsed
    decreases c.pending(), 0int, 0int,
{
    match c.current {
        Lexeme::Num(d) => match shift(c) {
            (true, c1) => (Ok(Expr::Number(d)), c1),
            (false, c1) => (Err(ParseError::Lexical), c1),
        },
        Lexeme::LeftParen => match shift(c) {
            (false, c1) => (Err(ParseError::Lexical), c1),
            (true, c1) => {
                proof {
                    lemma_shift_consumes(c);
                }
                match binary(Level::BitOr, c1) {
                    (Err(e), c2) => (Err(e), c2),
                    (Ok(inner), c2) => if c2.current == Lexeme::RightParen {
                        match shift(c2) {
                            (true, c3) => (Ok(inner), c3),
                            (false, c3) => (Err(ParseError::Lexical), c3),
                        }
                    } else {
                        (Err(ParseError::Syntax(SyntaxError::MissingRightParen)), c2)
                    },
                }
            },
        },
        Lexeme::EOF => (Err(ParseError::Syntax(SyntaxError::UnexpectedEnd)), c),
        _ => (Err(ParseError::Syntax(SyntaxError::UnexpectedToken)), c),
    }
}

/// `unary := '-' unary | atom`
pub open spec fn unary(c: Cursor) -> Parsed
    decreases c.pending(), 1int, 0int,
{
    if c.current == Lexeme::Subtract {
        match shift(c) {
            (false, c1) => (Err(ParseError::Lexical), c1),
            (true, c1) => {
                proof {
                    lemma_shift_consumes(c);
                }
                match unary(c1) {
                    (Err(e), c2) => (Err(e), c2),
                    (Ok(operand), c2) => (Ok(Expr::Negative(Box::new(operand))), c2),
                }
            },
        }
    } else {
        atom(c)
    }
}

/// `power := unary ('^' power)?`
///
/// The test on `pending` serves the termination of this definition only:
/// `lemma_progress` shows that it always holds.
pub open spec fn power(c: Cursor) -> Parsed
    decreases c.pending(), 2int, 0int,
{
    match unary(c) {
        (Err(e), c1) => (Err(e), c1),
        (Ok(base), c1) => if c1.current == Lexeme::Caret && c1.pending() <= c.pending() {
            match shift(c1) {
                (false, c2) => (Err(ParseError::Lexical), c2),
                (true, c2) => {
                    proof {
                        lemma_shift_consumes(c1);
                    }
                    match power(c2) {
                        (Err(e), c3) => (Err(e), c3),
                        (Ok(exponent), c3) => (
                            Ok(Expr::Caret(Box::new(base), Box::new(exponent))),
                            c3,
                        ),
                    }
                },
            }
        } else {
            (Ok(base), c1)
        },
    }
}

/// One operand of a binary level: the next tighter level.
pub open spec fn operand(level: Level, c: Cursor) -> Parsed
    decreases c.pending(), 9 - 2 * level.strength(), 0int,
{
    match level {
        Level::BitOr => binary(Level::BitAnd, c),
        Level::BitAnd => binary(Level::AddSub, c),
        Level::AddSub => binary(Level::Term, c),
        Level::Term => power(c),
    }
}

/// A whole binary level: `operand (operator operand)*`, grouped to the left.
///
/// The test on `pending` serves the termination of this definition only:
/// `lemma_progress` shows that it always holds.
pub open spec fn binary(level: Level, c: Cursor) -> Parsed
    decreases c.pending(), 10 - 2 * level.strength(), 1int,
{
    match operand(level, c) {
        (Err(e), c1) => (Err(e), c1),
        (Ok(first), c1) => if c1.pending() <= c.pending() {
            chain(level, first, c1)
        } else {
            (Ok(first), c1)
        },
    }
}

/// The rest of a binary level, `(operator operand)*`, after `left` has been
/// read: each further operand is joined to what stands on its left.
///
/// The test on `pending` serves the termination of this definition only:
/// `lemma_progress` shows that it always holds.
pub open spec fn chain(level: Level, left: Expr, c: Cursor) -> Parsed
    decreases c.pending(), 10 - 2 * level.strength(), 0int,
{
    match level.operator(c.current) {
        None => (Ok(left), c),
        Some(op) => match shift(c) {
            (false, c1) => (Err(ParseError::Lexical), c1),
            (true, c1) => {
                proof {
                    lemma_shift_consumes(c);
                }
                match operand(level, c1) {
                    (Err(e), c2) => (Err(e), c2),
                    (Ok(right), c2) => if c2.pending() <= c1.pending() {
                        chain(level, op.join(left, right), c2)
                    } else {
                        (Ok(op.join(left, right)), c2)
                    },
                }
            },
        },
    }
}

/// Reading a construct never moves the cursor backwards: what is pending
/// afterwards is at most what was pending before. So the tests on `pending`
/// in `power`, `binary` and `chain` always hold.
pub proof fn lemma_progress(level: Level, left: Expr, c: Cursor)
    ensures
        atom(c).1.pending() <= c.pending(),
        unary(c).1.pending() <= c.pending(),
        power(c).1.pending() <= c.pending(),
        operand(level, c).1.pending() <= c.pending(),
        binary(level, c).1.pending() <= c.pending(),
        chain(level, left, c).1.pending() <= c.pending(),
{
    lemma_atom_progress(c);
    lemma_unary_progress(c);
    lemma_power_progress(c);
    lemma_operand_progress(level, c);
    lemma_binary_progress(level, c);
    lemma_chain_progress(level, left, c);
}

proof fn lemma_atom_progress(c: Cursor)
    ensures
        atom(c).1.pending() <= c.pending(),
    decreases c.pending(), 0int, 0int,
{
    lemma_shift_consumes(c);
    if c.current == Lexeme::LeftParen && shift(c).0 {
        let c1 = shift(c).1;
        lemma_binary_progress(Level::BitOr, c1);
        let c2 = binary(Level::BitOr, c1).1;
        lemma_shift_consumes(c2);
    }
}

proof fn lemma_unary_progress(c: Cursor)
    ensures
        unary(c).1.pending() <= c.pending(),
    decreases c.pending(), 1int, 0int,
{
    lemma_shift_consumes(c);
    if c.current == Lexeme::Subtract {
        if shift(c).0 {
            lemma_unary_progress(shift(c).1);
        }
    } else {
        lemma_atom_progress(c);
    }
}

proof fn lemma_power_progress(c: Cursor)
    ensures
        power(c).1.pending() <= c.pending(),
    decreases c.pending(), 2int, 0int,
{
    lemma_unary_progress(c);
    let (r, c1) = unary(c);
    if r is Ok && c1.current == Lexeme::Caret {
        lemma_shift_consumes(c1);
        if shift(c1).0 {
            lemma_power_progress(shift(c1).1);
        }
    }
}

proof fn lemma_operand_progress(level: Level, c: Cursor)
    ensures
        operand(level, c).1.pending() <= c.pending(),
    decreases c.pending(), 9 - 2 * level.strength(), 0int,
{
    match level {
        Level::BitOr => lemma_binary_progress(Level::BitAnd, c),
        Level::BitAnd => lemma_binary_progress(Level::AddSub, c),
        Level::AddSub => lemma_binary_progress(Level::Term, c),
        Level::Term => lemma_power_progress(c),
    }
}

proof fn lemma_binary_progress(level: Level, c: Cursor)
    ensures
        binary(level, c).1.pending() <= c.pending(),
    decreases c.pending(), 10 - 2 * level.strength(), 1int,
{
    lemma_operand_progress(level, c);
    let (r, c1) = operand(level, c);
    if let Ok(first) = r {
        lemma_chain_progress(level, first, c1);
    }
}

proof fn lemma_chain_progress(level: Level, left: Expr, c: Cursor)
    ensures
        chain(level, left, c).1.pending() <= c.pending(),
    decreases c.pending(), 10 - 2 * level.strength(), 0int,
{
    if let Some(op) = level.operator(c.current) {
        lemma_shift_consumes(c);
        let (ok, c1) = shift(c);
        if ok {
            lemma_operand_progress(level, c1);
            let (r, c2) = operand(level, c1);
            if let Ok(right) = r {
                lemma_chain_progress(level, op.join(left, right), c2);
            }
        }
    }
}

/// A whole expression: the loosest level.
pub open spec fn expression(c: Cursor) -> Parsed {
    binary(Level::BitOr, c)
}

/// The tree that `text` writes: the expression at its start. What follows the
/// expression is not looked at beyond the one token after it.
pub open spec fn parse_text(text: Seq<char>) -> Result<Expr, ParseError> {
    match start(text) {
        Some(c) => expression(c).0,
        None => Err(ParseError::Lexical),
    }
}

} // verus!
