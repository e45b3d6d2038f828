//! Writing a syntax tree as text, and the proof that parsing reads it back.
//!
//! `render` writes a tree with the fewest parentheses that the grammar
//! allows. That the parser reads every such text back as the tree it came
//! from says, for all trees at once, what the grammar means: which operator
//! binds tighter than which, that `^` groups to the right and the other
//! binary operators to the left, and that a group stands for its contents.
//! Every tree that the parser gives can be written in this way.
use vstd::prelude::*;
use crate::ast::BinaryOp;
use crate::ast::Expr;
use crate::error::ParseError;
use crate::grammar::atom;
use crate::grammar::binary;
use crate::grammar::chain;
use crate::grammar::lemma_progress;
use crate::grammar::lemma_shift_consumes;
use crate::grammar::next_token;
use crate::grammar::operand;
use crate::grammar::parse_text;
use crate::grammar::power;
use crate::grammar::shift;
use crate::grammar::start;
use crate::grammar::unary;
use crate::grammar::Cursor;
use crate::grammar::Level;
use crate::grammar::Parsed;
use crate::number::is_digit;
use crate::number::is_literal_char;
use crate::number::lemma_read_writable;
use crate::number::lemma_text_reads_back;
use crate::number::Decimal;
use crate::token::Lexeme;
use crate::tokenizer::is_blank;
use crate::tokenizer::lemma_literal_len_bound;
use crate::tokenizer::literal_len;
use crate::tokenizer::punctuation;
use crate::tokenizer::skip_blanks;

verus! {

/// How tightly the outermost construct of `e` binds, on the scale of
/// `Level::strength`: a binary node has the strength of its level, `^` has
/// strength 4, negation 5, and a number 6.
pub open spec fn strength(e: Expr) -> int {
    match e {
        Expr::Or(_, _) => 0,
        Expr::And(_, _) => 1,
        Expr::Add(_, _) => 2,
        Expr::Subtract(_, _) => 2,
        Expr::Multiply(_, _) => 3,
        Expr::Divide(_, _) => 3,
        Expr::Caret(_, _) => 4,
        Expr::Negative(_) => 5,
        Expr::Number(_) => 6,
    }
}

/// Every number in the tree can be written starting with a digit.
pub open spec fn writable(e: Expr) -> bool
    decreases e,
{
    match e {
        Expr::Or(l, r) => writable(*l) && writable(*r),
        Expr::And(l, r) => writable(*l) && writable(*r),
        Expr::Add(l, r) => writable(*l) && writable(*r),
        Expr::Subtract(l, r) => writable(*l) && writable(*r),
        Expr::Multiply(l, r) => writable(*l) && writable(*r),
        Expr::Divide(l, r) => writable(*l) && writable(*r),
        Expr::Caret(l, r) => writable(*l) && writable(*r),
        Expr::Negative(a) => writable(*a),
        Expr::Number(d) => d.writable(),
    }
}

/// The text of `e` for a place that takes constructs of strength `min` or
/// more: `e` itself where it binds tightly enough, and `e` in parentheses
/// where it does not.
///
/// The left operand of a left-associative operator may be as loose as the
/// operator itself, the right operand must be tighter. For `^` it is the
/// other way round, and its base must be at least a negation.
pub open spec fn render(e: Expr, min: int) -> Seq<char>
    decreases e,
{
    let body = match e {
        Expr::Or(l, r) => render(*l, 0) + seq!['|'] + render(*r, 1),
        Expr::And(l, r) => render(*l, 1) + seq!['&'] + render(*r, 2),
        Expr::Add(l, r) => render(*l, 2) + seq!['+'] + render(*r, 3),
        Expr::Subtract(l, r) => render(*l, 2) + seq!['-'] + render(*r, 3),
        Expr::Multiply(l, r) => render(*l, 3) + seq!['*'] + render(*r, 4),
        Expr::Divide(l, r) => render(*l, 3) + seq!['/'] + render(*r, 4),
        Expr::Caret(l, r) => render(*l, 5) + seq!['^'] + render(*r, 4),
        Expr::Negative(a) => seq!['-'] + render(*a, 5),
        Expr::Number(d) => d.text(),
    };
    if strength(e) < min {
        seq!['('] + body + seq![')']
    } else {
        body
    }
}

/// The character that writes a binary operator.
spec fn symbol(op: BinaryOp) -> char {
    match op {
        BinaryOp::Or => '|',
        BinaryOp::And => '&',
        BinaryOp::Add => '+',
        BinaryOp::Subtract => '-',
        BinaryOp::Multiply => '*',
        BinaryOp::Divide => '/',
    }
}

/// The level at which a binary operator is read.
spec fn level_of(op: BinaryOp) -> Level {
    match op {
        BinaryOp::Or => Level::BitOr,
        BinaryOp::And => Level::BitAnd,
        BinaryOp::Add => Level::AddSub,
        BinaryOp::Subtract => Level::AddSub,
        BinaryOp::Multiply => Level::Term,
        BinaryOp::Divide => Level::Term,
    }
}

/// The binary level of strength `p`.
spec fn level_at(p: int) -> Level {
    if p <= 0 {
        Level::BitOr
    } else if p == 1 {
        Level::BitAnd
    } else if p == 2 {
        Level::AddSub
    } else {
        Level::Term
    }
}

/// The grammar function that reads a construct of strength `p` or more.
spec fn parse_at(p: int, c: Cursor) -> Parsed {
    if p <= 3 {
        binary(level_at(p), c)
    } else if p == 4 {
        power(c)
    } else if p == 5 {
        unary(c)
    } else {
        atom(c)
    }
}

/// `token` would continue a construct of strength `p`: it is `^` and `p` is
/// at most 4, or it is a binary operator of strength `p` or more.
spec fn extends(p: int, token: Lexeme) -> bool {
    ||| p <= 4 && token == Lexeme::Caret
    ||| p <= 3 && Level::Term.operator(token) is Some
    ||| p <= 2 && Level::AddSub.operator(token) is Some
    ||| p <= 1 && Level::BitAnd.operator(token) is Some
    ||| p <= 0 && Level::BitOr.operator(token) is Some
}

/// `tail` does not begin with a digit or a decimal point, so a number
/// written before it ends where it ends.
spec fn detached(tail: Seq<char>) -> bool {
    tail.len() == 0 || !is_literal_char(tail[0])
}

/// `tail` can follow a construct: it is detached and its first lexing step
/// finds a token.
spec fn follows(tail: Seq<char>) -> bool {
    detached(tail) && next_token(tail).0 is Some
}

/// The cursor on the first token of `text`.
spec fn cursor_at(text: Seq<char>) -> Cursor
    recommends
        next_token(text).0 is Some,
{
    Cursor { current: next_token(text).0->0, rest: next_token(text).1 }
}

proof fn lemma_literal_len_prefix(text: Seq<char>, tail: Seq<char>)
    requires
        forall|i: int| 0 <= i < text.len() ==> is_literal_char(#[trigger] text[i]),
        detached(tail),
    ensures
        literal_len(text + tail) == text.len(),
    decreases text.len(),
{
    if text.len() == 0 {
        assert(text + tail =~= tail);
    } else {
        assert(is_literal_char(text[0]));
        assert((text + tail).drop_first() =~= text.drop_first() + tail);
        lemma_literal_len_prefix(text.drop_first(), tail);
    }
}

/// A written number followed by detached text is lexed as that number, and
/// the text is what is left.
proof fn lemma_scan_number(d: Decimal, tail: Seq<char>)
    requires
        d.writable(),
        detached(tail),
    ensures
        next_token(d.text() + tail) == (Some(Lexeme::Num(d)), tail),
{
    let text = d.text() + tail;
    lemma_text_reads_back(d);
    lemma_literal_len_prefix(d.text(), tail);
    assert(text[0] == d.text()[0]);
    assert(!is_blank(text[0]));
    assert(skip_blanks(text) == text);
    let n = d.text().len() as int;
    assert(text.take(n) =~= d.text());
    assert(text.skip(n) =~= tail);
}

/// An operator or parenthesis character is lexed as its token, whatever
/// follows it.
proof fn lemma_scan_symbol(c: char, rest: Seq<char>)
    requires
        punctuation(c) is Some,
    ensures
        next_token(seq![c] + rest) == (punctuation(c), rest),
        follows(seq![c] + rest),
{
    let text = seq![c] + rest;
    assert(text[0] == c);
    assert(!is_blank(c) && !is_digit(c));
    assert(skip_blanks(text) == text);
    assert(text.drop_first() =~= rest);
}

/// The first lexing step on a written tree finds a token.
proof fn lemma_render_starts(e: Expr, min: int, tail: Seq<char>)
    requires
        writable(e),
        detached(tail),
    ensures
        next_token(render(e, min) + tail).0 is Some,
    decreases e, 0int,
{
    if strength(e) < min {
        let inner = render(e, 0) + seq![')'] + tail;
        assert(render(e, min) + tail =~= seq!['('] + inner);
        lemma_scan_symbol('(', inner);
    } else {
        match e {
            Expr::Or(l, r) => lemma_render_starts_left(*l, 0, '|', render(*r, 1), tail),
            Expr::And(l, r) => lemma_render_starts_left(*l, 1, '&', render(*r, 2), tail),
            Expr::Add(l, r) => lemma_render_starts_left(*l, 2, '+', render(*r, 3), tail),
            Expr::Subtract(l, r) => lemma_render_starts_left(*l, 2, '-', render(*r, 3), tail),
            Expr::Multiply(l, r) => lemma_render_starts_left(*l, 3, '*', render(*r, 4), tail),
            Expr::Divide(l, r) => lemma_render_starts_left(*l, 3, '/', render(*r, 4), tail),
            Expr::Caret(l, r) => lemma_render_starts_left(*l, 5, '^', render(*r, 4), tail),
            Expr::Negative(a) => {
                let inner = render(*a, 5) + tail;
                assert(render(e, min) + tail =~= seq!['-'] + inner);
                lemma_scan_symbol('-', inner);
            },
            Expr::Number(d) => {
                lemma_scan_number(d, tail);
            },
        }
    }
}

proof fn lemma_render_starts_left(
    left: Expr,
    min: int,
    c: char,
    right: Seq<char>,
    tail: Seq<char>,
)
    requires
        writable(left),
        punctuation(c) is Some,
    ensures
        next_token(render(left, min) + seq![c] + right + tail).0 is Some,
    decreases left, 1int,
{
    let rest = seq![c] + (right + tail);
    assert(rest[0] == c);
    assert(render(left, min) + seq![c] + right + tail =~= render(left, min) + rest);
    lemma_render_starts(left, min, rest);
}

/// One where `e` stands in parentheses at strength `p`, zero where it does
/// not.
spec fn wrapped(e: Expr, p: int) -> int {
    if strength(e) < p {
        1
    } else {
        0
    }
}

/// How many levels lie between `p` and the level that reads `e` itself: up
/// to the atom where `e` stands in parentheses, up to its own level where
/// it does not.
spec fn climb(e: Expr, p: int) -> int {
    if strength(e) < p {
        6 - p
    } else {
        strength(e) - p
    }
}

/// Where a binary operator stands between two written operands, the level of
/// the operator reads the left operand, the operator and the right operand,
/// and goes on with their join.
proof fn lemma_reads_join(op: BinaryOp, left: Expr, right: Expr, tail: Seq<char>)
    requires
        writable(left),
        writable(right),
        follows(tail),
        !extends(level_of(op).strength() + 1, cursor_at(tail).current),
    ensures
        binary(level_of(op), cursor_at(render(op.join(left, right), level_of(op).strength()) + tail))
            == chain(level_of(op), op.join(left, right), cursor_at(tail)),
    decreases op.join(left, right), 0int, 0int, 0int,
{
    let level = level_of(op);
    let s = level.strength();
    let e = op.join(left, right);
    let after = render(right, s + 1) + tail;
    let middle = seq![symbol(op)] + after;
    assert(render(e, s) + tail =~= render(left, s) + middle);
    lemma_scan_symbol(symbol(op), after);
    lemma_render_starts(right, s + 1, tail);
    let c1 = cursor_at(middle);
    let c2 = cursor_at(after);
    assert(level.operator(c1.current) == Some(op));
    assert(!extends(s + 1, c1.current));
    lemma_reads_chain(left, s, middle);
    assert(level_at(s) == level);
    assert(shift(c1) == (true, c2));
    lemma_reads(right, s + 1, tail);
    assert(operand(level, c2) == parse_at(s + 1, c2));
    lemma_progress(level, left, c2);
    assert(chain(level, left, c1) == chain(level, e, cursor_at(tail)));
}

/// The chain form of `lemma_reads` for a binary level: reading a written
/// tree at the level comes to the same as having read the tree and going on
/// with the rest of the level, provided that no tighter level would take the
/// token that follows.
proof fn lemma_reads_chain(e: Expr, p: int, tail: Seq<char>)
    requires
        writable(e),
        0 <= p <= 3,
        follows(tail),
        !extends(p + 1, cursor_at(tail).current),
    ensures
        binary(level_at(p), cursor_at(render(e, p) + tail)) == chain(
            level_at(p),
            e,
            cursor_at(tail),
        ),
    decreases e, wrapped(e, p), climb(e, p), 1int,
{
    if strength(e) == p {
        match e {
            Expr::Or(l, r) => lemma_reads_join(BinaryOp::Or, *l, *r, tail),
            Expr::And(l, r) => lemma_reads_join(BinaryOp::And, *l, *r, tail),
            Expr::Add(l, r) => lemma_reads_join(BinaryOp::Add, *l, *r, tail),
            Expr::Subtract(l, r) => lemma_reads_join(BinaryOp::Subtract, *l, *r, tail),
            Expr::Multiply(l, r) => lemma_reads_join(BinaryOp::Multiply, *l, *r, tail),
            Expr::Divide(l, r) => lemma_reads_join(BinaryOp::Divide, *l, *r, tail),
            _ => {},
        }
    } else {
        let level = level_at(p);
        let c = cursor_at(render(e, p) + tail);
        assert(render(e, p) == render(e, p + 1));
        lemma_reads(e, p + 1, tail);
        assert(operand(level, c) == parse_at(p + 1, c));
        lemma_progress(level, e, c);
    }
}

/// Reading a written tree gives the tree back and stops on the token that
/// follows it.
///
/// The tree `e` is written for a place of strength `p` and read by the
/// grammar function of that strength. The text `tail` after it must not
/// begin with a character that would run into a number, its first lexing
/// step must find a token, and that token must not be an operator that a
/// construct of strength `p` would take.
proof fn lemma_reads(e: Expr, p: int, tail: Seq<char>)
    requires
        writable(e),
        0 <= p <= 6,
        follows(tail),
        !extends(p, cursor_at(tail).current),
    ensures
        parse_at(p, cursor_at(render(e, p) + tail)) == (Ok::<Expr, ParseError>(e), cursor_at(tail)),
    decreases e, wrapped(e, p), climb(e, p), 2int,
{
    let c = cursor_at(render(e, p) + tail);
    let end = cursor_at(tail);
    if p <= 3 {
        lemma_reads_chain(e, p, tail);
        assert(level_at(p).operator(end.current) is None);
    } else if p == 4 {
        match e {
            Expr::Caret(l, r) => {
                let after = render(*r, 4) + tail;
                let middle = seq!['^'] + after;
                assert(render(e, 4) + tail =~= render(*l, 5) + middle);
                lemma_scan_symbol('^', after);
                lemma_render_starts(*r, 4, tail);
                lemma_reads(*l, 5, middle);
                lemma_reads(*r, 4, tail);
                let c1 = cursor_at(middle);
                assert(unary(c) == (Ok::<Expr, ParseError>(*l), c1));
                lemma_progress(Level::Term, e, c);
                assert(shift(c1) == (true, cursor_at(after)));
            },
            _ => {
                assert(render(e, 4) == render(e, 5));
                lemma_reads(e, 5, tail);
            },
        }
    } else if p == 5 {
        match e {
            Expr::Negative(a) => {
                let after = render(*a, 5) + tail;
                assert(render(e, 5) + tail =~= seq!['-'] + after);
                lemma_scan_symbol('-', after);
                lemma_render_starts(*a, 5, tail);
                lemma_reads(*a, 5, tail);
                assert(shift(c) == (true, cursor_at(after)));
            },
            Expr::Number(d) => {
                lemma_scan_number(d, tail);
                lemma_reads(e, 6, tail);
            },
            _ => {
                assert(render(e, 5) == render(e, 6));
                let inner = render(e, 0) + seq![')'] + tail;
                assert(render(e, 6) + tail =~= seq!['('] + inner);
                lemma_scan_symbol('(', inner);
                lemma_reads(e, 6, tail);
            },
        }
    } else {
        match e {
            Expr::Number(d) => {
                lemma_scan_number(d, tail);
                assert(shift(c) == (true, end));
            },
            _ => {
                let close = seq![')'] + tail;
                let inner = render(e, 0) + close;
                assert(render(e, 6) + tail =~= seq!['('] + inner);
                lemma_scan_symbol('(', inner);
                lemma_scan_symbol(')', tail);
                lemma_render_starts(e, 0, close);
                lemma_reads(e, 0, close);
                let c1 = cursor_at(inner);
                let c2 = cursor_at(close);
                assert(shift(c) == (true, c1));
                assert(binary(Level::BitOr, c1) == (Ok::<Expr, ParseError>(e), c2));
                assert(shift(c2) == (true, end));
            },
        }
    }
}

/// Parsing the text of a tree gives the tree back.
///
/// This holds of every tree whose numbers can be written starting with a
/// digit, as every number that the tokenizer hands out can.
pub proof fn lemma_parse_render(e: Expr)
    requires
        writable(e),
    ensures
        parse_text(render(e, 0)) == Ok::<Expr, ParseError>(e),
{
    let tail = Seq::<char>::empty();
    assert(skip_blanks(tail) == tail);
    assert(render(e, 0) + tail =~= render(e, 0));
    lemma_render_starts(e, 0, tail);
    lemma_reads(e, 0, tail);
}

/// A number under the cursor is writable.
spec fn sound(c: Cursor) -> bool {
    c.current matches Lexeme::Num(d) ==> d.writable()
}

/// What was read from a sound cursor: a sound cursor, and a writable tree if
/// a tree was read.
spec fn sound_outcome(p: Parsed) -> bool {
    &&& sound(p.1)
    &&& p.0 matches Ok(e) ==> writable(e)
}

/// A number that a lexing step finds is writable.
proof fn lemma_scan_writable(text: Seq<char>)
    ensures
        next_token(text).0 matches Some(Lexeme::Num(d)) ==> d.writable(),
{
    let t = skip_blanks(text);
    if t.len() > 0 && is_digit(t[0]) {
        assert(literal_len(t) >= 1);
        lemma_literal_len_bound(t);
        lemma_read_writable(t.take(literal_len(t) as int));
    }
}

proof fn lemma_shift_sound(c: Cursor)
    requires
        sound(c),
    ensures
        sound(shift(c).1),
{
    lemma_scan_writable(c.rest);
}

proof fn lemma_atom_sound(c: Cursor)
    requires
        sound(c),
    ensures
        sound_outcome(atom(c)),
    decreases c.pending(), 0int, 0int,
{
    lemma_shift_sound(c);
    lemma_shift_consumes(c);
    if c.current == Lexeme::LeftParen && shift(c).0 {
        let c1 = shift(c).1;
        lemma_binary_sound(Level::BitOr, c1);
        lemma_shift_sound(binary(Level::BitOr, c1).1);
    }
}

proof fn lemma_unary_sound(c: Cursor)
    requires
        sound(c),
    ensures
        sound_outcome(unary(c)),
    decreases c.pending(), 1int, 0int,
{
    lemma_shift_sound(c);
    lemma_shift_consumes(c);
    if c.current == Lexeme::Subtract {
        if shift(c).0 {
            lemma_unary_sound(shift(c).1);
        }
    } else {
        lemma_atom_sound(c);
    }
}

proof fn lemma_power_sound(c: Cursor)
    requires
        sound(c),
    ensures
        sound_outcome(power(c)),
    decreases c.pending(), 2int, 0int,
{
    lemma_unary_sound(c);
    let (r, c1) = unary(c);
    if r is Ok && c1.current == Lexeme::Caret && c1.pending() <= c.pending() {
        lemma_shift_sound(c1);
        lemma_shift_consumes(c1);
        if shift(c1).0 {
            lemma_power_sound(shift(c1).1);
        }
    }
}

proof fn lemma_operand_sound(level: Level, c: Cursor)
    requires
        sound(c),
    ensures
        sound_outcome(operand(level, c)),
    decreases c.pending(), 9 - 2 * level.strength(), 0int,
{
    match level {
        Level::BitOr => lemma_binary_sound(Level::BitAnd, c),
        Level::BitAnd => lemma_binary_sound(Level::AddSub, c),
        Level::AddSub => lemma_binary_sound(Level::Term, c),
        Level::Term => lemma_power_sound(c),
    }
}

proof fn lemma_binary_sound(level: Level, c: Cursor)
    requires
        sound(c),
    ensures
        sound_outcome(binary(level, c)),
    decreases c.pending(), 10 - 2 * level.strength(), 1int,
{
    lemma_operand_sound(level, c);
    let (r, c1) = operand(level, c);
    if let Ok(first) = r {
        if c1.pending() <= c.pending() {
            lemma_chain_sound(level, first, c1);
        }
    }
}

proof fn lemma_chain_sound(level: Level, left: Expr, c: Cursor)
    requires
        sound(c),
        writable(left),
    ensures
        sound_outcome(chain(level, left, c)),
    decreases c.pending(), 10 - 2 * level.strength(), 0int,
{
    if let Some(op) = level.operator(c.current) {
        lemma_shift_sound(c);
        lemma_shift_consumes(c);
        let (ok, c1) = shift(c);
        if ok {
            lemma_operand_sound(level, c1);
            let (r, c2) = operand(level, c1);
            if let Ok(right) = r {
                if c2.pending() <= c1.pending() {
                    lemma_chain_sound(level, op.join(left, right), c2);
                }
            }
        }
    }
}

/// Every tree that parsing gives can be written, and parsing what was
/// written gives the same tree again.
pub proof fn lemma_parse_writable(text: Seq<char>)
    ensures
        parse_text(text) matches Ok(e) ==> writable(e) && parse_text(render(e, 0)) == Ok::<
            Expr,
            ParseError,
        >(e),
{
    lemma_scan_writable(text);
    if let Some(c) = start(text) {
        lemma_binary_sound(Level::BitOr, c);
        if let Ok(e) = parse_text(text) {
            lemma_parse_render(e);
        }
    }
}

} // verus!
