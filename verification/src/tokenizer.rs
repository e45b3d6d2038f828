//! Reads an expression character by character and hands out its tokens.
//!
//! A token begins with a digit or is one of `+ - * / ^ ( ) & |`. At any other
//! character, a blank included, and at a numeric literal with more than one
//! decimal point, the tokenizer hands out no token. It never skips anything
//! of its own accord; the parser is where blanks between tokens are dropped.
use vstd::prelude::*;
use vstd::string::StringExecFns;
use crate::error::ParseError;
use crate::number::decimal_digits;
use crate::number::decimal_of;
use crate::number::decimal_text;
use crate::number::is_digit;
use crate::number::is_digit_char;
use crate::number::is_literal_char;
use crate::number::lemma_decimal_digits;
use crate::number::lemma_decimal_text;
use crate::number::Decimal;
use crate::number::Number;
use crate::token::token_view;
use crate::token::tokens_view;
use crate::token::Lexeme;
use crate::token::Token;

verus! {

/// `std::string::String::push` appends one character to the end of the
/// string and leaves the rest of it as it was.
pub assume_specification[ String::push ](s: &mut String, c: char)
    ensures
        final(s)@ == old(s)@.push(c),
;

/// `c` is a space or a tab.
pub open spec fn is_blank(c: char) -> bool {
    c == ' ' || c == '\t'
}

/// `text` without its leading blanks.
pub open spec fn skip_blanks(text: Seq<char>) -> Seq<char>
    decreases text.len(),
{
    if text.len() > 0 && is_blank(text[0]) {
        skip_blanks(text.drop_first())
    } else {
        text
    }
}

/// The length of the longest prefix of `text` made of digits and decimal
/// points.
pub open spec fn literal_len(text: Seq<char>) -> nat
    decreases text.len(),
{
    if text.len() > 0 && is_literal_char(text[0]) {
        literal_len(text.drop_first()) + 1
    } else {
        0
    }
}

/// The token that the single character `c` writes, if any.
pub open spec fn punctuation(c: char) -> Option<Lexeme> {
    if c == '+' {
        Some(Lexeme::Add)
    } else if c == '-' {
        Some(Lexeme::Subtract)
    } else if c == '*' {
        Some(Lexeme::Multiply)
    } else if c == '/' {
        Some(Lexeme::Divide)
    } else if c == '^' {
        Some(Lexeme::Caret)
    } else if c == '(' {
        Some(Lexeme::LeftParen)
    } else if c == ')' {
        Some(Lexeme::RightParen)
    } else if c == '&' {
        Some(Lexeme::And)
    } else if c == '|' {
        Some(Lexeme::Or)
    } else {
        None
    }
}

/// One lexing step on `text`: the token found, or `None` where the text
/// cannot be lexed, and the text that is left after the step.
///
/// At the end of the text the token is `EOF`, and only there. A digit starts
/// a numeric literal that runs as far as digits and decimal points go; the
/// step yields no token when that run holds more than one decimal point. Any
/// other character is consumed, and yields its operator or parenthesis token
/// if it writes one: a blank, a letter or a leading decimal point yields
/// none.
pub open spec fn scan(text: Seq<char>) -> (Option<Lexeme>, Seq<char>) {
    if text.len() == 0 {
        (Some(Lexeme::EOF), text)
    } else if is_digit(text[0]) {
        let n = literal_len(text) as int;
        (
            match decimal_of(text.take(n)) {
                Some(d) => Some(Lexeme::Num(d)),
                None => None,
            },
            text.skip(n),
        )
    } else {
        (punctuation(text[0]), text.drop_first())
    }
}

/// Skipping blanks never lengthens the text.
pub proof fn lemma_skip_blanks_len(text: Seq<char>)
    ensures
        skip_blanks(text).len() <= text.len(),
        skip_blanks(text).len() > 0 ==> !is_blank(skip_blanks(text)[0]),
    decreases text.len(),
{
    if text.len() > 0 && is_blank(text[0]) {
        lemma_skip_blanks_len(text.drop_first());
    }
}

/// A literal run is a prefix of the text.
pub proof fn lemma_literal_len_bound(text: Seq<char>)
    ensures
        literal_len(text) <= text.len(),
    decreases text.len(),
{
    if text.len() > 0 && is_literal_char(text[0]) {
        lemma_literal_len_bound(text.drop_first());
    }
}

/// A lexing step never lengthens the text, and shortens it whenever it finds
/// a token other than `EOF`.
pub proof fn lemma_scan_consumes(text: Seq<char>)
    ensures
        scan(text).1.len() <= text.len(),
        scan(text).0 != Some(Lexeme::EOF) ==> scan(text).1.len() < text.len(),
{
    lemma_literal_len_bound(text);
}

/// Every token of `text` up to and including `EOF`, or `None` when a lexing
/// step fails before the end is reached.
pub open spec fn lex(text: Seq<char>) -> Option<Seq<Lexeme>>
    decreases text.len(),
{
    match scan(text) {
        (None, _) => None,
        (Some(Lexeme::EOF), _) => Some(seq![Lexeme::EOF]),
        (Some(t), rest) => {
            proof {
                lemma_scan_consumes(text);
            }
            match lex(rest) {
                Some(ts) => Some(seq![t] + ts),
                None => None,
            }
        },
    }
}

/// A run of digits and decimal points is a literal run as a whole.
pub proof fn lemma_literal_len_all(text: Seq<char>)
    requires
        forall|i: int| 0 <= i < text.len() ==> is_literal_char(#[trigger] text[i]),
    ensures
        literal_len(text) == text.len(),
    decreases text.len(),
{
    if text.len() > 0 {
        assert(is_literal_char(text[0]));
        lemma_literal_len_all(text.drop_first());
    }
}

/// Lexing the decimal string of a natural number gives one number token,
/// whose digits are the decimal digits of the number and whose value is the
/// number, and then `EOF`.
pub proof fn lemma_lex_integer(n: nat)
    ensures
        lex(decimal_text(n)) == Some(
            seq![Lexeme::Num(Decimal { digits: decimal_digits(n), scale: 0 }), Lexeme::EOF],
        ),
        (Decimal { digits: decimal_digits(n), scale: 0 }).mantissa() == n,
{
    let text = decimal_text(n);
    let d = Decimal { digits: decimal_digits(n), scale: 0 };
    lemma_decimal_text(n);
    lemma_decimal_digits(n);
    lemma_literal_len_all(text);
    assert(is_digit(text[0]));
    assert(text.take(text.len() as int) == text);
    let rest = text.skip(text.len() as int);
    assert(rest.len() == 0);
    assert(scan(text) == (Some(Lexeme::Num(d)), rest));
    assert(scan(rest) == (Some(Lexeme::EOF), rest));
    assert(lex(rest) == Some(seq![Lexeme::EOF]));
    assert(seq![Lexeme::Num(d)] + seq![Lexeme::EOF] =~= seq![Lexeme::Num(d), Lexeme::EOF]);
}

/// A cursor over the characters of an expression.
pub struct Tokenizer {
    chars: Vec<char>,
    pos: usize,
}

impl View for Tokenizer {
    type V = Seq<char>;

    /// The characters not yet consumed.
    closed spec fn view(&self) -> Seq<char> {
        self.chars@.skip(self.pos as int)
    }
}

impl Tokenizer {
    #[verifier::type_invariant]
    spec fn inv(self) -> bool {
        self.pos <= self.chars@.len()
    }

    /// Starts at the first character of `new_expr`. Nothing is checked yet.
    pub fn new(new_expr: &str) -> (r: Tokenizer)
        ensures
            r@ == new_expr@,
    {
        let mut chars: Vec<char> = Vec::new();
        for c in it: new_expr.chars()
            invariant
                it.seq() == new_expr@,
                chars@ == it.seq().take(it.index() as int),
        {
            chars.push(c);
        }
        Tokenizer { chars, pos: 0 }
    }

    /// Consumes the longest run of digits and decimal points at the cursor
    /// and returns it. The run may be empty.
    pub fn parse_number(&mut self) -> (num: String)
        ensures
            num@ == old(self)@.take(literal_len(old(self)@) as int),
            final(self)@ == old(self)@.skip(literal_len(old(self)@) as int),
    {
        proof {
            use_type_invariant(&*self);
        }
        let mut num = String::new();
        let ghost start = self.pos as int;
        while self.pos < self.chars.len() && (is_digit_char(self.chars[self.pos])
            || self.chars[self.pos] == '.')
            invariant
                0 <= start <= self.pos <= self.chars@.len(),
                self.chars@ == old(self).chars@,
                num@ == self.chars@.subrange(start, self.pos as int),
                literal_len(old(self)@) == (self.pos - start) + literal_len(self@),
            decreases self.chars@.len() - self.pos,
        {
            let ch = self.chars[self.pos];
            num.push(ch);
            proof {
                assert(self@.drop_first() == self.chars@.skip(self.pos + 1));
                assert(num@ =~= self.chars@.subrange(start, self.pos + 1));
            }
            self.pos = self.pos + 1;
        }
        proof {
            let n = literal_len(old(self)@) as int;
            assert(num@ == old(self)@.take(n));
            assert(self@ == old(self)@.skip(n));
        }
        num
    }

    /// Moves the cursor past the blanks it stands on.
    pub(crate) fn skip_blanks(&mut self)
        ensures
            final(self)@ == skip_blanks(old(self)@),
    {
        proof {
            use_type_invariant(&*self);
        }
        while self.pos < self.chars.len() && (self.chars[self.pos] == ' ' || self.chars[self.pos]
            == '\t')
            invariant
                self.pos <= self.chars@.len(),
                skip_blanks(self@) == skip_blanks(old(self)@),
            decreases self.chars@.len() - self.pos,
        {
            proof {
                assert(self@.drop_first() == self.chars@.skip(self.pos + 1));
            }
            self.pos = self.pos + 1;
        }
    }

    /// Takes the next token off the input: one lexing step. Returns `None`
    /// where no token begins at the cursor; the offending character or
    /// literal is consumed all the same. At the end of the input, and only
    /// there, every call returns `EOF`.
    pub fn next(&mut self) -> (r: Option<Token>)
        ensures
            token_view(r) == scan(old(self)@).0,
            final(self)@ == scan(old(self)@).1,
    {
        proof {
            use_type_invariant(&*self);
        }
        if self.pos >= self.chars.len() {
            return Some(Token::EOF);
        }
        let ghost text = self@;
        let first = self.chars[self.pos];
        proof {
            assert(text.drop_first() == self.chars@.skip(self.pos + 1));
        }
        self.pos = self.pos + 1;
        if is_digit_char(first) {
            let mut num = String::new();
            num.push(first);
            let tail = self.parse_number();
            num.append(tail.as_str());
            proof {
                let m = literal_len(text.drop_first()) as int;
                lemma_literal_len_bound(text.drop_first());
                assert(literal_len(text) == m + 1);
                assert(num@ =~= text.take(m + 1));
                assert(self@ =~= text.skip(m + 1));
            }
            match Number::parse(num.as_str()) {
                Some(n) => Some(Token::Num(n)),
                None => None,
            }
        } else {
            match first {
                '+' => Some(Token::Add),
                '-' => Some(Token::Subtract),
                '*' => Some(Token::Multiply),
                '/' => Some(Token::Divide),
                '^' => Some(Token::Caret),
                '(' => Some(Token::LeftParen),
                ')' => Some(Token::RightParen),
                '&' => Some(Token::And),
                '|' => Some(Token::Or),
                _ => None,
            }
        }
    }
}

/// Lexes the whole of `input`: every token up to and including `EOF`. Fails
/// with a lexical error as soon as one lexing step yields no token.
pub fn tokenize(input: &str) -> (r: Result<Vec<Token>, ParseError>)
    ensures
        match r {
            Ok(tokens) => lex(input@) == Some(tokens_view(tokens@)),
            Err(e) => e == ParseError::Lexical && lex(input@) is None,
        },
{
    let mut tokenizer = Tokenizer::new(input);
    let mut tokens: Vec<Token> = Vec::new();
    loop
        invariant
            match lex(tokenizer@) {
                Some(rest) => lex(input@) == Some(tokens_view(tokens@) + rest),
                None => lex(input@) is None,
            },
        decreases tokenizer@.len(),
    {
        let ghost before = tokenizer@;
        let ghost seen = tokens@;
        proof {
            lemma_scan_consumes(before);
        }
        match tokenizer.next() {
            None => {
                return Err(ParseError::Lexical);
            },
            Some(Token::EOF) => {
                tokens.push(Token::EOF);
                proof {
                    assert(tokens_view(tokens@) =~= tokens_view(seen) + seq![Lexeme::EOF]);
                }
                return Ok(tokens);
            },
            Some(t) => {
                tokens.push(t);
                proof {
                    if lex(tokenizer@) is Some {
                        let rest = lex(tokenizer@)->0;
                        assert(tokens_view(tokens@) + rest =~= tokens_view(seen) + (seq![t@]
                            + rest));
                    }
                }
            },
        }
    }
}

} // verus!
