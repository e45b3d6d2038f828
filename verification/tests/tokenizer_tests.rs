use parsemath::error::ParseError;
use parsemath::number::Number;
use parsemath::token::Token;
use parsemath::tokenizer::tokenize;
use parsemath::tokenizer::Tokenizer;

fn number(digits: Vec<u8>, scale: usize) -> Number {
    Number::new(digits, scale).unwrap()
}

fn to_float(n: &Number) -> f64 {
    let digits = n.digits();
    let point = digits.len() - n.scale();
    let mut text = String::new();
    for (i, d) in digits.iter().enumerate() {
        if i == point {
            text.push('.');
        }
        text.push((b'0' + d) as char);
    }
    text.parse().unwrap()
}

fn float_of(token: &Token) -> Option<f64> {
    match token {
        Token::Num(n) => Some(to_float(n)),
        _ => None,
    }
}

#[test]
fn test_positive_integer() {
    let mut tokenizer = Tokenizer::new("34");
    let token = tokenizer.next().unwrap();
    assert_eq!(float_of(&token), Some(34.0));
    assert_eq!(token, Token::Num(number(vec![3, 4], 0)))
}

#[test]
fn test_decimal_number() {
    let mut tokenizer = Tokenizer::new("34.5");
    let token = tokenizer.next().unwrap();
    assert_eq!(float_of(&token), Some(34.5));
    assert_eq!(token, Token::Num(number(vec![3, 4, 5], 1)))
}

#[test]
fn test_invalid_char() {
    let mut tokenizer = Tokenizer::new("#$%");
    assert_eq!(tokenizer.next(), None);
}

#[test]
fn every_operator_has_its_token() {
    let mut tokenizer = Tokenizer::new("+-*/^()&|");
    assert_eq!(tokenizer.next(), Some(Token::Add));
    assert_eq!(tokenizer.next(), Some(Token::Subtract));
    assert_eq!(tokenizer.next(), Some(Token::Multiply));
    assert_eq!(tokenizer.next(), Some(Token::Divide));
    assert_eq!(tokenizer.next(), Some(Token::Caret));
    assert_eq!(tokenizer.next(), Some(Token::LeftParen));
    assert_eq!(tokenizer.next(), Some(Token::RightParen));
    assert_eq!(tokenizer.next(), Some(Token::And));
    assert_eq!(tokenizer.next(), Some(Token::Or));
    assert_eq!(tokenizer.next(), Some(Token::EOF));
}

#[test]
fn end_of_input_is_a_token_and_repeats() {
    let mut tokenizer = Tokenizer::new("");
    assert_eq!(tokenizer.next(), Some(Token::EOF));
    assert_eq!(tokenizer.next(), Some(Token::EOF));
}

#[test]
fn a_blank_is_no_token() {
    assert_eq!(Tokenizer::new(" ").next(), None);
    assert_eq!(Tokenizer::new("\t").next(), None);
    assert_eq!(Tokenizer::new(" 1").next(), None);
    assert_eq!(Tokenizer::new("  \t").next(), None);
}

#[test]
fn a_blank_is_consumed_like_any_other_character() {
    let mut tokenizer = Tokenizer::new(" 3 \t|");
    assert_eq!(tokenizer.next(), None);
    assert_eq!(tokenizer.next(), Some(Token::Num(number(vec![3], 0))));
    assert_eq!(tokenizer.next(), None);
    assert_eq!(tokenizer.next(), None);
    assert_eq!(tokenizer.next(), Some(Token::Or));
    assert_eq!(tokenizer.next(), Some(Token::EOF));
}

#[test]
fn a_blank_ends_a_literal() {
    let mut tokenizer = Tokenizer::new("3 4");
    assert_eq!(tokenizer.next(), Some(Token::Num(number(vec![3], 0))));
    assert_eq!(tokenizer.next(), None);
    assert_eq!(tokenizer.next(), Some(Token::Num(number(vec![4], 0))));
    assert_eq!(tokenizer.next(), Some(Token::EOF));
}

#[test]
fn the_first_token_is_the_end_marker_only_of_empty_text() {
    assert_eq!(Tokenizer::new("").next(), Some(Token::EOF));
    for text in [" ", "\t", "\n", "#", ".", "x", "1", "+", "\u{0663}"] {
        assert_ne!(Tokenizer::new(text).next(), Some(Token::EOF));
    }
}

#[test]
fn letters_and_newlines_are_not_tokens() {
    assert_eq!(Tokenizer::new("x").next(), None);
    assert_eq!(Tokenizer::new("\n1").next(), None);
    assert_eq!(Tokenizer::new(".5").next(), None);
}

#[test]
fn an_invalid_character_is_consumed() {
    let mut tokenizer = Tokenizer::new("#7");
    assert_eq!(tokenizer.next(), None);
    assert_eq!(tokenizer.next(), Some(Token::Num(number(vec![7], 0))));
}

#[test]
fn two_decimal_points_yield_no_token() {
    let mut tokenizer = Tokenizer::new("1.2.3+4");
    assert_eq!(tokenizer.next(), None);
    assert_eq!(tokenizer.next(), Some(Token::Add));
}

#[test]
fn a_trailing_decimal_point_is_accepted() {
    let mut tokenizer = Tokenizer::new("34.");
    let token = tokenizer.next().unwrap();
    assert_eq!(float_of(&token), Some(34.0));
    assert_eq!(token, Token::Num(number(vec![3, 4], 0)));
    assert_eq!(tokenizer.next(), Some(Token::EOF));
}

#[test]
fn leading_and_trailing_zeros_are_kept() {
    let mut tokenizer = Tokenizer::new("007.50");
    let token = tokenizer.next().unwrap();
    assert_eq!(float_of(&token), Some(7.5));
    assert_eq!(token, Token::Num(number(vec![0, 0, 7, 5, 0], 2)));
}

#[test]
fn parse_number_takes_the_run_of_digits_and_points() {
    let mut tokenizer = Tokenizer::new("12.5.7+3");
    assert_eq!(tokenizer.parse_number(), "12.5.7");
    assert_eq!(tokenizer.next(), Some(Token::Add));
}

#[test]
fn parse_number_may_take_nothing() {
    let mut tokenizer = Tokenizer::new("+3");
    assert_eq!(tokenizer.parse_number(), "");
    assert_eq!(tokenizer.next(), Some(Token::Add));
    let mut blank = Tokenizer::new(" 3");
    assert_eq!(blank.parse_number(), "");
}

#[test]
fn parse_number_stops_at_non_ascii_digits() {
    let mut tokenizer = Tokenizer::new("1\u{0663}");
    assert_eq!(tokenizer.parse_number(), "1");
    assert_eq!(tokenizer.next(), None);
}

#[test]
fn tokenize_gives_every_token_up_to_the_end() {
    let tokens = tokenize("(1.5+2)*3").unwrap();
    assert_eq!(
        tokens,
        vec![
            Token::LeftParen,
            Token::Num(number(vec![1, 5], 1)),
            Token::Add,
            Token::Num(number(vec![2], 0)),
            Token::RightParen,
            Token::Multiply,
            Token::Num(number(vec![3], 0)),
            Token::EOF,
        ]
    );
}

#[test]
fn tokenize_of_nothing_is_the_end_marker() {
    assert_eq!(tokenize(""), Ok(vec![Token::EOF]));
}

#[test]
fn tokenize_fails_on_a_blank() {
    assert_eq!(tokenize(" "), Err(ParseError::Lexical));
    assert_eq!(tokenize("  \t"), Err(ParseError::Lexical));
    assert_eq!(tokenize("1 + 2"), Err(ParseError::Lexical));
    assert_eq!(tokenize("1+2 "), Err(ParseError::Lexical));
}

#[test]
fn tokenize_fails_on_an_invalid_character() {
    assert_eq!(tokenize("#"), Err(ParseError::Lexical));
    assert_eq!(tokenize("1+#"), Err(ParseError::Lexical));
    assert_eq!(tokenize("1.2.3"), Err(ParseError::Lexical));
}

#[test]
fn an_integer_is_one_number_then_the_end() {
    for n in [0u64, 7, 10, 34, 1000, 4294967296, u64::MAX] {
        let text = n.to_string();
        let tokens = tokenize(&text).unwrap();
        assert_eq!(tokens.len(), 2);
        assert_eq!(float_of(&tokens[0]), Some(n as f64));
        let digits: Vec<u8> = text.bytes().map(|b| b - b'0').collect();
        assert_eq!(tokens[0], Token::Num(number(digits, 0)));
        assert_eq!(tokens[1], Token::EOF);
    }
}

#[test]
fn a_negative_integer_starts_with_a_minus_token() {
    let tokens = tokenize("-5").unwrap();
    assert_eq!(
        tokens,
        vec![Token::Subtract, Token::Num(number(vec![5], 0)), Token::EOF]
    );
}

#[test]
fn a_clone_of_a_token_equals_it() {
    let token = Token::Num(number(vec![1, 2], 1));
    assert_eq!(token.clone(), token);
    assert_eq!(Token::Caret.clone(), Token::Caret);
}
