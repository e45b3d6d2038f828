use parsemath::ast::BinaryOp;
use parsemath::ast::Node;
use parsemath::error::ParseError;
use parsemath::error::SyntaxError;
use parsemath::number::Number;
use parsemath::parser::parse;
use parsemath::parser::Parser;
use parsemath::token::Token;

#[derive(Debug, PartialEq)]
enum EvalError {
    DivisionByZero,
    Type,
}

fn to_float(n: &Number) -> f64 {
    let digits = n.digits();
    let point = digits.len() - n.scale();
    let mut text = String::new();
    for (i, d) in digits.iter().enumerate() {
        if i == point {
            text.push('.');
        }
        text.push((b'0' + d) as char);
    }
    text.parse().unwrap()
}

fn integral(left: f64, right: f64) -> Result<(i64, i64), EvalError> {
    if left.fract() != 0.0 || right.fract() != 0.0 {
        Err(EvalError::Type)
    } else {
        Ok((left as i64, right as i64))
    }
}

fn eval(expr: &Node) -> Result<f64, EvalError> {
    match expr {
        Node::Number(n) => Ok(to_float(n)),
        Node::Add(a, b) => Ok(eval(a)? + eval(b)?),
        Node::Subtract(a, b) => Ok(eval(a)? - eval(b)?),
        Node::Multiply(a, b) => Ok(eval(a)? * eval(b)?),
        Node::Divide(a, b) => {
            let divisor = eval(b)?;
            if divisor == 0.0 {
                Err(EvalError::DivisionByZero)
            } else {
                Ok(eval(a)? / divisor)
            }
        }
        Node::Caret(a, b) => Ok(eval(a)?.powf(eval(b)?)),
        Node::Negative(a) => Ok(-eval(a)?),
        Node::And(a, b) => {
            let (l, r) = integral(eval(a)?, eval(b)?)?;
            Ok((l & r) as f64)
        }
        Node::Or(a, b) => {
            let (l, r) = integral(eval(a)?, eval(b)?)?;
            Ok((l | r) as f64)
        }
    }
}

fn num(digits: Vec<u8>, scale: usize) -> Node {
    Node::Number(Number::new(digits, scale).unwrap())
}

fn whole(d: u8) -> Node {
    num(vec![d], 0)
}

fn join(op: BinaryOp, left: Node, right: Node) -> Node {
    op.apply(left, right)
}

fn caret(left: Node, right: Node) -> Node {
    Node::Caret(Box::new(left), Box::new(right))
}

fn neg(operand: Node) -> Node {
    Node::Negative(Box::new(operand))
}

fn syntax(kind: SyntaxError) -> ParseError {
    ParseError::Syntax(kind)
}

#[test]
fn test_expr1() {
    let ast = Parser::new("1+2-3").unwrap().parse().unwrap();
    assert_eq!(
        ast,
        join(BinaryOp::Subtract, join(BinaryOp::Add, whole(1), whole(2)), whole(3))
    );
    let value = eval(&ast).unwrap();
    assert_eq!(value, 0.0);
}

#[test]
fn test_expr2() {
    let ast = Parser::new("3+2-1*5/4").unwrap().parse().unwrap();
    assert_eq!(
        ast,
        join(
            BinaryOp::Subtract,
            join(BinaryOp::Add, whole(3), whole(2)),
            join(BinaryOp::Divide, join(BinaryOp::Multiply, whole(1), whole(5)), whole(4)),
        )
    );
    let value = eval(&ast).unwrap();
    assert_eq!(value, 3.75);
}

#[test]
fn test_expr3() {
    let ast = Parser::new("3+3 | 4").unwrap().parse().unwrap();
    assert_eq!(
        ast,
        join(BinaryOp::Or, join(BinaryOp::Add, whole(3), whole(3)), whole(4))
    );
    let value = eval(&ast).unwrap();
    assert_eq!(value, 6.0);
}

#[test]
fn bitwise_or_binds_last() {
    let ast = parse("3+3|4").unwrap();
    assert_eq!(
        ast,
        join(BinaryOp::Or, join(BinaryOp::Add, whole(3), whole(3)), whole(4))
    );
    assert_eq!(eval(&ast), Ok(6.0));
}

#[test]
fn bitwise_and_binds_tighter_than_or() {
    let ast = parse("1|2&3+4").unwrap();
    assert_eq!(
        ast,
        join(
            BinaryOp::Or,
            whole(1),
            join(BinaryOp::And, whole(2), join(BinaryOp::Add, whole(3), whole(4))),
        )
    );
    assert_eq!(eval(&ast), Ok(3.0));
}

#[test]
fn division_by_zero_is_found_when_evaluating() {
    let ast = parse("1/0").unwrap();
    assert_eq!(ast, join(BinaryOp::Divide, whole(1), whole(0)));
    assert_eq!(eval(&ast), Err(EvalError::DivisionByZero));
}

#[test]
fn a_fraction_is_no_operand_of_a_bitwise_operator() {
    let ast = parse("1.5&2").unwrap();
    assert_eq!(ast, join(BinaryOp::And, num(vec![1, 5], 1), whole(2)));
    assert_eq!(eval(&ast), Err(EvalError::Type));
}

#[test]
fn an_open_group_is_a_syntax_error() {
    assert_eq!(
        parse("(1+2"),
        Err(syntax(SyntaxError::MissingRightParen))
    );
    assert!(parse("(1+2").unwrap_err().is_syntax());
    assert_eq!(
        parse("(1+2 3)"),
        Err(syntax(SyntaxError::MissingRightParen))
    );
}

#[test]
fn an_invalid_character_is_a_lexical_error() {
    assert_eq!(parse("#"), Err(ParseError::Lexical));
    assert!(parse("#").unwrap_err().is_lexical());
    assert!(!parse("#").unwrap_err().is_syntax());
    assert!(Parser::new("#").is_err());
    assert_eq!(parse("1+#"), Err(ParseError::Lexical));
    assert_eq!(parse("(#"), Err(ParseError::Lexical));
    assert_eq!(parse("-#"), Err(ParseError::Lexical));
    assert_eq!(parse("2^#"), Err(ParseError::Lexical));
    assert_eq!(parse("(1)#"), Err(ParseError::Lexical));
    assert_eq!(parse("1.2.3"), Err(ParseError::Lexical));
}

#[test]
fn exponentiation_groups_to_the_right() {
    let ast = parse("2^3^2").unwrap();
    assert_eq!(ast, caret(whole(2), caret(whole(3), whole(2))));
    assert_eq!(eval(&ast), Ok(512.0));
}

#[test]
fn negation_binds_tighter_than_exponentiation() {
    let ast = parse("-2^2").unwrap();
    assert_eq!(ast, caret(neg(whole(2)), whole(2)));
    assert_eq!(eval(&ast), Ok(4.0));
}

#[test]
fn an_exponent_may_be_negated() {
    let ast = parse("2^-2").unwrap();
    assert_eq!(ast, caret(whole(2), neg(whole(2))));
    assert_eq!(eval(&ast), Ok(0.25));
}

#[test]
fn negation_may_be_repeated() {
    let ast = parse("--3").unwrap();
    assert_eq!(ast, neg(neg(whole(3))));
    assert_eq!(eval(&ast), Ok(3.0));
}

#[test]
fn subtraction_and_division_group_to_the_left() {
    let ast = parse("8-3-2").unwrap();
    assert_eq!(
        ast,
        join(BinaryOp::Subtract, join(BinaryOp::Subtract, whole(8), whole(3)), whole(2))
    );
    assert_eq!(eval(&ast), Ok(3.0));
    let ast = parse("8/4/2").unwrap();
    assert_eq!(
        ast,
        join(BinaryOp::Divide, join(BinaryOp::Divide, whole(8), whole(4)), whole(2))
    );
    assert_eq!(eval(&ast), Ok(1.0));
}

#[test]
fn a_group_overrides_precedence() {
    let ast = parse("(1+2)*3").unwrap();
    assert_eq!(
        ast,
        join(BinaryOp::Multiply, join(BinaryOp::Add, whole(1), whole(2)), whole(3))
    );
    assert_eq!(eval(&ast), Ok(9.0));
    let ast = parse("2*(3+4)/(1+1)").unwrap();
    assert_eq!(eval(&ast), Ok(7.0));
    let ast = parse("((7))").unwrap();
    assert_eq!(ast, whole(7));
}

#[test]
fn multiplication_binds_tighter_than_addition() {
    let ast = parse("1+2*3").unwrap();
    assert_eq!(
        ast,
        join(BinaryOp::Add, whole(1), join(BinaryOp::Multiply, whole(2), whole(3)))
    );
    assert_eq!(eval(&ast), Ok(7.0));
}

#[test]
fn exponentiation_binds_tighter_than_multiplication() {
    let ast = parse("2*3^2").unwrap();
    assert_eq!(
        ast,
        join(BinaryOp::Multiply, whole(2), caret(whole(3), whole(2)))
    );
    assert_eq!(eval(&ast), Ok(18.0));
}

#[test]
fn a_missing_operand_is_a_syntax_error() {
    assert_eq!(parse(""), Err(syntax(SyntaxError::UnexpectedEnd)));
    assert_eq!(parse("1+"), Err(syntax(SyntaxError::UnexpectedEnd)));
    assert_eq!(parse("-"), Err(syntax(SyntaxError::UnexpectedEnd)));
    assert_eq!(parse("("), Err(syntax(SyntaxError::UnexpectedEnd)));
    assert_eq!(parse("2^"), Err(syntax(SyntaxError::UnexpectedEnd)));
    assert_eq!(parse("*2"), Err(syntax(SyntaxError::UnexpectedToken)));
    assert_eq!(parse("1+*2"), Err(syntax(SyntaxError::UnexpectedToken)));
    assert_eq!(parse("()"), Err(syntax(SyntaxError::UnexpectedToken)));
    assert_eq!(parse(")"), Err(syntax(SyntaxError::UnexpectedToken)));
    assert_eq!(parse("1|&2"), Err(syntax(SyntaxError::UnexpectedToken)));
}

#[test]
fn tokens_after_the_expression_are_left_unread() {
    let mut parser = Parser::new("1+2)3").unwrap();
    assert_eq!(parser.parse(), Ok(join(BinaryOp::Add, whole(1), whole(2))));
    assert_eq!(parser.current_token(), &Token::RightParen);
    let mut parser = Parser::new("1 2").unwrap();
    assert_eq!(parser.parse(), Ok(whole(1)));
    assert_eq!(parser.current_token(), &Token::Num(Number::new(vec![2], 0).unwrap()));
    assert_eq!(parser.parse(), Ok(whole(2)));
    assert_eq!(parser.current_token(), &Token::EOF);
}

#[test]
fn a_whole_expression_ends_at_the_end_marker() {
    let mut parser = Parser::new("3+2-1*5/4").unwrap();
    assert!(parser.parse().is_ok());
    assert_eq!(parser.current_token(), &Token::EOF);
}

#[test]
fn the_first_token_is_read_at_once() {
    let parser = Parser::new("  (1)").unwrap();
    assert_eq!(parser.current_token(), &Token::LeftParen);
}

#[test]
fn arithmetic_follows_the_usual_rules() {
    assert_eq!(eval(&parse("1+2*3-4/2").unwrap()), Ok(5.0));
    assert_eq!(eval(&parse("(1+2)*(3-4)/2").unwrap()), Ok(-1.5));
    assert_eq!(eval(&parse("0.1+0.2").unwrap()), Ok(0.1 + 0.2));
    assert_eq!(eval(&parse("1/3").unwrap()), Ok(1.0 / 3.0));
    assert_eq!(eval(&parse("7&3").unwrap()), Ok(3.0));
    assert_eq!(eval(&parse("-7.5*2").unwrap()), Ok(-15.0));
}

#[test]
fn a_clone_of_a_tree_equals_it() {
    let ast = parse("-(1+2.5)^3|4&5").unwrap();
    assert_eq!(ast.clone(), ast);
}

#[test]
fn apply_builds_the_node_of_the_operator() {
    assert_eq!(
        BinaryOp::Or.apply(whole(1), whole(2)),
        Node::Or(Box::new(whole(1)), Box::new(whole(2)))
    );
    assert_eq!(
        BinaryOp::And.apply(whole(1), whole(2)),
        Node::And(Box::new(whole(1)), Box::new(whole(2)))
    );
    assert_eq!(
        BinaryOp::Add.apply(whole(1), whole(2)),
        Node::Add(Box::new(whole(1)), Box::new(whole(2)))
    );
    assert_eq!(
        BinaryOp::Subtract.apply(whole(1), whole(2)),
        Node::Subtract(Box::new(whole(1)), Box::new(whole(2)))
    );
    assert_eq!(
        BinaryOp::Multiply.apply(whole(1), whole(2)),
        Node::Multiply(Box::new(whole(1)), Box::new(whole(2)))
    );
    assert_eq!(
        BinaryOp::Divide.apply(whole(1), whole(2)),
        Node::Divide(Box::new(whole(1)), Box::new(whole(2)))
    );
}

#[test]
fn text_with_the_fewest_parentheses_reads_back() {
    assert_eq!(
        parse("1-(2-3)").unwrap(),
        join(BinaryOp::Subtract, whole(1), join(BinaryOp::Subtract, whole(2), whole(3)))
    );
    assert_eq!(
        parse("(2^3)^2").unwrap(),
        caret(caret(whole(2), whole(3)), whole(2))
    );
    assert_eq!(eval(&parse("(2^3)^2").unwrap()), Ok(64.0));
    assert_eq!(
        parse("-(2^2)").unwrap(),
        neg(caret(whole(2), whole(2)))
    );
    assert_eq!(eval(&parse("-(2^2)").unwrap()), Ok(-4.0));
    assert_eq!(
        parse("(1|2)&3").unwrap(),
        join(BinaryOp::And, join(BinaryOp::Or, whole(1), whole(2)), whole(3))
    );
    assert_eq!(
        parse("1--2").unwrap(),
        join(BinaryOp::Subtract, whole(1), neg(whole(2)))
    );
    assert_eq!(
        parse("(1+2)^-3.5/4").unwrap(),
        join(
            BinaryOp::Divide,
            caret(join(BinaryOp::Add, whole(1), whole(2)), neg(num(vec![3, 5], 1))),
            whole(4),
        )
    );
}

#[test]
fn blanks_between_tokens_are_dropped_by_the_parser() {
    assert_eq!(parse(" 3 \t| 4  "), parse("3|4"));
    assert_eq!(
        parse("( 1 + 2 ) * - 3").unwrap(),
        join(
            BinaryOp::Multiply,
            join(BinaryOp::Add, whole(1), whole(2)),
            neg(whole(3)),
        )
    );
    assert_eq!(parse("   "), Err(syntax(SyntaxError::UnexpectedEnd)));
    assert_eq!(parse("1 +"), Err(syntax(SyntaxError::UnexpectedEnd)));
}

#[test]
fn a_blank_inside_a_number_parts_it() {
    let mut parser = Parser::new("3 4").unwrap();
    assert_eq!(parser.parse(), Ok(whole(3)));
    assert_eq!(parser.current_token(), &Token::Num(Number::new(vec![4], 0).unwrap()));
    assert_eq!(
        parse("1. 5"),
        Ok(whole(1))
    );
}

#[test]
fn other_white_space_is_a_lexical_error() {
    assert_eq!(parse("1 +\n2"), Err(ParseError::Lexical));
    assert_eq!(parse("\n1"), Err(ParseError::Lexical));
    assert_eq!(parse("1\r"), Err(ParseError::Lexical));
}
