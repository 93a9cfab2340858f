use nim::lexer::{tokenize, Token};
use nim::parser::{parse, parse_expression, parse_factor, Expr, ParseError};

fn num(x: f64) -> Expr {
    Expr::Number(x.to_bits())
}

fn var(name: &str) -> Expr {
    Expr::Variable(name.to_string())
}

fn bin(left: Expr, op: char, right: Expr) -> Expr {
    Expr::BinaryOp { left: Box::new(left), op, right: Box::new(right) }
}

fn call(name: &str, args: Vec<Expr>) -> Expr {
    Expr::FunctionCall { name: name.to_string(), args }
}

fn parsed(text: &str) -> Result<Expr, ParseError> {
    parse(&tokenize(text).unwrap())
}

#[test]
fn product_binds_tighter_than_sum() {
    assert_eq!(parsed("2 + 3 * 4"), Ok(bin(num(2.0), '+', bin(num(3.0), '*', num(4.0)))));
    assert_eq!(parsed("2 * 3 + 4"), Ok(bin(bin(num(2.0), '*', num(3.0)), '+', num(4.0))));
    assert_eq!(
        parsed("1 - 2 / 3 - 4 ^ 5"),
        Ok(bin(bin(num(1.0), '-', bin(num(2.0), '/', num(3.0))), '-', bin(num(4.0), '^', num(5.0))))
    );
}

#[test]
fn operators_of_one_level_associate_to_the_left() {
    assert_eq!(parsed("1 - 2 - 3"), Ok(bin(bin(num(1.0), '-', num(2.0)), '-', num(3.0))));
    assert_eq!(parsed("8 / 4 / 2"), Ok(bin(bin(num(8.0), '/', num(4.0)), '/', num(2.0))));
    assert_eq!(parsed("2 ^ 3 ^ 2"), Ok(bin(bin(num(2.0), '^', num(3.0)), '^', num(2.0))));
    assert_eq!(parsed("2 * 3 ^ 2"), Ok(bin(bin(num(2.0), '*', num(3.0)), '^', num(2.0))));
}

#[test]
fn literals() {
    assert_eq!(parsed("42"), Ok(num(42.0)));
    assert_eq!(parsed("1.5"), Ok(Expr::Decimal("1.5".to_string())));
    assert_eq!(parsed("\"hi\""), Ok(Expr::String("hi".to_string())));
    assert_eq!(parsed("x"), Ok(var("x")));
}

#[test]
fn integer_literals_are_widened_when_parsed() {
    assert_eq!(parsed("9007199254740993"), Ok(num(9007199254740992.0)));
    assert_eq!(parsed("9223372036854775807"), Ok(num(9223372036854775808.0)));
}

#[test]
fn assignment_takes_the_rest_as_its_value() {
    assert_eq!(
        parsed("x = 5"),
        Ok(Expr::Assignment { name: "x".to_string(), value: Box::new(num(5.0)) })
    );
    assert_eq!(
        parsed("x = 1 + y;"),
        Ok(Expr::Assignment {
            name: "x".to_string(),
            value: Box::new(bin(num(1.0), '+', var("y"))),
        })
    );
    assert_eq!(
        parsed("x = print(1)"),
        Ok(Expr::Assignment { name: "x".to_string(), value: Box::new(call("print", vec![num(1.0)])) })
    );
}

#[test]
fn an_identifier_without_equals_begins_an_expression() {
    assert_eq!(parsed("x + 1"), Ok(bin(var("x"), '+', num(1.0))));
    assert_eq!(
        parsed("a[1]"),
        Ok(Expr::ArrayAccess { array: Box::new(var("a")), index: Box::new(num(1.0)) })
    );
}

#[test]
fn only_the_first_two_tokens_make_an_assignment() {
    assert_eq!(parsed("1 = 2"), Ok(num(1.0)));
    assert_eq!(parsed("x + y = 2"), Ok(bin(var("x"), '+', var("y"))));
}

#[test]
fn array_literals() {
    assert_eq!(parsed("[]"), Ok(Expr::Array(vec![])));
    assert_eq!(parsed("[1, 2, 3]"), Ok(Expr::Array(vec![num(1.0), num(2.0), num(3.0)])));
    assert_eq!(parsed("[1 2]"), Ok(Expr::Array(vec![num(1.0), num(2.0)])));
    assert_eq!(
        parsed("[1 + 2, [x], \"s\"]"),
        Ok(Expr::Array(vec![
            bin(num(1.0), '+', num(2.0)),
            Expr::Array(vec![var("x")]),
            Expr::String("s".to_string()),
        ]))
    );
}

#[test]
fn index_takes_a_whole_expression() {
    assert_eq!(
        parsed("a[i + 1] * 2"),
        Ok(bin(
            Expr::ArrayAccess {
                array: Box::new(var("a")),
                index: Box::new(bin(var("i"), '+', num(1.0))),
            },
            '*',
            num(2.0)
        ))
    );
}

#[test]
fn calls() {
    assert_eq!(parsed("write()"), Ok(call("write", vec![])));
    assert_eq!(
        parsed("print(\"hi\", 1, 2)"),
        Ok(call("print", vec![Expr::String("hi".to_string()), num(1.0), num(2.0)]))
    );
    assert_eq!(parsed("print(1 + 2 x)"), Ok(call("print", vec![bin(num(1.0), '+', num(2.0)), var("x")])));
    assert_eq!(parsed("print(write())"), Ok(call("print", vec![call("write", vec![])])));
}

#[test]
fn a_call_is_not_joined_by_operators() {
    assert_eq!(parsed("print(1) + 2"), Ok(call("print", vec![num(1.0)])));
    assert_eq!(parsed("1 + print(2)"), Err(ParseError::ExpectedOperand));
}

#[test]
fn there_is_no_grouping_by_parentheses() {
    assert_eq!(parsed("(1 + 2) * 3"), Err(ParseError::ExpectedOperand));
}

#[test]
fn what_follows_the_statement_is_ignored() {
    assert_eq!(parsed("1 2"), Ok(num(1.0)));
    assert_eq!(parsed("x ; y"), Ok(var("x")));
}

#[test]
fn missing_operand() {
    assert_eq!(parsed(""), Err(ParseError::ExpectedOperand));
    assert_eq!(parsed("1 +"), Err(ParseError::ExpectedOperand));
    assert_eq!(parsed("* 2"), Err(ParseError::ExpectedOperand));
    assert_eq!(parsed("x = "), Err(ParseError::ExpectedOperand));
    assert_eq!(parsed("[1, "), Err(ParseError::ExpectedOperand));
    assert_eq!(parsed("print(1"), Err(ParseError::ExpectedOperand));
    assert_eq!(parse(&[]), Err(ParseError::ExpectedOperand));
}

#[test]
fn missing_parenthesis_after_a_function_name() {
    assert_eq!(parsed("print 1"), Err(ParseError::ExpectedLeftParen));
    assert_eq!(parsed("write"), Err(ParseError::ExpectedLeftParen));
    assert_eq!(parsed("x = write;"), Err(ParseError::ExpectedLeftParen));
}

#[test]
fn missing_bracket_after_an_index() {
    assert_eq!(parsed("a[1"), Err(ParseError::ExpectedRightBracket));
    assert_eq!(parsed("a[1 2]"), Err(ParseError::ExpectedRightBracket));
}

#[test]
fn tokens_without_an_end_marker() {
    let tokens = vec![Token::LeftBracket, Token::Integer(1)];
    assert_eq!(parse(&tokens), Ok(Expr::Array(vec![num(1.0)])));
    let tokens = vec![Token::Functions("print".to_string()), Token::LeftParen, Token::Integer(1)];
    assert_eq!(parse(&tokens), Ok(call("print", vec![num(1.0)])));
}

#[test]
fn parsers_say_where_they_end() {
    let tokens = tokenize("2 * 3 + 4 ; 5").unwrap();
    assert_eq!(parse_factor(&tokens, 0), Ok((num(2.0), 1)));
    assert_eq!(parse_factor(&tokens, 2), Ok((num(3.0), 3)));
    assert_eq!(parse_factor(&tokens, 1), Err(ParseError::ExpectedOperand));
    assert_eq!(parse_factor(&tokens, 99), Err(ParseError::ExpectedOperand));
    assert_eq!(
        parse_expression(&tokens, 0),
        Ok((bin(bin(num(2.0), '*', num(3.0)), '+', num(4.0)), 5))
    );
    assert_eq!(parse_expression(&tokens, 2), Ok((bin(num(3.0), '+', num(4.0)), 5)));
    assert_eq!(parse_expression(&tokens, 6), Ok((num(5.0), 7)));
    assert_eq!(parse_expression(&tokens, 5), Err(ParseError::ExpectedOperand));
}
