use nim::lexer::{tokenize, LexError, Token};
use nim::text::{digit, identifier_part, identifier_start, space, trim};

fn id(name: &str) -> Token {
    Token::Identifier(name.to_string())
}

#[test]
fn assignment_with_terminator() {
    let tokens = tokenize("x = 5;").unwrap();
    assert_eq!(
        tokens,
        vec![id("x"), Token::Operator('='), Token::Integer(5), Token::Semicolon, Token::EOF]
    );
}

#[test]
fn empty_text_is_only_the_end_marker() {
    assert_eq!(tokenize("").unwrap(), vec![Token::EOF]);
    assert_eq!(tokenize(" \t\n ").unwrap(), vec![Token::EOF]);
}

#[test]
fn every_operator_and_delimiter() {
    let tokens = tokenize("+ - * / = ^ ; , ( ) [ ]").unwrap();
    assert_eq!(
        tokens,
        vec![
            Token::Operator('+'),
            Token::Operator('-'),
            Token::Operator('*'),
            Token::Operator('/'),
            Token::Operator('='),
            Token::Operator('^'),
            Token::Semicolon,
            Token::Comma,
            Token::LeftParen,
            Token::RightParen,
            Token::LeftBracket,
            Token::RightBracket,
            Token::EOF,
        ]
    );
}

#[test]
fn integer_and_decimal_literals() {
    let tokens = tokenize("42 3.25 7. 007").unwrap();
    assert_eq!(
        tokens,
        vec![
            Token::Integer(42),
            Token::Float("3.25".to_string()),
            Token::Float("7.".to_string()),
            Token::Integer(7),
            Token::EOF,
        ]
    );
}

#[test]
fn largest_integer_literal() {
    assert_eq!(
        tokenize("9223372036854775807").unwrap(),
        vec![Token::Integer(i64::MAX), Token::EOF]
    );
    assert_eq!(tokenize("9223372036854775808"), Err(LexError::IntegerTooLarge));
    assert_eq!(tokenize("99999999999999999999999"), Err(LexError::IntegerTooLarge));
}

#[test]
fn second_decimal_point_is_an_error() {
    assert_eq!(tokenize("1.2.3"), Err(LexError::SecondDecimalPoint));
    assert_eq!(tokenize("x = 1..2"), Err(LexError::SecondDecimalPoint));
}

#[test]
fn unexpected_character_is_an_error() {
    assert_eq!(tokenize("x = 5 @ 3"), Err(LexError::UnexpectedCharacter('@')));
    assert_eq!(tokenize("{"), Err(LexError::UnexpectedCharacter('{')));
    assert_eq!(tokenize(".5"), Err(LexError::UnexpectedCharacter('.')));
}

#[test]
fn first_error_wins() {
    assert_eq!(tokenize("1.2.3 @"), Err(LexError::SecondDecimalPoint));
    assert_eq!(tokenize("@ 1.2.3"), Err(LexError::UnexpectedCharacter('@')));
}

#[test]
fn built_in_names_are_function_tokens() {
    let tokens = tokenize("print write printer _write print_").unwrap();
    assert_eq!(
        tokens,
        vec![
            Token::Functions("print".to_string()),
            Token::Functions("write".to_string()),
            id("printer"),
            id("_write"),
            id("print_"),
            Token::EOF,
        ]
    );
}

#[test]
fn identifiers_take_letters_digits_and_underscores() {
    let tokens = tokenize("_temp_ x1 a_b2c").unwrap();
    assert_eq!(tokens, vec![id("_temp_"), id("x1"), id("a_b2c"), Token::EOF]);
}

#[test]
fn identifiers_continue_over_letters_beyond_ascii() {
    let tokens = tokenize("caf\u{e9} + 1").unwrap();
    assert_eq!(
        tokens,
        vec![id("caf\u{e9}"), Token::Operator('+'), Token::Integer(1), Token::EOF]
    );
    assert_eq!(tokenize("\u{e9}"), Err(LexError::UnexpectedCharacter('\u{e9}')));
}

#[test]
fn a_digit_begins_a_number_not_an_identifier() {
    assert_eq!(tokenize("1x").unwrap(), vec![Token::Integer(1), id("x"), Token::EOF]);
}

#[test]
fn string_literals_are_taken_verbatim() {
    let tokens = tokenize("\"hi there; // no comment\" \"\"").unwrap();
    assert_eq!(
        tokens,
        vec![
            Token::Str("hi there; // no comment".to_string()),
            Token::Str(String::new()),
            Token::EOF,
        ]
    );
}

#[test]
fn a_backslash_escapes_nothing() {
    let tokens = tokenize("\"a\\\" b").unwrap();
    assert_eq!(tokens, vec![Token::Str("a\\".to_string()), id("b"), Token::EOF]);
}

#[test]
fn a_string_may_run_to_the_end() {
    assert_eq!(
        tokenize("\"open").unwrap(),
        vec![Token::Str("open".to_string()), Token::EOF]
    );
}

#[test]
fn comments_run_to_the_end_of_the_line() {
    let tokens = tokenize("1 // one\n2 // two").unwrap();
    assert_eq!(tokens, vec![Token::Integer(1), Token::Integer(2), Token::EOF]);
    assert_eq!(tokenize("// only @ a comment").unwrap(), vec![Token::EOF]);
}

#[test]
fn a_single_slash_divides() {
    let tokens = tokenize("6 / 2").unwrap();
    assert_eq!(
        tokens,
        vec![Token::Integer(6), Token::Operator('/'), Token::Integer(2), Token::EOF]
    );
    assert_eq!(tokenize("/").unwrap(), vec![Token::Operator('/'), Token::EOF]);
}

#[test]
fn white_space_of_every_kind_is_skipped() {
    let tokens = tokenize("1\u{a0}2\u{2003}3\u{3000}4\r\n5").unwrap();
    assert_eq!(
        tokens,
        vec![
            Token::Integer(1),
            Token::Integer(2),
            Token::Integer(3),
            Token::Integer(4),
            Token::Integer(5),
            Token::EOF,
        ]
    );
}

#[test]
fn trim_drops_white_space_at_both_ends() {
    assert_eq!(trim("  12.5 \r\n"), "12.5");
    assert_eq!(trim("a b"), "a b");
    assert_eq!(trim(" \t "), "");
    assert_eq!(trim(""), "");
    assert_eq!(trim("\u{2003}x y\u{a0}"), "x y");
}

#[test]
fn white_space_is_what_the_character_database_says() {
    for c in '\u{0}'..=char::MAX {
        assert_eq!(space(c), c.is_whitespace(), "{:?}", c);
    }
    for c in '\u{0}'..='\u{3100}' {
        assert_eq!(trim(&c.to_string()).is_empty(), c.is_whitespace(), "{:?}", c);
    }
}

#[test]
fn characters_of_identifiers_and_numbers() {
    for c in '\u{0}'..=char::MAX {
        assert_eq!(digit(c), c.is_ascii_digit(), "{:?}", c);
        assert_eq!(identifier_start(c), c.is_ascii_alphabetic() || c == '_', "{:?}", c);
        assert_eq!(identifier_part(c), c.is_alphanumeric() || c == '_', "{:?}", c);
        if identifier_start(c) {
            assert!(identifier_part(c), "{:?}", c);
        }
    }
}
