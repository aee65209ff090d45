use monkey::lexer::{is_letter, lexer, Token};
use std::collections::VecDeque;

#[test]
fn lex_tokens() {
    let input = "{}();,";

    let tokens = lexer(input);
    let expected = VecDeque::from(vec![
        Token::LBRACE,
        Token::RBRACE,
        Token::LPAREN,
        Token::RPAREN,
        Token::SEMICOLON,
        Token::COMMA,
        Token::EOF,
    ]);

    assert_eq!(expected, tokens);
}

#[test]
fn lex_digits() {
    let input = "let x = 67;   hello    num3ber  9";

    let tokens = lexer(input);
    let expected = VecDeque::from(vec![
        Token::LET,
        Token::IDENT("x".to_owned()),
        Token::ASSIGN,
        Token::INT(67),
        Token::SEMICOLON,
        Token::IDENT("hello".to_owned()),
        Token::IDENT("num".to_owned()),
        Token::INT(3),
        Token::IDENT("ber".to_owned()),
        Token::INT(9),
        Token::EOF,
    ]);

    assert_eq!(expected, tokens);
}

#[test]
fn test_is_letter() {
    let input = 'a';
    assert!(is_letter(input));
    let input = 'A';
    assert!(is_letter(input));
    let input = 'z';
    assert!(is_letter(input));
    let input = 'Z';
    assert!(is_letter(input));
    let input = 'f';
    assert!(is_letter(input));
    let input = 'U';
    assert!(is_letter(input));
    let input = '_';
    assert!(is_letter(input));

    let input = '&';
    assert!(!is_letter(input));
}

#[test]
fn lex_ignore_whitespace() {
    let input = "}let  hello     ){  ; ";

    let tokens = lexer(input);
    let expected = VecDeque::from(vec![
        Token::RBRACE,
        Token::LET,
        Token::IDENT("hello".to_owned()),
        Token::RPAREN,
        Token::LBRACE,
        Token::SEMICOLON,
        Token::EOF,
    ]);

    assert_eq!(expected, tokens);
}

#[test]
fn ignore_all_whitespace() {
    let input = "let x = 4;
        let y =     30;
        let    z = {    hello };";

    let tokens = lexer(input);
    let expected = VecDeque::from(vec![
        Token::LET,
        Token::IDENT("x".to_owned()),
        Token::ASSIGN,
        Token::INT(4),
        Token::SEMICOLON,
        Token::LET,
        Token::IDENT("y".to_owned()),
        Token::ASSIGN,
        Token::INT(30),
        Token::SEMICOLON,
        Token::LET,
        Token::IDENT("z".to_owned()),
        Token::ASSIGN,
        Token::LBRACE,
        Token::IDENT("hello".to_owned()),
        Token::RBRACE,
        Token::SEMICOLON,
        Token::EOF,
    ]);

    assert_eq!(expected, tokens);
}

#[test]
fn test_double_character_tokens() {
    let input = "= == !=;";

    let tokens = lexer(input);
    let expected = VecDeque::from(vec![
        Token::ASSIGN,
        Token::EQ,
        Token::NEQ,
        Token::SEMICOLON,
        Token::EOF,
    ]);

    assert_eq!(expected, tokens);
}

#[test]
fn test_keywords() {
    let input = "let x = true; if hello == false { fn y() }";

    let tokens = lexer(input);
    let expected = VecDeque::from(vec![
        Token::LET,
        Token::IDENT("x".to_owned()),
        Token::ASSIGN,
        Token::TRUE,
        Token::SEMICOLON,
        Token::IF,
        Token::IDENT("hello".to_owned()),
        Token::EQ,
        Token::FALSE,
        Token::LBRACE,
        Token::FN,
        Token::IDENT("y".to_owned()),
        Token::LPAREN,
        Token::RPAREN,
        Token::RBRACE,
        Token::EOF,
    ]);

    assert_eq!(expected, tokens);
}

#[test]
fn test_string() {
    let input = "let name = 'jimmy * 123';";

    let tokens = lexer(input);
    let expected = VecDeque::from(vec![
        Token::LET,
        Token::IDENT("name".to_owned()),
        Token::ASSIGN,
        Token::STRING("jimmy * 123".to_owned()),
        Token::SEMICOLON,
        Token::EOF,
    ]);

    assert_eq!(expected, tokens);
}

#[test]
fn unterminated_string_is_illegal() {
    let tokens = lexer("let a = 'oops");
    let expected = VecDeque::from(vec![
        Token::LET,
        Token::IDENT("a".to_owned()),
        Token::ASSIGN,
        Token::ILLEGAL,
        Token::EOF,
    ]);
    assert_eq!(expected, tokens);
}

#[test]
fn oversized_integer_literal_is_illegal() {
    let tokens = lexer("99999999999999999999");
    let expected = VecDeque::from(vec![Token::ILLEGAL, Token::EOF]);
    assert_eq!(expected, tokens);

    let tokens = lexer("9223372036854775807");
    let expected = VecDeque::from(vec![Token::INT(i64::MAX), Token::EOF]);
    assert_eq!(expected, tokens);
}

#[test]
fn empty_input_is_just_eof() {
    assert_eq!(VecDeque::from(vec![Token::EOF]), lexer(""));
}
