use hitung::lexer::Lexer;
use hitung::token::Token;

#[test]
fn test_num() {
    let lexer = Lexer::new(r#"32"#);
    let tokens = lexer.lex();

    let expected = vec![Token::from(32), Token::EOF];
    assert_eq!(expected, tokens);
}

#[test]
fn test_num_float() {
    let lexer = Lexer::new(r#"32.5"#);
    let tokens = lexer.lex();

    let expected = vec![Token::Num("32.5".to_string()), Token::EOF];
    assert_eq!(expected, tokens);
}

#[test]
fn test_num_whitespace() {
    let lexer = Lexer::new(r#"32 2"#);
    let tokens = lexer.lex();

    let expected = vec![Token::from(32), Token::from(2), Token::EOF];

    assert_eq!(expected, tokens);
}

#[test]
fn test_num_operator() {
    let lexer = Lexer::new(r#"-+/*"#);
    let tokens = lexer.lex();

    let expected = vec![Token::Sub, Token::Add, Token::Div, Token::Mul, Token::EOF];

    assert_eq!(expected, tokens);
}

#[test]
fn lexer_test_assignment() {
    let lexer = Lexer::new(r#"a = 123"#);
    let tokens = lexer.lex();

    let expected = vec![
        Token::IDENTIFIER("a".to_string()),
        Token::ASSIGN,
        Token::from(123),
        Token::EOF,
    ];

    assert_eq!(expected, tokens);
}

#[test]
fn test_conditional() {
    let lexer = Lexer::new(r#"if 1 < 2 then 1 else 0"#);
    let tokens = lexer.lex();

    let expected = vec![
        Token::If,
        Token::from(1),
        Token::LT,
        Token::from(2),
        Token::Then,
        Token::from(1),
        Token::Else,
        Token::from(0),
        Token::EOF,
    ];

    assert_eq!(expected, tokens);
}

#[test]
fn unsupported_symbol_ends_the_line() {
    assert_eq!(Lexer::new("$ 1 + 2").lex(), vec![Token::ILLEGAL]);
    assert_eq!(Lexer::new("1 # 2").lex(), vec![Token::from(1), Token::ILLEGAL]);
}

#[test]
fn empty_and_blank_lines() {
    assert_eq!(Lexer::new("").lex(), vec![Token::EOF]);
    assert_eq!(Lexer::new(" \t\n").lex(), vec![Token::EOF]);
}

#[test]
fn malformed_number_is_illegal() {
    assert_eq!(Lexer::new("1.2.3 + 4").lex(), vec![Token::ILLEGAL]);
    assert_eq!(Lexer::new("7.").lex(), vec![Token::Num("7.".to_string()), Token::EOF]);
}

#[test]
fn identifiers_stop_at_non_letters() {
    assert_eq!(
        Lexer::new("ab1").lex(),
        vec![Token::IDENTIFIER("ab".to_string()), Token::from(1), Token::EOF]
    );
    assert_eq!(
        Lexer::new("iff").lex(),
        vec![Token::IDENTIFIER("iff".to_string()), Token::EOF]
    );
}

#[test]
fn equals_sign_forms() {
    assert_eq!(Lexer::new("1 == 2").lex(), vec![Token::from(1), Token::EQ, Token::from(2), Token::EOF]);
    // a lone `=` swallows the character after it
    assert_eq!(
        Lexer::new("a=5").lex(),
        vec![Token::IDENTIFIER("a".to_string()), Token::ASSIGN, Token::EOF]
    );
    assert_eq!(Lexer::new("a =").lex(), vec![Token::IDENTIFIER("a".to_string()), Token::EOF]);
    assert_eq!(Lexer::new("< >").lex(), vec![Token::LT, Token::GT, Token::EOF]);
}

#[test]
fn lexing_twice_gives_the_same_tokens() {
    let line = "if x < 2.5 then (y = 3) else -4";
    assert_eq!(Lexer::new(line).lex(), Lexer::new(line).lex());
}

#[test]
fn next_token_one_at_a_time() {
    let mut lexer = Lexer::new("  ( )");
    assert_eq!(lexer.next_token(), Token::LParen);
    assert_eq!(lexer.next_token(), Token::RParen);
    assert_eq!(lexer.next_token(), Token::EOF);
    assert_eq!(lexer.next_token(), Token::EOF);
}
