use hitung::expression::Expression;
use hitung::lexer::Lexer;
use hitung::parser::Parser;
use hitung::token::Token;

#[test]
fn test_nud() {
    let tokens = vec![Token::Sub, Token::from(3), Token::Mul, Token::from(2), Token::EOF];
    let expression = Parser::new(tokens).expr(0).unwrap();

    let expected = Expression::Binary(
        Box::new(Expression::Unary(Token::Sub, Box::new(Expression::from(3)))),
        Token::Mul,
        Box::new(Expression::from(2)),
    );

    assert_eq!(expected, expression);
}

#[test]
fn test_error() {
    let tokens = vec![Token::Mul, Token::from(2), Token::EOF];
    let expression = Parser::new(tokens).expr(0).map_err(|e| e);

    let expected = Err(String::from("Token Mul error"));

    assert_eq!(expected, expression);
}

#[test]
fn test_binary() {
    let tokens = vec![Token::from(3), Token::Div, Token::from(2), Token::EOF];
    let expression = Parser::new(tokens).expr(0).unwrap();

    let expected = Expression::Binary(
        Box::new(Expression::from(3)),
        Token::Div,
        Box::new(Expression::from(2)),
    );

    assert_eq!(expected, expression);
}

#[test]
fn test_unary() {
    let tokens = vec![Token::Sub, Token::from(2), Token::EOF];
    let expression = Parser::new(tokens).expr(0).unwrap();

    let expected = Expression::Unary(Token::Sub, Box::new(Expression::from(2)));

    assert_eq!(expected, expression);
}

#[test]
fn test_precedence_add_and_mul() {
    let tokens = vec![
        Token::from(3),
        Token::Add,
        Token::from(2),
        Token::Mul,
        Token::from(2),
        Token::EOF,
    ];
    let expression = Parser::new(tokens).expr(0).unwrap();

    let expected = Expression::Binary(
        Box::new(Expression::from(3)),
        Token::Add,
        Box::new(Expression::Binary(
            Box::new(Expression::from(2)),
            Token::Mul,
            Box::new(Expression::from(2)),
        )),
    );

    assert_eq!(expected, expression);
}

#[test]
fn test_precedence_add_and_sub() {
    let tokens = vec![
        Token::from(3),
        Token::Add,
        Token::from(2),
        Token::Sub,
        Token::from(2),
        Token::EOF,
    ];
    let expression = Parser::new(tokens).expr(0).unwrap();

    let expected = Expression::Binary(
        Box::new(Expression::Binary(
            Box::new(Expression::from(3)),
            Token::Add,
            Box::new(Expression::from(2)),
        )),
        Token::Sub,
        Box::new(Expression::from(2)),
    );

    assert_eq!(expected, expression);
}

#[test]
fn parser_test_assignment() {
    let tokens = vec![Token::IDENTIFIER("a".to_string()), Token::ASSIGN, Token::from(2)];

    let expression = Parser::new(tokens).expr(0).unwrap();

    let expected = Expression::Binary(
        Box::new(Expression::Variable("a".to_string())),
        Token::ASSIGN,
        Box::new(Expression::from(2)),
    );

    assert_eq!(expected, expression);
}

#[test]
fn test_if_then_else() {
    let tokens = vec![
        Token::If,
        Token::from(1),
        Token::LT,
        Token::from(9),
        Token::Then,
        Token::from(1),
        Token::Else,
        Token::from(0),
    ];

    let expression = Parser::new(tokens).expr(0).unwrap();

    let expected = Expression::Conditional(
        Box::new(Expression::Binary(
            Box::new(Expression::from(1)),
            Token::LT,
            Box::new(Expression::from(9)),
        )),
        Box::new(Expression::from(1)),
        Box::new(Expression::from(0)),
    );

    assert_eq!(expected, expression);
}

fn parse(line: &str) -> Result<Expression, String> {
    Parser::new(Lexer::new(line).lex()).expr(0)
}

#[test]
fn parenthesised_group_is_kept() {
    let expected = Expression::Binary(
        Box::new(Expression::Paren(Box::new(Expression::Binary(
            Box::new(Expression::from(3)),
            Token::Add,
            Box::new(Expression::from(2)),
        )))),
        Token::Mul,
        Box::new(Expression::from(2)),
    );
    assert_eq!(parse("( 3 + 2 ) * 2"), Ok(expected));
}

#[test]
fn paren_errors() {
    assert_eq!(parse("(3 + 2"), Err("Unmatched closing paren".to_string()));
    assert_eq!(parse(") 1"), Err("Unmatched closing paren".to_string()));
    assert_eq!(parse("()"), Err("Error get next token".to_string()));
}

#[test]
fn subtraction_binds_looser_than_multiplication() {
    let expected = Expression::Binary(
        Box::new(Expression::from(7)),
        Token::Sub,
        Box::new(Expression::Binary(
            Box::new(Expression::from(2)),
            Token::Mul,
            Box::new(Expression::from(3)),
        )),
    );
    assert_eq!(parse("7 - 2 * 3"), Ok(expected));
}

#[test]
fn other_parse_errors() {
    assert_eq!(parse(""), Err("Token EOF error".to_string()));
    assert_eq!(parse("1 + $"), Err("Input not supported".to_string()));
    assert_eq!(parse("-a"), Err("Input not supported".to_string()));
    assert_eq!(parse("1 +"), Err("Token EOF error".to_string()));
    assert_eq!(parse("if 1 < 2 then 3"), Err("Token EOF error".to_string()));
    assert_eq!(parse("if 1 < 2 then"), Err("Token EOF error".to_string()));
    assert_eq!(parse("2 ( 3"), Err("Token LParen error".to_string()));
}

#[test]
fn parsing_twice_gives_the_same_tree() {
    let line = "if 1 < x then (y = 2 * 3) else -4";
    assert_eq!(parse(line), parse(line));
    assert!(parse(line).is_ok());
}

#[test]
fn handle_next_runs_out() {
    let mut parser = Parser::new(vec![Token::Add]);
    assert_eq!(parser.handle_next(), Ok(Token::Add));
    assert_eq!(parser.handle_next(), Err("Error get next token".to_string()));
}

#[test]
fn conditional_requires_its_words() {
    assert_eq!(parse("if 1 < 2 foo 3 else 4"), Err("Token IDENTIFIER(\"foo\") error".to_string()));
    assert_eq!(parse("if 1 < 2 then 3 bar 4"), Err("Token IDENTIFIER(\"bar\") error".to_string()));
    assert_eq!(parse("if 1 + 2 then 3 else 4"), Err("Token Add error".to_string()));
    assert_eq!(parse("if 1"), Err("Token EOF error".to_string()));
}

#[test]
fn conditional_operands_may_be_signed() {
    let expected = Expression::Conditional(
        Box::new(Expression::Binary(
            Box::new(Expression::Unary(Token::Sub, Box::new(Expression::from(1)))),
            Token::LT,
            Box::new(Expression::from(2)),
        )),
        Box::new(Expression::from(3)),
        Box::new(Expression::from(4)),
    );
    assert_eq!(parse("if -1 < 2 then 3 else 4"), Ok(expected));
}

#[test]
fn error_leaves_the_tokens_after_it() {
    let mut parser = Parser::new(vec![Token::RParen, Token::from(1)]);
    assert_eq!(parser.expr(0), Err("Unmatched closing paren".to_string()));
    assert_eq!(parser.handle_next(), Ok(Token::from(1)));

    let mut parser = Parser::new(vec![Token::Sub, Token::Mul, Token::from(7)]);
    assert_eq!(parser.expr(0), Err("Input not supported".to_string()));
    assert_eq!(parser.handle_next(), Ok(Token::from(7)));

    let mut parser = Parser::new(vec![Token::LParen, Token::Mul, Token::RParen, Token::from(5)]);
    assert_eq!(parser.expr(0), Err("Token Mul error".to_string()));
    assert_eq!(parser.handle_next(), Ok(Token::from(5)));

    let mut parser = Parser::new(vec![Token::LParen, Token::from(1), Token::from(2)]);
    assert_eq!(parser.expr(0), Err("Unmatched closing paren".to_string()));
    assert_eq!(parser.handle_next(), Err("Error get next token".to_string()));

    let mut parser = Parser::new(vec![Token::from(2)]);
    assert_eq!(parser.led(0, Expression::from(1), Token::EQ), Err("Token EQ error".to_string()));
    assert_eq!(parser.handle_next(), Ok(Token::from(2)));
}
