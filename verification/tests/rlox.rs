use byo_suite::rlox::ast::Expr;
use byo_suite::rlox::cli::{repl_input, Cli, CliMode};
use byo_suite::rlox::error::{ParseError, RloxErr, ScanError};
use byo_suite::rlox::parser::Parser;
use byo_suite::rlox::scanner::Scanner;
use byo_suite::rlox::token::{Literal, Token, TokenType};

fn scan(src: &str) -> Result<Vec<Token>, RloxErr> {
    Scanner::new(src).scan_tokens()
}

fn types(ts: &[Token]) -> Vec<TokenType> {
    ts.iter().map(|t| t.ty).collect()
}

fn eof(line: usize) -> Token {
    Token { ty: TokenType::Eof, lexeme: String::new(), literal: None, line }
}

fn tok(ty: TokenType, lexeme: &str, literal: Option<Literal>) -> Token {
    Token { ty, lexeme: lexeme.to_string(), literal, line: 1 }
}

fn parse(mut ts: Vec<Token>) -> Result<Expr, RloxErr> {
    ts.push(eof(1));
    Parser::new(ts).parse()
}

#[test]
fn empty_source_has_no_tokens() {
    assert_eq!(scan("").unwrap().len(), 0);
    assert_eq!(scan("  \t\r\n// only a comment").unwrap().len(), 0);
}

#[test]
fn one_character_tokens_are_named_after_their_character() {
    let ts = scan("(),{}.-+;*").unwrap();
    assert_eq!(
        types(&ts),
        vec![
            TokenType::LeftParen,
            TokenType::RightParen,
            TokenType::Comma,
            TokenType::LeftBrace,
            TokenType::RightBrace,
            TokenType::Dot,
            TokenType::Minus,
            TokenType::Plus,
            TokenType::Semicolon,
            TokenType::Star,
        ]
    );
    assert_eq!(ts[9].lexeme, "*");
    assert_eq!(ts[6].lexeme, "-");
}

#[test]
fn two_character_operators() {
    let ts = scan("!= ! == = <= < >= > /").unwrap();
    assert_eq!(
        types(&ts),
        vec![
            TokenType::BangEqual,
            TokenType::Bang,
            TokenType::EqualEqual,
            TokenType::Equal,
            TokenType::LessEqual,
            TokenType::Less,
            TokenType::GreaterEqual,
            TokenType::Greater,
            TokenType::Slash,
        ]
    );
    assert_eq!(ts[0].lexeme, "!=");
}

#[test]
fn numbers_keep_their_digits() {
    let ts = scan("12.5 7").unwrap();
    assert_eq!(ts.len(), 2);
    assert_eq!(ts[0].ty, TokenType::Number);
    assert_eq!(ts[0].lexeme, "12.5");
    assert_eq!(ts[0].literal, Some(Literal::Number("12.5".to_string())));
    assert_eq!(ts[1].literal, Some(Literal::Number("7".to_string())));
}

#[test]
fn a_trailing_dot_is_not_part_of_a_number() {
    let ts = scan("1.").unwrap();
    assert_eq!(types(&ts), vec![TokenType::Number, TokenType::Dot]);
    assert_eq!(ts[0].lexeme, "1");
}

#[test]
fn strings_span_lines() {
    let ts = scan("\"ab\ncd\" x").unwrap();
    assert_eq!(types(&ts), vec![TokenType::String, TokenType::Identifier]);
    assert_eq!(ts[0].literal, Some(Literal::String("ab\ncd".to_string())));
    assert_eq!(ts[0].lexeme, "\"ab\ncd\"");
    assert_eq!(ts[0].line, 2);
    assert_eq!(ts[1].line, 2);
}

#[test]
fn keywords_and_identifiers() {
    let ts = scan("var answer = nil and true or false_ _x1").unwrap();
    assert_eq!(
        types(&ts),
        vec![
            TokenType::Var,
            TokenType::Identifier,
            TokenType::Equal,
            TokenType::Nil,
            TokenType::And,
            TokenType::True,
            TokenType::Or,
            TokenType::Identifier,
            TokenType::Identifier,
        ]
    );
    assert_eq!(ts[7].lexeme, "false_");
}

#[test]
fn lines_are_counted() {
    let ts = scan("a\nb // c\n\nd").unwrap();
    let lines: Vec<usize> = ts.iter().map(|t| t.line).collect();
    assert_eq!(lines, vec![1, 2, 4]);
}

#[test]
fn unexpected_character_is_reported_with_its_line() {
    match scan("a\n@") {
        Err(RloxErr::Scan(e)) => assert_eq!(e, ScanError::UnexpectedCharacter { line: 2, ch: '@' }),
        other => panic!("unexpected {:?}", other),
    }
}

#[test]
fn unterminated_string_is_reported() {
    match scan("\"abc\ndef") {
        Err(RloxErr::Scan(e)) => assert_eq!(e, ScanError::UnterminatedString { line: 2 }),
        other => panic!("unexpected {:?}", other),
    }
}

#[test]
fn parses_a_number_literal() {
    match parse(scan("42").unwrap()) {
        Ok(Expr::Literal(Literal::Number(n))) => assert_eq!(n, "42"),
        other => panic!("unexpected {:?}", other),
    }
}

#[test]
fn factor_binds_tighter_than_term() {
    let one = tok(TokenType::Number, "1", Some(Literal::Number("1".to_string())));
    let two = tok(TokenType::Number, "2", Some(Literal::Number("2".to_string())));
    let three = tok(TokenType::Number, "3", Some(Literal::Number("3".to_string())));
    let ts = vec![one, tok(TokenType::Plus, "+", None), two, tok(TokenType::Star, "*", None), three];
    match parse(ts) {
        Ok(Expr::Binary { left, operator, right }) => {
            assert_eq!(operator.ty, TokenType::Plus);
            assert!(matches!(*left, Expr::Literal(Literal::Number(ref n)) if n == "1"));
            match *right {
                Expr::Binary { operator, .. } => assert_eq!(operator.ty, TokenType::Star),
                other => panic!("unexpected {:?}", other),
            }
        }
        other => panic!("unexpected {:?}", other),
    }
}

#[test]
fn binary_operators_nest_to_the_left() {
    let n = |s: &str| tok(TokenType::Number, s, Some(Literal::Number(s.to_string())));
    let ts = vec![n("1"), tok(TokenType::Minus, "-", None), n("2"), tok(TokenType::Minus, "-", None), n("3")];
    match parse(ts) {
        Ok(Expr::Binary { left, right, .. }) => {
            assert!(matches!(*left, Expr::Binary { .. }));
            assert!(matches!(*right, Expr::Literal(Literal::Number(ref s)) if s == "3"));
        }
        other => panic!("unexpected {:?}", other),
    }
}

#[test]
fn unary_and_grouping() {
    match parse(scan("!(true)").unwrap()) {
        Ok(Expr::Unary { operator, right }) => {
            assert_eq!(operator.ty, TokenType::Bang);
            match *right {
                Expr::Grouping { expressing } => {
                    assert!(matches!(*expressing, Expr::Literal(Literal::Bool(true))))
                }
                other => panic!("unexpected {:?}", other),
            }
        }
        other => panic!("unexpected {:?}", other),
    }
}

#[test]
fn comparison_and_equality() {
    match parse(scan("1 < 2 == false").unwrap()) {
        Ok(Expr::Binary { left, operator, right }) => {
            assert_eq!(operator.ty, TokenType::EqualEqual);
            assert!(matches!(*left, Expr::Binary { ref operator, .. } if operator.ty == TokenType::Less));
            assert!(matches!(*right, Expr::Literal(Literal::Bool(false))));
        }
        other => panic!("unexpected {:?}", other),
    }
}

#[test]
fn unclosed_group_is_an_error() {
    match parse(scan("(nil").unwrap()) {
        Err(RloxErr::Parse(ParseError::ExpectedToken { expected, message })) => {
            assert_eq!(expected, TokenType::RightParen);
            assert_eq!(message, "expected ')' after expression");
        }
        other => panic!("unexpected {:?}", other),
    }
}

#[test]
fn unexpected_token_is_an_error() {
    match parse(scan(")").unwrap()) {
        Err(RloxErr::Parse(ParseError::UnexpectedToken { token })) => {
            assert_eq!(token.ty, TokenType::RightParen)
        }
        other => panic!("unexpected {:?}", other),
    }
}

#[test]
fn cli_mode_follows_the_file_option() {
    assert!(matches!(Cli { file: None }.parse_mode(), CliMode::Repl));
    match (Cli { file: Some("a.lox".to_string()) }).parse_mode() {
        CliMode::FromFile(f) => assert_eq!(f, "a.lox"),
        CliMode::Repl => panic!("expected a file"),
    }
}

#[test]
fn prompt_lines_are_trimmed_and_quit_words_end_the_session() {
    assert_eq!(repl_input("  1 + 2\n"), Some("1 + 2".to_string()));
    assert_eq!(repl_input("quit\n"), None);
    assert_eq!(repl_input(" q "), None);
    assert_eq!(repl_input("\texit\r\n"), None);
    assert_eq!(repl_input("quits\n"), Some("quits".to_string()));
    assert_eq!(repl_input("\n"), Some(String::new()));
}

#[test]
fn source_arithmetic_parses_with_its_operators() {
    match parse(scan("1 - 2 * 3").unwrap()) {
        Ok(Expr::Binary { operator, right, .. }) => {
            assert_eq!(operator.ty, TokenType::Minus);
            match *right {
                Expr::Binary { operator, .. } => assert_eq!(operator.ty, TokenType::Star),
                other => panic!("unexpected {:?}", other),
            }
        }
        other => panic!("unexpected {:?}", other),
    }
}
