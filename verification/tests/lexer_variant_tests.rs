//! The scanner consolidates two other variants of the lexer found alongside
//! the hand lexer; their tests carry over against the one scanner, with the
//! expectations the specified lexeme rules give on the same inputs.

use rlox::scanner::Scanner;
use rlox::token::{ScanError, Token};

#[test]
fn number_sigle() {
    let code = r#"0"#;
    let mut scan = Scanner::new(code);
    assert_eq!(scan.scan_token(), Ok((Token::Number(0.0f64.to_bits()), 1, 1)));
}

#[test]
fn lexer_test_number_lenght() {
    let code = r#"123456789"#;
    let mut scan = Scanner::new(code);
    assert_eq!(scan.scan_token(), Ok((Token::Number(123456789.0f64.to_bits()), 1, 9)));
}

#[test]
fn lexer_test_number_end_fractionnal() {
    let code = r#"123456789."#;
    let mut scan = Scanner::new(code);
    assert_eq!(scan.scan_token(), Ok((Token::Number(123456789.0f64.to_bits()), 1, 10)));
}

#[test]
fn lexer_test_number_fractional_part() {
    let code = r#"12345.6789"#;
    let mut scan = Scanner::new(code);
    assert_eq!(scan.scan_token(), Ok((Token::Number(12345.6789f64.to_bits()), 1, 10)));
}

#[test]
fn test_keyword_alone() {
    let code = "if";
    let mut scan = Scanner::new(code);
    assert_eq!(scan.scan_token(), Ok((Token::If, 1, 2)));
}

#[test]
fn lexer_test_scan_tok_real() {
    let code = r#"if else fun, self print and for let nil loop return while"#;
    let expected = [
        Token::If,
        Token::Else,
        Token::Fun,
        Token::Comma,
        Token::TokSelf,
        Token::Print,
        Token::And,
        Token::For,
        Token::Let,
        Token::Nil,
        Token::Loop,
        Token::Return,
        Token::While,
    ];
    let mut scan = Scanner::new(code);
    for token in expected {
        let (tok, line, _) = scan.scan_token().expect("Should have been parsed.");
        assert_eq!(tok, token);
        assert_eq!(line, 1);
    }
}

#[test]
fn lexer_test_scan_math() {
    let code = r#"+ > >= <= < =="#;
    let expected = [
        Token::Plus,
        Token::Greater,
        Token::GreaterEqual,
        Token::LesserEqual,
        Token::Lesser,
        Token::EqualEqual,
    ];
    let mut scan = Scanner::new(code);
    for token in expected {
        let (tok, line, _) = scan.scan_token().expect("Should have been parsed.");
        assert_eq!(tok, token);
        assert_eq!(line, 1);
    }
}

#[test]
fn lexer_test_token_no_string() {
    let code = r#"NoString"#;
    let mut scan = Scanner::new(code);
    let ret = scan.scan_token();
    assert!(!matches!(ret, Ok((Token::String(_), _, _))));
    assert_eq!(ret, Ok((Token::IdentifierNoData, 1, 8)));
}

#[test]
fn lexer_test_token_string() {
    let code = "\"test\"";
    let mut scan = Scanner::new(code);
    let (tok, line, _) = scan.scan_token().expect("Should have been parsed.");
    assert_eq!(tok, Token::String(b"test".to_vec()));
    assert_eq!(line, 1);
}

#[test]
fn lexer_test_unmatched_string() {
    let code = "\"";
    let mut scan = Scanner::new(code);
    assert_eq!(scan.scan_token(), Err(ScanError::UnmatchedString));
}

#[test]
fn lexer_test_empty_string() {
    let code = r#""""#;
    let mut scan = Scanner::new(code);
    let (tok, _, _) = scan.scan_token().expect("Should have been parsed.");
    assert_eq!(tok, Token::String(Vec::new()));
}

#[test]
fn lexer_test_unmatched_char() {
    let code = r#"e""#;
    let mut scan = Scanner::new(code);
    assert_eq!(scan.scan_token(), Ok((Token::IdentifierNoData, 1, 1)));
    assert_eq!(scan.scan_token(), Err(ScanError::UnmatchedString));
}

#[test]
fn main_test_token_no_string() {
    let code = r#"NoString"#;
    let mut scan = Scanner::new(code);
    assert_eq!(scan.scan_token(), Ok((Token::IdentifierNoData, 1, 8)));
}

#[test]
fn main_test_token_string() {
    let code = r#""test""#;
    let mut scan = Scanner::new(code);
    assert_eq!(scan.scan_token(), Ok((Token::String(b"test".to_vec()), 1, 6)));
}

#[test]
fn main_test_unmatched_string() {
    let code = r#"""#;
    let mut scan = Scanner::new(code);
    assert_eq!(scan.scan_token(), Err(ScanError::UnmatchedString));
}

#[test]
fn main_test_empty_string() {
    let code = r#""""#;
    let mut scan = Scanner::new(code);
    assert_eq!(scan.scan_token(), Ok((Token::String(Vec::new()), 1, 2)));
}

#[test]
fn main_test_unmatched_char() {
    let code = r#"e""#;
    let mut scan = Scanner::new(code);
    assert_eq!(scan.scan_token(), Ok((Token::IdentifierNoData, 1, 1)));
}

#[test]
fn main_test_number_sigle() {
    let code = r#"0"#;
    let mut scan = Scanner::new(code);
    assert_eq!(scan.scan_token(), Ok((Token::Number(0.0f64.to_bits()), 1, 1)));
}

#[test]
fn main_test_number_lenght() {
    let code = r#"123456789"#;
    let mut scan = Scanner::new(code);
    assert_eq!(scan.scan_token(), Ok((Token::Number(123456789.0f64.to_bits()), 1, 9)));
}

#[test]
fn main_test_number_end_fractionnal() {
    let code = r#"123456789."#;
    let mut scan = Scanner::new(code);
    assert_eq!(scan.scan_token(), Ok((Token::Number(123456789.0f64.to_bits()), 1, 10)));
}

#[test]
fn main_test_number_fractional_part() {
    let code = r#"12345.6789"#;
    let mut scan = Scanner::new(code);
    assert_eq!(scan.scan_token(), Ok((Token::Number(12345.6789f64.to_bits()), 1, 10)));
}

#[test]
fn main_test_scan_tok_real() {
    let code = r#"if else fun "hello""#;
    let mut scan = Scanner::new(code);
    assert_eq!(scan.scan_token(), Ok((Token::If, 1, 2)));
    assert_eq!(scan.scan_token(), Ok((Token::Else, 1, 4)));
    assert_eq!(scan.scan_token(), Ok((Token::Fun, 1, 3)));
    assert_eq!(scan.scan_token(), Ok((Token::String(b"hello".to_vec()), 1, 7)));
}

#[test]
fn main_test_scan_math() {
    let code = r#"+ > >= <= < =="#;
    let mut scan = Scanner::new(code);
    assert_eq!(scan.scan_token(), Ok((Token::Plus, 1, 1)));
    assert_eq!(scan.scan_token(), Ok((Token::Greater, 1, 1)));
    assert_eq!(scan.scan_token(), Ok((Token::GreaterEqual, 1, 2)));
    assert_eq!(scan.scan_token(), Ok((Token::LesserEqual, 1, 2)));
    assert_eq!(scan.scan_token(), Ok((Token::Lesser, 1, 1)));
    assert_eq!(scan.scan_token(), Ok((Token::EqualEqual, 1, 2)));
}
