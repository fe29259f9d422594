use rlox::scanner::Scanner;
use rlox::token::{keyword_or_ident, ScanError, Token};

#[test]
fn hand_lexer_test_token_no_string() {
    // An ASCII letter begins an identifier; text matching no keyword is a
    // generic identifier.
    let code = r#"NoString"#;
    let mut scan = Scanner::new(code);
    assert_eq!(scan.scan_token(), Ok((Token::IdentifierNoData, 1, 8)));
}

#[test]
fn hand_lexer_test_token_string() {
    let code = "\"test\"";
    let mut scan = Scanner::new(code);
    assert_eq!(scan.scan_token(), Ok((Token::String(b"test".to_vec()), 1, 6)));
}

#[test]
fn hand_lexer_test_unmatched_string() {
    let code = "\"";
    let mut scan = Scanner::new(code);
    assert_eq!(scan.scan_token(), Err(ScanError::UnmatchedString));
}

#[test]
fn hand_lexer_test_empty_string() {
    let code = r#""""#;
    let mut scan = Scanner::new(code);
    assert_eq!(scan.scan_token(), Ok((Token::String(Vec::new()), 1, 2)));
}

#[test]
fn hand_lexer_test_unmatched_char() {
    // A lone lowercase letter is an identifier lexeme of length one.
    let code = r#"e""#;
    let mut scan = Scanner::new(code);
    assert_eq!(scan.scan_token(), Ok((Token::IdentifierNoData, 1, 1)));
}

#[test]
fn hand_lexer_test_number_sigle() {
    let code = r#"0"#;
    let mut scan = Scanner::new(code);
    assert_eq!(scan.scan_token(), Ok((Token::Number(0.0f64.to_bits()), 1, 1)));
}

#[test]
fn hand_lexer_test_number_lenght() {
    let code = r#"123456789"#;
    let mut scan = Scanner::new(code);
    assert_eq!(scan.scan_token(), Ok((Token::Number(123456789.0f64.to_bits()), 1, 9)));
}

#[test]
fn hand_lexer_test_number_end_fractionnal() {
    let code = r#"123456789."#;
    let mut scan = Scanner::new(code);
    assert_eq!(scan.scan_token(), Ok((Token::Number(123456789.0f64.to_bits()), 1, 10)));
}

#[test]
fn hand_lexer_test_number_fractional_part() {
    let code = r#"12345.6789"#;
    let mut scan = Scanner::new(code);
    assert_eq!(scan.scan_token(), Ok((Token::Number(12345.6789f64.to_bits()), 1, 10)));
}

#[test]
fn hand_lexer_test_scan_tok_real() {
    let code = r#"if else fun "hello", self print and for let nil loop return while"#;

    let mut scan = Scanner::new(code);
    assert_eq!(scan.scan_token(), Ok((Token::If, 1, 2)));
    assert_eq!(scan.scan_token(), Ok((Token::Else, 1, 4)));
    assert_eq!(scan.scan_token(), Ok((Token::Fun, 1, 3)));
    assert_eq!(scan.scan_token(), Ok((Token::String(b"hello".to_vec()), 1, 7)));
    assert_eq!(scan.scan_token(), Ok((Token::Comma, 1, 1)));
    assert_eq!(scan.scan_token(), Ok((Token::TokSelf, 1, 4)));
    assert_eq!(scan.scan_token(), Ok((Token::Print, 1, 5)));
    assert_eq!(scan.scan_token(), Ok((Token::And, 1, 3)));
    assert_eq!(scan.scan_token(), Ok((Token::For, 1, 3)));
    assert_eq!(scan.scan_token(), Ok((Token::Let, 1, 3)));
    assert_eq!(scan.scan_token(), Ok((Token::Nil, 1, 3)));
    assert_eq!(scan.scan_token(), Ok((Token::Loop, 1, 4)));
    assert_eq!(scan.scan_token(), Ok((Token::Return, 1, 6)));
    assert_eq!(scan.scan_token(), Ok((Token::While, 1, 5)));
}

#[test]
fn hand_lexer_test_scan_math() {
    let code = r#"+ > >= <= < =="#;

    let mut scan = Scanner::new(code);
    assert_eq!(scan.scan_token(), Ok((Token::Plus, 1, 1)));
    assert_eq!(scan.scan_token(), Ok((Token::Greater, 1, 1)));
    assert_eq!(scan.scan_token(), Ok((Token::GreaterEqual, 1, 2)));
    assert_eq!(scan.scan_token(), Ok((Token::LesserEqual, 1, 2)));
    assert_eq!(scan.scan_token(), Ok((Token::Lesser, 1, 1)));
    assert_eq!(scan.scan_token(), Ok((Token::EqualEqual, 1, 2)));
}

#[test]
fn maximal_munge_double_operators() {
    let mut scan = Scanner::new("==");
    assert_eq!(scan.scan_token(), Ok((Token::EqualEqual, 1, 2)));
    assert_eq!(scan.scan_token(), Err(ScanError::End));

    let mut scan = Scanner::new("!=");
    assert_eq!(scan.scan_token(), Ok((Token::BangEqual, 1, 2)));
    assert_eq!(scan.scan_token(), Err(ScanError::End));

    let mut scan = Scanner::new("= =");
    assert_eq!(scan.scan_token(), Ok((Token::Equal, 1, 1)));
    assert_eq!(scan.scan_token(), Ok((Token::Equal, 1, 1)));

    let mut scan = Scanner::new("!");
    assert_eq!(scan.scan_token(), Ok((Token::Bang, 1, 1)));
}

#[test]
fn line_tracking_across_newline() {
    let mut scan = Scanner::new("a\nb");
    assert_eq!(scan.scan_token(), Ok((Token::IdentifierNoData, 1, 1)));
    assert_eq!(scan.scan_token(), Ok((Token::IdentifierNoData, 2, 1)));
    assert_eq!(scan.scan_token(), Err(ScanError::End));
}

#[test]
fn line_tracking_inside_string() {
    let mut scan = Scanner::new("\"a\nb\" c");
    assert_eq!(scan.scan_token(), Ok((Token::String(b"a\nb".to_vec()), 2, 5)));
    assert_eq!(scan.scan_token(), Ok((Token::IdentifierNoData, 2, 1)));
}

#[test]
fn unknown_byte_is_an_error() {
    let mut scan = Scanner::new("@");
    assert_eq!(scan.scan_token(), Err(ScanError::UnknownToken));

    let mut scan = Scanner::new("  #");
    assert_eq!(scan.scan_token(), Err(ScanError::UnknownToken));
}

#[test]
fn empty_input_is_end() {
    let mut scan = Scanner::new("");
    assert_eq!(scan.scan_token(), Err(ScanError::End));
}

#[test]
fn line_comment_is_skipped() {
    let mut scan = Scanner::new("// nothing here\n42");
    assert_eq!(scan.scan_token(), Ok((Token::Number(42.0f64.to_bits()), 2, 2)));
    assert_eq!(scan.scan_token(), Err(ScanError::End));
}

#[test]
fn block_comment_is_skipped() {
    let mut scan = Scanner::new("/* a\nb */ 7");
    assert_eq!(scan.scan_token(), Ok((Token::Number(7.0f64.to_bits()), 2, 1)));
}

#[test]
fn unterminated_block_comment_consumes_input() {
    let mut scan = Scanner::new("/* never closed");
    assert_eq!(scan.scan_token(), Err(ScanError::End));
}

#[test]
fn delimiters_and_squares() {
    let mut scan = Scanner::new("()[]{};,.");
    assert_eq!(scan.scan_token(), Ok((Token::LeftParens, 1, 1)));
    assert_eq!(scan.scan_token(), Ok((Token::RightParens, 1, 1)));
    assert_eq!(scan.scan_token(), Ok((Token::LeftSquare, 1, 1)));
    assert_eq!(scan.scan_token(), Ok((Token::RightSquare, 1, 1)));
    assert_eq!(scan.scan_token(), Ok((Token::LeftBrace, 1, 1)));
    assert_eq!(scan.scan_token(), Ok((Token::RightBrace, 1, 1)));
    assert_eq!(scan.scan_token(), Ok((Token::Semicolon, 1, 1)));
    assert_eq!(scan.scan_token(), Ok((Token::Comma, 1, 1)));
    assert_eq!(scan.scan_token(), Ok((Token::Dot, 1, 1)));
}

#[test]
fn slash_alone_is_a_token() {
    let mut scan = Scanner::new("1 / 2");
    assert_eq!(scan.scan_token(), Ok((Token::Number(1.0f64.to_bits()), 1, 1)));
    assert_eq!(scan.scan_token(), Ok((Token::Slash, 1, 1)));
    assert_eq!(scan.scan_token(), Ok((Token::Number(2.0f64.to_bits()), 1, 1)));
}

#[test]
fn scan_reconstructs_input_length() {
    // Lexeme lengths plus skipped whitespace and comment lengths add up to
    // the whole input, step by step and in total.
    let code = "let x = 1.5; // trailing\n/* block */ \"s\" != [";
    let total = code.len();
    let mut scan = Scanner::new(code);
    let mut consumed = 0usize;
    let mut lexemes = 0usize;
    loop {
        let before = scan.cursor;
        match scan.scan_token() {
            Ok((_, _, len)) => {
                let step = scan.cursor - before;
                assert!(step >= len);
                consumed += step;
                lexemes += len;
            }
            Err(ScanError::End) => {
                consumed += scan.cursor - before;
                break;
            }
            Err(e) => panic!("unexpected scan error: {:?}", e),
        }
    }
    assert_eq!(consumed, total);
    assert!(lexemes <= total);
    assert_eq!(scan.cursor, total);
}

#[test]
fn keyword_table_classifies() {
    assert_eq!(keyword_or_ident(b"while"), Token::While);
    assert_eq!(keyword_or_ident(b"struct"), Token::Struct);
    assert_eq!(keyword_or_ident(b"true"), Token::True);
    assert_eq!(keyword_or_ident(b"false"), Token::False);
    assert_eq!(keyword_or_ident(b""), Token::EOF);
    assert_eq!(keyword_or_ident(b"whale"), Token::IdentifierNoData);
    assert_eq!(keyword_or_ident(b"While"), Token::IdentifierNoData);
}

#[test]
fn scanner_primitives() {
    let mut scan = Scanner::new("ab");
    assert_eq!(scan.peek(), Some(&b'a'));
    assert_eq!(scan.peek_next(), Some(&b'b'));
    assert!(!scan.is_at_end());
    assert_eq!(scan.advance(), Some(b'a'));
    assert_eq!(scan.match_bin(b'x'), None);
    assert_eq!(scan.match_bin(b'b'), Some(()));
    assert!(scan.is_at_end());
    assert_eq!(scan.peek(), None);
    assert_eq!(scan.advance(), None);
}

#[test]
fn number_parser_rejects_non_numbers() {
    assert_eq!(rlox::value::parse_number(b"nonsense"), None);
    assert_eq!(rlox::value::parse_number(b"1.5"), Some(1.5f64.to_bits()));
}
