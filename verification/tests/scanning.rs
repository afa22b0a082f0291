use xfmt::tokenizer::LexError;
use xfmt::tokenizer::Scanner;
use xfmt::tokenizer::Token;

#[test]
fn test_scan_source() {
    let input = String::from("pink x =1+2 ; overtune{ something(1, 2)  other }\0");
    let expected_output = vec![
        Token::Literal("pink".to_string()),
        Token::Literal("x".to_string()),
        Token::Operator('='),
        Token::Literal("1".to_string()),
        Token::Operator('+'),
        Token::Literal("2".to_string()),
        Token::Semicolon,
        Token::Literal("overtune".to_string()),
        Token::OpenBrace,
        Token::Literal("something".to_string()),
        Token::OpenParen,
        Token::Literal("1".to_string()),
        Token::Comma,
        Token::Literal("2".to_string()),
        Token::ClosedParen,
        Token::Literal("other".to_string()),
        Token::ClosedBrace,
    ];

    let mut scanner = Scanner::new(&input);
    let output = scanner.scan_source().unwrap();

    assert_eq!(output.len(), expected_output.len());

    for (index, token) in output.iter().enumerate() {
        assert_eq!(expected_output[index], *token);
    }
}

#[test]
fn test_scan_string_payload_keeps_opening_quote() {
    let input = String::from("\"abc\" x");
    let mut scanner = Scanner::new(&input);
    let output = scanner.scan_source().unwrap();

    let expected_output = vec![
        Token::String("\"abc".to_string()),
        Token::Literal("x".to_string()),
    ];
    assert_eq!(output, expected_output);
}

#[test]
fn test_scan_string_payload_is_never_empty() {
    let input = String::from("\"\"");
    let mut scanner = Scanner::new(&input);
    let output = scanner.scan_source().unwrap();

    let expected_output = vec![Token::String("\"".to_string())];
    assert_eq!(output, expected_output);
}

#[test]
fn test_scan_unterminated_string() {
    let input = String::from("pink \"abc");
    let mut scanner = Scanner::new(&input);
    let result = scanner.scan_source();

    assert_eq!(result, Err(LexError::UnterminatedString));
}

#[test]
fn test_scan_unsupported_character() {
    let input = String::from("pink % x");
    let mut scanner = Scanner::new(&input);
    let result = scanner.scan_source();

    assert_eq!(result, Err(LexError::UnsupportedCharacter));
}

#[test]
fn test_scan_empty_input() {
    let input = String::new();
    let mut scanner = Scanner::new(&input);
    let output = scanner.scan_source().unwrap();

    assert!(output.is_empty());
}

#[test]
fn test_scan_whitespace_only_input() {
    let input = String::from(" \t\r\n\0");
    let mut scanner = Scanner::new(&input);
    let output = scanner.scan_source().unwrap();

    assert!(output.is_empty());
}

#[test]
fn test_describe_tokens() {
    assert_eq!(Token::NewLine.describe(), "NewLine");
    assert_eq!(Token::Space.describe(), "Space");
    assert_eq!(Token::Tab.describe(), "Tab");
    assert_eq!(Token::Comma.describe(), "Comma");
    assert_eq!(Token::Semicolon.describe(), "Semicolon");
    assert_eq!(Token::String("abc".to_string()).describe(), "String: abc");
    assert_eq!(Token::Operator('+').describe(), "Operator: +");
    assert_eq!(Token::Literal("pink".to_string()).describe(), "Literal: pink");
    assert_eq!(Token::OpenBrace.describe(), "OpenBrace");
    assert_eq!(Token::ClosedBrace.describe(), "ClosedBrace");
    assert_eq!(Token::OpenParen.describe(), "OpenParen");
    assert_eq!(Token::ClosedParen.describe(), "ClosedParen");
}
