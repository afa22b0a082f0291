use xfmt::fmt::Formatter;
use xfmt::fmt::LayoutError;
use xfmt::tokenizer::Scanner;
use xfmt::tokenizer::Token;

#[test]
fn test_formatting() {
    let input = String::from("pink x =1+2 ; overtune (a,b){ something , other }\0");
    let expected_output =
        String::from("pink x = 1 + 2;\novertune(a, b) {\n   something, other \n}");
    let mut formatter = Formatter::new(&input).unwrap();
    let output = formatter.format().unwrap();

    assert_eq!(output, expected_output);
}

#[test]
fn test_wrapping() {
    let input = String::from("name name name name name name name name name\0");
    let expected_output = String::from("name name name name name name name name \n   name ");
    let mut formatter = Formatter::new(&input).unwrap();
    let output = formatter.format().unwrap();

    assert_eq!(output, expected_output);
}

#[test]
fn test_update_tokens() {
    let input = vec![
        Token::Literal("a".to_string()),
        Token::Operator('='),
        Token::Literal("a".to_string()),
        Token::Semicolon,
        Token::Literal("a".to_string()),
        Token::OpenParen,
        Token::Literal("a".to_string()),
        Token::ClosedParen,
        Token::OpenBrace,
        Token::Literal("a".to_string()),
        Token::ClosedBrace,
    ];

    let expected_output = vec![
        Token::Literal("a".to_string()),
        Token::Space,
        Token::Operator('='),
        Token::Space,
        Token::Literal("a".to_string()),
        Token::Semicolon,
        Token::NewLine,
        Token::Literal("a".to_string()),
        Token::OpenParen,
        Token::Literal("a".to_string()),
        Token::ClosedParen,
        Token::Space,
        Token::OpenBrace,
        Token::NewLine,
        Token::Tab,
        Token::Literal("a".to_string()),
        Token::Space,
        Token::NewLine,
        Token::ClosedBrace,
    ];

    let mut formatter = Formatter::from_tokens(input);

    while !formatter.is_at_end() {
        formatter.update_tokens().unwrap();
    }

    let tokens = formatter.output_tokens();

    for token in tokens.iter() {
        println!("Token: {}", token.describe());
    }

    assert_eq!(tokens.len(), expected_output.len());

    for (index, token) in tokens.iter().enumerate() {
        assert_eq!(*token, expected_output[index]);
    }
}

#[test]
fn test_max_col() {
    let input = vec![
        Token::Literal("a".to_string()),
        Token::Literal("a".to_string()),
        Token::Literal("a".to_string()),
        Token::Literal("a".to_string()),
        Token::Literal("a".to_string()),
        Token::Literal("a".to_string()),
        Token::Literal("a".to_string()),
        Token::Literal("a".to_string()),
        Token::Literal("a".to_string()),
        Token::Semicolon,
        Token::Literal("a".to_string()),
    ];

    let expected_output = vec![
        Token::Literal("a".to_string()),
        Token::Space,
        Token::Literal("a".to_string()),
        Token::Space,
        Token::Literal("a".to_string()),
        Token::Space,
        Token::Literal("a".to_string()),
        Token::Space,
        Token::Literal("a".to_string()),
        Token::Space,
        Token::Literal("a".to_string()),
        Token::Space,
        Token::Literal("a".to_string()),
        Token::Space,
        Token::Literal("a".to_string()),
        Token::Space,
        Token::NewLine,
        Token::Tab,
        Token::Literal("a".to_string()),
        Token::Semicolon,
        Token::NewLine,
        Token::Literal("a".to_string()),
        Token::Space,
    ];

    let mut formatter = Formatter::from_tokens(input);

    while !formatter.is_at_end() {
        formatter.update_tokens().unwrap();
    }

    let tokens = formatter.output_tokens();

    assert_eq!(tokens.len(), expected_output.len());

    for (index, token) in tokens.iter().enumerate() {
        assert_eq!(*token, expected_output[index]);
    }
}

#[test]
fn test_unbalanced_brace_raises_error() {
    let input = String::from("pink } x");
    let mut formatter = Formatter::new(&input).unwrap();
    let result = formatter.format();

    assert_eq!(result, Err(LayoutError::UnbalancedBraces));
}

#[test]
fn test_string_token_rejected_by_layout() {
    let input = vec![Token::String("abc".to_string())];
    let mut formatter = Formatter::from_tokens(input);
    let result = formatter.format();

    assert_eq!(result, Err(LayoutError::UnsupportedToken));
}

#[test]
fn test_format_empty_input() {
    let input = String::new();
    let mut formatter = Formatter::new(&input).unwrap();
    let output = formatter.format().unwrap();

    assert_eq!(output, "");
}

#[test]
fn test_format_is_idempotent_on_scenario() {
    let input = String::from("pink x =1+2 ; overtune (a,b){ something , other }\0");
    let once = Formatter::new(&input).unwrap().format().unwrap();
    let twice = Formatter::new(&once).unwrap().format().unwrap();

    assert_eq!(twice, once);
}

#[test]
fn test_format_is_idempotent_on_wrapped_input() {
    let input = String::from("name name name name name name name name name");
    let once = Formatter::new(&input).unwrap().format().unwrap();
    let twice = Formatter::new(&once).unwrap().format().unwrap();

    assert_eq!(twice, once);
}

#[test]
fn test_format_preserves_tokens() {
    let input = String::from("pink x =1+2 ; overtune (a,b){ something , other }");
    let before = Scanner::new(&input).scan_source().unwrap();
    let formatted = Formatter::new(&input).unwrap().format().unwrap();
    let after = Scanner::new(&formatted).scan_source().unwrap();

    assert_eq!(before, after);
}

#[test]
fn test_closing_brace_starts_its_own_line() {
    let input = String::from("a{b{c}}");
    let formatted = Formatter::new(&input).unwrap().format().unwrap();

    assert_eq!(formatted, "a {\n   b {\n      c \n}   \n}");

    let bytes = formatted.as_bytes();
    for (index, byte) in bytes.iter().enumerate() {
        if *byte == b'}' {
            assert!(index > 0);
            assert_eq!(bytes[index - 1], b'\n');
        }
    }
}

#[test]
fn test_no_adjacent_space_tokens() {
    let input = String::from("pink x =1+2 ; overtune (a,b){ something , other }");
    let scanned = Scanner::new(&input).scan_source().unwrap();
    let mut formatter = Formatter::from_tokens(scanned);

    while !formatter.is_at_end() {
        formatter.update_tokens().unwrap();
    }

    let tokens = formatter.output_tokens();
    for index in 1..tokens.len() {
        assert!(!(tokens[index - 1] == Token::Space && tokens[index] == Token::Space));
    }
}
