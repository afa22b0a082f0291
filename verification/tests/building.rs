use xfmt::builder::Builder;
use xfmt::builder::RenderError;
use xfmt::tokenizer::Token;

#[test]
fn test_build_output_string() {
    let input = vec![
        Token::Space,
        Token::Literal("a".to_string()),
        Token::Space,
        Token::Operator('+'),
        Token::Space,
        Token::Literal("a".to_string()),
        Token::Space,
        Token::OpenBrace,
        Token::NewLine,
        Token::Tab,
        Token::Literal("a".to_string()),
        Token::Space,
        Token::ClosedBrace,
        Token::NewLine,
        Token::Literal("a".to_string()),
        Token::OpenParen,
        Token::ClosedParen,
    ];

    let builder = Builder::new(&input);
    let output = builder.build().unwrap();

    let expected_output = " a + a {\n   a }\na()";

    assert_eq!(output, expected_output);
}

#[test]
fn builder_test_build_output_string() {
    let input = vec![
        Token::Space,
        Token::Operator('+'),
        Token::Space,
        Token::Literal("b".to_string()),
        Token::Space,
        Token::OpenBrace,
        Token::NewLine,
        Token::Tab,
        Token::Literal("a".to_string()),
        Token::Space,
        Token::ClosedBrace,
        Token::NewLine,
    ];

    let builder = Builder::new(&input);
    let output = builder.build().unwrap();

    let expected_output = " + b {\n   a }\n";

    assert_eq!(output, expected_output);
}

#[test]
fn test_build_rejects_string_token() {
    let input = vec![
        Token::Literal("a".to_string()),
        Token::String("b".to_string()),
    ];

    let builder = Builder::new(&input);
    let result = builder.build();

    assert_eq!(result, Err(RenderError::UnsupportedToken));
}
