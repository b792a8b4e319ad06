use rumpsteak::lexer::TokenKind;
use rumpsteak::parse::UnexpectedTokenError;
use rumpsteak::token::TokenError;

#[test]
fn token_error_lists_what_was_expected() {
    assert_eq!(TokenError(vec!["a"]).message(), "expected a");
    assert_eq!(TokenError(vec!["a", "b"]).message(), "expected a or b");
    assert_eq!(TokenError(vec!["a", "b", "c"]).message(), "expected a, b or c");
}

#[test]
fn unexpected_token_error_names_what_was_found() {
    let e = UnexpectedTokenError::new(
        vec![TokenKind::Identifier, TokenKind::Comma, TokenKind::RightBrace],
        Some("x".to_string()),
    );
    assert_eq!(e.message(), "expected an identifier, ',' or '}' but found 'x'");
    let e = UnexpectedTokenError::new(vec![TokenKind::Semicolon], None);
    assert_eq!(e.message(), "expected ';' but found end of input");
}

#[test]
fn kinds_have_names() {
    assert_eq!(TokenKind::Digraph.name(), "'digraph'");
    assert_eq!(TokenKind::Arrow.name(), "'->'");
    assert_eq!(TokenKind::Transition.name(), "a transition");
}
