use ozone::lexer::{group_parentheses, BasicToken};
use ozone::tokenizer::{tokenize, BracketType, Terminator, Unfinished};
use ozone::{group_expressions, parse, ErrorKind};

#[test]
fn calls_split_on_semicolons() {
    let (terminator, expressions) = parse("f(x, y); g(z);").unwrap();
    assert_eq!(terminator, Terminator::Semicolon);
    assert_eq!(expressions.len(), 3);
    assert_eq!(expressions[0].len(), 2);
    assert!(matches!(expressions[0][0].token, BasicToken::Identifier));
    assert_eq!(expressions[0][0].span, 0..1);
    match &expressions[0][1].token {
        BasicToken::Bracketed(BracketType::Round, inner) => assert_eq!(inner.len(), 3),
        other => panic!("{other:?}"),
    }
    assert_eq!(expressions[1].len(), 2);
    assert_eq!(expressions[1][0].span, 9..10);
    match &expressions[1][1].token {
        BasicToken::Bracketed(BracketType::Round, inner) => assert_eq!(inner.len(), 1),
        other => panic!("{other:?}"),
    }
    assert!(expressions[2].is_empty());
}

#[test]
fn mixed_terminators_fail_at_the_second_kind() {
    let err = parse("a; b, c;").unwrap_err();
    assert_eq!(err.kind, ErrorKind::MismatchedTerminator);
    assert_eq!(err.span, 4..5);
}

#[test]
fn mixed_terminators_fail_starting_with_comma() {
    let grouped = group_parentheses(&tokenize("x, y, z; w").unwrap()).unwrap();
    let err = group_expressions(grouped).unwrap_err();
    assert_eq!(err.kind, ErrorKind::MismatchedTerminator);
    assert_eq!(err.span, 7..8);
}

#[test]
fn no_terminator_gives_one_expression_and_semicolon() {
    let (terminator, expressions) = parse("a + b").unwrap();
    assert_eq!(terminator, Terminator::Semicolon);
    assert_eq!(expressions.len(), 1);
    assert_eq!(expressions[0].len(), 3);
}

#[test]
fn commas_split_and_nested_terminators_stay_inside() {
    let (terminator, expressions) = parse("a, (b; c), d").unwrap();
    assert_eq!(terminator, Terminator::Comma);
    assert_eq!(expressions.len(), 3);
    assert_eq!(expressions[1].len(), 1);
}

#[test]
fn empty_source_is_one_empty_expression() {
    let (terminator, expressions) = parse("").unwrap();
    assert_eq!(terminator, Terminator::Semicolon);
    assert_eq!(expressions.len(), 1);
    assert!(expressions[0].is_empty());
}

#[test]
fn terminator_symbols() {
    assert_eq!(Terminator::Semicolon.symbol(), ";");
    assert_eq!(Terminator::Comma.symbol(), ",");
}

#[test]
fn unclosed_string_fails_the_parse_with_its_kind() {
    let err = parse("x \"abc").unwrap_err();
    assert_eq!(err.kind, ErrorKind::LexingError(Unfinished::String));
    assert_eq!(err.span, 2..6);
}
