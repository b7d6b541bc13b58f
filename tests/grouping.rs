use ozone::lexer::{group_parentheses, group_parentheses_within, BasicToken};
use ozone::tokenizer::{tokenize, BracketType, RawToken, Unfinished};
use ozone::util::Token;
use ozone::ErrorKind;

fn flatten(tokens: &[Token<BasicToken>], source: &str, out: &mut Vec<(String, usize)>) {
    for t in tokens {
        match &t.token {
            BasicToken::Bracketed(_, inner) => {
                out.push((source[t.span.start..t.span.start + 1].to_string(), t.span.start));
                flatten(inner, source, out);
                out.push((source[t.span.end..t.span.end + 1].to_string(), t.span.end));
            }
            _ => out.push((source[t.span.clone()].to_string(), t.span.start)),
        }
    }
}

#[test]
fn mismatched_closing_bracket_is_reported_at_it() {
    let tokens = tokenize("a ( b ]").unwrap();
    let err = group_parentheses(&tokens).unwrap_err();
    assert_eq!(err.kind, ErrorKind::MismatchedClosingParentheses);
    assert_eq!(err.span, 6..7);
}

#[test]
fn closing_bracket_at_top_level_is_mismatched() {
    let err = group_parentheses(&tokenize("a )").unwrap()).unwrap_err();
    assert_eq!(err.kind, ErrorKind::MismatchedClosingParentheses);
    assert_eq!(err.span, 2..3);
}

#[test]
fn interleaved_brackets_are_rejected() {
    let err = group_parentheses(&tokenize("( [ ) ]").unwrap()).unwrap_err();
    assert_eq!(err.kind, ErrorKind::MismatchedClosingParentheses);
    assert_eq!(err.span, 4..5);
}

#[test]
fn other_bracket_type_cannot_close_inside_a_group() {
    let err = group_parentheses(&tokenize("( [ ] )").unwrap()).unwrap_err();
    assert_eq!(err.kind, ErrorKind::MismatchedClosingParentheses);
    assert_eq!(err.span, 4..5);
}

#[test]
fn unclosed_bracket_is_an_error() {
    let err = group_parentheses(&tokenize("f ( x").unwrap()).unwrap_err();
    assert_eq!(err.kind, ErrorKind::UnterminatedGroup);
    assert_eq!(err.span, 2..3);
}

#[test]
fn lexing_error_surfaces_in_grouping() {
    let tokens = vec![
        Token { token: RawToken::Identifier, span: 0..1 },
        Token { token: RawToken::Error(Unfinished::Comment), span: 2..9 },
    ];
    let err = group_parentheses(&tokens).unwrap_err();
    assert_eq!(err.kind, ErrorKind::LexingError(Unfinished::Comment));
    assert_eq!(err.span, 2..9);
}

#[test]
fn nested_groups_keep_their_shape() {
    let source = "f(a (b (c)) d) {e}";
    let grouped = group_parentheses(&tokenize(source).unwrap()).unwrap();
    assert_eq!(grouped.len(), 3);
    assert!(matches!(grouped[0].token, BasicToken::Identifier));
    match &grouped[1].token {
        BasicToken::Bracketed(BracketType::Round, inner) => {
            assert_eq!(inner.len(), 3);
            assert!(matches!(inner[1].token, BasicToken::Bracketed(BracketType::Round, _)));
        }
        other => panic!("{other:?}"),
    }
    assert_eq!(grouped[1].span, 1..13);
    assert!(matches!(grouped[2].token, BasicToken::Bracketed(BracketType::Curly, _)));
    assert_eq!(grouped[2].span, 15..17);
}

#[test]
fn flattening_groups_gives_back_the_tokens() {
    let source = "f(a (b (c)) d) {e; {g}} \"s\" 'c [x]";
    let flat = tokenize(source).unwrap();
    let grouped = group_parentheses(&flat).unwrap();
    let mut out = Vec::new();
    flatten(&grouped, source, &mut out);
    let expected: Vec<(String, usize)> =
        flat.iter().map(|t| (source[t.span.clone()].to_string(), t.span.start)).collect();
    assert_eq!(out, expected);
    assert!(flat.iter().all(|t| !matches!(t.token, RawToken::Error(_))));
}

#[test]
fn nesting_beyond_the_limit_is_rejected() {
    let tokens = tokenize("f((a) (b))").unwrap();
    let err = group_parentheses_within(&tokens, 1).unwrap_err();
    assert_eq!(err.kind, ErrorKind::NestingTooDeep);
    assert_eq!(err.span, 2..3);
    assert_eq!(group_parentheses_within(&tokens, 2).unwrap().len(), 2);
    let err = group_parentheses_within(&tokenize("a (b)").unwrap(), 0).unwrap_err();
    assert_eq!(err.kind, ErrorKind::NestingTooDeep);
    assert_eq!(err.span, 2..3);
    assert_eq!(group_parentheses_within(&tokenize("a b").unwrap(), 0).unwrap().len(), 2);
}
