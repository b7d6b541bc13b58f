use ozone::tokenizer::{
    scan, tokenize, Bracket, BracketDirection, BracketType, RawToken, Terminator, Unfinished,
};
use ozone::util::Token;
use ozone::ErrorKind;

fn kinds(tokens: &[Token<RawToken>]) -> Vec<RawToken> {
    tokens.iter().map(|t| t.token).collect()
}

fn texts<'a>(source: &'a str, tokens: &[Token<RawToken>]) -> Vec<&'a str> {
    tokens.iter().map(|t| &source[t.span.clone()]).collect()
}

#[test]
fn tagged_string_swallows_inner_quote() {
    let source = "#tag\"hello #notclose\" world\"tag#";
    let tokens = tokenize(source).unwrap();
    assert_eq!(tokens.len(), 1);
    assert_eq!(tokens[0].token, RawToken::String);
    assert_eq!(tokens[0].span, 0..source.len());
}

#[test]
fn nested_comment_is_one_token() {
    let source = "(* a (* b *) c *)";
    let tokens = scan(source, true).unwrap();
    assert_eq!(tokens.len(), 1);
    assert_eq!(tokens[0].token, RawToken::Comment);
    assert_eq!(tokens[0].span, 0..source.len());
    assert!(tokenize(source).unwrap().is_empty());
}

#[test]
fn block_comment_does_not_nest() {
    let source = "/* a /* b */ c */";
    let tokens = scan(source, true).unwrap();
    assert_eq!(kinds(&tokens), vec![RawToken::Comment, RawToken::Identifier, RawToken::Operator]);
    assert_eq!(texts(source, &tokens), vec!["/* a /* b */", "c", "*/"]);
    assert_eq!(tokens[2].span, 15..17);
}

#[test]
fn line_comment_ends_at_newline_or_end() {
    let source = "a // note\nb // last";
    let tokens = scan(source, true).unwrap();
    assert_eq!(texts(source, &tokens), vec!["a", "// note", "b", "// last"]);
    assert_eq!(texts(source, &tokenize(source).unwrap()), vec!["a", "b"]);
}

#[test]
fn plain_string_closes_on_first_unescaped_quote() {
    let source = r#""a\"b" x"#;
    let tokens = tokenize(source).unwrap();
    assert_eq!(kinds(&tokens), vec![RawToken::String, RawToken::Identifier]);
    assert_eq!(texts(source, &tokens), vec![r#""a\"b""#, "x"]);
}

#[test]
fn piped_quote_does_not_close_string() {
    let source = r#""a|"|b" y"#;
    let tokens = tokenize(source).unwrap();
    assert_eq!(texts(source, &tokens), vec![r#""a|"|b""#, "y"]);
    assert_eq!(tokens[0].token, RawToken::String);
}

#[test]
fn hash_tag_string() {
    let source = "##\"a\"#\"## z";
    let tokens = tokenize(source).unwrap();
    assert_eq!(texts(source, &tokens), vec!["##\"a\"#\"##", "z"]);
    assert_eq!(tokens[0].token, RawToken::String);
}

#[test]
fn character_literal_shapes() {
    let source = "'x '\\n '|ab| 'é";
    let tokens = tokenize(source).unwrap();
    assert_eq!(kinds(&tokens), vec![RawToken::Character; 4]);
    assert_eq!(texts(source, &tokens), vec!["'x", "'\\n", "'|ab|", "'é"]);
}

#[test]
fn unclosed_tokens_fail_the_scan() {
    let cases = [
        ("a \"open", Unfinished::String, 2),
        ("#tag\"body\"tg#", Unfinished::String, 0),
        ("'", Unfinished::Character, 0),
        ("x '|ab", Unfinished::Character, 2),
        ("'\\", Unfinished::Character, 0),
        ("/* open", Unfinished::Comment, 0),
        ("(* (* *)", Unfinished::Comment, 0),
        ("b #no quote", Unfinished::String, 2),
        ("\"a|\"", Unfinished::String, 0),
    ];
    for (source, kind, start) in cases {
        let err = tokenize(source).unwrap_err();
        assert_eq!(err.kind, ErrorKind::LexingError(kind), "{source}");
        assert_eq!(err.span, start..source.len());
        let err = scan(source, true).unwrap_err();
        assert_eq!(err.kind, ErrorKind::LexingError(kind), "{source}");
    }
}

#[test]
fn maximal_munch_and_punctuation() {
    let source = "foo_1+=bar.baz; x,(y)[z]{w} a/b";
    let tokens = tokenize(source).unwrap();
    assert_eq!(
        texts(source, &tokens),
        vec!["foo_1", "+=", "bar", ".", "baz", ";", "x", ",", "(", "y", ")", "[", "z", "]", "{", "w", "}", "a", "/", "b"]
    );
    assert_eq!(tokens[5].token, RawToken::SpecialCharacter(Terminator::Semicolon));
    assert_eq!(tokens[7].token, RawToken::SpecialCharacter(Terminator::Comma));
    assert_eq!(tokens[3].token, RawToken::Dot);
    assert_eq!(tokens[1].token, RawToken::Operator);
    assert_eq!(tokens[18].token, RawToken::Operator);
    assert_eq!(tokens[11].token, RawToken::Bracket(Bracket(BracketType::Square, BracketDirection::Opening)));
    assert_eq!(tokens[16].token, RawToken::Bracket(Bracket(BracketType::Curly, BracketDirection::Closing)));
}

#[test]
fn empty_and_blank_sources() {
    assert!(tokenize("").unwrap().is_empty());
    assert!(tokenize(" \t\n\r").unwrap().is_empty());
}

#[test]
fn tokens_cover_source_without_spaces_and_comments() {
    let source = "let  x = \"a b\" ; // c\n f(x) /* d */ 'q";
    let tokens = tokenize(source).unwrap();
    let joined: String = texts(source, &tokens).concat();
    assert_eq!(joined, "letx=\"a b\";f(x)'q");
    for pair in tokens.windows(2) {
        assert!(pair[0].span.end <= pair[1].span.start);
    }
}

#[test]
fn rescanning_a_token_gives_the_same_token() {
    let source = "#t\"x\"t# 'a '|b| foo += (* c *) \"s\" ; . [ //z";
    for token in scan(source, true).unwrap() {
        let text = &source[token.span.clone()];
        let again = scan(text, true).unwrap();
        assert_eq!(again.len(), 1, "{text}");
        assert_eq!(again[0].token, token.token);
        assert_eq!(again[0].span, 0..text.len());
    }
}

#[test]
fn slash_continues_an_operator_run_unless_it_opens_a_comment() {
    let source = "+/ /+ a+/b x+//c\n y-/*d*/";
    let tokens = scan(source, true).unwrap();
    assert_eq!(texts(source, &tokens), vec!["+/", "/+", "a", "+/", "b", "x", "+", "//c", "y", "-", "/*d*/"]);
    assert_eq!(tokens[0].token, RawToken::Operator);
    assert_eq!(tokens[0].span, 0..2);
    assert_eq!(tokens[1].token, RawToken::Operator);
    assert_eq!(tokens[3].token, RawToken::Operator);
    assert_eq!(tokens[7].token, RawToken::Comment);
    assert_eq!(tokens[10].token, RawToken::Comment);
}
