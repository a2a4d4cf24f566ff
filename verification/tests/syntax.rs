use thp::syntax::{lex, Span, TokenKind};

fn kinds(source: &str) -> Vec<TokenKind> {
    lex(source).tokens.iter().map(|token| token.kind).collect()
}

#[test]
fn lexes_core_tokens_and_comments() {
    let output = lex("<?thp // comment\n$x: int = 12 + 3.5; /* done */ echo \"ok\";");
    assert!(output.diagnostics.is_empty(), "{:?}", output.diagnostics);
    let kinds = output.tokens.iter().map(|token| token.kind).collect::<Vec<_>>();
    assert_eq!(
        kinds,
        vec![
            TokenKind::OpenTag,
            TokenKind::Variable,
            TokenKind::Colon,
            TokenKind::Identifier,
            TokenKind::Equal,
            TokenKind::Integer,
            TokenKind::Plus,
            TokenKind::Float,
            TokenKind::Semicolon,
            TokenKind::Echo,
            TokenKind::String,
            TokenKind::Semicolon,
            TokenKind::Eof,
        ]
    );
}

#[test]
fn diagnoses_unterminated_comment() {
    let output = lex("<?thp /*");
    assert_eq!(output.diagnostics[0].code, "L0002");
    assert_eq!(output.diagnostics[0].span, Span { start: 6, end: 8 });
    assert_eq!(output.diagnostics[0].message, "unterminated block comment");
}

#[test]
fn spans_cover_each_token() {
    let output = lex("$ab=>'x'");
    let spans: Vec<(TokenKind, usize, usize)> =
        output.tokens.iter().map(|t| (t.kind, t.span.start, t.span.end)).collect();
    assert_eq!(
        spans,
        vec![
            (TokenKind::Variable, 0, 3),
            (TokenKind::FatArrow, 3, 5),
            (TokenKind::String, 5, 8),
            (TokenKind::Eof, 8, 8),
        ]
    );
}

#[test]
fn keywords_punctuation_and_numbers() {
    assert_eq!(
        kinds("function elseif insteadof default null Foo"),
        vec![
            TokenKind::Function,
            TokenKind::ElseIf,
            TokenKind::InsteadOf,
            TokenKind::Default,
            TokenKind::Null,
            TokenKind::Identifier,
            TokenKind::Eof,
        ]
    );
    assert_eq!(
        kinds("...===!==??::->\\|"),
        vec![
            TokenKind::Ellipsis,
            TokenKind::StrictEqual,
            TokenKind::StrictNotEqual,
            TokenKind::QuestionQuestion,
            TokenKind::DoubleColon,
            TokenKind::Arrow,
            TokenKind::NamespaceSeparator,
            TokenKind::Pipe,
            TokenKind::Eof,
        ]
    );
    assert_eq!(
        kinds("1. 2.5 3"),
        vec![TokenKind::Integer, TokenKind::Dot, TokenKind::Float, TokenKind::Integer, TokenKind::Eof]
    );
}

#[test]
fn problems_are_reported_and_lexing_goes_on() {
    let output = lex("$1 é 'open");
    let codes: Vec<&str> = output.diagnostics.iter().map(|d| d.code.as_str()).collect();
    assert_eq!(codes, vec!["L0003", "L0001", "L0004"]);
    assert_eq!(output.diagnostics[0].span, Span { start: 0, end: 1 });
    assert_eq!(output.diagnostics[1].span, Span { start: 3, end: 5 });
    assert_eq!(output.diagnostics[2].span, Span { start: 6, end: 11 });
    assert_eq!(output.diagnostics[2].stage, "lexing");
    assert_eq!(kinds("$1 é 'open"), vec![TokenKind::Integer, TokenKind::Eof]);
}

#[test]
fn escaped_quotes_stay_inside_strings() {
    let output = lex("\"a\\\"b\" x");
    assert!(output.diagnostics.is_empty());
    assert_eq!(output.tokens[0].kind, TokenKind::String);
    assert_eq!(output.tokens[0].span, Span { start: 0, end: 6 });
    assert_eq!(output.tokens[1].kind, TokenKind::Identifier);
}

#[test]
fn empty_source_is_just_the_end() {
    let output = lex("");
    assert_eq!(output.tokens.len(), 1);
    assert_eq!(output.tokens[0].kind, TokenKind::Eof);
    assert_eq!(output.tokens[0].span, Span { start: 0, end: 0 });
}
