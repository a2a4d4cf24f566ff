use thp::lsp::{
    canonical, comment_spans, has_token_between, is_word, percent_decode, semantic_kind, suffix, token_gap,
    valid_identifier, word_at, Declaration, DeclarationId, DeclarationKind, SemanticContext,
};
use thp::lsp::parameter_spans;
use thp::syntax::ast::{
    ClassDecl, FunctionDecl, MethodDecl, Parameter, Program, Stmt, StmtKind, TypeSyntax, TypeSyntaxKind, Visibility,
};
use thp::syntax::{lex, Span, Token, TokenKind};

#[test]
fn percent_decode_reads_spaces_and_multibyte_text() {
    assert_eq!(
        percent_decode("/tmp/space%20%C5%9Bource.thp").unwrap(),
        "/tmp/space śource.thp"
    );
    assert_eq!(percent_decode("/plain/path").unwrap(), "/plain/path");
    assert_eq!(percent_decode("").unwrap(), "");
}

#[test]
fn percent_decode_accepts_a_leading_plus_in_an_escape() {
    assert_eq!(percent_decode("a%+Fb").unwrap(), "a\u{f}b");
    assert_eq!(percent_decode("%2f%2F").unwrap(), "//");
}

#[test]
fn percent_decode_rejects_malformed_escapes() {
    assert_eq!(
        percent_decode("/bad%2").unwrap_err(),
        "truncated percent escape in file URI"
    );
    assert_eq!(
        percent_decode("/bad%G1").unwrap_err(),
        "invalid percent escape in file URI"
    );
    assert_eq!(
        percent_decode("/bad%-1").unwrap_err(),
        "invalid percent escape in file URI"
    );
    assert_eq!(
        percent_decode("/bad%FF").unwrap_err(),
        "file URI path is not valid UTF-8"
    );
}

#[test]
fn percent_decode_reports_an_escape_that_splits_a_character() {
    let error = percent_decode("%a\u{e9}").unwrap_err();
    assert_eq!(error, std::str::from_utf8(&[b'a', 0xc3]).unwrap_err().to_string());
    assert_eq!(
        percent_decode("%\u{e9}x").unwrap_err(),
        "invalid percent escape in file URI"
    );
}

#[test]
fn declaration_ids_join_their_parts() {
    let id = DeclarationId::new("p", DeclarationKind::Function, None, "f");
    assert_eq!(id.as_str(), "p|function||f");
    let id = DeclarationId::new("/a.thp", DeclarationKind::Method, Some("App\\User"), "save");
    assert_eq!(id.as_str(), "/a.thp|method|App\\User|save");
    assert_eq!(DeclarationKind::Property.as_str(), "property");
}

#[test]
fn labels_and_canonical_names() {
    assert_eq!(suffix(""), "");
    assert_eq!(suffix("deprecated"), " — deprecated");
    assert_eq!(canonical("", "f"), "f");
    assert_eq!(canonical("App\\Models", "User"), "App\\Models\\User");
    assert!(is_word(b'a') && is_word(b'Z') && is_word(b'7') && is_word(b'_') && is_word(b'\\'));
    assert!(!is_word(b'$') && !is_word(b' ') && !is_word(0xc3));
}

#[test]
fn formatter_gaps_between_tokens() {
    assert_eq!(token_gap(TokenKind::Identifier, TokenKind::LParen), "");
    assert_eq!(token_gap(TokenKind::Variable, TokenKind::LParen), "");
    assert_eq!(token_gap(TokenKind::Echo, TokenKind::LParen), " ");
    assert_eq!(token_gap(TokenKind::Identifier, TokenKind::Identifier), " ");
    assert_eq!(token_gap(TokenKind::Identifier, TokenKind::Comma), "");
    assert_eq!(token_gap(TokenKind::Comma, TokenKind::Identifier), " ");
    assert_eq!(token_gap(TokenKind::Variable, TokenKind::Arrow), "");
    assert_eq!(token_gap(TokenKind::Arrow, TokenKind::Identifier), "");
    assert_eq!(token_gap(TokenKind::Question, TokenKind::Identifier), "");
    assert_eq!(token_gap(TokenKind::Equal, TokenKind::Integer), " ");
}

#[test]
fn words_at_a_cursor() {
    let text = "$name = foo_bar;";
    assert_eq!(word_at(text, 2), Some(("name".to_owned(), Span { start: 0, end: 5 }, true)));
    assert_eq!(word_at(text, 5), Some(("name".to_owned(), Span { start: 0, end: 5 }, true)));
    assert_eq!(word_at(text, 10), Some(("foo_bar".to_owned(), Span { start: 8, end: 15 }, false)));
    assert_eq!(word_at(text, 6), None);
    assert_eq!(word_at(text, 100), None);
    assert_eq!(word_at("App\\User::find", 4), Some(("App\\User".to_owned(), Span { start: 0, end: 8 }, false)));
}

#[test]
fn identifiers_for_rename() {
    assert!(valid_identifier("name", false));
    assert!(valid_identifier("name", true));
    assert!(!valid_identifier("1abc", false));
    assert!(!valid_identifier("two words", false));
    assert!(!valid_identifier("", false));
}

#[test]
fn comments_skip_quoted_text() {
    let text = "a // x\nb /* y */ 'c//' \"d/*\" e /* open";
    let spans = comment_spans(text);
    assert_eq!(
        spans,
        vec![Span { start: 2, end: 6 }, Span { start: 9, end: 16 }, Span { start: 31, end: 38 }]
    );
    assert_eq!(comment_spans("'\\'' // after"), vec![Span { start: 5, end: 13 }]);
    assert_eq!(comment_spans("/"), vec![]);
}

#[test]
fn tokens_between_offsets() {
    let lexed = lex("<?thp $a = 1;");
    assert!(has_token_between(&lexed.tokens, 6, 8));
    assert!(!has_token_between(&lexed.tokens, 8, 9));
    assert!(!has_token_between(&lexed.tokens, 13, 13));
}

fn tok(kind: TokenKind, start: usize, end: usize) -> Token {
    Token { kind, span: Span { start, end } }
}

#[test]
fn semantic_kinds_follow_declarations_and_neighbours() {
    let tokens = vec![
        tok(TokenKind::Public, 5, 11),
        tok(TokenKind::Static, 12, 18),
        tok(TokenKind::Function, 19, 27),
        tok(TokenKind::Identifier, 28, 32),
        tok(TokenKind::LParen, 32, 33),
        tok(TokenKind::Variable, 33, 35),
        tok(TokenKind::RParen, 35, 36),
        tok(TokenKind::Variable, 40, 42),
        tok(TokenKind::Arrow, 42, 44),
        tok(TokenKind::Identifier, 44, 48),
        tok(TokenKind::LParen, 48, 49),
        tok(TokenKind::Identifier, 50, 54),
        tok(TokenKind::Eof, 60, 60),
    ];
    let context = SemanticContext {
        declarations: vec![Declaration {
            kind: DeclarationKind::Method,
            name_span: Span { start: 28, end: 32 },
            start: 5,
            deprecated: true,
        }],
        tokens: tokens.clone(),
        parameter_spans: vec![Span { start: 33, end: 35 }],
        local_spans: vec![Span { start: 40, end: 42 }],
        type_parameter_spans: Vec::new(),
        namespace_span: None,
    };
    assert_eq!(semantic_kind(&context, &tokens[3]), (4, 7));
    assert_eq!(semantic_kind(&context, &tokens[5]), (6, 1));
    assert_eq!(semantic_kind(&context, &tokens[7]), (7, 1));
    assert_eq!(semantic_kind(&context, &tok(TokenKind::Variable, 70, 72)), (7, 0));
    assert_eq!(semantic_kind(&context, &tokens[9]), (4, 0));
    assert_eq!(semantic_kind(&context, &tokens[11]), (1, 0));
    assert_eq!(semantic_kind(&context, &tokens[1]), (8, 0));
    assert_eq!(semantic_kind(&context, &tok(TokenKind::String, 1, 3)), (9, 0));
    assert_eq!(semantic_kind(&context, &tok(TokenKind::Float, 1, 3)), (10, 0));
    assert_eq!(semantic_kind(&context, &tok(TokenKind::Plus, 1, 2)), (11, 0));
}

fn param(start: usize) -> Parameter {
    Parameter {
        name: format!("p{start}"),
        name_span: Span { start, end: start + 2 },
        ty: TypeSyntax { kind: TypeSyntaxKind::Named { name: "int".to_owned(), arguments: Vec::new() }, span: Span { start: 0, end: 0 } },
        default: None,
        variadic: false,
        span: Span { start, end: start + 2 },
    }
}

fn func(name: &str, parameters: Vec<Parameter>) -> FunctionDecl {
    FunctionDecl {
        name: name.to_owned(),
        name_span: Span { start: 0, end: 1 },
        parameters,
        return_type: TypeSyntax { kind: TypeSyntaxKind::Named { name: "void".to_owned(), arguments: Vec::new() }, span: Span { start: 0, end: 0 } },
        body: Vec::new(),
    }
}

#[test]
fn parameter_spans_cover_functions_and_methods() {
    let class = ClassDecl {
        name: "C".to_owned(),
        name_span: Span { start: 0, end: 1 },
        abstract_class: false,
        final_class: false,
        parent: None,
        interfaces: Vec::new(),
        trait_uses: Vec::new(),
        properties: Vec::new(),
        methods: vec![MethodDecl {
            function: func("m", vec![param(30)]),
            visibility: Visibility::Public,
            static_method: false,
            abstract_method: false,
            final_method: false,
            span: Span { start: 0, end: 1 },
        }],
    };
    let program = Program {
        namespace: None,
        imports: Vec::new(),
        statements: vec![
            Stmt { kind: StmtKind::Function(func("f", vec![param(10), param(20)])), span: Span { start: 0, end: 1 } },
            Stmt { kind: StmtKind::Break, span: Span { start: 0, end: 1 } },
            Stmt { kind: StmtKind::Class(class), span: Span { start: 0, end: 1 } },
        ],
        span: Span { start: 0, end: 40 },
    };
    assert_eq!(
        parameter_spans(&program),
        vec![Span { start: 10, end: 12 }, Span { start: 20, end: 22 }, Span { start: 30, end: 32 }]
    );
}
