use aether::lexer::{Language, LexemeSpan, TokenKind};

fn lex(language: Language, line: &str) -> Vec<LexemeSpan> {
    language.create_lexer().lex_full(line)
}

#[test]
fn rust_line_tokens_and_kinds() {
    let tokens = lex(Language::Rust, "let s = \"a\\\"b\"; // note");
    let kinds: Vec<TokenKind> = tokens.iter().map(|t| t.kind).collect();
    assert_eq!(
        kinds,
        vec![
            TokenKind::Word,
            TokenKind::Whitespace,
            TokenKind::Word,
            TokenKind::Whitespace,
            TokenKind::Punct,
            TokenKind::Whitespace,
            TokenKind::Str,
            TokenKind::Punct,
            TokenKind::Whitespace,
            TokenKind::Comment,
        ]
    );
    assert_eq!((tokens[6].start, tokens[6].end), (8, 14));
    assert_eq!(tokens[9].end, 23);
}

#[test]
fn tokens_tile_the_line() {
    let line = "x1 = 0x1F + naïve(\"unterminated";
    let tokens = lex(Language::Rust, line);
    assert_eq!(tokens[0].start, 0);
    assert_eq!(tokens.last().unwrap().end, line.len());
    for pair in tokens.windows(2) {
        assert_eq!(pair[0].end, pair[1].start);
    }
    for t in &tokens {
        assert!(t.start < t.end);
    }
    // Multi-byte characters stay inside one word.
    assert!(tokens.iter().any(|t| &line[t.start..t.end] == "naïve"));
    assert_eq!(tokens.last().unwrap().kind, TokenKind::Str);
}

#[test]
fn numbers_and_plain_text() {
    let tokens = lex(Language::Rust, "42u8");
    assert_eq!(tokens.len(), 1);
    assert_eq!(tokens[0].kind, TokenKind::Number);
    assert!(lex(Language::Rust, "").is_empty());
    let text = lex(Language::PlainText, "any text here");
    assert_eq!(text.len(), 1);
    assert_eq!((text[0].start, text[0].end, text[0].kind), (0, 13, TokenKind::Text));
    assert!(lex(Language::PlainText, "").is_empty());
}
