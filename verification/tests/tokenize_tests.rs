use structparse::tokenize::{tokenize, Span, Token, TokenKind};

fn tok(start: usize, end: usize, kind: TokenKind) -> Token {
    Token {
        span: Span { start, end },
        kind,
    }
}

#[test]
fn test_tokenize_simple_empty() {
    assert_eq!(
        tokenize("struct Foo {}").unwrap(),
        vec![
            tok(0, 6, TokenKind::KwStruct),
            tok(7, 10, TokenKind::Ident),
            tok(11, 12, TokenKind::LBrace),
            tok(12, 13, TokenKind::RBrace),
        ],
    );
}

#[test]
fn test_tokenize_array_field() {
    assert_eq!(
        tokenize("struct Foo {array: [u8; 10]}").unwrap(),
        vec![
            tok(0, 6, TokenKind::KwStruct),
            tok(7, 10, TokenKind::Ident),
            tok(11, 12, TokenKind::LBrace),
            tok(12, 17, TokenKind::Ident),
            tok(17, 18, TokenKind::Colon),
            tok(19, 20, TokenKind::LSqBracket),
            tok(20, 22, TokenKind::Ident),
            tok(22, 23, TokenKind::Semi),
            tok(24, 26, TokenKind::NumLit),
            tok(26, 27, TokenKind::RSqBracket),
            tok(27, 28, TokenKind::RBrace),
        ],
    );
}

#[test]
fn test_tokenize_empty_multiline() {
    assert_eq!(
        tokenize(
            "struct Foo {

        }"
        )
        .unwrap(),
        vec![
            tok(0, 6, TokenKind::KwStruct),
            tok(7, 10, TokenKind::Ident),
            tok(11, 12, TokenKind::LBrace),
            tok(22, 23, TokenKind::RBrace),
        ],
    );
}

#[test]
fn test_tokenize_single_field_multiline() {
    assert_eq!(
        tokenize(
            "struct Foo {
            field: u32,
        }"
        )
        .unwrap(),
        vec![
            tok(0, 6, TokenKind::KwStruct),
            tok(7, 10, TokenKind::Ident),
            tok(11, 12, TokenKind::LBrace),
            tok(25, 30, TokenKind::Ident),
            tok(30, 31, TokenKind::Colon),
            tok(32, 35, TokenKind::Ident),
            tok(35, 36, TokenKind::Comma),
            tok(45, 46, TokenKind::RBrace),
        ],
    );
}

#[test]
fn test_tokenize_single_field_multiline_comment() {
    assert_eq!(
        tokenize(
            "struct Foo {
            // This is a cool field... I guess.
            field: u32,
        }"
        )
        .unwrap(),
        vec![
            tok(0, 6, TokenKind::KwStruct),
            tok(7, 10, TokenKind::Ident),
            tok(11, 12, TokenKind::LBrace),
            tok(73, 78, TokenKind::Ident),
            tok(78, 79, TokenKind::Colon),
            tok(80, 83, TokenKind::Ident),
            tok(83, 84, TokenKind::Comma),
            tok(93, 94, TokenKind::RBrace),
        ],
    );
}
