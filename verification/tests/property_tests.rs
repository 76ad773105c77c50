use structparse::tokenize::{tokenize, Span, Token, TokenKind, TokenizeErrorKind};
use structparse::{Array, Field, NumParseErrorKind, Struct, StructParseErrorKind, Ty};

#[test]
fn round_trip_canonical_text() {
    // The canonical rendering of a struct value: every lexeme followed by
    // one space. Parsing it reproduces the value exactly.
    let canonical = "struct Foo { a : u32 , b : [ u8 ; 4 ] , } ";
    assert_eq!(
        Struct::parse(canonical).unwrap(),
        Struct {
            name: b"Foo".to_vec(),
            fields: vec![
                Field {
                    name: b"a".to_vec(),
                    ty: Ty::Ident(b"u32".to_vec())
                },
                Field {
                    name: b"b".to_vec(),
                    ty: Ty::Array(Array {
                        ty: Box::new(Ty::Ident(b"u8".to_vec())),
                        len: 4
                    })
                },
            ],
        }
    );
}

#[test]
fn field_order_is_declaration_order() {
    let s = Struct::parse("struct Foo { first: u8, second: u16, third: u32 }").unwrap();
    assert_eq!(s.fields[0].name, b"first".to_vec());
    assert_eq!(s.fields[1].name, b"second".to_vec());
    assert_eq!(s.fields[2].name, b"third".to_vec());
}

#[test]
fn whitespace_and_comments_do_not_change_the_result() {
    let plain = Struct::parse("struct Foo { a : u32 }").unwrap();
    let noisy = Struct::parse("struct//c\n\tFoo  {a:u32 }").unwrap();
    assert_eq!(plain, noisy);
}

#[test]
fn trailing_comma_parses_identically() {
    assert_eq!(
        Struct::parse("struct Foo { field: u32, }").unwrap(),
        Struct::parse("struct Foo { field: u32 }").unwrap(),
    );
}

#[test]
fn leading_comma_is_tolerated() {
    // A bare comma before the first field is consumed and parsing
    // re-tries, so this input is accepted.
    assert_eq!(
        Struct::parse("struct Foo { , field: u32 }").unwrap(),
        Struct::parse("struct Foo { field: u32 }").unwrap(),
    );
}

#[test]
fn fail_fast_on_missing_type() {
    let err = Struct::parse("struct Foo { field: , }").unwrap_err();
    assert_eq!(err.kind, StructParseErrorKind::UnexpectedTok(TokenKind::Comma));
    assert_eq!(err.span, Span { start: 20, end: 21 });
}

#[test]
fn array_nesting() {
    assert_eq!(
        Struct::parse("struct Foo { m: [[u8; 4]; 3] }").unwrap(),
        Struct {
            name: b"Foo".to_vec(),
            fields: vec![Field {
                name: b"m".to_vec(),
                ty: Ty::Array(Array {
                    ty: Box::new(Ty::Array(Array {
                        ty: Box::new(Ty::Ident(b"u8".to_vec())),
                        len: 4
                    })),
                    len: 3
                })
            }],
        }
    );
}

#[test]
fn numeric_overflow_is_reported_at_the_literal() {
    // One past u64::MAX: the literal's digits span bytes 21..41.
    let err = Struct::parse("struct Big { a: [u8; 18446744073709551616] }").unwrap_err();
    assert_eq!(
        err.kind,
        StructParseErrorKind::NumParse(NumParseErrorKind::PosOverflow)
    );
    assert_eq!(err.span, Span { start: 21, end: 41 });
}

#[test]
fn largest_length_is_accepted() {
    let s = Struct::parse("struct Big { a: [u8; 18446744073709551615] }").unwrap();
    match &s.fields[0].ty {
        Ty::Array(a) => assert_eq!(a.len, u64::MAX),
        Ty::Ident(_) => panic!("expected an array type"),
    }
}

#[test]
fn zero_length_is_accepted() {
    let s = Struct::parse("struct Foo { a: [u8; 0] }").unwrap();
    match &s.fields[0].ty {
        Ty::Array(a) => assert_eq!(a.len, 0),
        Ty::Ident(_) => panic!("expected an array type"),
    }
}

#[test]
fn invalid_digit_in_length() {
    // `1x2` is one numeric-literal token; its conversion fails on `x`.
    let err = Struct::parse("struct Foo { a: [u8; 1x2] }").unwrap_err();
    assert_eq!(
        err.kind,
        StructParseErrorKind::NumParse(NumParseErrorKind::InvalidDigit)
    );
    assert_eq!(err.span, Span { start: 21, end: 24 });
}

#[test]
fn empty_struct_variants() {
    let expected = Struct {
        name: b"Empty".to_vec(),
        fields: vec![],
    };
    assert_eq!(Struct::parse("struct Empty {}").unwrap(), expected);
    assert_eq!(Struct::parse("struct Empty {\n}").unwrap(), expected);
}

#[test]
fn lexical_error_on_single_slash() {
    let err = Struct::parse("struct A { f/: u8 }").unwrap_err();
    assert_eq!(
        err.kind,
        StructParseErrorKind::Tokenize(TokenizeErrorKind::UnexpectedByte)
    );
    assert_eq!(err.span, Span { start: 12, end: 13 });
}

#[test]
fn unexpected_end_of_input() {
    let err = Struct::parse("struct Foo {").unwrap_err();
    assert_eq!(err.kind, StructParseErrorKind::UnexpectedEnd);
    assert_eq!(err.span, Span { start: 0, end: 0 });
}

#[test]
fn unexpected_token_for_struct_name() {
    let err = Struct::parse("struct 123 {}").unwrap_err();
    assert_eq!(err.kind, StructParseErrorKind::UnexpectedTok(TokenKind::NumLit));
    assert_eq!(err.span, Span { start: 7, end: 10 });
}

#[test]
fn unexpected_token_for_missing_colon() {
    let err = Struct::parse("struct Foo { field u32 }").unwrap_err();
    assert_eq!(err.kind, StructParseErrorKind::UnexpectedTok(TokenKind::Ident));
    assert_eq!(err.span, Span { start: 19, end: 22 });
}

#[test]
fn pending_token_is_flushed_at_end_of_input() {
    assert_eq!(
        tokenize("struct").unwrap(),
        vec![Token {
            span: Span { start: 0, end: 6 },
            kind: TokenKind::KwStruct
        }],
    );
}

#[test]
fn pending_slash_at_end_of_input_is_dropped() {
    assert_eq!(
        tokenize("x /").unwrap(),
        vec![Token {
            span: Span { start: 0, end: 1 },
            kind: TokenKind::Ident
        }],
    );
}

#[test]
fn comment_runs_to_end_of_input() {
    assert_eq!(
        tokenize("x // trailing comment").unwrap(),
        vec![Token {
            span: Span { start: 0, end: 1 },
            kind: TokenKind::Ident
        }],
    );
}
