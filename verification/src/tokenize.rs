//! Tokenizer: turns raw source text into an ordered sequence of tokens,
//! each tagged with the byte range it covers. Whitespace and `//` line
//! comments produce no tokens.

use vstd::prelude::*;
use vstd::slice::slice_index_get;
use vstd::string::StringSliceAdditionalSpecFns;

verus! {

/// A half-open byte range `[start, end)` into the source text.
#[derive(Clone, Copy, PartialEq, Eq, Structural, Debug)]
pub struct Span {
    /// First byte of the range.
    pub start: usize,
    /// One past the last byte of the range.
    pub end: usize,
}

/// The kind of a token.
#[derive(Clone, Copy, PartialEq, Eq, Structural, Debug)]
pub enum TokenKind {
    /// The keyword `struct`.
    KwStruct,
    /// An identifier: a letter or `_`, then letters, digits or `_`.
    Ident,
    /// A numeric literal: a digit, then letters, digits or `_`.
    NumLit,
    /// `{`
    LBrace,
    /// `}`
    RBrace,
    /// `[`
    LSqBracket,
    /// `]`
    RSqBracket,
    /// `:`
    Colon,
    /// `;`
    Semi,
    /// `,`
    Comma,
}

/// A classified, span-located lexical unit of the source text.
#[derive(Clone, Copy, PartialEq, Eq, Structural, Debug)]
pub struct Token {
    /// The byte range the token covers.
    pub span: Span,
    /// The kind of the token.
    pub kind: TokenKind,
}

/// Error produced when a byte cannot begin or continue any token.
#[derive(Clone, Copy, PartialEq, Eq, Structural, Debug)]
pub struct TokenizeError {
    /// The byte range of the offending input.
    pub span: Span,
    /// What went wrong.
    pub kind: TokenizeErrorKind,
}

/// Kind of error that can happen while tokenizing.
#[derive(Clone, Copy, PartialEq, Eq, Structural, Debug)]
pub enum TokenizeErrorKind {
    /// A byte that cannot begin or continue any token: a `/` not followed
    /// by a second `/`.
    UnexpectedByte,
}

/// State of the scanner between two bytes.
#[derive(Clone, Copy, PartialEq, Eq, Structural, Debug)]
pub enum LexState {
    /// Outside any token.
    Init,
    /// Accumulating an identifier or numeric literal that began at `start`.
    InToken {
        /// Byte offset where the token began.
        start: usize,
        /// `Ident` or `NumLit`, decided by the token's first byte.
        kind: TokenKind,
    },
    /// Just saw a `/` at offset `start`, awaiting a second `/`.
    FwSlash {
        /// Byte offset of the `/`.
        start: usize,
    },
    /// Inside a `//` comment, skipping to the end of the line.
    InComment,
}

/// Byte value of `{`.
pub const LBRACE_BYTE: u8 = 123;

/// Byte value of `}`.
pub const RBRACE_BYTE: u8 = 125;

/// Byte value of `[`.
pub const LBRACKET_BYTE: u8 = 91;

/// Byte value of `]`.
pub const RBRACKET_BYTE: u8 = 93;

/// Byte value of `:`.
pub const COLON_BYTE: u8 = 58;

/// Byte value of `;`.
pub const SEMI_BYTE: u8 = 59;

/// Byte value of `,`.
pub const COMMA_BYTE: u8 = 44;

/// Byte value of `/`.
pub const SLASH_BYTE: u8 = 47;

/// Byte value of the newline character.
pub const NEWLINE_BYTE: u8 = 10;

/// Byte value of `_`.
pub const UNDERSCORE_BYTE: u8 = 95;

/// Byte value of `0`.
pub const DIGIT_ZERO: u8 = 48;

/// Byte value of `9`.
pub const DIGIT_NINE: u8 = 57;

/// True for the bytes that may continue an identifier or numeric literal.
pub open spec fn is_word_byte(b: u8) -> bool {
    (97 <= b && b <= 122) || (65 <= b && b <= 90) || (DIGIT_ZERO <= b && b <= DIGIT_NINE) || b == UNDERSCORE_BYTE
}

/// True for the bytes that begin an identifier.
pub open spec fn is_alpha_byte(b: u8) -> bool {
    (97 <= b && b <= 122) || (65 <= b && b <= 90) || b == UNDERSCORE_BYTE
}

/// True for decimal digit bytes.
pub open spec fn is_digit_byte(b: u8) -> bool {
    DIGIT_ZERO <= b && b <= DIGIT_NINE
}

/// The token kind of a single-byte punctuation token, if `b` is one.
pub open spec fn punct_kind(b: u8) -> Option<TokenKind> {
    if b == LBRACE_BYTE {
        Some(TokenKind::LBrace)
    } else if b == RBRACE_BYTE {
        Some(TokenKind::RBrace)
    } else if b == LBRACKET_BYTE {
        Some(TokenKind::LSqBracket)
    } else if b == RBRACKET_BYTE {
        Some(TokenKind::RSqBracket)
    } else if b == COLON_BYTE {
        Some(TokenKind::Colon)
    } else if b == SEMI_BYTE {
        Some(TokenKind::Semi)
    } else if b == COMMA_BYTE {
        Some(TokenKind::Comma)
    } else {
        None
    }
}

/// The bytes of the keyword `struct`.
pub open spec fn kw_struct() -> Seq<u8> {
    seq![115u8, 116u8, 114u8, 117u8, 99u8, 116u8]
}

/// The kind a token closes with: the provisional kind chosen by its first
/// byte, unless its text is exactly `struct`.
pub open spec fn close_kind(text: Seq<u8>, kind: TokenKind) -> TokenKind {
    if text == kw_struct() {
        TokenKind::KwStruct
    } else {
        kind
    }
}

/// The token emitted when an identifier or numeric literal spanning
/// `[start, end)` of `src` is closed.
pub open spec fn closed_token(src: Seq<u8>, start: usize, end: int, kind: TokenKind) -> Token {
    Token {
        span: Span { start, end: end as usize },
        kind: close_kind(src.subrange(start as int, end), kind),
    }
}

/// Rank used to order scanner states in termination measures: closing a
/// pending token re-examines the current byte from `Init`.
pub open spec fn lex_rank(st: LexState) -> int {
    match st {
        LexState::InToken { .. } => 1,
        _ => 0,
    }
}

/// The tokens (or error) produced by scanning `src` from byte `i` onward,
/// starting in state `st`. This is the reference description of the
/// tokenizer: one byte is examined per step, and closing a pending token
/// re-examines the same byte from `Init`.
pub open spec fn spec_tokenize_from(src: Seq<u8>, i: int, st: LexState) -> Result<
    Seq<Token>,
    TokenizeError,
>
    decreases src.len() - i, lex_rank(st),
{
    if i >= src.len() {
        // End of input: a pending identifier or numeric literal is flushed;
        // a pending `/` or an open comment ends silently.
        match st {
            LexState::InToken { start, kind } => Ok(
                seq![closed_token(src, start, src.len() as int, kind)],
            ),
            _ => Ok(Seq::empty()),
        }
    } else {
        let b = src[i];
        match st {
            LexState::Init => match punct_kind(b) {
                Some(k) => match spec_tokenize_from(src, i + 1, LexState::Init) {
                    Ok(rest) => Ok(
                        seq![Token { span: Span { start: i as usize, end: (i + 1) as usize }, kind: k }]
                            + rest,
                    ),
                    Err(e) => Err(e),
                },
                None => {
                    if b == SLASH_BYTE {
                        spec_tokenize_from(src, i + 1, LexState::FwSlash { start: i as usize })
                    } else if is_alpha_byte(b) {
                        spec_tokenize_from(
                            src,
                            i + 1,
                            LexState::InToken { start: i as usize, kind: TokenKind::Ident },
                        )
                    } else if is_digit_byte(b) {
                        spec_tokenize_from(
                            src,
                            i + 1,
                            LexState::InToken { start: i as usize, kind: TokenKind::NumLit },
                        )
                    } else {
                        // Whitespace and all other bytes are skipped.
                        spec_tokenize_from(src, i + 1, LexState::Init)
                    }
                },
            },
            LexState::InToken { start, kind } => {
                if is_word_byte(b) {
                    spec_tokenize_from(src, i + 1, st)
                } else {
                    match spec_tokenize_from(src, i, LexState::Init) {
                        Ok(rest) => Ok(seq![closed_token(src, start, i, kind)] + rest),
                        Err(e) => Err(e),
                    }
                }
            },
            LexState::FwSlash { start } => {
                if b == SLASH_BYTE {
                    spec_tokenize_from(src, i + 1, LexState::InComment)
                } else {
                    Err(
                        TokenizeError {
                            span: Span { start, end: (start + 1) as usize },
                            kind: TokenizeErrorKind::UnexpectedByte,
                        },
                    )
                }
            },
            LexState::InComment => {
                if b == NEWLINE_BYTE {
                    spec_tokenize_from(src, i + 1, LexState::Init)
                } else {
                    spec_tokenize_from(src, i + 1, LexState::InComment)
                }
            },
        }
    }
}

/// The tokens (or error) produced by scanning all of `src`.
pub open spec fn spec_tokenize(src: Seq<u8>) -> Result<Seq<Token>, TokenizeError> {
    spec_tokenize_from(src, 0, LexState::Init)
}

/// Prepends already-emitted tokens to the outcome of the rest of the scan.
pub open spec fn tok_result(prefix: Seq<Token>, rest: Result<Seq<Token>, TokenizeError>) -> Result<
    Seq<Token>,
    TokenizeError,
> {
    match rest {
        Ok(ts) => Ok(prefix + ts),
        Err(e) => Err(e),
    }
}

/// The view of an executable tokenize result.
pub open spec fn tokens_view(r: Result<Vec<Token>, TokenizeError>) -> Result<
    Seq<Token>,
    TokenizeError,
> {
    match r {
        Ok(v) => Ok(v@),
        Err(e) => Err(e),
    }
}

/// Token spans are well formed for a source of `n` bytes: each is a
/// half-open range that stays within the source.
pub open spec fn spans_wf(toks: Seq<Token>, n: int) -> bool {
    forall|k: int|
        0 <= k < toks.len() ==> (#[trigger] toks[k]).span.start <= toks[k].span.end <= n
}

proof fn lemma_tokenize_from_spans_wf(src: Seq<u8>, i: int, st: LexState)
    requires
        src.len() <= usize::MAX,
        0 <= i <= src.len(),
        lex_state_wf(st, i),
    ensures
        spec_tokenize_from(src, i, st) matches Ok(toks) ==> spans_wf(toks, src.len() as int),
    decreases src.len() - i, lex_rank(st),
{
    let n = src.len() as int;
    if i >= src.len() {
        if let LexState::InToken { start, kind } = st {
            let toks = seq![closed_token(src, start, n, kind)];
            assert(spans_wf(toks, n));
        }
    } else {
        let b = src[i];
        match st {
            LexState::Init => match punct_kind(b) {
                Some(k) => {
                    lemma_tokenize_from_spans_wf(src, i + 1, LexState::Init);
                    if let Ok(rest) = spec_tokenize_from(src, i + 1, LexState::Init) {
                        let t = Token { span: Span { start: i as usize, end: (i + 1) as usize }, kind: k };
                        assert forall|j: int| 0 <= j < (seq![t] + rest).len() implies (#[trigger] (
                        seq![t] + rest)[j]).span.start <= (seq![t] + rest)[j].span.end <= n by {
                            if j == 0 {
                                assert((seq![t] + rest)[j] == t);
                            } else {
                                assert((seq![t] + rest)[j] == rest[j - 1]);
                                assert(rest[j - 1].span.start <= rest[j - 1].span.end <= n);
                            }
                        }
                    }
                },
                None => {
                    if b == SLASH_BYTE {
                        lemma_tokenize_from_spans_wf(src, i + 1, LexState::FwSlash { start: i as usize });
                    } else if is_alpha_byte(b) {
                        lemma_tokenize_from_spans_wf(
                            src,
                            i + 1,
                            LexState::InToken { start: i as usize, kind: TokenKind::Ident },
                        );
                    } else if is_digit_byte(b) {
                        lemma_tokenize_from_spans_wf(
                            src,
                            i + 1,
                            LexState::InToken { start: i as usize, kind: TokenKind::NumLit },
                        );
                    } else {
                        lemma_tokenize_from_spans_wf(src, i + 1, LexState::Init);
                    }
                },
            },
            LexState::InToken { start, kind } => {
                if is_word_byte(b) {
                    lemma_tokenize_from_spans_wf(src, i + 1, st);
                } else {
                    lemma_tokenize_from_spans_wf(src, i, LexState::Init);
                    if let Ok(rest) = spec_tokenize_from(src, i, LexState::Init) {
                        let t = closed_token(src, start, i, kind);
                        assert forall|j: int| 0 <= j < (seq![t] + rest).len() implies (#[trigger] (
                        seq![t] + rest)[j]).span.start <= (seq![t] + rest)[j].span.end <= n by {
                            if j == 0 {
                                assert((seq![t] + rest)[j] == t);
                            } else {
                                assert((seq![t] + rest)[j] == rest[j - 1]);
                                assert(rest[j - 1].span.start <= rest[j - 1].span.end <= n);
                            }
                        }
                    }
                }
            },
            LexState::FwSlash { start } => {
                if b == SLASH_BYTE {
                    lemma_tokenize_from_spans_wf(src, i + 1, LexState::InComment);
                }
            },
            LexState::InComment => {
                if b == NEWLINE_BYTE {
                    lemma_tokenize_from_spans_wf(src, i + 1, LexState::Init);
                } else {
                    lemma_tokenize_from_spans_wf(src, i + 1, LexState::InComment);
                }
            },
        }
    }
}

/// A successful scan only produces tokens whose spans lie within the source.
pub proof fn lemma_tokenize_spans_wf(src: Seq<u8>)
    requires
        src.len() <= usize::MAX,
    ensures
        spec_tokenize(src) matches Ok(toks) ==> spans_wf(toks, src.len() as int),
{
    lemma_tokenize_from_spans_wf(src, 0, LexState::Init);
}

proof fn lemma_tok_result_assoc(a: Seq<Token>, b: Seq<Token>, r: Result<Seq<Token>, TokenizeError>)
    ensures
        tok_result(a + b, r) == tok_result(a, tok_result(b, r)),
{
    match r {
        Ok(ts) => {
            assert((a + b) + ts =~= a + (b + ts));
        },
        Err(_) => {},
    }
}

/// Scanner-state well-formedness at position `i`: a pending token or slash
/// began strictly before `i`.
pub open spec fn lex_state_wf(st: LexState, i: int) -> bool {
    match st {
        LexState::InToken { start, .. } => start < i,
        LexState::FwSlash { start } => start < i,
        _ => true,
    }
}

fn word_byte(b: u8) -> (r: bool)
    ensures
        r == is_word_byte(b),
{
    (97 <= b && b <= 122) || (65 <= b && b <= 90) || (DIGIT_ZERO <= b && b <= DIGIT_NINE) || b == UNDERSCORE_BYTE
}

/// The kind of the identifier or numeric literal spanning `[start, end)` of
/// `bytes`: reclassified as the keyword when its text is exactly `struct`.
fn token_kind_of(bytes: &[u8], start: usize, end: usize, kind: TokenKind) -> (k: TokenKind)
    requires
        start <= end <= bytes@.len(),
    ensures
        k == close_kind(bytes@.subrange(start as int, end as int), kind),
{
    proof {
        assert(bytes@.subrange(start as int, end as int).len() == end - start);
    }
    if end - start == 6 && *slice_index_get(bytes, start) == 115 && *slice_index_get(
        bytes,
        start + 1,
    ) == 116 && *slice_index_get(bytes, start + 2) == 114 && *slice_index_get(bytes, start + 3)
        == 117 && *slice_index_get(bytes, start + 4) == 99 && *slice_index_get(bytes, start + 5)
        == 116 {
        proof {
            assert(bytes@.subrange(start as int, end as int) =~= kw_struct());
        }
        TokenKind::KwStruct
    } else {
        proof {
            let text = bytes@.subrange(start as int, end as int);
            if text == kw_struct() {
                assert(text.len() == 6);
                assert(text[0] == 115 && text[1] == 116 && text[2] == 114 && text[3] == 117
                    && text[4] == 99 && text[5] == 116);
                assert(false);
            }
        }
        kind
    }
}

/// Scan `src` left to right into tokens. Whitespace and `//` comments are
/// skipped; single-byte punctuation is emitted directly; an identifier or
/// numeric literal runs while bytes are letters, digits or `_`, and its text
/// reclassifies it as the keyword when it is exactly `struct`. A `/` not
/// followed by a second `/` is a fatal error at the `/`'s byte.
pub fn tokenize(src: &str) -> (r: Result<Vec<Token>, TokenizeError>)
    ensures
        tokens_view(r) == spec_tokenize(src.spec_bytes()),
{
    let bytes: &[u8] = src.as_bytes();
    let n: usize = bytes.len();
    let mut tokens: Vec<Token> = Vec::new();
    let mut status = LexState::Init;
    let mut i: usize = 0;
    while i < n
        invariant
            bytes@ == src.spec_bytes(),
            n == bytes@.len(),
            i <= n,
            lex_state_wf(status, i as int),
            tok_result(tokens@, spec_tokenize_from(bytes@, i as int, status)) == spec_tokenize(
                bytes@,
            ),
        decreases n - i, lex_rank(status),
    {
        let b = *slice_index_get(bytes, i);
        match status {
            LexState::InToken { start, kind } => {
                if word_byte(b) {
                    i = i + 1;
                } else {
                    let ghost toks_before = tokens@;
                    let k = token_kind_of(bytes, start, i, kind);
                    tokens.push(Token { span: Span { start, end: i }, kind: k });
                    status = LexState::Init;
                    proof {
                        lemma_tok_result_assoc(
                            toks_before,
                            seq![closed_token(bytes@, start, i as int, kind)],
                            spec_tokenize_from(bytes@, i as int, LexState::Init),
                        );
                        assert(tokens@ =~= toks_before + seq![
                            closed_token(bytes@, start, i as int, kind),
                        ]);
                    }
                }
            },
            LexState::Init => {
                let punct: Option<TokenKind> = if b == LBRACE_BYTE {
                    Some(TokenKind::LBrace)
                } else if b == RBRACE_BYTE {
                    Some(TokenKind::RBrace)
                } else if b == LBRACKET_BYTE {
                    Some(TokenKind::LSqBracket)
                } else if b == RBRACKET_BYTE {
                    Some(TokenKind::RSqBracket)
                } else if b == COLON_BYTE {
                    Some(TokenKind::Colon)
                } else if b == SEMI_BYTE {
                    Some(TokenKind::Semi)
                } else if b == COMMA_BYTE {
                    Some(TokenKind::Comma)
                } else {
                    None
                };
                match punct {
                    Some(k) => {
                        let ghost toks_before = tokens@;
                        tokens.push(Token { span: Span { start: i, end: i + 1 }, kind: k });
                        proof {
                            lemma_tok_result_assoc(
                                toks_before,
                                seq![
                                    Token {
                                        span: Span { start: i, end: (i + 1) as usize },
                                        kind: k,
                                    },
                                ],
                                spec_tokenize_from(bytes@, i + 1, LexState::Init),
                            );
                            assert(tokens@ =~= toks_before + seq![
                                Token { span: Span { start: i, end: (i + 1) as usize }, kind: k },
                            ]);
                        }
                    },
                    None => {
                        if b == SLASH_BYTE {
                            status = LexState::FwSlash { start: i };
                        } else if (97 <= b && b <= 122) || (65 <= b && b <= 90) || b == UNDERSCORE_BYTE {
                            status = LexState::InToken { start: i, kind: TokenKind::Ident };
                        } else if DIGIT_ZERO <= b && b <= DIGIT_NINE {
                            status = LexState::InToken { start: i, kind: TokenKind::NumLit };
                        }
                    },
                }
                i = i + 1;
            },
            LexState::FwSlash { start } => {
                if b == SLASH_BYTE {
                    status = LexState::InComment;
                    i = i + 1;
                } else {
                    return Err(
                        TokenizeError {
                            span: Span { start, end: start + 1 },
                            kind: TokenizeErrorKind::UnexpectedByte,
                        },
                    );
                }
            },
            LexState::InComment => {
                if b == NEWLINE_BYTE {
                    status = LexState::Init;
                }
                i = i + 1;
            },
        }
    }
    if let LexState::InToken { start, kind } = status {
        let ghost toks_before = tokens@;
        let k = token_kind_of(bytes, start, n, kind);
        tokens.push(Token { span: Span { start, end: n }, kind: k });
        proof {
            assert(tokens@ =~= toks_before + seq![closed_token(bytes@, start, n as int, kind)]);
        }
    }
    proof {
        assert(tokens@ + Seq::<Token>::empty() =~= tokens@);
    }
    Ok(tokens)
}

} // verus!
