//! The grammar's canonical surface syntax, and the laws relating
//! rendering, layout and parsing: the decimal value law, the round trip
//! over the canonical text, and invariance under whitespace and comments.

use vstd::prelude::*;

use crate::num::{spec_parse_u64, spec_parse_u64_from};
use crate::parse::{
    spec_next_tok, spec_parse_array, spec_parse_field, spec_parse_fields, spec_parse_struct,
    spec_parse_ty, token_text,
};
use crate::tokenize::{
    close_kind, closed_token, is_alpha_byte, is_digit_byte, is_word_byte, kw_struct, punct_kind,
    spec_tokenize_from, tok_result, LexState, Span, Token, COLON_BYTE, COMMA_BYTE, LBRACE_BYTE,
    LBRACKET_BYTE, NEWLINE_BYTE, RBRACE_BYTE, RBRACKET_BYTE, SEMI_BYTE, SLASH_BYTE, TokenKind,
};
use crate::{FieldV, NumParseErrorKind, StructParseError, StructV, TyV};

verus! {

/// Byte value of the space character.
pub const SPACE_BYTE: u8 = 32;

/// Valid identifier text: nonempty, beginning with a letter or `_`,
/// continuing with letters, digits or `_`, and distinct from the keyword
/// `struct`.
pub open spec fn valid_ident(s: Seq<u8>) -> bool {
    &&& s.len() > 0
    &&& is_alpha_byte(s[0])
    &&& forall|k: int| 0 <= k < s.len() ==> is_word_byte(#[trigger] s[k])
    &&& s != kw_struct()
}

/// A type value all of whose identifiers are valid.
pub open spec fn wf_ty(t: TyV) -> bool
    decreases t,
{
    match t {
        TyV::Ident { name } => valid_ident(name),
        TyV::Array { elem, len } => wf_ty(*elem),
    }
}

/// A field value whose name and type are valid.
pub open spec fn wf_field(f: FieldV) -> bool {
    valid_ident(f.name) && wf_ty(f.ty)
}

/// A struct value all of whose identifiers are valid.
pub open spec fn wf_struct(s: StructV) -> bool {
    &&& valid_ident(s.name)
    &&& forall|k: int| 0 <= k < s.fields.len() ==> wf_field(#[trigger] s.fields[k])
}

/// The decimal digits of `n`, most significant first.
pub open spec fn dec_digits(n: u64) -> Seq<u8>
    decreases n,
{
    if n < 10 {
        seq![(n + 48) as u8]
    } else {
        dec_digits(n / 10).push((n % 10 + 48) as u8)
    }
}

/// True when every byte of `s` is a decimal digit.
pub open spec fn all_digits(s: Seq<u8>) -> bool {
    forall|k: int| 0 <= k < s.len() ==> is_digit_byte(#[trigger] s[k])
}

/// The number a digit sequence denotes, most significant digit first.
pub open spec fn digits_val(s: Seq<u8>) -> int
    decreases s.len(),
{
    if s.len() == 0 {
        0
    } else {
        digits_val(s.drop_last()) * 10 + (s.last() - 48)
    }
}

/// A digit sequence denotes a value of at least zero.
pub proof fn lemma_digits_val_nonneg(s: Seq<u8>)
    requires
        all_digits(s),
    ensures
        digits_val(s) >= 0,
    decreases s.len(),
{
    if s.len() > 0 {
        assert(all_digits(s.drop_last()));
        lemma_digits_val_nonneg(s.drop_last());
    }
}

/// The decimal digits of `n` are nonempty digits denoting `n`.
pub proof fn lemma_dec_digits(n: u64)
    ensures
        dec_digits(n).len() >= 1,
        all_digits(dec_digits(n)),
        is_digit_byte(dec_digits(n)[0]),
        digits_val(dec_digits(n)) == n,
    decreases n,
{
    if n < 10 {
        assert(dec_digits(n) =~= seq![(n + 48) as u8]);
        assert(dec_digits(n).drop_last() =~= Seq::<u8>::empty());
        assert(digits_val(Seq::<u8>::empty()) == 0);
        assert(dec_digits(n).last() == (n + 48) as u8);
        assert(digits_val(dec_digits(n)) == digits_val(Seq::<u8>::empty()) * 10 + ((n + 48) as u8
            - 48));
    } else {
        lemma_dec_digits(n / 10);
        let prefix = dec_digits(n / 10);
        let d = (n % 10 + 48) as u8;
        assert(dec_digits(n) =~= prefix.push(d));
        assert(dec_digits(n).drop_last() =~= prefix);
        assert(dec_digits(n).last() == d);
        assert(forall|k: int|
            0 <= k < dec_digits(n).len() ==> is_digit_byte(#[trigger] dec_digits(n)[k]));
        assert(digits_val(dec_digits(n)) == digits_val(prefix) * 10 + (d - 48));
        assert(n / 10 * 10 + n % 10 == n);
    }
}

proof fn lemma_parse_u64_snoc(s: Seq<u8>, c: u8, i: int, acc: u64)
    requires
        0 <= i <= s.len(),
    ensures
        spec_parse_u64_from(s.push(c), i, acc) == (match spec_parse_u64_from(s, i, acc) {
            Ok(v) => if !is_digit_byte(c) {
                Err::<u64, NumParseErrorKind>(NumParseErrorKind::InvalidDigit)
            } else if v * 10 + (c - 48) > u64::MAX {
                Err::<u64, NumParseErrorKind>(NumParseErrorKind::PosOverflow)
            } else {
                Ok::<u64, NumParseErrorKind>(((v * 10 + (c - 48)) as u64))
            },
            Err(e) => Err::<u64, NumParseErrorKind>(e),
        }),
    decreases s.len() - i,
{
    if i == s.len() {
        assert(s.push(c)[i] == c);
        assert(spec_parse_u64_from(s, i, acc) == Ok::<u64, NumParseErrorKind>(acc));
        if is_digit_byte(c) && !(acc * 10 + (c - 48) > u64::MAX) {
            let v2 = ((acc * 10 + (c - 48)) as u64);
            assert(spec_parse_u64_from(s.push(c), i + 1, v2) == Ok::<u64, NumParseErrorKind>(v2));
        }
    } else {
        assert(s.push(c)[i] == s[i]);
        if is_digit_byte(s[i]) && !(acc * 10 + (s[i] - 48) > u64::MAX) {
            lemma_parse_u64_snoc(s, c, i + 1, ((acc * 10 + (s[i] - 48)) as u64));
        }
    }
}

/// The decimal value law: converting a pure digit sequence yields exactly
/// the number it denotes, and overflows exactly when that number exceeds
/// `u64::MAX` — in particular, an array length literal larger than
/// `u64::MAX` always fails with an overflow.
pub proof fn lemma_parse_u64_digits(s: Seq<u8>)
    requires
        all_digits(s),
    ensures
        spec_parse_u64(s) == (if digits_val(s) <= u64::MAX {
            Ok::<u64, NumParseErrorKind>(digits_val(s) as u64)
        } else {
            Err::<u64, NumParseErrorKind>(NumParseErrorKind::PosOverflow)
        }),
    decreases s.len(),
{
    if s.len() == 0 {
    } else {
        let s0 = s.drop_last();
        let c = s.last();
        assert(all_digits(s0));
        lemma_digits_val_nonneg(s0);
        lemma_parse_u64_digits(s0);
        assert(s =~= s0.push(c));
        lemma_parse_u64_snoc(s0, c, 0, 0);
        assert(digits_val(s) == digits_val(s0) * 10 + (c - 48));
        if digits_val(s0) > u64::MAX {
            assert(digits_val(s0) * 10 >= digits_val(s0));
            assert(digits_val(s) > u64::MAX);
        }
    }
}

/// A single-byte punctuation lexeme.
pub open spec fn is_punct_lexeme(x: Seq<u8>) -> bool {
    x.len() == 1 && punct_kind(x[0]) is Some
}

/// A word lexeme: a nonempty run of letters, digits and `_`.
pub open spec fn is_word_lexeme(x: Seq<u8>) -> bool {
    x.len() > 0 && forall|k: int| 0 <= k < x.len() ==> is_word_byte(#[trigger] x[k])
}

/// Lexeme text that the tokenizer emits as one token.
pub open spec fn valid_lexeme(x: Seq<u8>) -> bool {
    is_punct_lexeme(x) || is_word_lexeme(x)
}

/// The kind of the token a lexeme becomes.
pub open spec fn lexeme_kind(x: Seq<u8>) -> TokenKind {
    if is_punct_lexeme(x) {
        match punct_kind(x[0]) {
            Some(k) => k,
            None => TokenKind::Ident,
        }
    } else {
        close_kind(
            x,
            if x.len() > 0 && is_digit_byte(x[0]) {
                TokenKind::NumLit
            } else {
                TokenKind::Ident
            },
        )
    }
}

/// Bytes the scanner skips silently outside any token: not punctuation,
/// not part of a word, not a `/`. Space, tab and newline are among them.
pub open spec fn is_skip_byte(b: u8) -> bool {
    punct_kind(b) is None && !is_word_byte(b) && b != SLASH_BYTE
}

/// Space, horizontal tab and newline are all skipped between tokens, so
/// separator runs cover arbitrary whitespace.
pub proof fn lemma_whitespace_is_skipped()
    ensures
        is_skip_byte(SPACE_BYTE),
        is_skip_byte(9),
        is_skip_byte(NEWLINE_BYTE),
{
}

/// The bytes `[i, j)` of `src` form a separator run: skipped bytes and
/// complete `//` comments, each comment ended by a newline.
pub open spec fn sep_run(src: Seq<u8>, i: int, j: int) -> bool
    decreases j - i, 0int,
{
    ||| i == j
    ||| (i < j && is_skip_byte(src[i]) && sep_run(src, i + 1, j))
    ||| (i + 1 < j && src[i] == SLASH_BYTE && src[i + 1] == SLASH_BYTE && comment_rest(
        src,
        i + 2,
        j,
    ))
}

/// The bytes `[i, j)` finish a `//` comment: bytes up to and including a
/// newline, then a separator run.
pub open spec fn comment_rest(src: Seq<u8>, i: int, j: int) -> bool
    decreases j - i, 1int,
{
    &&& i < j
    &&& (if src[i] == NEWLINE_BYTE {
        sep_run(src, i + 1, j)
    } else {
        comment_rest(src, i + 1, j)
    })
}

/// A separator run produces no tokens: scanning may resume after it.
pub proof fn lemma_sep_run_skip(src: Seq<u8>, i: int, j: int)
    requires
        0 <= i,
        j <= src.len(),
        sep_run(src, i, j),
    ensures
        spec_tokenize_from(src, i, LexState::Init) == spec_tokenize_from(src, j, LexState::Init),
    decreases j - i, 0int,
{
    if i == j {
    } else if i < j && is_skip_byte(src[i]) && sep_run(src, i + 1, j) {
        assert(!is_alpha_byte(src[i]) && !is_digit_byte(src[i]));
        assert(spec_tokenize_from(src, i, LexState::Init) == spec_tokenize_from(
            src,
            i + 1,
            LexState::Init,
        ));
        lemma_sep_run_skip(src, i + 1, j);
    } else {
        assert(i + 1 < j && src[i] == SLASH_BYTE && src[i + 1] == SLASH_BYTE && comment_rest(
            src,
            i + 2,
            j,
        ));
        assert(punct_kind(src[i]) is None);
        assert(spec_tokenize_from(src, i, LexState::Init) == spec_tokenize_from(
            src,
            i + 1,
            LexState::FwSlash { start: i as usize },
        ));
        assert(spec_tokenize_from(src, i + 1, LexState::FwSlash { start: i as usize })
            == spec_tokenize_from(src, i + 2, LexState::InComment));
        lemma_comment_rest_skip(src, i + 2, j);
    }
}

proof fn lemma_comment_rest_skip(src: Seq<u8>, i: int, j: int)
    requires
        0 <= i,
        j <= src.len(),
        comment_rest(src, i, j),
    ensures
        spec_tokenize_from(src, i, LexState::InComment) == spec_tokenize_from(
            src,
            j,
            LexState::Init,
        ),
    decreases j - i, 1int,
{
    if src[i] == NEWLINE_BYTE {
        lemma_sep_run_skip(src, i + 1, j);
    } else {
        lemma_comment_rest_skip(src, i + 1, j);
    }
}

proof fn lemma_scan_word(src: Seq<u8>, start: usize, j: int, end: int, kind: TokenKind)
    requires
        src.len() <= usize::MAX,
        start < j <= end <= src.len(),
        forall|k: int| j <= k < end ==> is_word_byte(#[trigger] src[k]),
        end == src.len() || !is_word_byte(src[end]),
    ensures
        spec_tokenize_from(src, j, LexState::InToken { start, kind }) == tok_result(
            seq![closed_token(src, start, end, kind)],
            spec_tokenize_from(src, end, LexState::Init),
        ),
    decreases end - j,
{
    if j == end {
        if end == src.len() {
            assert(seq![closed_token(src, start, end, kind)] + Seq::<Token>::empty() =~= seq![
                closed_token(src, start, end, kind),
            ]);
        }
    } else {
        lemma_scan_word(src, start, j + 1, end, kind);
    }
}

/// Where lexeme `k` of `xs` stands in `src` when the lexemes are laid out
/// at the starts `ps`: its text fills `[ps[k], ps[k] + len)`, a word
/// lexeme is ended by a byte that cannot continue it (or by the end of
/// the source), and a separator run reaches the next lexeme (or the end).
pub open spec fn lexeme_at(src: Seq<u8>, xs: Seq<Seq<u8>>, ps: Seq<int>, k: int) -> bool {
    let j = ps[k];
    let e = j + xs[k].len();
    &&& 0 <= j
    &&& e <= src.len()
    &&& src.subrange(j, e) == xs[k]
    &&& (is_word_lexeme(xs[k]) && e < src.len() ==> !is_word_byte(src[e]))
    &&& sep_run(
        src,
        e,
        if k + 1 < xs.len() {
            ps[k + 1]
        } else {
            src.len() as int
        },
    )
}

/// The lexemes `xs` are laid out in `src` at the starts `ps`: a separator
/// run opens the source, each lexeme stands at its start, and separator
/// runs fill everything between and after them.
pub open spec fn laid_out(src: Seq<u8>, xs: Seq<Seq<u8>>, ps: Seq<int>) -> bool {
    &&& ps.len() == xs.len()
    &&& sep_run(
        src,
        0,
        if xs.len() > 0 {
            ps[0]
        } else {
            src.len() as int
        },
    )
    &&& forall|k: int| 0 <= k < xs.len() ==> #[trigger] lexeme_at(src, xs, ps, k)
}

/// Tokens that carry exactly the given lexemes: same count, the kind each
/// lexeme becomes, and the lexeme's own text.
pub open spec fn tokens_match(src: Seq<u8>, toks: Seq<Token>, xs: Seq<Seq<u8>>) -> bool {
    &&& toks.len() == xs.len()
    &&& forall|k: int| 0 <= k < toks.len() ==> (#[trigger] toks[k]).kind == lexeme_kind(xs[k])
    &&& forall|k: int| 0 <= k < toks.len() ==> token_text(src, #[trigger] toks[k]) == xs[k]
}

proof fn lemma_tokenize_laid_out_from(src: Seq<u8>, xs: Seq<Seq<u8>>, ps: Seq<int>, k: int)
    requires
        src.len() <= usize::MAX,
        laid_out(src, xs, ps),
        forall|q: int| 0 <= q < xs.len() ==> valid_lexeme(#[trigger] xs[q]),
        0 <= k <= xs.len(),
    ensures
        spec_tokenize_from(
            src,
            if k < xs.len() {
                ps[k]
            } else {
                src.len() as int
            },
            LexState::Init,
        ) matches Ok(toks) && tokens_match(src, toks, xs.subrange(k, xs.len() as int)),
    decreases xs.len() - k,
{
    if k == xs.len() {
        assert(tokens_match(src, Seq::<Token>::empty(), xs.subrange(k, xs.len() as int)));
    } else {
        assert(lexeme_at(src, xs, ps, k));
        let x0 = xs[k];
        let j = ps[k];
        let m = x0.len() as int;
        let e = j + m;
        let nxt: int = if k + 1 < xs.len() {
            ps[k + 1]
        } else {
            src.len() as int
        };
        assert forall|q: int| 0 <= q < m implies x0[q] == src[j + q] by {
            assert(src.subrange(j, e)[q] == src[j + q]);
        }
        lemma_tokenize_laid_out_from(src, xs, ps, k + 1);
        lemma_sep_run_skip(src, e, nxt);
        let xrest = xs.subrange(k + 1, xs.len() as int);
        if let Ok(rest) = spec_tokenize_from(src, nxt, LexState::Init) {
            assert(valid_lexeme(x0));
            let t: Token = if is_punct_lexeme(x0) {
                assert(src[j] == x0[0]);
                assert(spec_tokenize_from(src, j, LexState::Init) == (match spec_tokenize_from(
                    src,
                    j + 1,
                    LexState::Init,
                ) {
                    Ok(r) => Ok::<Seq<Token>, crate::tokenize::TokenizeError>(
                        seq![
                            Token {
                                span: Span { start: j as usize, end: (j + 1) as usize },
                                kind: lexeme_kind(x0),
                            },
                        ] + r,
                    ),
                    Err(err) => Err(err),
                }));
                Token {
                    span: Span { start: j as usize, end: (j + 1) as usize },
                    kind: lexeme_kind(x0),
                }
            } else {
                assert(is_word_lexeme(x0));
                assert(src[j] == x0[0]);
                assert(is_word_byte(src[j]));
                let kind0 = if is_digit_byte(src[j]) {
                    TokenKind::NumLit
                } else {
                    TokenKind::Ident
                };
                assert(punct_kind(src[j]) is None);
                assert(src[j] != SLASH_BYTE);
                assert(spec_tokenize_from(src, j, LexState::Init) == spec_tokenize_from(
                    src,
                    j + 1,
                    LexState::InToken { start: j as usize, kind: kind0 },
                ));
                assert forall|q: int| j + 1 <= q < e implies is_word_byte(#[trigger] src[q]) by {
                    assert(src[q] == x0[q - j]);
                    assert(is_word_byte(x0[q - j]));
                }
                lemma_scan_word(src, j as usize, j + 1, e, kind0);
                let t = closed_token(src, j as usize, e, kind0);
                assert(src.subrange(j, e) == x0);
                assert(t.kind == lexeme_kind(x0));
                t
            };
            let toks = seq![t] + rest;
            assert(spec_tokenize_from(src, j, LexState::Init) == Ok::<
                Seq<Token>,
                crate::tokenize::TokenizeError,
            >(toks));
            assert(token_text(src, t) =~= x0);
            let xsuf = xs.subrange(k, xs.len() as int);
            assert forall|q: int| 0 <= q < toks.len() implies (#[trigger] toks[q]).kind
                == lexeme_kind(xsuf[q]) && token_text(src, toks[q]) == xsuf[q] by {
                if q == 0 {
                    assert(toks[q] == t);
                    assert(xsuf[q] == x0);
                } else {
                    assert(toks[q] == rest[q - 1]);
                    assert(rest[q - 1].kind == lexeme_kind(xrest[q - 1]));
                    assert(token_text(src, rest[q - 1]) == xrest[q - 1]);
                    assert(xrest[q - 1] == xsuf[q]);
                }
            }
            assert(tokens_match(src, toks, xsuf));
        }
    }
}

/// Scanning a source in which valid lexemes are laid out succeeds and
/// produces exactly one token per lexeme, carrying the lexeme's text and
/// the kind it becomes.
pub proof fn lemma_tokenize_laid_out(src: Seq<u8>, xs: Seq<Seq<u8>>, ps: Seq<int>)
    requires
        src.len() <= usize::MAX,
        laid_out(src, xs, ps),
        forall|k: int| 0 <= k < xs.len() ==> valid_lexeme(#[trigger] xs[k]),
    ensures
        crate::tokenize::spec_tokenize(src) matches Ok(toks) && tokens_match(src, toks, xs),
{
    lemma_tokenize_laid_out_from(src, xs, ps, 0);
    if xs.len() > 0 {
        assert(lexeme_at(src, xs, ps, 0));
        lemma_sep_run_skip(src, 0, ps[0]);
    } else {
        lemma_sep_run_skip(src, 0, src.len() as int);
    }
    assert(xs.subrange(0, xs.len() as int) =~= xs);
}

/// Lexemes rendered one after another, a single space after each.
pub open spec fn render_lexemes(xs: Seq<Seq<u8>>) -> Seq<u8>
    decreases xs.len(),
{
    if xs.len() == 0 {
        Seq::empty()
    } else {
        xs[0] + seq![SPACE_BYTE] + render_lexemes(xs.drop_first())
    }
}

/// Where lexeme `k` begins in the rendered text: after the earlier
/// lexemes, each followed by its space.
pub open spec fn render_start(xs: Seq<Seq<u8>>, k: int) -> int
    decreases k,
{
    if k <= 0 {
        0
    } else {
        render_start(xs, k - 1) + xs[k - 1].len() + 1
    }
}

proof fn lemma_render_start_shift(xs: Seq<Seq<u8>>, k: int)
    requires
        xs.len() > 0,
        0 <= k < xs.len(),
    ensures
        render_start(xs, k + 1) == xs[0].len() + 1 + render_start(xs.drop_first(), k),
    decreases k,
{
    if k == 0 {
        assert(render_start(xs, 0) == 0);
        assert(render_start(xs.drop_first(), 0) == 0);
        assert(render_start(xs, 1) == render_start(xs, 0) + xs[0].len() + 1);
    } else {
        lemma_render_start_shift(xs, k - 1);
        assert(xs.drop_first()[k - 1] == xs[k]);
        assert(render_start(xs, k + 1) == render_start(xs, k) + xs[k].len() + 1);
        assert(render_start(xs.drop_first(), k) == render_start(xs.drop_first(), k - 1)
            + xs.drop_first()[k - 1].len() + 1);
    }
}

proof fn lemma_render_len(xs: Seq<Seq<u8>>)
    ensures
        render_lexemes(xs).len() == render_start(xs, xs.len() as int),
    decreases xs.len(),
{
    if xs.len() > 0 {
        lemma_render_len(xs.drop_first());
        lemma_render_start_shift(xs, xs.len() - 1);
    }
}

proof fn lemma_render_index(xs: Seq<Seq<u8>>, k: int)
    requires
        0 <= k < xs.len(),
    ensures
        0 <= render_start(xs, k),
        render_start(xs, k) + xs[k].len() < render_lexemes(xs).len(),
        forall|q: int|
            0 <= q < xs[k].len() ==> render_lexemes(xs)[render_start(xs, k) + q] == xs[k][q],
        render_lexemes(xs)[render_start(xs, k) + xs[k].len()] == SPACE_BYTE,
    decreases k,
{
    lemma_render_len(xs);
    let src = render_lexemes(xs);
    let m = xs[0].len() as int;
    if k == 0 {
        assert forall|q: int| 0 <= q < m implies src[q] == xs[0][q] by {
            assert(src[q] == (xs[0] + seq![SPACE_BYTE])[q]);
        }
        assert(src[m] == (xs[0] + seq![SPACE_BYTE])[m]);
        lemma_render_start_shift(xs, xs.len() - 1);
        lemma_render_len(xs.drop_first());
    } else {
        lemma_render_index(xs.drop_first(), k - 1);
        lemma_render_start_shift(xs, k - 1);
        lemma_render_len(xs.drop_first());
        let rest = render_lexemes(xs.drop_first());
        let base = render_start(xs, k);
        let shifted = render_start(xs.drop_first(), k - 1);
        assert(base == m + 1 + shifted);
        assert(xs.drop_first()[k - 1] == xs[k]);
        assert forall|q: int| 0 <= q < xs[k].len() implies src[base + q] == xs[k][q] by {
            assert(src[base + q] == (xs[0] + seq![SPACE_BYTE] + rest)[base + q]);
            assert(src[base + q] == rest[shifted + q]);
        }
        assert(src[base + xs[k].len()] == rest[shifted + xs[k].len()]);
    }
}

/// The single-space rendering lays its lexemes out at the canonical
/// starts.
pub proof fn lemma_render_laid_out(xs: Seq<Seq<u8>>)
    requires
        forall|k: int| 0 <= k < xs.len() ==> valid_lexeme(#[trigger] xs[k]),
    ensures
        laid_out(render_lexemes(xs), xs, Seq::new(xs.len(), |k: int| render_start(xs, k))),
{
    let src = render_lexemes(xs);
    let ps = Seq::new(xs.len(), |k: int| render_start(xs, k));
    lemma_render_len(xs);
    assert(is_skip_byte(SPACE_BYTE));
    if xs.len() == 0 {
        assert(sep_run(src, 0, src.len() as int));
    } else {
        assert(sep_run(src, 0, ps[0]));
    }
    assert forall|k: int| 0 <= k < xs.len() implies #[trigger] lexeme_at(src, xs, ps, k) by {
        lemma_render_index(xs, k);
        let j = ps[k];
        let e = j + xs[k].len();
        assert(src.subrange(j, e) =~= xs[k]);
        assert(src[e] == SPACE_BYTE);
        assert(!is_word_byte(SPACE_BYTE));
        let nxt: int = if k + 1 < xs.len() {
            ps[k + 1]
        } else {
            src.len() as int
        };
        assert(render_start(xs, k + 1) == e + 1);
        if k + 1 < xs.len() {
            assert(nxt == e + 1);
        } else {
            assert(src.len() == render_start(xs, xs.len() as int));
            assert(nxt == e + 1);
        }
        assert(sep_run(src, e + 1, e + 1));
        assert(sep_run(src, e, e + 1));
    }
}

/// The lexemes of a type: the identifier, or `[`, the element type, `;`,
/// the decimal length, `]`.
pub open spec fn ty_lexemes(t: TyV) -> Seq<Seq<u8>>
    decreases t,
{
    match t {
        TyV::Ident { name } => seq![name],
        TyV::Array { elem, len } => seq![seq![LBRACKET_BYTE]] + ty_lexemes(*elem) + seq![
            seq![SEMI_BYTE],
            dec_digits(len),
            seq![RBRACKET_BYTE],
        ],
    }
}

/// The lexemes of a field: its name, `:`, its type.
pub open spec fn field_lexemes(f: FieldV) -> Seq<Seq<u8>> {
    seq![f.name, seq![COLON_BYTE]] + ty_lexemes(f.ty)
}

/// The lexemes of a field list: each field followed by a `,`.
pub open spec fn fields_lexemes(fs: Seq<FieldV>) -> Seq<Seq<u8>>
    decreases fs.len(),
{
    if fs.len() == 0 {
        Seq::empty()
    } else {
        field_lexemes(fs[0]) + seq![seq![COMMA_BYTE]] + fields_lexemes(fs.drop_first())
    }
}

/// The lexemes of a struct definition: the keyword, the name, `{`, the
/// fields, `}`.
pub open spec fn struct_lexemes(s: StructV) -> Seq<Seq<u8>> {
    seq![kw_struct(), s.name, seq![LBRACE_BYTE]] + fields_lexemes(s.fields) + seq![
        seq![RBRACE_BYTE],
    ]
}

/// The canonical text of a struct value: its lexemes, separated by single
/// spaces.
pub open spec fn render_struct(s: StructV) -> Seq<u8> {
    render_lexemes(struct_lexemes(s))
}

proof fn lemma_punct_lexeme_valid(b: u8)
    requires
        punct_kind(b) is Some,
    ensures
        valid_lexeme(seq![b]),
        !is_word_lexeme(seq![b]),
{
    assert(seq![b][0] == b);
}

proof fn lemma_ty_lexemes_valid(t: TyV)
    requires
        wf_ty(t),
    ensures
        ty_lexemes(t).len() >= 1,
        forall|k: int| 0 <= k < ty_lexemes(t).len() ==> valid_lexeme(#[trigger] ty_lexemes(t)[k]),
    decreases t,
{
    let xs = ty_lexemes(t);
    match t {
        TyV::Ident { name } => {
            assert(xs[0] == name);
            assert(is_word_lexeme(name));
        },
        TyV::Array { elem, len } => {
            lemma_ty_lexemes_valid(*elem);
            lemma_dec_digits(len);
            let exs = ty_lexemes(*elem);
            let el = exs.len() as int;
            assert(is_word_lexeme(dec_digits(len)));
            lemma_punct_lexeme_valid(LBRACKET_BYTE);
            lemma_punct_lexeme_valid(SEMI_BYTE);
            lemma_punct_lexeme_valid(RBRACKET_BYTE);
            assert forall|k: int| 0 <= k < xs.len() implies valid_lexeme(#[trigger] xs[k]) by {
                if k == 0 {
                    assert(xs[k] == seq![LBRACKET_BYTE]);
                } else if k < 1 + el {
                    assert(xs[k] == exs[k - 1]);
                } else if k == 1 + el {
                    assert(xs[k] == seq![SEMI_BYTE]);
                } else if k == 2 + el {
                    assert(xs[k] == dec_digits(len));
                } else {
                    assert(xs[k] == seq![RBRACKET_BYTE]);
                }
            }
        },
    }
}

proof fn lemma_fields_lexemes_valid(fs: Seq<FieldV>)
    requires
        forall|k: int| 0 <= k < fs.len() ==> wf_field(#[trigger] fs[k]),
    ensures
        forall|k: int|
            0 <= k < fields_lexemes(fs).len() ==> valid_lexeme(#[trigger] fields_lexemes(fs)[k]),
    decreases fs.len(),
{
    if fs.len() > 0 {
        let xs = fields_lexemes(fs);
        let f0 = fs[0];
        assert(wf_field(f0));
        lemma_ty_lexemes_valid(f0.ty);
        lemma_punct_lexeme_valid(COLON_BYTE);
        lemma_punct_lexeme_valid(COMMA_BYTE);
        assert(forall|k: int| 0 <= k < fs.drop_first().len() ==> wf_field(
            #[trigger] fs.drop_first()[k],
        ));
        lemma_fields_lexemes_valid(fs.drop_first());
        let flx = field_lexemes(f0);
        let fl = flx.len() as int;
        let rest = fields_lexemes(fs.drop_first());
        assert(is_word_lexeme(f0.name));
        assert forall|k: int| 0 <= k < xs.len() implies valid_lexeme(#[trigger] xs[k]) by {
            if k < fl {
                assert(xs[k] == flx[k]);
                if k == 0 {
                    assert(flx[k] == f0.name);
                } else if k == 1 {
                    assert(flx[k] == seq![COLON_BYTE]);
                } else {
                    assert(flx[k] == ty_lexemes(f0.ty)[k - 2]);
                }
            } else if k == fl {
                assert(xs[k] == seq![COMMA_BYTE]);
            } else {
                assert(xs[k] == rest[k - fl - 1]);
            }
        }
    }
}

proof fn lemma_struct_lexemes_valid(s: StructV)
    requires
        wf_struct(s),
    ensures
        forall|k: int|
            0 <= k < struct_lexemes(s).len() ==> valid_lexeme(#[trigger] struct_lexemes(s)[k]),
{
    let xs = struct_lexemes(s);
    lemma_fields_lexemes_valid(s.fields);
    lemma_punct_lexeme_valid(LBRACE_BYTE);
    lemma_punct_lexeme_valid(RBRACE_BYTE);
    let rest = fields_lexemes(s.fields);
    let rl = rest.len() as int;
    assert(is_word_lexeme(kw_struct()));
    assert(is_word_lexeme(s.name));
    assert forall|k: int| 0 <= k < xs.len() implies valid_lexeme(#[trigger] xs[k]) by {
        if k == 0 {
            assert(xs[k] == kw_struct());
        } else if k == 1 {
            assert(xs[k] == s.name);
        } else if k == 2 {
            assert(xs[k] == seq![LBRACE_BYTE]);
        } else if k < 3 + rl {
            assert(xs[k] == rest[k - 3]);
        } else {
            assert(xs[k] == seq![RBRACE_BYTE]);
        }
    }
}


/// Tokens `toks[pos ..]` open with exactly the given lexemes: one token
/// per lexeme, carrying its kind and its text.
pub open spec fn toks_match_at(src: Seq<u8>, toks: Seq<Token>, pos: int, xs: Seq<Seq<u8>>) -> bool {
    &&& 0 <= pos
    &&& pos + xs.len() <= toks.len()
    &&& forall|k: int|
        0 <= k < xs.len() ==> (#[trigger] toks[pos + k]).kind == lexeme_kind(xs[k]) && token_text(
            src,
            toks[pos + k],
        ) == xs[k]
}

proof fn lemma_kind_ident(name: Seq<u8>)
    requires
        valid_ident(name),
    ensures
        lexeme_kind(name) == TokenKind::Ident,
{
    assert(is_word_byte(name[0]));
    assert(punct_kind(name[0]) is None);
    assert(!is_digit_byte(name[0]));
}

proof fn lemma_kind_num(n: u64)
    ensures
        lexeme_kind(dec_digits(n)) == TokenKind::NumLit,
{
    lemma_dec_digits(n);
    let x = dec_digits(n);
    assert(is_digit_byte(x[0]));
    assert(punct_kind(x[0]) is None);
    if x == kw_struct() {
        assert(x[0] == 115);
        assert(false);
    }
}

proof fn lemma_kind_kw()
    ensures
        lexeme_kind(kw_struct()) == TokenKind::KwStruct,
{
    assert(kw_struct().len() == 6);
    assert(close_kind(kw_struct(), TokenKind::Ident) == TokenKind::KwStruct);
    assert(!is_digit_byte(kw_struct()[0]));
}

proof fn lemma_parse_ty_at(src: Seq<u8>, toks: Seq<Token>, pos: int, t: TyV)
    requires
        wf_ty(t),
        toks_match_at(src, toks, pos, ty_lexemes(t)),
    ensures
        spec_parse_ty(src, toks, pos) == Ok::<(TyV, int), StructParseError>(
            (t, pos + ty_lexemes(t).len()),
        ),
    decreases t,
{
    let xs = ty_lexemes(t);
    match t {
        TyV::Ident { name } => {
            assert(xs[0] == name);
            assert(toks[pos + 0].kind == lexeme_kind(xs[0]) && token_text(src, toks[pos + 0])
                == xs[0]);
            lemma_kind_ident(name);
            assert(spec_next_tok(toks, pos) == Ok::<Token, StructParseError>(toks[pos]));
        },
        TyV::Array { elem, len } => {
            let exs = ty_lexemes(*elem);
            let el = exs.len() as int;
            assert(xs == seq![seq![LBRACKET_BYTE]] + exs + seq![
                seq![SEMI_BYTE],
                dec_digits(len),
                seq![RBRACKET_BYTE],
            ]);
            assert(xs.len() == el + 4);
            assert(xs[0] == seq![LBRACKET_BYTE]);
            assert(xs[1 + el] == seq![SEMI_BYTE]);
            assert(xs[2 + el] == dec_digits(len));
            assert(xs[3 + el] == seq![RBRACKET_BYTE]);
            assert(toks[pos + 0].kind == lexeme_kind(xs[0]) && token_text(src, toks[pos + 0])
                == xs[0]);
            assert(lexeme_kind(seq![LBRACKET_BYTE]) == TokenKind::LSqBracket);
            assert forall|q: int|
                0 <= q < el implies (#[trigger] toks[(pos + 1) + q]).kind == lexeme_kind(exs[q])
                    && token_text(src, toks[(pos + 1) + q]) == exs[q] by {
                assert(xs[1 + q] == exs[q]);
                assert(toks[pos + (1 + q)].kind == lexeme_kind(xs[1 + q]) && token_text(
                    src,
                    toks[pos + (1 + q)],
                ) == xs[1 + q]);
                assert(toks[(pos + 1) + q] == toks[pos + (1 + q)]);
            }
            assert(toks_match_at(src, toks, pos + 1, exs));
            lemma_parse_ty_at(src, toks, pos + 1, *elem);
            let p1 = pos + 1 + el;
            assert(toks[pos + (1 + el)].kind == lexeme_kind(xs[1 + el]) && token_text(
                src,
                toks[pos + (1 + el)],
            ) == xs[1 + el]);
            assert(toks[pos + (2 + el)].kind == lexeme_kind(xs[2 + el]) && token_text(
                src,
                toks[pos + (2 + el)],
            ) == xs[2 + el]);
            assert(toks[pos + (3 + el)].kind == lexeme_kind(xs[3 + el]) && token_text(
                src,
                toks[pos + (3 + el)],
            ) == xs[3 + el]);
            assert(lexeme_kind(seq![SEMI_BYTE]) == TokenKind::Semi);
            assert(lexeme_kind(seq![RBRACKET_BYTE]) == TokenKind::RSqBracket);
            lemma_kind_num(len);
            lemma_dec_digits(len);
            lemma_parse_u64_digits(dec_digits(len));
            assert(spec_parse_u64(dec_digits(len)) == Ok::<u64, NumParseErrorKind>(len));
            assert(toks[p1].kind == TokenKind::Semi);
            assert(toks[p1 + 1].kind == TokenKind::NumLit);
            assert(token_text(src, toks[p1 + 1]) == dec_digits(len));
            assert(toks[p1 + 2].kind == TokenKind::RSqBracket);
            assert(Box::new(*elem) == elem);
            assert(spec_parse_array(src, toks, pos + 1) == Ok::<(TyV, int), StructParseError>(
                (t, p1 + 3),
            ));
        },
    }
}

proof fn lemma_parse_fields_comma(src: Seq<u8>, toks: Seq<Token>, p: int)
    requires
        0 <= p < toks.len(),
        toks[p].kind == TokenKind::Comma,
    ensures
        spec_parse_fields(src, toks, p) == spec_parse_fields(src, toks, p + 1),
{
    assert(spec_parse_field(src, toks, p) == spec_parse_field(src, toks, p + 1));
}

proof fn lemma_parse_fields_at(src: Seq<u8>, toks: Seq<Token>, pos: int, fs: Seq<FieldV>)
    requires
        forall|k: int| 0 <= k < fs.len() ==> wf_field(#[trigger] fs[k]),
        toks_match_at(src, toks, pos, fields_lexemes(fs) + seq![seq![RBRACE_BYTE]]),
    ensures
        spec_parse_fields(src, toks, pos) == Ok::<(Seq<FieldV>, int), StructParseError>(
            (fs, pos + fields_lexemes(fs).len() + 1),
        ),
    decreases fs.len(),
{
    let xs = fields_lexemes(fs) + seq![seq![RBRACE_BYTE]];
    if fs.len() == 0 {
        assert(fields_lexemes(fs) =~= Seq::<Seq<u8>>::empty());
        assert(xs[0] == seq![RBRACE_BYTE]);
        assert(toks[pos + 0].kind == lexeme_kind(xs[0]));
        assert(lexeme_kind(seq![RBRACE_BYTE]) == TokenKind::RBrace);
        assert(spec_parse_field(src, toks, pos) == Ok::<(Option<FieldV>, int), StructParseError>(
            (None, pos + 1),
        ));
        assert(fs =~= Seq::<FieldV>::empty());
    } else {
        let f0 = fs[0];
        assert(wf_field(f0));
        let flx = field_lexemes(f0);
        let exs = ty_lexemes(f0.ty);
        let el = exs.len() as int;
        let fl = flx.len() as int;
        assert(fl == el + 2);
        let rest = fields_lexemes(fs.drop_first());
        let rl = rest.len() as int;
        assert(fields_lexemes(fs) == flx + seq![seq![COMMA_BYTE]] + rest);
        assert(xs.len() == fl + 1 + rl + 1);
        assert(flx[0] == f0.name);
        assert(flx[1] == seq![COLON_BYTE]);
        assert(xs[0] == f0.name);
        assert(xs[1] == seq![COLON_BYTE]);
        assert(xs[fl] == seq![COMMA_BYTE]);
        assert(toks[pos + 0].kind == lexeme_kind(xs[0]) && token_text(src, toks[pos + 0])
            == xs[0]);
        assert(toks[pos + 1].kind == lexeme_kind(xs[1]));
        lemma_kind_ident(f0.name);
        assert(lexeme_kind(seq![COLON_BYTE]) == TokenKind::Colon);
        assert forall|q: int|
            0 <= q < el implies (#[trigger] toks[(pos + 2) + q]).kind == lexeme_kind(exs[q])
                && token_text(src, toks[(pos + 2) + q]) == exs[q] by {
            assert(xs[2 + q] == flx[2 + q]);
            assert(flx[2 + q] == exs[q]);
            assert(toks[pos + (2 + q)].kind == lexeme_kind(xs[2 + q]) && token_text(
                src,
                toks[pos + (2 + q)],
            ) == xs[2 + q]);
            assert(toks[(pos + 2) + q] == toks[pos + (2 + q)]);
        }
        assert(toks_match_at(src, toks, pos + 2, exs));
        lemma_parse_ty_at(src, toks, pos + 2, f0.ty);
        let p = pos + 2 + el;
        assert(spec_next_tok(toks, pos) == Ok::<Token, StructParseError>(toks[pos]));
        assert(token_text(src, toks[pos]) == f0.name);
        assert(FieldV { name: f0.name, ty: f0.ty } =~= f0);
        assert(spec_parse_field(src, toks, pos) == Ok::<(Option<FieldV>, int), StructParseError>(
            (Some(f0), p),
        ));
        assert(toks[pos + fl].kind == lexeme_kind(xs[fl]));
        assert(lexeme_kind(seq![COMMA_BYTE]) == TokenKind::Comma);
        assert(toks[p].kind == TokenKind::Comma);
        lemma_parse_fields_comma(src, toks, p);
        let xrest = rest + seq![seq![RBRACE_BYTE]];
        assert forall|q: int|
            0 <= q < xrest.len() implies (#[trigger] toks[(p + 1) + q]).kind == lexeme_kind(
                xrest[q],
            ) && token_text(src, toks[(p + 1) + q]) == xrest[q] by {
            assert(xs[fl + 1 + q] == xrest[q]);
            assert(toks[pos + (fl + 1 + q)].kind == lexeme_kind(xs[fl + 1 + q]) && token_text(
                src,
                toks[pos + (fl + 1 + q)],
            ) == xs[fl + 1 + q]);
            assert(toks[(p + 1) + q] == toks[pos + (fl + 1 + q)]);
        }
        assert(toks_match_at(src, toks, p + 1, xrest));
        assert(forall|k: int|
            0 <= k < fs.drop_first().len() ==> wf_field(#[trigger] fs.drop_first()[k]));
        lemma_parse_fields_at(src, toks, p + 1, fs.drop_first());
        assert(seq![f0] + fs.drop_first() =~= fs);
    }
}

/// Parsing tokens that carry the lexemes of a well-formed struct value
/// yields exactly that value — in particular, the parsed fields stand in
/// declaration order.
pub proof fn lemma_parse_struct_at(src: Seq<u8>, toks: Seq<Token>, s: StructV)
    requires
        wf_struct(s),
        toks_match_at(src, toks, 0, struct_lexemes(s)),
    ensures
        spec_parse_struct(src, toks) == Ok::<StructV, StructParseError>(s),
{
    let pos: int = 0;
    let xs = struct_lexemes(s);
    let rest = fields_lexemes(s.fields);
    let rl = rest.len() as int;
    assert(xs.len() == 3 + rl + 1);
    assert(xs[0] == kw_struct());
    assert(xs[1] == s.name);
    assert(xs[2] == seq![LBRACE_BYTE]);
    lemma_kind_kw();
    lemma_kind_ident(s.name);
    assert(lexeme_kind(seq![LBRACE_BYTE]) == TokenKind::LBrace);
    assert(toks[pos + 0].kind == lexeme_kind(xs[0]));
    assert(toks[pos + 1].kind == lexeme_kind(xs[1]) && token_text(src, toks[pos + 1]) == xs[1]);
    assert(toks[pos + 2].kind == lexeme_kind(xs[2]));
    let xrest = rest + seq![seq![RBRACE_BYTE]];
    assert forall|q: int|
        0 <= q < xrest.len() implies (#[trigger] toks[3 + q]).kind == lexeme_kind(xrest[q])
            && token_text(src, toks[3 + q]) == xrest[q] by {
        assert(xs[3 + q] == xrest[q]);
        assert(toks[pos + (3 + q)].kind == lexeme_kind(xs[3 + q]) && token_text(
            src,
            toks[pos + (3 + q)],
        ) == xs[3 + q]);
        assert(toks[3 + q] == toks[pos + (3 + q)]);
    }
    assert(toks_match_at(src, toks, 3, xrest));
    lemma_parse_fields_at(src, toks, 3, s.fields);
    assert(StructV { name: s.name, fields: s.fields } =~= s);
}

/// The round trip: the canonical text of any well-formed struct value
/// parses back to exactly that value. The length bound only asks that the
/// text be addressable with byte offsets.
pub proof fn lemma_round_trip(s: StructV)
    requires
        wf_struct(s),
        render_struct(s).len() <= usize::MAX,
    ensures
        crate::spec_parse(render_struct(s)) == Ok::<StructV, StructParseError>(s),
{
    let xs = struct_lexemes(s);
    let src = render_struct(s);
    lemma_struct_lexemes_valid(s);
    lemma_render_laid_out(xs);
    let ps = Seq::new(xs.len(), |k: int| render_start(xs, k));
    lemma_tokenize_laid_out(src, xs, ps);
    if let Ok(toks) = crate::tokenize::spec_tokenize(src) {
        let pos: int = 0;
        assert forall|k: int|
            0 <= k < xs.len() implies (#[trigger] toks[pos + k]).kind == lexeme_kind(xs[k])
                && token_text(src, toks[pos + k]) == xs[k] by {
            assert(toks[k].kind == lexeme_kind(xs[k]));
            assert(token_text(src, toks[k]) == xs[k]);
        }
        assert(toks_match_at(src, toks, 0, xs));
        lemma_parse_struct_at(src, toks, s);
    }
}

/// Order preservation over the canonical syntax: each field of the parse
/// of the canonical text is the corresponding declared field.
pub proof fn lemma_field_order(s: StructV, k: int)
    requires
        wf_struct(s),
        render_struct(s).len() <= usize::MAX,
        0 <= k < s.fields.len(),
    ensures
        crate::spec_parse(render_struct(s)) matches Ok(r) && r.fields[k] == s.fields[k],
{
    lemma_round_trip(s);
}

/// What a token of each kind carries: punctuation covers exactly its one
/// byte; the keyword's text is `struct`; an identifier's text is a valid
/// identifier; a numeric literal's text is a word beginning with a digit.
pub open spec fn token_shape(src: Seq<u8>, t: Token) -> bool {
    match t.kind {
        TokenKind::KwStruct => token_text(src, t) == kw_struct(),
        TokenKind::Ident => valid_ident(token_text(src, t)),
        TokenKind::NumLit => is_word_lexeme(token_text(src, t)) && is_digit_byte(
            token_text(src, t)[0],
        ),
        _ => t.span.end == t.span.start + 1 && punct_kind(src[t.span.start as int]) == Some(
            t.kind,
        ),
    }
}

/// Scanner-state strengthening for the shape proof: a pending token's
/// bytes so far are word bytes, and its provisional kind matches its
/// first byte.
pub open spec fn lex_shape_wf(src: Seq<u8>, st: LexState, i: int) -> bool {
    match st {
        LexState::InToken { start, kind } => {
            &&& start < i
            &&& forall|k: int| start <= k < i ==> is_word_byte(#[trigger] src[k])
            &&& ((kind == TokenKind::Ident && is_alpha_byte(src[start as int])) || (kind
                == TokenKind::NumLit && is_digit_byte(src[start as int])))
        },
        _ => true,
    }
}

proof fn lemma_closed_token_shape(src: Seq<u8>, start: usize, end: int, kind: TokenKind)
    requires
        src.len() <= usize::MAX,
        start < end <= src.len(),
        forall|k: int| start <= k < end ==> is_word_byte(#[trigger] src[k]),
        (kind == TokenKind::Ident && is_alpha_byte(src[start as int])) || (kind
            == TokenKind::NumLit && is_digit_byte(src[start as int])),
    ensures
        token_shape(src, closed_token(src, start, end, kind)),
{
    let text = src.subrange(start as int, end);
    assert(text.len() == end - start);
    assert forall|k: int| 0 <= k < text.len() implies is_word_byte(#[trigger] text[k]) by {
        assert(text[k] == src[start + k]);
    }
    assert(text[0] == src[start as int]);
    assert(token_text(src, closed_token(src, start, end, kind)) == text);
}

proof fn lemma_tokenize_from_shapes(src: Seq<u8>, i: int, st: LexState)
    requires
        src.len() <= usize::MAX,
        0 <= i <= src.len(),
        lex_shape_wf(src, st, i),
    ensures
        spec_tokenize_from(src, i, st) matches Ok(toks) ==> forall|k: int|
            0 <= k < toks.len() ==> token_shape(src, #[trigger] toks[k]),
    decreases src.len() - i, crate::tokenize::lex_rank(st),
{
    if i >= src.len() {
        if let LexState::InToken { start, kind } = st {
            lemma_closed_token_shape(src, start, src.len() as int, kind);
            let toks = seq![closed_token(src, start, src.len() as int, kind)];
            assert(forall|k: int| 0 <= k < toks.len() ==> token_shape(src, #[trigger] toks[k]));
        }
    } else {
        let b = src[i];
        match st {
            LexState::Init => match punct_kind(b) {
                Some(pk) => {
                    lemma_tokenize_from_shapes(src, i + 1, LexState::Init);
                    if let Ok(rest) = spec_tokenize_from(src, i + 1, LexState::Init) {
                        let t = Token {
                            span: Span { start: i as usize, end: (i + 1) as usize },
                            kind: pk,
                        };
                        assert(token_shape(src, t));
                        assert forall|k: int| 0 <= k < (seq![t] + rest).len() implies token_shape(
                            src,
                            #[trigger] (seq![t] + rest)[k],
                        ) by {
                            if k == 0 {
                                assert((seq![t] + rest)[k] == t);
                            } else {
                                assert((seq![t] + rest)[k] == rest[k - 1]);
                                assert(token_shape(src, rest[k - 1]));
                            }
                        }
                    }
                },
                None => {
                    if b == SLASH_BYTE {
                        lemma_tokenize_from_shapes(
                            src,
                            i + 1,
                            LexState::FwSlash { start: i as usize },
                        );
                    } else if is_alpha_byte(b) {
                        lemma_tokenize_from_shapes(
                            src,
                            i + 1,
                            LexState::InToken { start: i as usize, kind: TokenKind::Ident },
                        );
                    } else if is_digit_byte(b) {
                        lemma_tokenize_from_shapes(
                            src,
                            i + 1,
                            LexState::InToken { start: i as usize, kind: TokenKind::NumLit },
                        );
                    } else {
                        lemma_tokenize_from_shapes(src, i + 1, LexState::Init);
                    }
                },
            },
            LexState::InToken { start, kind } => {
                if is_word_byte(b) {
                    lemma_tokenize_from_shapes(src, i + 1, st);
                } else {
                    lemma_tokenize_from_shapes(src, i, LexState::Init);
                    lemma_closed_token_shape(src, start, i, kind);
                    if let Ok(rest) = spec_tokenize_from(src, i, LexState::Init) {
                        let t = closed_token(src, start, i, kind);
                        assert forall|k: int| 0 <= k < (seq![t] + rest).len() implies token_shape(
                            src,
                            #[trigger] (seq![t] + rest)[k],
                        ) by {
                            if k == 0 {
                                assert((seq![t] + rest)[k] == t);
                            } else {
                                assert((seq![t] + rest)[k] == rest[k - 1]);
                                assert(token_shape(src, rest[k - 1]));
                            }
                        }
                    }
                }
            },
            LexState::FwSlash { start } => {
                if b == SLASH_BYTE {
                    lemma_tokenize_from_shapes(src, i + 1, LexState::InComment);
                }
            },
            LexState::InComment => {
                if b == NEWLINE_BYTE {
                    lemma_tokenize_from_shapes(src, i + 1, LexState::Init);
                } else {
                    lemma_tokenize_from_shapes(src, i + 1, LexState::InComment);
                }
            },
        }
    }
}

/// Every token of a successful scan has the shape its kind promises.
pub proof fn lemma_tokenize_shapes(src: Seq<u8>)
    requires
        src.len() <= usize::MAX,
    ensures
        crate::tokenize::spec_tokenize(src) matches Ok(toks) ==> forall|k: int|
            0 <= k < toks.len() ==> token_shape(src, #[trigger] toks[k]),
{
    lemma_tokenize_from_shapes(src, 0, LexState::Init);
}

proof fn lemma_parse_ty_wf(src: Seq<u8>, toks: Seq<Token>, pos: int)
    requires
        forall|k: int| 0 <= k < toks.len() ==> token_shape(src, #[trigger] toks[k]),
    ensures
        spec_parse_ty(src, toks, pos) matches Ok(r) ==> wf_ty(r.0),
        spec_parse_array(src, toks, pos) matches Ok(r) ==> wf_ty(r.0),
    decreases toks.len() - pos,
{
    if 0 <= pos < toks.len() {
        assert(token_shape(src, toks[pos]));
        if toks[pos].kind is LSqBracket {
            lemma_parse_ty_wf(src, toks, pos + 1);
        }
    }
    assert(spec_parse_ty(src, toks, pos) matches Ok(r) ==> wf_ty(r.0));
    if let Ok((elem, p)) = spec_parse_ty(src, toks, pos) {
        assert(*Box::new(elem) == elem);
        assert(wf_ty(*Box::new(elem)));
    }
}

proof fn lemma_parse_field_wf(src: Seq<u8>, toks: Seq<Token>, pos: int)
    requires
        forall|k: int| 0 <= k < toks.len() ==> token_shape(src, #[trigger] toks[k]),
    ensures
        spec_parse_field(src, toks, pos) matches Ok(r) ==> (r.0 matches Some(f) ==> wf_field(f)),
    decreases toks.len() - pos,
{
    if 0 <= pos < toks.len() {
        assert(token_shape(src, toks[pos]));
        match toks[pos].kind {
            TokenKind::Ident => {
                lemma_parse_ty_wf(src, toks, pos + 2);
            },
            TokenKind::Comma => {
                lemma_parse_field_wf(src, toks, pos + 1);
            },
            _ => {},
        }
    }
}

proof fn lemma_parse_fields_wf(src: Seq<u8>, toks: Seq<Token>, pos: int)
    requires
        forall|k: int| 0 <= k < toks.len() ==> token_shape(src, #[trigger] toks[k]),
    ensures
        spec_parse_fields(src, toks, pos) matches Ok(r) ==> forall|k: int|
            0 <= k < r.0.len() ==> wf_field(#[trigger] r.0[k]),
    decreases toks.len() - pos,
{
    lemma_parse_field_wf(src, toks, pos);
    if let Ok((step, p)) = spec_parse_field(src, toks, pos) {
        if let Some(f) = step {
            crate::parse::lemma_parse_field_bounds(src, toks, pos);
            lemma_parse_fields_wf(src, toks, p);
            if let Ok((fs, q)) = spec_parse_fields(src, toks, p) {
                assert forall|k: int| 0 <= k < (seq![f] + fs).len() implies wf_field(
                    #[trigger] (seq![f] + fs)[k],
                ) by {
                    if k == 0 {
                        assert((seq![f] + fs)[k] == f);
                    } else {
                        assert((seq![f] + fs)[k] == fs[k - 1]);
                        assert(wf_field(fs[k - 1]));
                    }
                }
            }
        }
    }
}

/// Every struct value a successful parse returns is well formed: its name
/// and all its identifiers are nonempty identifier text distinct from the
/// keyword, as the data model promises.
pub proof fn lemma_parse_wf(src: Seq<u8>)
    requires
        src.len() <= usize::MAX,
    ensures
        crate::spec_parse(src) matches Ok(sv) ==> wf_struct(sv),
{
    lemma_tokenize_shapes(src);
    if let Ok(toks) = crate::tokenize::spec_tokenize(src) {
        if 1 < toks.len() {
            assert(token_shape(src, toks[1]));
        }
        lemma_parse_fields_wf(src, toks, 3);
    }
}

/// The closure of the round trip: whatever some source parses to, the
/// canonical text of that value parses back to it.
pub proof fn lemma_parse_render_closure(src: Seq<u8>, s: StructV)
    requires
        src.len() <= usize::MAX,
        render_struct(s).len() <= usize::MAX,
        crate::spec_parse(src) == Ok::<StructV, StructParseError>(s),
    ensures
        crate::spec_parse(render_struct(s)) == Ok::<StructV, StructParseError>(s),
{
    lemma_parse_wf(src);
    lemma_round_trip(s);
}

/// Two token streams that carry the same lexemes: same count, and token
/// by token the same kind and the same text (spans may differ).
pub open spec fn same_lexemes(
    src1: Seq<u8>,
    toks1: Seq<Token>,
    src2: Seq<u8>,
    toks2: Seq<Token>,
) -> bool {
    &&& toks1.len() == toks2.len()
    &&& forall|k: int|
        0 <= k < toks1.len() ==> (#[trigger] toks1[k]).kind == toks2[k].kind && token_text(
            src1,
            toks1[k],
        ) == token_text(src2, toks2[k])
}

/// Two parse outcomes that agree: equal values, or errors of the same
/// kind (their spans may differ).
pub open spec fn same_outcome(
    r1: Result<StructV, StructParseError>,
    r2: Result<StructV, StructParseError>,
) -> bool {
    match (r1, r2) {
        (Ok(a), Ok(b)) => a == b,
        (Err(e1), Err(e2)) => e1.kind == e2.kind,
        _ => false,
    }
}

proof fn lemma_parse_ty_same(
    src1: Seq<u8>,
    toks1: Seq<Token>,
    src2: Seq<u8>,
    toks2: Seq<Token>,
    pos: int,
)
    requires
        same_lexemes(src1, toks1, src2, toks2),
    ensures
        (match (spec_parse_ty(src1, toks1, pos), spec_parse_ty(src2, toks2, pos)) {
            (Ok(a), Ok(b)) => a == b,
            (Err(e1), Err(e2)) => e1.kind == e2.kind,
            _ => false,
        }),
        (match (spec_parse_array(src1, toks1, pos), spec_parse_array(src2, toks2, pos)) {
            (Ok(a), Ok(b)) => a == b,
            (Err(e1), Err(e2)) => e1.kind == e2.kind,
            _ => false,
        }),
    decreases toks1.len() - pos,
{
    if 0 <= pos < toks1.len() {
        assert(toks1[pos].kind == toks2[pos].kind && token_text(src1, toks1[pos]) == token_text(
            src2,
            toks2[pos],
        ));
        if toks1[pos].kind is LSqBracket {
            lemma_parse_ty_same(src1, toks1, src2, toks2, pos + 1);
        }
    }
    assert(match (spec_parse_ty(src1, toks1, pos), spec_parse_ty(src2, toks2, pos)) {
        (Ok(a), Ok(b)) => a == b,
        (Err(e1), Err(e2)) => e1.kind == e2.kind,
        _ => false,
    });
    if let (Ok((ty1, p1)), Ok((ty2, p2))) = (
        spec_parse_ty(src1, toks1, pos),
        spec_parse_ty(src2, toks2, pos),
    ) {
        if 0 <= p1 < toks1.len() {
            assert(toks1[p1].kind == toks2[p1].kind);
        }
        if 0 <= p1 + 1 < toks1.len() {
            assert(toks1[p1 + 1].kind == toks2[p1 + 1].kind && token_text(src1, toks1[p1 + 1])
                == token_text(src2, toks2[p1 + 1]));
        }
        if 0 <= p1 + 2 < toks1.len() {
            assert(toks1[p1 + 2].kind == toks2[p1 + 2].kind);
        }
    }
}

proof fn lemma_parse_field_same(
    src1: Seq<u8>,
    toks1: Seq<Token>,
    src2: Seq<u8>,
    toks2: Seq<Token>,
    pos: int,
)
    requires
        same_lexemes(src1, toks1, src2, toks2),
    ensures
        (match (spec_parse_field(src1, toks1, pos), spec_parse_field(src2, toks2, pos)) {
            (Ok(a), Ok(b)) => a == b,
            (Err(e1), Err(e2)) => e1.kind == e2.kind,
            _ => false,
        }),
    decreases toks1.len() - pos,
{
    if 0 <= pos < toks1.len() {
        assert(toks1[pos].kind == toks2[pos].kind && token_text(src1, toks1[pos]) == token_text(
            src2,
            toks2[pos],
        ));
        match toks1[pos].kind {
            TokenKind::Ident => {
                if 0 <= pos + 1 < toks1.len() {
                    assert(toks1[pos + 1].kind == toks2[pos + 1].kind);
                }
                lemma_parse_ty_same(src1, toks1, src2, toks2, pos + 2);
            },
            TokenKind::Comma => {
                lemma_parse_field_same(src1, toks1, src2, toks2, pos + 1);
            },
            _ => {},
        }
    }
}

proof fn lemma_parse_fields_same(
    src1: Seq<u8>,
    toks1: Seq<Token>,
    src2: Seq<u8>,
    toks2: Seq<Token>,
    pos: int,
)
    requires
        same_lexemes(src1, toks1, src2, toks2),
    ensures
        (match (spec_parse_fields(src1, toks1, pos), spec_parse_fields(src2, toks2, pos)) {
            (Ok(a), Ok(b)) => a == b,
            (Err(e1), Err(e2)) => e1.kind == e2.kind,
            _ => false,
        }),
    decreases toks1.len() - pos,
{
    lemma_parse_field_same(src1, toks1, src2, toks2, pos);
    if let (Ok((step1, p1)), Ok((step2, p2))) = (
        spec_parse_field(src1, toks1, pos),
        spec_parse_field(src2, toks2, pos),
    ) {
        if step1 is Some {
            crate::parse::lemma_parse_field_bounds(src1, toks1, pos);
            lemma_parse_fields_same(src1, toks1, src2, toks2, p1);
        }
    }
}

/// Invariance of parsing under token positions: two token streams that
/// carry the same lexemes parse to the same struct, or fail with the same
/// kind of error.
pub proof fn lemma_parse_struct_same(
    src1: Seq<u8>,
    toks1: Seq<Token>,
    src2: Seq<u8>,
    toks2: Seq<Token>,
)
    requires
        same_lexemes(src1, toks1, src2, toks2),
    ensures
        (match (spec_parse_struct(src1, toks1), spec_parse_struct(src2, toks2)) {
            (Ok(a), Ok(b)) => a == b,
            (Err(e1), Err(e2)) => e1.kind == e2.kind,
            _ => false,
        }),
{
    if toks1.len() > 0 {
        assert(toks1[0].kind == toks2[0].kind);
    }
    if toks1.len() > 1 {
        assert(toks1[1].kind == toks2[1].kind && token_text(src1, toks1[1]) == token_text(
            src2,
            toks2[1],
        ));
    }
    if toks1.len() > 2 {
        assert(toks1[2].kind == toks2[2].kind);
    }
    lemma_parse_fields_same(src1, toks1, src2, toks2, 3);
}

/// Whitespace and comment invariance: two sources that lay out the same
/// valid lexemes — with any runs of skipped bytes and `//` comments
/// before, between and after them — parse to the same struct, or fail
/// with the same kind of error (only the error's span can differ).
pub proof fn lemma_layout_invariance(
    src1: Seq<u8>,
    ps1: Seq<int>,
    src2: Seq<u8>,
    ps2: Seq<int>,
    xs: Seq<Seq<u8>>,
)
    requires
        src1.len() <= usize::MAX,
        src2.len() <= usize::MAX,
        forall|k: int| 0 <= k < xs.len() ==> valid_lexeme(#[trigger] xs[k]),
        laid_out(src1, xs, ps1),
        laid_out(src2, xs, ps2),
    ensures
        same_outcome(crate::spec_parse(src1), crate::spec_parse(src2)),
{
    lemma_tokenize_laid_out(src1, xs, ps1);
    lemma_tokenize_laid_out(src2, xs, ps2);
    if let (Ok(toks1), Ok(toks2)) = (
        crate::tokenize::spec_tokenize(src1),
        crate::tokenize::spec_tokenize(src2),
    ) {
        assert forall|k: int|
            0 <= k < toks1.len() implies (#[trigger] toks1[k]).kind == toks2[k].kind
                && token_text(src1, toks1[k]) == token_text(src2, toks2[k]) by {
            assert(toks1[k].kind == lexeme_kind(xs[k]));
            assert(toks2[k].kind == lexeme_kind(xs[k]));
            assert(token_text(src1, toks1[k]) == xs[k]);
            assert(token_text(src2, toks2[k]) == xs[k]);
        }
        lemma_parse_struct_same(src1, toks1, src2, toks2);
    }
}

} // verus!
