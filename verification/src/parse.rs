//! Recursive-descent parser over the token sequence.
//!
//! Each grammar production is described by a pure function over the token
//! sequence (`spec_parse_struct`, `spec_parse_field`, `spec_parse_ty`,
//! `spec_parse_array`), and each executable function is proved to return
//! exactly what the corresponding description says. Positions returned by
//! the descriptions are the index of the next unread token.

use vstd::prelude::*;
use vstd::slice::{slice_index_get, slice_subrange, slice_to_vec};
use vstd::string::StringSliceAdditionalSpecFns;

use crate::num::{parse_u64, spec_parse_u64};
use crate::tokenize::{spans_wf, Span, Token, TokenKind};
use crate::{
    err_end, err_unexpected, view_field, view_ty, Array, Field, FieldV, Struct,
    StructParseError, StructParseErrorKind, StructV, Ty, TyV,
};

verus! {

/// The text of `tok`: the bytes its span covers in `src`.
pub open spec fn token_text(src: Seq<u8>, tok: Token) -> Seq<u8> {
    src.subrange(tok.span.start as int, tok.span.end as int)
}

/// The token at `pos`, or the error for a stream that ended too soon.
pub open spec fn spec_next_tok(toks: Seq<Token>, pos: int) -> Result<Token, StructParseError> {
    if 0 <= pos < toks.len() {
        Ok(toks[pos])
    } else {
        Err(err_end())
    }
}

/// The token at `pos` when it has kind `kind`; the error naming the
/// offending token otherwise.
pub open spec fn spec_expect_tok(toks: Seq<Token>, pos: int, kind: TokenKind) -> Result<
    Token,
    StructParseError,
> {
    match spec_next_tok(toks, pos) {
        Ok(t) => if t.kind == kind {
            Ok(t)
        } else {
            Err(err_unexpected(t))
        },
        Err(e) => Err(e),
    }
}

/// The type read at `pos`: an identifier names a type, `[` opens an array
/// type, anything else is a parse error. On success the value is paired
/// with the next unread position.
pub open spec fn spec_parse_ty(src: Seq<u8>, toks: Seq<Token>, pos: int) -> Result<
    (TyV, int),
    StructParseError,
>
    decreases toks.len() - pos, 0int,
{
    match spec_next_tok(toks, pos) {
        Ok(t) => match t.kind {
            TokenKind::Ident => Ok((TyV::Ident { name: token_text(src, t) }, pos + 1)),
            TokenKind::LSqBracket => spec_parse_array(src, toks, pos + 1),
            _ => Err(err_unexpected(t)),
        },
        Err(e) => Err(e),
    }
}

/// The remainder of an array type after its `[`: an element type, `;`, a
/// decimal length and `]`. A length literal that fails numeric conversion
/// is reported at the literal's span.
pub open spec fn spec_parse_array(src: Seq<u8>, toks: Seq<Token>, pos: int) -> Result<
    (TyV, int),
    StructParseError,
>
    decreases toks.len() - pos, 1int,
{
    match spec_parse_ty(src, toks, pos) {
        Ok((elem, p)) => match spec_expect_tok(toks, p, TokenKind::Semi) {
            Ok(_) => match spec_expect_tok(toks, p + 1, TokenKind::NumLit) {
                Ok(len_tok) => match spec_parse_u64(token_text(src, len_tok)) {
                    Ok(len) => match spec_expect_tok(toks, p + 2, TokenKind::RSqBracket) {
                        Ok(_) => Ok((TyV::Array { elem: Box::new(elem), len }, p + 3)),
                        Err(e) => Err(e),
                    },
                    Err(k) => Err(
                        StructParseError {
                            span: len_tok.span,
                            kind: StructParseErrorKind::NumParse(k),
                        },
                    ),
                },
                Err(e) => Err(e),
            },
            Err(e) => Err(e),
        },
        Err(e) => Err(e),
    }
}

/// On success, the type productions consume at least one token and stop
/// within the stream.
pub proof fn lemma_parse_ty_bounds(src: Seq<u8>, toks: Seq<Token>, pos: int)
    ensures
        spec_parse_ty(src, toks, pos) matches Ok((t, p)) ==> pos < p <= toks.len(),
        spec_parse_array(src, toks, pos) matches Ok((t, p)) ==> pos < p <= toks.len(),
    decreases toks.len() - pos,
{
    if let Ok(t) = spec_next_tok(toks, pos) {
        if t.kind is LSqBracket {
            lemma_parse_ty_bounds(src, toks, pos + 1);
        }
    }
    if spec_parse_ty(src, toks, pos) matches Ok((_, p)) {
        // Either a one-token identifier, or an array parsed from `pos + 1`,
        // for which the conclusion about `spec_parse_array` already holds.
    }
}

/// One step of field parsing at `pos`: a field `IDENT : type`, the closing
/// `}` that ends the field list, or a `,` that is consumed before trying
/// again — so leading, repeated and trailing commas are all tolerated.
pub open spec fn spec_parse_field(src: Seq<u8>, toks: Seq<Token>, pos: int) -> Result<
    (Option<FieldV>, int),
    StructParseError,
>
    decreases toks.len() - pos,
{
    match spec_next_tok(toks, pos) {
        Ok(t) => match t.kind {
            TokenKind::Ident => match spec_expect_tok(toks, pos + 1, TokenKind::Colon) {
                Ok(_) => match spec_parse_ty(src, toks, pos + 2) {
                    Ok((ty, p)) => Ok((Some(FieldV { name: token_text(src, t), ty }), p)),
                    Err(e) => Err(e),
                },
                Err(e) => Err(e),
            },
            TokenKind::RBrace => Ok((None, pos + 1)),
            TokenKind::Comma => spec_parse_field(src, toks, pos + 1),
            _ => Err(err_unexpected(t)),
        },
        Err(e) => Err(e),
    }
}

/// On success, one field step consumes at least one token and stops within
/// the stream.
pub proof fn lemma_parse_field_bounds(src: Seq<u8>, toks: Seq<Token>, pos: int)
    ensures
        spec_parse_field(src, toks, pos) matches Ok((f, p)) ==> pos < p <= toks.len(),
    decreases toks.len() - pos,
{
    if let Ok(t) = spec_next_tok(toks, pos) {
        match t.kind {
            TokenKind::Ident => {
                lemma_parse_ty_bounds(src, toks, pos + 2);
            },
            TokenKind::Comma => {
                lemma_parse_field_bounds(src, toks, pos + 1);
            },
            _ => {},
        }
    }
}

/// The fields read from `pos` up to and including the closing `}`, in
/// declaration order, paired with the position after the `}`.
pub open spec fn spec_parse_fields(src: Seq<u8>, toks: Seq<Token>, pos: int) -> Result<
    (Seq<FieldV>, int),
    StructParseError,
>
    decreases toks.len() - pos,
{
    match spec_parse_field(src, toks, pos) {
        Ok((step, p)) => match step {
            Some(f) => {
                proof {
                    lemma_parse_field_bounds(src, toks, pos);
                }
                match spec_parse_fields(src, toks, p) {
                    Ok((fs, q)) => Ok((seq![f] + fs, q)),
                    Err(e) => Err(e),
                }
            },
            None => Ok((Seq::<FieldV>::empty(), p)),
        },
        Err(e) => Err(e),
    }
}

/// The struct definition read from the token stream: the keyword `struct`,
/// the struct's name, `{`, the fields, `}`. Tokens after the closing `}`
/// are not examined.
pub open spec fn spec_parse_struct(src: Seq<u8>, toks: Seq<Token>) -> Result<
    StructV,
    StructParseError,
> {
    match spec_expect_tok(toks, 0, TokenKind::KwStruct) {
        Ok(_) => match spec_expect_tok(toks, 1, TokenKind::Ident) {
            Ok(name_tok) => match spec_expect_tok(toks, 2, TokenKind::LBrace) {
                Ok(_) => match spec_parse_fields(src, toks, 3) {
                    Ok((fs, _)) => Ok(StructV { name: token_text(src, name_tok), fields: fs }),
                    Err(e) => Err(e),
                },
                Err(e) => Err(e),
            },
            Err(e) => Err(e),
        },
        Err(e) => Err(e),
    }
}

/// Take the next token, or fail when the stream is exhausted.
pub fn next_tok(toks: &[Token], pos: &mut usize) -> (r: Result<Token, StructParseError>)
    ensures
        r == spec_next_tok(toks@, *old(pos) as int),
        r is Ok ==> *final(pos) == *old(pos) + 1 <= toks@.len(),
        r is Err ==> *final(pos) == *old(pos),
{
    if *pos < toks.len() {
        let t = *slice_index_get(toks, *pos);
        *pos = *pos + 1;
        Ok(t)
    } else {
        Err(
            StructParseError {
                span: Span { start: 0, end: 0 },
                kind: StructParseErrorKind::UnexpectedEnd,
            },
        )
    }
}

/// Take the next token and require its kind, failing at the offending
/// token otherwise. Like the stream itself, this consumes the token even
/// when its kind is wrong; parsing never continues past such an error.
pub fn expect_tok(toks: &[Token], pos: &mut usize, kind: TokenKind) -> (r: Result<
    Token,
    StructParseError,
>)
    ensures
        r == spec_expect_tok(toks@, *old(pos) as int, kind),
        spec_next_tok(toks@, *old(pos) as int) is Ok ==> *final(pos) == *old(pos) + 1
            <= toks@.len(),
        spec_next_tok(toks@, *old(pos) as int) is Err ==> *final(pos) == *old(pos),
{
    match next_tok(toks, pos) {
        Ok(t) => if t.kind == kind {
            Ok(t)
        } else {
            Err(StructParseError::unexpected(t))
        },
        Err(e) => Err(e),
    }
}

/// The bytes a token covers, copied out of the source text.
fn token_bytes(src: &str, tok: Token) -> (v: Vec<u8>)
    requires
        tok.span.start <= tok.span.end <= src.spec_bytes().len(),
    ensures
        v@ == token_text(src.spec_bytes(), tok),
{
    let bytes: &[u8] = src.as_bytes();
    let part = slice_subrange(bytes, tok.span.start, tok.span.end);
    slice_to_vec(part)
}

/// Parse a type at `pos`: an identifier, or `[` opening an array type.
pub fn parse_ty(src: &str, toks: &[Token], pos: &mut usize) -> (r: Result<Ty, StructParseError>)
    requires
        spans_wf(toks@, src.spec_bytes().len() as int),
        *old(pos) <= toks@.len(),
    ensures
        match r {
            Ok(t) => spec_parse_ty(src.spec_bytes(), toks@, *old(pos) as int) == Ok::<
                _,
                StructParseError,
            >((view_ty(t), *final(pos) as int)) && *old(pos) < *final(pos) <= toks@.len(),
            Err(e) => spec_parse_ty(src.spec_bytes(), toks@, *old(pos) as int) == Err::<
                (TyV, int),
                _,
            >(e),
        },
    decreases toks@.len() - *old(pos), 0int,
{
    match next_tok(toks, pos) {
        Ok(t) => match t.kind {
            TokenKind::Ident => {
                let name = token_bytes(src, t);
                Ok(Ty::Ident(name))
            },
            TokenKind::LSqBracket => match parse_array(src, toks, pos) {
                Ok(a) => Ok(Ty::Array(a)),
                Err(e) => Err(e),
            },
            _ => Err(StructParseError::unexpected(t)),
        },
        Err(e) => Err(e),
    }
}

/// Parse the remainder of an array type after its `[`: element type, `;`,
/// decimal length, `]`.
pub fn parse_array(src: &str, toks: &[Token], pos: &mut usize) -> (r: Result<
    Array,
    StructParseError,
>)
    requires
        spans_wf(toks@, src.spec_bytes().len() as int),
        *old(pos) <= toks@.len(),
    ensures
        match r {
            Ok(a) => spec_parse_array(src.spec_bytes(), toks@, *old(pos) as int) == Ok::<
                _,
                StructParseError,
            >((view_ty(Ty::Array(a)), *final(pos) as int)) && *old(pos) < *final(pos)
                <= toks@.len(),
            Err(e) => spec_parse_array(src.spec_bytes(), toks@, *old(pos) as int) == Err::<
                (TyV, int),
                _,
            >(e),
        },
    decreases toks@.len() - *old(pos), 1int,
{
    let ty = match parse_ty(src, toks, pos) {
        Ok(t) => t,
        Err(e) => {
            return Err(e);
        },
    };
    match expect_tok(toks, pos, TokenKind::Semi) {
        Ok(_) => {},
        Err(e) => {
            return Err(e);
        },
    }
    let len_tok = match expect_tok(toks, pos, TokenKind::NumLit) {
        Ok(t) => t,
        Err(e) => {
            return Err(e);
        },
    };
    let text = token_bytes(src, len_tok);
    let len = match parse_u64(text.as_slice()) {
        Ok(n) => n,
        Err(k) => {
            return Err(
                StructParseError { span: len_tok.span, kind: StructParseErrorKind::NumParse(k) },
            );
        },
    };
    match expect_tok(toks, pos, TokenKind::RSqBracket) {
        Ok(_) => {},
        Err(e) => {
            return Err(e);
        },
    }
    Ok(Array { ty: Box::new(ty), len })
}

/// The view of one executable field step.
pub open spec fn view_field_opt(of: Option<Field>) -> Option<FieldV> {
    match of {
        Some(f) => Some(view_field(f)),
        None => None,
    }
}

/// Parse one field step at `pos`: a field, the closing `}` (reported as
/// `None`), or a `,` that is consumed before trying again.
pub fn parse_field(src: &str, toks: &[Token], pos: &mut usize) -> (r: Result<
    Option<Field>,
    StructParseError,
>)
    requires
        spans_wf(toks@, src.spec_bytes().len() as int),
        *old(pos) <= toks@.len(),
    ensures
        match r {
            Ok(of) => spec_parse_field(src.spec_bytes(), toks@, *old(pos) as int) == Ok::<
                _,
                StructParseError,
            >((view_field_opt(of), *final(pos) as int)) && *old(pos) < *final(pos) <= toks@.len(),
            Err(e) => spec_parse_field(src.spec_bytes(), toks@, *old(pos) as int) == Err::<
                (Option<FieldV>, int),
                _,
            >(e),
        },
    decreases toks@.len() - *old(pos),
{
    match next_tok(toks, pos) {
        Ok(t) => match t.kind {
            TokenKind::Ident => {
                match expect_tok(toks, pos, TokenKind::Colon) {
                    Ok(_) => {},
                    Err(e) => {
                        return Err(e);
                    },
                }
                let ty = match parse_ty(src, toks, pos) {
                    Ok(ty) => ty,
                    Err(e) => {
                        return Err(e);
                    },
                };
                let name = token_bytes(src, t);
                Ok(Some(Field { name, ty }))
            },
            TokenKind::RBrace => Ok(None),
            TokenKind::Comma => parse_field(src, toks, pos),
            _ => Err(StructParseError::unexpected(t)),
        },
        Err(e) => Err(e),
    }
}

/// Prepends fields already read to the outcome of the rest of the field
/// list.
pub open spec fn fields_result(
    acc: Seq<FieldV>,
    rest: Result<(Seq<FieldV>, int), StructParseError>,
) -> Result<(Seq<FieldV>, int), StructParseError> {
    match rest {
        Ok((fs, p)) => Ok((acc + fs, p)),
        Err(e) => Err(e),
    }
}

/// Parse a struct definition from `tokens`, the token sequence that
/// [`crate::tokenize::tokenize`] produced for `src`.
pub fn parse_struct(src: &str, tokens: &[Token]) -> (r: Result<Struct, StructParseError>)
    requires
        spans_wf(tokens@, src.spec_bytes().len() as int),
    ensures
        crate::parse_result_view(r) == spec_parse_struct(src.spec_bytes(), tokens@),
{
    let ghost srcb = src.spec_bytes();
    let mut pos: usize = 0;
    match expect_tok(tokens, &mut pos, TokenKind::KwStruct) {
        Ok(_) => {},
        Err(e) => {
            return Err(e);
        },
    }
    let name_tok = match expect_tok(tokens, &mut pos, TokenKind::Ident) {
        Ok(t) => t,
        Err(e) => {
            return Err(e);
        },
    };
    match expect_tok(tokens, &mut pos, TokenKind::LBrace) {
        Ok(_) => {},
        Err(e) => {
            return Err(e);
        },
    }
    let name = token_bytes(src, name_tok);
    let mut fields: Vec<Field> = Vec::new();
    loop
        invariant
            spans_wf(tokens@, srcb.len() as int),
            srcb == src.spec_bytes(),
            pos <= tokens@.len(),
            fields_result(
                fields@.map_values(|f: Field| view_field(f)),
                spec_parse_fields(srcb, tokens@, pos as int),
            ) == spec_parse_fields(srcb, tokens@, 3),
            spec_parse_struct(srcb, tokens@) == (match spec_parse_fields(srcb, tokens@, 3) {
                Ok(fsp) => Ok::<StructV, StructParseError>(
                    StructV { name: name@, fields: fsp.0 },
                ),
                Err(e) => Err::<StructV, StructParseError>(e),
            }),
        decreases tokens@.len() - pos,
    {
        let ghost fields_before = fields@;
        let ghost pos_before = pos as int;
        match parse_field(src, tokens, &mut pos) {
            Ok(Some(f)) => {
                proof {
                    lemma_parse_field_bounds(srcb, tokens@, pos_before);
                }
                fields.push(f);
                proof {
                    assert(fields@.map_values(|f: Field| view_field(f)) =~= fields_before
                        .map_values(|f: Field| view_field(f)) + seq![view_field(f)]);
                    if let Ok((fs, q)) = spec_parse_fields(srcb, tokens@, pos as int) {
                        assert((fields_before.map_values(|f: Field| view_field(f)) + seq![
                            view_field(f),
                        ]) + fs =~= fields_before.map_values(|f: Field| view_field(f)) + (seq![
                            view_field(f),
                        ] + fs));
                    }
                }
            },
            Ok(None) => {
                proof {
                    assert(fields@.map_values(|f: Field| view_field(f)) + Seq::<FieldV>::empty()
                        =~= fields@.map_values(|f: Field| view_field(f)));
                }
                let result = Struct { name, fields };
                return Ok(result);
            },
            Err(e) => {
                return Err(e);
            },
        }
    }
}

} // verus!
