//! A verified library for parsing (a simplified form of) struct
//! definitions: `struct Name { field: Type, ... }`, where a type is an
//! identifier or a fixed-size array `[Type; N]`.
//!
//! The tokenizer and the recursive-descent parser are specified by pure
//! functions over byte sequences ([`spec_parse`] and its parts), and the
//! executable pipeline is proved to return exactly what they describe.

use vstd::prelude::*;
use vstd::string::StringSliceAdditionalSpecFns;

pub mod num;
pub mod render;
pub mod parse;
pub mod tokenize;

use crate::tokenize::{Span, Token, TokenKind, TokenizeErrorKind};

verus! {

/// A parsed struct definition.
#[derive(Debug, PartialEq)]
pub struct Struct {
    /// The name of the struct.
    pub name: Vec<u8>,
    /// The fields of the struct, in declaration order.
    pub fields: Vec<Field>,
}

/// A struct field.
#[derive(Debug, PartialEq)]
pub struct Field {
    /// Name of the struct field.
    pub name: Vec<u8>,
    /// Type of the struct field.
    pub ty: Ty,
}

/// A type.
#[derive(Debug, PartialEq)]
pub enum Ty {
    /// A type named by an identifier.
    Ident(Vec<u8>),
    /// A fixed-size array type.
    Array(Array),
}

/// An array type `[Type; N]`.
#[derive(Debug, PartialEq)]
pub struct Array {
    /// The type of the elements.
    pub ty: Box<Ty>,
    /// The length of the array.
    pub len: u64,
}

/// The mathematical value of a parsed struct definition.
#[verifier::ext_equal]
pub struct StructV {
    /// The name of the struct.
    pub name: Seq<u8>,
    /// The fields, in declaration order.
    pub fields: Seq<FieldV>,
}

/// The mathematical value of a struct field.
#[verifier::ext_equal]
pub struct FieldV {
    /// Name of the field.
    pub name: Seq<u8>,
    /// Type of the field.
    pub ty: TyV,
}

/// The mathematical value of a type.
#[verifier::ext_equal]
pub enum TyV {
    /// A type named by an identifier.
    Ident {
        /// The identifier's text.
        name: Seq<u8>,
    },
    /// A fixed-size array type.
    Array {
        /// The element type.
        elem: Box<TyV>,
        /// The array length.
        len: u64,
    },
}

/// The value a [`Ty`] stands for.
pub open spec fn view_ty(t: Ty) -> TyV
    decreases t,
{
    match t {
        Ty::Ident(name) => TyV::Ident { name: name@ },
        Ty::Array(a) => TyV::Array { elem: Box::new(view_ty(*a.ty)), len: a.len },
    }
}

/// The value a [`Field`] stands for.
pub open spec fn view_field(f: Field) -> FieldV {
    FieldV { name: f.name@, ty: view_ty(f.ty) }
}

/// The value a [`Struct`] stands for.
pub open spec fn view_struct(s: Struct) -> StructV {
    StructV { name: s.name@, fields: s.fields@.map_values(|f: Field| view_field(f)) }
}

/// Kind of failure of a numeric conversion.
#[derive(Clone, Copy, PartialEq, Eq, Structural, Debug)]
pub enum NumParseErrorKind {
    /// A byte of the literal is not a decimal digit.
    InvalidDigit,
    /// The literal's value does not fit in an unsigned 64-bit integer.
    PosOverflow,
}

/// Error that can happen while parsing a struct.
#[derive(Clone, Copy, PartialEq, Eq, Structural, Debug)]
pub struct StructParseError {
    /// The byte range of the offending input.
    pub span: Span,
    /// What went wrong.
    pub kind: StructParseErrorKind,
}

/// Kind of error that can happen while parsing a struct.
#[derive(Clone, Copy, PartialEq, Eq, Structural, Debug)]
pub enum StructParseErrorKind {
    /// Tokenize error.
    Tokenize(TokenizeErrorKind),
    /// Unexpected end of the token stream.
    UnexpectedEnd,
    /// Unexpected token.
    UnexpectedTok(TokenKind),
    /// The array length literal failed numeric conversion.
    NumParse(NumParseErrorKind),
}

/// The error reported when the token stream ends where a token was required.
pub open spec fn err_end() -> StructParseError {
    StructParseError { span: Span { start: 0, end: 0 }, kind: StructParseErrorKind::UnexpectedEnd }
}

/// The error reported at a token of the wrong kind.
pub open spec fn err_unexpected(tok: Token) -> StructParseError {
    StructParseError { span: tok.span, kind: StructParseErrorKind::UnexpectedTok(tok.kind) }
}

impl StructParseError {
    /// The error reported at a token of the wrong kind.
    pub fn unexpected(tok: Token) -> (r: Self)
        ensures
            r == err_unexpected(tok),
    {
        Self { span: tok.span, kind: StructParseErrorKind::UnexpectedTok(tok.kind) }
    }
}

/// The struct definition (or error) described by the source bytes `src`:
/// the outcome of tokenizing `src` and parsing the resulting tokens.
pub open spec fn spec_parse(src: Seq<u8>) -> Result<StructV, StructParseError> {
    match tokenize::spec_tokenize(src) {
        Ok(toks) => parse::spec_parse_struct(src, toks),
        Err(e) => Err(
            StructParseError { span: e.span, kind: StructParseErrorKind::Tokenize(e.kind) },
        ),
    }
}

/// The view of an executable parse result.
pub open spec fn parse_result_view(r: Result<Struct, StructParseError>) -> Result<
    StructV,
    StructParseError,
> {
    match r {
        Ok(s) => Ok(view_struct(s)),
        Err(e) => Err(e),
    }
}

impl Struct {
    /// Parse a struct definition from a string.
    ///
    /// Returns exactly the value that [`spec_parse`] describes for the
    /// string's bytes: the parsed struct, or the first error met, located
    /// by a byte span into `input`.
    pub fn parse(input: &str) -> (r: Result<Struct, StructParseError>)
        ensures
            parse_result_view(r) == spec_parse(input.spec_bytes()),
    {
        match tokenize::tokenize(input) {
            Ok(tokens) => {
                let n_bytes = input.as_bytes().len();
                proof {
                    assert(n_bytes == input.spec_bytes().len());
                    tokenize::lemma_tokenize_spans_wf(input.spec_bytes());
                }
                parse::parse_struct(input, tokens.as_slice())
            },
            Err(e) => Err(
                StructParseError { span: e.span, kind: StructParseErrorKind::Tokenize(e.kind) },
            ),
        }
    }
}

} // verus!
