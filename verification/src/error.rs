//! Errors of the lexer and the preprocessor, each carried with the span of
//! the text or token that raised it.

use vstd::prelude::*;
use crate::span::Span;
use crate::token::TokenKind;

verus! {

/// Every failure either stage can report.
///
/// The lexer raises `UnexpectedEOF`, `UnclosedString`, `EmptyString` and
/// `IntOverflow`; the preprocessor raises the rest. `UndefinedMacro` is
/// reserved for later stages that assert a word to be a macro; this crate
/// never raises it itself. `CircularIncl` reports a cycle among spliced
/// files or among macro expansions; `RecursionLimit` reports that nesting
/// ran past the fixed depth bound.
#[derive(Clone, PartialEq, Eq, Debug)]
pub enum Errors {
    UnexpectedEOF,
    UnclosedString,
    EmptyString,
    IntOverflow,
    InvalidToken { expected: TokenKind, got: TokenKind },
    UndefinedMacro(String),
    DuplicateMacro(String),
    CircularIncl(String),
    FileError(String),
    RecursionLimit,
}

/// An error kind together with the span it points at.
#[derive(Clone, PartialEq, Eq, Debug)]
pub struct Error {
    pub kind: Errors,
    pub span: Span,
}

/// The mathematical model of an error kind.
pub enum ErrorsV {
    UnexpectedEOF,
    UnclosedString,
    EmptyString,
    IntOverflow,
    InvalidToken { expected: TokenKind, got: TokenKind },
    UndefinedMacro(Seq<char>),
    DuplicateMacro(Seq<char>),
    CircularIncl(Seq<char>),
    FileError(Seq<char>),
    RecursionLimit,
}

/// The mathematical model of an error.
pub struct ErrorV {
    pub kind: ErrorsV,
    pub span: Span,
}

impl View for Errors {
    type V = ErrorsV;

    open spec fn view(&self) -> ErrorsV {
        match self {
            Errors::UnexpectedEOF => ErrorsV::UnexpectedEOF,
            Errors::UnclosedString => ErrorsV::UnclosedString,
            Errors::EmptyString => ErrorsV::EmptyString,
            Errors::IntOverflow => ErrorsV::IntOverflow,
            Errors::InvalidToken { expected, got } => ErrorsV::InvalidToken {
                expected: *expected,
                got: *got,
            },
            Errors::UndefinedMacro(n) => ErrorsV::UndefinedMacro(n@),
            Errors::DuplicateMacro(n) => ErrorsV::DuplicateMacro(n@),
            Errors::CircularIncl(p) => ErrorsV::CircularIncl(p@),
            Errors::FileError(p) => ErrorsV::FileError(p@),
            Errors::RecursionLimit => ErrorsV::RecursionLimit,
        }
    }
}

impl View for Error {
    type V = ErrorV;

    open spec fn view(&self) -> ErrorV {
        ErrorV { kind: self.kind@, span: self.span }
    }
}

/// The model of a whole error sequence.
pub open spec fn error_views(es: Seq<Error>) -> Seq<ErrorV> {
    es.map(|i: int, e: Error| e@)
}

impl Errors {
    /// A structural copy: the duplicate has the same model as the original.
    pub fn duplicate(&self) -> (e: Errors)
        ensures
            e@ == self@,
    {
        match self {
            Errors::UnexpectedEOF => Errors::UnexpectedEOF,
            Errors::UnclosedString => Errors::UnclosedString,
            Errors::EmptyString => Errors::EmptyString,
            Errors::IntOverflow => Errors::IntOverflow,
            Errors::InvalidToken { expected, got } => Errors::InvalidToken {
                expected: *expected,
                got: *got,
            },
            Errors::UndefinedMacro(n) => Errors::UndefinedMacro(n.clone()),
            Errors::DuplicateMacro(n) => Errors::DuplicateMacro(n.clone()),
            Errors::CircularIncl(p) => Errors::CircularIncl(p.clone()),
            Errors::FileError(p) => Errors::FileError(p.clone()),
            Errors::RecursionLimit => Errors::RecursionLimit,
        }
    }
}

impl Error {
    pub fn new(kind: Errors, span: Span) -> (e: Error)
        ensures
            e@ == (ErrorV { kind: kind@, span }),
    {
        Error { kind, span }
    }
}

} // verus!
