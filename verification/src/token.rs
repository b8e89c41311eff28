//! Tokens of the stack language: the tagged kinds, their payload-free
//! classification, and the token itself with its source span.

use vstd::prelude::*;
use crate::span::Span;

verus! {

/// A token kind together with its payload. `Word` is the fallback for any
/// textual atom that is not a keyword, a boolean or a numeric literal.
/// `Macro` and `Incl` are the two preprocessor directives; they never
/// survive preprocessing.
#[derive(Clone, PartialEq, Eq, Debug)]
pub enum Tokens {
    Str(String),
    Int(i64),
    Bool(bool),
    Word(String),
    Macro,
    Incl,
    Proc,
    Do,
    End,
}

/// The payload-free classification of a token, used by diagnostics such as
/// `InvalidToken { expected, got }`.
#[derive(Clone, Copy, PartialEq, Eq, Structural, Debug)]
pub enum TokenKind {
    Str,
    Int,
    Bool,
    Word,
    Macro,
    Incl,
    Proc,
    Do,
    End,
}

/// A token: a kind with payload, and the span it was lexed from.
#[derive(Clone, PartialEq, Eq, Debug)]
pub struct Token {
    pub kind: Tokens,
    pub span: Span,
}

/// The mathematical model of a token kind: payload strings become
/// character sequences, machine integers become mathematical integers.
pub enum TokensV {
    Str(Seq<char>),
    Int(int),
    Bool(bool),
    Word(Seq<char>),
    Macro,
    Incl,
    Proc,
    Do,
    End,
}

/// The mathematical model of a token.
pub struct TokenV {
    pub kind: TokensV,
    pub span: Span,
}

impl View for Tokens {
    type V = TokensV;

    open spec fn view(&self) -> TokensV {
        match self {
            Tokens::Str(s) => TokensV::Str(s@),
            Tokens::Int(v) => TokensV::Int(*v as int),
            Tokens::Bool(b) => TokensV::Bool(*b),
            Tokens::Word(w) => TokensV::Word(w@),
            Tokens::Macro => TokensV::Macro,
            Tokens::Incl => TokensV::Incl,
            Tokens::Proc => TokensV::Proc,
            Tokens::Do => TokensV::Do,
            Tokens::End => TokensV::End,
        }
    }
}

impl View for Token {
    type V = TokenV;

    open spec fn view(&self) -> TokenV {
        TokenV { kind: self.kind@, span: self.span }
    }
}

/// The model of a whole token sequence.
pub open spec fn views(ts: Seq<Token>) -> Seq<TokenV> {
    ts.map(|i: int, t: Token| t@)
}

/// The classification of a modelled token kind.
pub open spec fn kind_of(t: TokensV) -> TokenKind {
    match t {
        TokensV::Str(_) => TokenKind::Str,
        TokensV::Int(_) => TokenKind::Int,
        TokensV::Bool(_) => TokenKind::Bool,
        TokensV::Word(_) => TokenKind::Word,
        TokensV::Macro => TokenKind::Macro,
        TokensV::Incl => TokenKind::Incl,
        TokensV::Proc => TokenKind::Proc,
        TokensV::Do => TokenKind::Do,
        TokensV::End => TokenKind::End,
    }
}

/// The short display text of each token kind. The directive that splices
/// another file in is shown abbreviated as `incl`.
pub open spec fn kind_text(k: TokenKind) -> Seq<char> {
    match k {
        TokenKind::Str => seq!['<', 's', 't', 'r', '>'],
        TokenKind::Int => seq!['<', 'i', 'n', 't', '>'],
        TokenKind::Bool => seq!['<', 'b', 'o', 'o', 'l', '>'],
        TokenKind::Word => seq!['<', 'w', 'o', 'r', 'd', '>'],
        TokenKind::Macro => seq!['m', 'a', 'c', 'r', 'o'],
        TokenKind::Incl => seq!['i', 'n', 'c', 'l'],
        TokenKind::Proc => seq!['p', 'r', 'o', 'c'],
        TokenKind::Do => seq!['d', 'o'],
        TokenKind::End => seq!['e', 'n', 'd'],
    }
}

impl Token {
    pub fn new(kind: Tokens, span: Span) -> (t: Token)
        ensures
            t == (Token { kind, span }),
    {
        Token { kind, span }
    }

    /// The display text of this token's kind.
    pub fn to_str(&self) -> (r: &'static str)
        ensures
            r@ == kind_text(kind_of(self.kind@)),
    {
        self.kind.to_str()
    }

    /// A structural copy: the duplicate has the same model as the original.
    pub fn duplicate(&self) -> (t: Token)
        ensures
            t@ == self@,
    {
        Token { kind: self.kind.duplicate(), span: self.span }
    }
}

impl Tokens {
    /// Strips the payload, leaving the classification.
    pub fn to_kind(&self) -> (k: TokenKind)
        ensures
            k == kind_of(self@),
    {
        match self {
            Tokens::Str(_) => TokenKind::Str,
            Tokens::Int(_) => TokenKind::Int,
            Tokens::Bool(_) => TokenKind::Bool,
            Tokens::Word(_) => TokenKind::Word,
            Tokens::Macro => TokenKind::Macro,
            Tokens::Incl => TokenKind::Incl,
            Tokens::Proc => TokenKind::Proc,
            Tokens::Do => TokenKind::Do,
            Tokens::End => TokenKind::End,
        }
    }

    /// The display text of this kind.
    pub fn to_str(&self) -> (r: &'static str)
        ensures
            r@ == kind_text(kind_of(self@)),
    {
        self.to_kind().to_str()
    }

    /// A structural copy: the duplicate has the same model as the original.
    pub fn duplicate(&self) -> (t: Tokens)
        ensures
            t@ == self@,
    {
        match self {
            Tokens::Str(s) => Tokens::Str(s.clone()),
            Tokens::Int(v) => Tokens::Int(*v),
            Tokens::Bool(b) => Tokens::Bool(*b),
            Tokens::Word(w) => Tokens::Word(w.clone()),
            Tokens::Macro => Tokens::Macro,
            Tokens::Incl => Tokens::Incl,
            Tokens::Proc => Tokens::Proc,
            Tokens::Do => Tokens::Do,
            Tokens::End => Tokens::End,
        }
    }
}

impl TokenKind {
    pub fn to_str(&self) -> (r: &'static str)
        ensures
            r@ == kind_text(*self),
    {
        proof {
            reveal_strlit("<str>");
            reveal_strlit("<int>");
            reveal_strlit("<bool>");
            reveal_strlit("<word>");
            reveal_strlit("macro");
            reveal_strlit("incl");
            reveal_strlit("proc");
            reveal_strlit("do");
            reveal_strlit("end");
        }
        let r: &'static str = match self {
            TokenKind::Str => "<str>",
            TokenKind::Int => "<int>",
            TokenKind::Bool => "<bool>",
            TokenKind::Word => "<word>",
            TokenKind::Macro => "macro",
            TokenKind::Incl => "incl",
            TokenKind::Proc => "proc",
            TokenKind::Do => "do",
            TokenKind::End => "end",
        };
        proof {
            assert(r@ =~= kind_text(*self));
        }
        r
    }
}

} // verus!
