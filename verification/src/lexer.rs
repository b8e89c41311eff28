//! The lexer: a single forward pass that turns source text into tokens.
//!
//! The behaviour is pinned down by a functional model over the source's
//! character sequence: `spec_lex` says, for every source and start offset,
//! exactly which tokens and which lexical errors come out and with which
//! spans. The executable `Lexer` is proved to compute that model.

use vstd::prelude::*;
use crate::span::Span;
use crate::token::{Token, Tokens, TokenV, TokensV, views};
use crate::error::{Error, Errors, ErrorV, ErrorsV, error_views};

verus! {

// ------------------------------------------------------------------
// Character classes and keywords
// ------------------------------------------------------------------

/// The whitespace characters the lexer skips.
pub open spec fn is_ws(c: char) -> bool {
    c == ' ' || c == '\n' || c == '\r'
}

/// ASCII decimal digits.
pub open spec fn is_digit(c: char) -> bool {
    48 <= c as int && c as int <= 57
}

/// The numeric value of a digit character.
pub open spec fn digit_val(c: char) -> int {
    c as int - 48
}

pub open spec fn all_digits(w: Seq<char>) -> bool {
    forall|j: int| 0 <= j < w.len() ==> is_digit(w[j])
}

/// The value of a digit string read in decimal, most significant first.
pub open spec fn word_val(w: Seq<char>) -> int
    decreases w.len(),
{
    if w.len() == 0 {
        0
    } else {
        word_val(w.drop_last()) * 10 + digit_val(w.last())
    }
}

pub open spec fn kw_true() -> Seq<char> {
    seq!['t', 'r', 'u', 'e']
}

pub open spec fn kw_false() -> Seq<char> {
    seq!['f', 'a', 'l', 's', 'e']
}

pub open spec fn kw_macro() -> Seq<char> {
    seq!['m', 'a', 'c', 'r', 'o']
}

/// The keyword of the file-splicing directive.
pub open spec fn kw_incl() -> Seq<char> {
    seq!['i', 'n', 'c', 'l', 'u', 'd', 'e']
}

pub open spec fn kw_proc() -> Seq<char> {
    seq!['p', 'r', 'o', 'c']
}

pub open spec fn kw_do() -> Seq<char> {
    seq!['d', 'o']
}

pub open spec fn kw_end() -> Seq<char> {
    seq!['e', 'n', 'd']
}

/// Keyword lookup for a non-numeric word; any other word is a `Word` atom.
pub open spec fn classify_word(w: Seq<char>) -> TokensV {
    if w == kw_true() {
        TokensV::Bool(true)
    } else if w == kw_false() {
        TokensV::Bool(false)
    } else if w == kw_macro() {
        TokensV::Macro
    } else if w == kw_incl() {
        TokensV::Incl
    } else if w == kw_proc() {
        TokensV::Proc
    } else if w == kw_do() {
        TokensV::Do
    } else if w == kw_end() {
        TokensV::End
    } else {
        TokensV::Word(w)
    }
}

/// What a maximal word lexes to: a 64-bit integer when it is all digits
/// and in range, an overflow error when all digits but out of range, and
/// otherwise the keyword table's answer.
pub open spec fn word_token(w: Seq<char>) -> Result<TokensV, ErrorsV> {
    if all_digits(w) {
        if word_val(w) <= i64::MAX {
            Ok(TokensV::Int(word_val(w)))
        } else {
            Err(ErrorsV::IntOverflow)
        }
    } else {
        Ok(classify_word(w))
    }
}

// ------------------------------------------------------------------
// Scanning positions
// ------------------------------------------------------------------

/// The first offset at or after `i` holding a non-whitespace character,
/// or the length of the source.
pub open spec fn skip_ws_end(src: Seq<char>, i: int) -> int
    decreases src.len() - i,
    when 0 <= i <= src.len()
{
    if i >= src.len() {
        i
    } else if is_ws(src[i]) {
        skip_ws_end(src, i + 1)
    } else {
        i
    }
}

/// The first offset at or after `i` holding whitespace, or the length of
/// the source: the exclusive end of the maximal word starting at `i`.
pub open spec fn word_end(src: Seq<char>, i: int) -> int
    decreases src.len() - i,
    when 0 <= i <= src.len()
{
    if i >= src.len() {
        i
    } else if is_ws(src[i]) {
        i
    } else {
        word_end(src, i + 1)
    }
}

/// What an escape sequence `\c` denotes.
pub open spec fn esc(c: char) -> char {
    if c == 'n' {
        '\n'
    } else if c == 'r' {
        '\r'
    } else if c == 't' {
        '\t'
    } else {
        c
    }
}

/// The result of scanning a string literal's body from just after the
/// opening quote: either the decoded text with the offset just past the
/// closing quote, or the end of input came first.
pub enum StrScan {
    Closed { text: Seq<char>, end: int },
    Unclosed,
}

/// Scans a string literal body starting at `i` (just after the opening
/// quote): characters accumulate until an unescaped closing quote.
pub open spec fn scan_str(src: Seq<char>, i: int) -> StrScan
    decreases src.len() - i,
    when 0 <= i <= src.len()
{
    if i >= src.len() {
        StrScan::Unclosed
    } else if src[i] == '"' {
        StrScan::Closed { text: Seq::empty(), end: i + 1 }
    } else if src[i] == '\\' {
        if i + 1 >= src.len() {
            StrScan::Unclosed
        } else {
            match scan_str(src, i + 2) {
                StrScan::Closed { text, end } => StrScan::Closed {
                    text: seq![esc(src[i + 1])] + text,
                    end,
                },
                StrScan::Unclosed => StrScan::Unclosed,
            }
        }
    } else {
        match scan_str(src, i + 1) {
            StrScan::Closed { text, end } => StrScan::Closed { text: seq![src[i]] + text, end },
            StrScan::Unclosed => StrScan::Unclosed,
        }
    }
}

// ------------------------------------------------------------------
// One lexing step and the whole pass
// ------------------------------------------------------------------

/// The outcome of lexing one token at a non-whitespace offset: a token, or
/// a recoverable error; `next` is where lexing resumes either way.
pub enum LexStep {
    Tok { t: TokenV, next: int },
    Fail { e: ErrorV, next: int },
}

/// Lexes one token at offset `j`, which must hold a non-whitespace
/// character. A `"` opens a string literal; anything else starts a word.
pub open spec fn lex_step(src: Seq<char>, j: int) -> LexStep {
    if src[j] == '"' {
        match scan_str(src, j + 1) {
            StrScan::Closed { text, end } => {
                if text.len() == 0 {
                    LexStep::Fail {
                        e: ErrorV {
                            kind: ErrorsV::EmptyString,
                            span: Span { start: j as usize, end: end as usize },
                        },
                        next: end,
                    }
                } else {
                    LexStep::Tok {
                        t: TokenV {
                            kind: TokensV::Str(text),
                            span: Span { start: j as usize, end: end as usize },
                        },
                        next: end,
                    }
                }
            },
            StrScan::Unclosed => LexStep::Fail {
                e: ErrorV {
                    kind: ErrorsV::UnclosedString,
                    span: Span { start: j as usize, end: src.len() as usize },
                },
                next: src.len() as int,
            },
        }
    } else {
        let e = word_end(src, j);
        let w = src.subrange(j, e);
        match word_token(w) {
            Ok(k) => LexStep::Tok {
                t: TokenV { kind: k, span: Span { start: j as usize, end: e as usize } },
                next: e,
            },
            Err(err) => LexStep::Fail {
                e: ErrorV { kind: err, span: Span { start: j as usize, end: e as usize } },
                next: e,
            },
        }
    }
}

/// The whole pass from offset `i`: the ordered tokens and the ordered
/// recoverable errors. Lexing never stops at an error; it resumes at the
/// error's end, so the result is complete for the rest of the source.
pub open spec fn spec_lex(src: Seq<char>, i: int) -> (Seq<TokenV>, Seq<ErrorV>)
    decreases src.len() - i,
    when 0 <= i <= src.len()
    via spec_lex_decreases
{
    let j = skip_ws_end(src, i);
    if j >= src.len() {
        (Seq::empty(), Seq::empty())
    } else {
        match lex_step(src, j) {
            LexStep::Tok { t, next } => {
                let (ts, es) = spec_lex(src, next);
                (seq![t] + ts, es)
            },
            LexStep::Fail { e, next } => {
                let (ts, es) = spec_lex(src, next);
                (ts, seq![e] + es)
            },
        }
    }
}

#[via_fn]
proof fn spec_lex_decreases(src: Seq<char>, i: int) {
    lemma_skip_ws_end_bounds(src, i);
    let j = skip_ws_end(src, i);
    if j < src.len() {
        lemma_lex_step_bounds(src, j);
    }
}

// ------------------------------------------------------------------
// Bounds lemmas for the scanning functions
// ------------------------------------------------------------------

pub proof fn lemma_skip_ws_end_bounds(src: Seq<char>, i: int)
    requires
        0 <= i <= src.len(),
    ensures
        i <= skip_ws_end(src, i) <= src.len(),
        skip_ws_end(src, i) < src.len() ==> !is_ws(src[skip_ws_end(src, i)]),
        forall|k: int| i <= k < skip_ws_end(src, i) ==> is_ws(src[k]),
    decreases src.len() - i,
{
    if i < src.len() && is_ws(src[i]) {
        lemma_skip_ws_end_bounds(src, i + 1);
    }
}

pub proof fn lemma_word_end_bounds(src: Seq<char>, i: int)
    requires
        0 <= i <= src.len(),
    ensures
        i <= word_end(src, i) <= src.len(),
        i < src.len() && !is_ws(src[i]) ==> word_end(src, i) > i,
        forall|k: int| i <= k < word_end(src, i) ==> !is_ws(src[k]),
        word_end(src, i) < src.len() ==> is_ws(src[word_end(src, i)]),
    decreases src.len() - i,
{
    if i < src.len() && !is_ws(src[i]) {
        lemma_word_end_bounds(src, i + 1);
    }
}

pub proof fn lemma_scan_str_bounds(src: Seq<char>, i: int)
    requires
        0 <= i <= src.len(),
    ensures
        scan_str(src, i) matches StrScan::Closed { text, end } ==> i < end <= src.len(),
    decreases src.len() - i,
{
    if i < src.len() {
        if src[i] == '"' {
        } else if src[i] == '\\' {
            if i + 2 <= src.len() {
                lemma_scan_str_bounds(src, i + 2);
            }
        } else {
            lemma_scan_str_bounds(src, i + 1);
        }
    }
}

pub proof fn lemma_lex_step_bounds(src: Seq<char>, j: int)
    requires
        0 <= j < src.len(),
        !is_ws(src[j]),
    ensures
        lex_step(src, j) matches LexStep::Tok { t, next } ==> j < next <= src.len(),
        lex_step(src, j) matches LexStep::Fail { e, next } ==> j < next <= src.len(),
{
    if src[j] == '"' {
        lemma_scan_str_bounds(src, j + 1);
    } else {
        lemma_word_end_bounds(src, j);
    }
}

/// Skipping whitespace twice skips no further, and lexing from a position
/// or from its whitespace-skipped position is the same.
pub proof fn lemma_skip_ws_idempotent(src: Seq<char>, i: int)
    requires
        0 <= i <= src.len(),
    ensures
        skip_ws_end(src, skip_ws_end(src, i)) == skip_ws_end(src, i),
        spec_lex(src, skip_ws_end(src, i)) == spec_lex(src, i),
{
    lemma_skip_ws_end_bounds(src, i);
}

// ------------------------------------------------------------------
// Arithmetic lemmas for decimal values
// ------------------------------------------------------------------

pub proof fn lemma_word_val_nonneg(w: Seq<char>)
    requires
        all_digits(w),
    ensures
        word_val(w) >= 0,
    decreases w.len(),
{
    if w.len() > 0 {
        assert(all_digits(w.drop_last()));
        lemma_word_val_nonneg(w.drop_last());
    }
}

/// Appending one digit multiplies the value by ten and adds the digit.
pub proof fn lemma_word_val_take_step(w: Seq<char>, j: int)
    requires
        0 <= j < w.len(),
    ensures
        word_val(w.take(j + 1)) == word_val(w.take(j)) * 10 + digit_val(w[j]),
{
    assert(w.take(j + 1).drop_last() =~= w.take(j));
    assert(w.take(j + 1).last() == w[j]);
}

/// The value of a digit string bounds the value of each of its prefixes.
pub proof fn lemma_word_val_prefix(w: Seq<char>, j: int)
    requires
        all_digits(w),
        0 <= j <= w.len(),
    ensures
        word_val(w.take(j)) <= word_val(w),
    decreases w.len() - j,
{
    if j < w.len() {
        assert(all_digits(w.take(j)));
        lemma_word_val_nonneg(w.take(j));
        lemma_word_val_take_step(w, j);
        assert(word_val(w.take(j)) <= word_val(w.take(j + 1)));
        lemma_word_val_prefix(w, j + 1);
    } else {
        assert(w.take(j) =~= w);
    }
}

// ------------------------------------------------------------------
// The executable lexer
// ------------------------------------------------------------------

/// An explicit-cursor lexer over the source's character sequence.
/// `cursor` is the next character to read; `span_start` marks where the
/// token currently being read began, so `span()` can hand out tight spans.
pub struct Lexer {
    pub contents: Vec<char>,
    pub cursor: usize,
    pub span_start: usize,
}

impl Lexer {
    /// The lexer's internal invariant: the cursor stays inside the source
    /// and the open span never runs backwards.
    pub open spec fn wf(self) -> bool {
        self.span_start <= self.cursor && self.cursor <= self.contents.len()
    }

    /// Builds a lexer over the given source text, positioned at the start.
    #[verifier::loop_isolation(false)]
    pub fn new(contents: &str) -> (lx: Lexer)
        ensures
            lx.contents@ == contents@,
            lx.cursor == 0,
            lx.span_start == 0,
            lx.wf(),
    {
        let n = contents.unicode_len();
        let mut v: Vec<char> = Vec::new();
        let mut i: usize = 0;
        while i < n
            invariant
                i <= n,
                v@ =~= contents@.take(i as int),
            decreases n - i,
        {
            v.push(contents.get_char(i));
            i = i + 1;
            assert(v@ =~= contents@.take(i as int));
        }
        assert(v@ =~= contents@);
        Lexer { contents: v, cursor: 0, span_start: 0 }
    }

    /// Closes the span that began at `span_start`, returns it, and opens
    /// the next span at the cursor.
    pub fn span(&mut self) -> (s: Span)
        requires
            old(self).wf(),
        ensures
            s == (Span { start: old(self).span_start, end: old(self).cursor }),
            final(self).contents == old(self).contents,
            final(self).cursor == old(self).cursor,
            final(self).span_start == old(self).cursor,
            final(self).wf(),
    {
        let start = self.span_start;
        self.span_start = self.cursor;
        Span::new(start, self.cursor)
    }

    /// Consumes and returns the next character; at end of input the state
    /// is unchanged and the generic end-of-input error is returned.
    pub fn next(&mut self) -> (r: Result<char, Errors>)
        requires
            old(self).wf(),
        ensures
            final(self).contents == old(self).contents,
            final(self).span_start == old(self).span_start,
            final(self).wf(),
            old(self).cursor < old(self).contents@.len() ==> ({
                &&& r matches Ok(c) && c == old(self).contents@[old(self).cursor as int]
                &&& final(self).cursor == old(self).cursor + 1
            }),
            old(self).cursor >= old(self).contents@.len() ==> ({
                &&& r matches Err(e) && e@ == ErrorsV::UnexpectedEOF
                &&& final(self).cursor == old(self).cursor
            }),
    {
        if self.cursor < self.contents.len() {
            let c = self.contents[self.cursor];
            self.cursor = self.cursor + 1;
            Ok(c)
        } else {
            Err(Errors::UnexpectedEOF)
        }
    }

    /// Returns the next character without consuming it.
    pub fn peek(&self) -> (r: Result<char, Errors>)
        requires
            self.wf(),
        ensures
            self.cursor < self.contents@.len() ==> (r matches Ok(c) && c == self.contents@[self.cursor as int]),
            self.cursor >= self.contents@.len() ==> (r matches Err(e) && e@ == ErrorsV::UnexpectedEOF),
    {
        if self.cursor < self.contents.len() {
            Ok(self.contents[self.cursor])
        } else {
            Err(Errors::UnexpectedEOF)
        }
    }

    /// Whether the whole input has been consumed.
    pub fn is_end(&self) -> (b: bool)
        ensures
            b == (self.cursor >= self.contents@.len()),
    {
        self.cursor >= self.contents.len()
    }

    /// Whether the next character exists and is whitespace.
    pub fn is_whitespace(&self) -> (b: bool)
        ensures
            b == (self.cursor < self.contents@.len() && is_ws(self.contents@[self.cursor as int])),
    {
        if self.cursor < self.contents.len() {
            let c = self.contents[self.cursor];
            c == ' ' || c == '\n' || c == '\r'
        } else {
            false
        }
    }

    /// Skips whitespace and opens a fresh span at the first character that
    /// is not whitespace (or at the end of input).
    #[verifier::loop_isolation(false)]
    pub fn skip_whitespace(&mut self)
        requires
            old(self).wf(),
        ensures
            final(self).contents == old(self).contents,
            final(self).cursor == skip_ws_end(old(self).contents@, old(self).cursor as int),
            final(self).span_start == final(self).cursor,
            final(self).wf(),
    {
        let ghost src = self.contents@;
        let ghost i0 = self.cursor as int;
        proof {
            lemma_skip_ws_end_bounds(src, i0);
        }
        while self.is_whitespace()
            invariant
                self.contents == old(self).contents,
                self.span_start == old(self).span_start,
                i0 <= self.cursor as int <= src.len(),
                skip_ws_end(src, self.cursor as int) == skip_ws_end(src, i0),
            decreases src.len() - self.cursor,
        {
            self.cursor = self.cursor + 1;
        }
        let _ = self.span();
    }

    /// Reads the maximal word starting at the cursor and classifies it:
    /// all digits make an integer literal (out-of-range digits are an
    /// overflow error), and otherwise the keyword table decides between a
    /// keyword token and a plain `Word`.
    #[verifier::loop_isolation(false)]
    pub fn read_word(&mut self) -> (r: Result<Token, Errors>)
        requires
            old(self).wf(),
            old(self).span_start == old(self).cursor,
            old(self).cursor < old(self).contents@.len(),
            !is_ws(old(self).contents@[old(self).cursor as int]),
        ensures
            final(self).contents == old(self).contents,
            final(self).cursor == word_end(old(self).contents@, old(self).cursor as int),
            final(self).wf(),
            ({
                let src = old(self).contents@;
                let j = old(self).cursor as int;
                let e = word_end(src, j);
                let w = src.subrange(j, e);
                match word_token(w) {
                    Ok(k) => {
                        &&& r matches Ok(t) && t@ == (TokenV {
                            kind: k,
                            span: Span { start: j as usize, end: e as usize },
                        })
                        &&& final(self).span_start == final(self).cursor
                    },
                    Err(err) => {
                        &&& r matches Err(er) && er@ == err
                        &&& final(self).span_start == old(self).span_start
                    },
                }
            }),
    {
        let ghost src = self.contents@;
        let ghost j = self.cursor as int;
        proof {
            lemma_word_end_bounds(src, j);
        }
        let ghost e = word_end(src, j);

        let mut word: Vec<char> = Vec::new();
        let mut numeric = true;

        while !self.is_end() && !self.is_whitespace()
            invariant
                self.contents == old(self).contents,
                self.span_start == old(self).span_start,
                j <= self.cursor as int <= e,
                word_end(src, self.cursor as int) == e,
                word@ =~= src.subrange(j, self.cursor as int),
                numeric == all_digits(word@),
            decreases src.len() - self.cursor,
        {
            let ch = self.contents[self.cursor];
            let ghost prev = word@;
            self.cursor = self.cursor + 1;
            let digit = is_digit_char(ch);
            if !digit {
                numeric = false;
            }
            word.push(ch);
            proof {
                assert(word@ == prev.push(ch));
                assert(word@ =~= src.subrange(j, self.cursor as int));
                assert(all_digits(word@) <==> (all_digits(prev) && is_digit(ch))) by {
                    if all_digits(prev) && is_digit(ch) {
                        assert forall|q: int| 0 <= q < word@.len() implies is_digit(word@[q]) by {
                            if q < prev.len() {
                                assert(word@[q] == prev[q]);
                            } else {
                                assert(word@[q] == ch);
                            }
                        }
                    }
                    if all_digits(word@) {
                        assert forall|q: int| 0 <= q < prev.len() implies is_digit(prev[q]) by {
                            assert(prev[q] == word@[q]);
                            assert(is_digit(word@[q]));
                        }
                        assert(ch == word@[prev.len() as int]);
                        assert(is_digit(word@[prev.len() as int]));
                    }
                }
                lemma_word_end_bounds(src, self.cursor as int);
            }
        }
        proof {
            assert(self.cursor as int == e);
        }
        let ghost w = src.subrange(j, e);
        assert(word@ == w);

        if numeric {
            match parse_i64(&word) {
                Ok(value) => {
                    let span = self.span();
                    Ok(Token::new(Tokens::Int(value), span))
                },
                Err(err) => Err(err),
            }
        } else {
            let kind = classify(&word);
            let span = self.span();
            Ok(Token::new(kind, span))
        }
    }

    /// Reads a string literal starting at the opening quote under the
    /// cursor. `\n`, `\r` and `\t` escapes are decoded; any other escaped
    /// character stands for itself. An empty literal is an error; an input
    /// that ends before the closing quote reports the generic end-of-input
    /// error (the caller turns it into `UnclosedString`).
    #[verifier::loop_isolation(false)]
    pub fn read_str(&mut self) -> (r: Result<Token, Errors>)
        requires
            old(self).wf(),
            old(self).span_start == old(self).cursor,
            old(self).cursor < old(self).contents@.len(),
            old(self).contents@[old(self).cursor as int] == '"',
        ensures
            final(self).contents == old(self).contents,
            final(self).wf(),
            ({
                let src = old(self).contents@;
                let j = old(self).cursor as int;
                match scan_str(src, j + 1) {
                    StrScan::Closed { text, end } => {
                        &&& final(self).cursor == end
                        &&& if text.len() == 0 {
                            &&& r matches Err(er) && er@ == ErrorsV::EmptyString
                            &&& final(self).span_start == old(self).span_start
                        } else {
                            &&& r matches Ok(t) && t@ == (TokenV {
                                kind: TokensV::Str(text),
                                span: Span { start: j as usize, end: end as usize },
                            })
                            &&& final(self).span_start == final(self).cursor
                        }
                    },
                    StrScan::Unclosed => {
                        &&& r matches Err(er) && er@ == ErrorsV::UnexpectedEOF
                        &&& final(self).cursor == src.len()
                        &&& final(self).span_start == old(self).span_start
                    },
                }
            }),
    {
        let ghost src = self.contents@;
        let ghost j = self.cursor as int;
        proof {
            lemma_scan_str_bounds(src, j + 1);
        }

        let mut text: Vec<char> = Vec::new();
        // Consume the opening quote; it is part of the literal's span.
        self.cursor = self.cursor + 1;

        loop
            invariant
                self.contents == old(self).contents,
                self.span_start == old(self).span_start,
                j + 1 <= self.cursor as int <= src.len(),
                scan_str_shifts(src, j + 1, self.cursor as int, text@),
            decreases src.len() - self.cursor,
        {
            if self.cursor >= self.contents.len() {
                assert(scan_str(src, self.cursor as int) is Unclosed);
                return Err(Errors::UnexpectedEOF);
            }
            let ch = self.contents[self.cursor];
            self.cursor = self.cursor + 1;
            if ch == '"' {
                proof {
                    let c = self.cursor as int;
                    assert(scan_str(src, c - 1) == (StrScan::Closed {
                        text: Seq::<char>::empty(),
                        end: c,
                    }));
                    assert(text@ + Seq::<char>::empty() =~= text@);
                    assert(scan_str(src, j + 1) == (StrScan::Closed {
                        text: text@,
                        end: self.cursor as int,
                    }));
                }
                if text.len() == 0 {
                    return Err(Errors::EmptyString);
                }
                let s = chars_to_string(&text);
                let span = self.span();
                return Ok(Token::new(Tokens::Str(s), span));
            } else if ch == '\\' {
                if self.cursor >= self.contents.len() {
                    assert(scan_str(src, self.cursor as int - 1) is Unclosed);
                    return Err(Errors::UnexpectedEOF);
                }
                let esc_ch = self.contents[self.cursor];
                self.cursor = self.cursor + 1;
                let decoded = if esc_ch == 'n' {
                    '\n'
                } else if esc_ch == 'r' {
                    '\r'
                } else if esc_ch == 't' {
                    '\t'
                } else {
                    esc_ch
                };
                assert(decoded == esc(esc_ch));
                let ghost prev = text@;
                text.push(decoded);
                proof {
                    assert(text@.drop_last() =~= prev);
                    lemma_scan_str_shift_esc(src, j + 1, self.cursor as int - 2, text@);
                }
            } else {
                let ghost prev = text@;
                text.push(ch);
                proof {
                    assert(text@.drop_last() =~= prev);
                    lemma_scan_str_shift_plain(src, j + 1, self.cursor as int - 1, text@);
                }
            }
        }
    }

    /// Lexes the single token starting at the cursor, which must not sit
    /// on whitespace; at the end of input the generic end-of-input error
    /// comes back. An unterminated string literal is reported as
    /// `UnclosedString`.
    pub fn next_token(&mut self) -> (r: Result<Token, Errors>)
        requires
            old(self).wf(),
            old(self).span_start == old(self).cursor,
            old(self).cursor < old(self).contents@.len() ==> !is_ws(
                old(self).contents@[old(self).cursor as int],
            ),
        ensures
            final(self).contents == old(self).contents,
            final(self).wf(),
            old(self).cursor >= old(self).contents@.len() ==> ({
                &&& r matches Err(e) && e@ == ErrorsV::UnexpectedEOF
                &&& *final(self) == *old(self)
            }),
            old(self).cursor < old(self).contents@.len() ==> ({
                let src = old(self).contents@;
                let j = old(self).cursor as int;
                match lex_step(src, j) {
                    LexStep::Tok { t, next } => {
                        &&& r matches Ok(tok) && tok@ == t
                        &&& final(self).cursor == next
                        &&& final(self).span_start == next
                    },
                    LexStep::Fail { e, next } => {
                        &&& r matches Err(k) && k@ == e.kind
                        &&& e.span == (Span { start: j as usize, end: next as usize })
                        &&& final(self).cursor == next
                        &&& final(self).span_start == j as usize
                    },
                }
            }),
    {
        if self.cursor >= self.contents.len() {
            return Err(Errors::UnexpectedEOF);
        }
        let ghost src = self.contents@;
        let ghost j = self.cursor as int;
        let c = self.contents[self.cursor];
        if c == '"' {
            proof {
                lemma_scan_str_bounds(src, j + 1);
            }
            match self.read_str() {
                Ok(t) => Ok(t),
                Err(err) => {
                    let remapped = match err {
                        Errors::UnexpectedEOF => Errors::UnclosedString,
                        other => other,
                    };
                    Err(remapped)
                },
            }
        } else {
            self.read_word()
        }
    }

    /// Lexes the whole remaining input. Recovery is best effort: every
    /// lexical error is recorded with its span and lexing resumes after
    /// it. The call returns either the complete token sequence or the
    /// complete error collection, exactly as the model `spec_lex` says.
    #[verifier::loop_isolation(false)]
    pub fn collect(&mut self) -> (r: Result<Vec<Token>, Vec<Error>>)
        requires
            old(self).wf(),
            old(self).span_start == old(self).cursor,
        ensures
            final(self).contents == old(self).contents,
            ({
                let (ts, es) = spec_lex(old(self).contents@, old(self).cursor as int);
                if es.len() == 0 {
                    r matches Ok(v) && views(v@) == ts
                } else {
                    r matches Err(v) && error_views(v@) == es
                }
            }),
    {
        let ghost src = self.contents@;
        let ghost i0 = self.cursor as int;
        let ghost whole = spec_lex(src, i0);

        let mut tokens: Vec<Token> = Vec::new();
        let mut errors: Vec<Error> = Vec::new();

        loop
            invariant
                self.wf(),
                self.contents == old(self).contents,
                self.span_start == self.cursor,
                i0 <= self.cursor as int,
                ({
                    let (ts, es) = spec_lex(src, self.cursor as int);
                    &&& whole.0 == views(tokens@) + ts
                    &&& whole.1 == error_views(errors@) + es
                }),
            decreases src.len() - self.cursor,
        {
            let ghost c_before = self.cursor as int;
            proof {
                lemma_skip_ws_end_bounds(src, c_before);
                lemma_skip_ws_idempotent(src, c_before);
            }
            self.skip_whitespace();

            if self.is_end() {
                proof {
                    let (ts, es) = spec_lex(src, self.cursor as int);
                    assert(ts =~= Seq::<TokenV>::empty());
                    assert(es =~= Seq::<ErrorV>::empty());
                    assert(whole.0 =~= views(tokens@));
                    assert(whole.1 =~= error_views(errors@));
                }
                if errors.len() == 0 {
                    proof {
                        assert(error_views(errors@).len() == 0);
                    }
                    return Ok(tokens);
                } else {
                    proof {
                        assert(error_views(errors@).len() == errors@.len());
                    }
                    return Err(errors);
                }
            }
            let ghost j = self.cursor as int;
            proof {
                lemma_lex_step_bounds(src, j);
            }
            match self.next_token() {
                Ok(token) => {
                    proof {
                        let (ts2, es2) = spec_lex(src, self.cursor as int);
                        assert(spec_lex(src, j).0 == seq![token@] + ts2);
                        assert(spec_lex(src, j).1 == es2);
                        assert(views(tokens@.push(token)) =~= views(tokens@).push(token@));
                        assert(views(tokens@).push(token@) + ts2 =~= views(tokens@) + (seq![
                            token@,
                        ] + ts2));
                    }
                    tokens.push(token);
                },
                Err(error) => {
                    let span = self.span();
                    let e = Error::new(error, span);
                    proof {
                        let (ts2, es2) = spec_lex(src, self.cursor as int);
                        assert(spec_lex(src, j).1 == seq![e@] + es2);
                        assert(spec_lex(src, j).0 == ts2);
                        assert(error_views(errors@.push(e)) =~= error_views(errors@).push(e@));
                        assert(error_views(errors@).push(e@) + es2 =~= error_views(errors@) + (seq![
                            e@,
                        ] + es2));
                    }
                    errors.push(e);
                },
            }
        }
    }
}

/// The loop invariant of `read_str`: the literal body scanned from its
/// start equals the characters decoded so far followed by whatever the
/// scan from the current offset yields.
pub open spec fn scan_str_shifts(src: Seq<char>, start: int, cur: int, acc: Seq<char>) -> bool {
    match scan_str(src, cur) {
        StrScan::Closed { text, end } => scan_str(src, start) == (StrScan::Closed {
            text: acc + text,
            end,
        }),
        StrScan::Unclosed => scan_str(src, start) is Unclosed,
    }
}

proof fn lemma_scan_str_shift_plain(src: Seq<char>, start: int, cur: int, acc: Seq<char>)
    requires
        0 <= cur < src.len(),
        src[cur] != '"',
        src[cur] != '\\',
        acc.len() > 0,
        acc.last() == src[cur],
        scan_str_shifts(src, start, cur, acc.drop_last()),
    ensures
        scan_str_shifts(src, start, cur + 1, acc),
{
    match scan_str(src, cur + 1) {
        StrScan::Closed { text, end } => {
            assert(scan_str(src, cur) == (StrScan::Closed { text: seq![src[cur]] + text, end }));
            assert(acc.drop_last() + (seq![src[cur]] + text) =~= acc + text);
        },
        StrScan::Unclosed => {},
    }
}

proof fn lemma_scan_str_shift_esc(src: Seq<char>, start: int, cur: int, acc: Seq<char>)
    requires
        0 <= cur,
        cur + 1 < src.len(),
        src[cur] == '\\',
        acc.len() > 0,
        acc.last() == esc(src[cur + 1]),
        scan_str_shifts(src, start, cur, acc.drop_last()),
    ensures
        scan_str_shifts(src, start, cur + 2, acc),
{
    match scan_str(src, cur + 2) {
        StrScan::Closed { text, end } => {
            assert(scan_str(src, cur) == (StrScan::Closed {
                text: seq![esc(src[cur + 1])] + text,
                end,
            }));
            assert(acc.drop_last() + (seq![esc(src[cur + 1])] + text) =~= acc + text);
        },
        StrScan::Unclosed => {},
    }
}

/// Parses an all-digit word as a 64-bit signed integer, reporting an
/// overflow error for a literal past the representable range.
#[verifier::loop_isolation(false)]
fn parse_i64(word: &Vec<char>) -> (r: Result<i64, Errors>)
    requires
        all_digits(word@),
    ensures
        word_val(word@) <= i64::MAX ==> (r matches Ok(v) && v as int == word_val(word@)),
        word_val(word@) > i64::MAX ==> (r matches Err(e) && e@ == ErrorsV::IntOverflow),
{
    let mut acc: i64 = 0;
    let mut i: usize = 0;
    while i < word.len()
        invariant
            i <= word@.len(),
            0 <= acc,
            acc as int == word_val(word@.take(i as int)),
        decreases word@.len() - i,
    {
        let ghost w = word@;
        let ghost ii = i as int;
        proof {
            assert(is_digit(w[ii]));
        }
        let d = digit_to_i64(word[i]);
        proof {
            lemma_word_val_take_step(w, ii);
        }
        let step = match acc.checked_mul(10) {
            Some(m) => m.checked_add(d),
            None => None,
        };
        match step {
            Some(next) => {
                acc = next;
            },
            None => {
                proof {
                    assert(word_val(w.take(ii + 1)) > i64::MAX);
                    lemma_word_val_prefix(w, ii + 1);
                }
                return Err(Errors::IntOverflow);
            },
        }
        i = i + 1;
    }
    proof {
        assert(word@.take(i as int) =~= word@);
    }
    Ok(acc)
}

/// Classifies a non-numeric word against the keyword table.
fn classify(word: &Vec<char>) -> (k: Tokens)
    requires
        !all_digits(word@),
    ensures
        k@ == classify_word(word@),
{
    let kind = if word.len() == 4 && word[0] == 't' && word[1] == 'r'
        && word[2] == 'u' && word[3] == 'e' {
        proof { assert(word@ =~= kw_true()); }
        Tokens::Bool(true)
    } else if word.len() == 5 && word[0] == 'f' && word[1] == 'a'
        && word[2] == 'l' && word[3] == 's' && word[4] == 'e' {
        proof { assert(word@ =~= kw_false()); }
        Tokens::Bool(false)
    } else if word.len() == 5 && word[0] == 'm' && word[1] == 'a'
        && word[2] == 'c' && word[3] == 'r' && word[4] == 'o' {
        proof { assert(word@ =~= kw_macro()); }
        Tokens::Macro
    } else if word.len() == 7 && word[0] == 'i' && word[1] == 'n'
        && word[2] == 'c' && word[3] == 'l' && word[4] == 'u'
        && word[5] == 'd' && word[6] == 'e' {
        proof { assert(word@ =~= kw_incl()); }
        Tokens::Incl
    } else if word.len() == 4 && word[0] == 'p' && word[1] == 'r'
        && word[2] == 'o' && word[3] == 'c' {
        proof { assert(word@ =~= kw_proc()); }
        Tokens::Proc
    } else if word.len() == 2 && word[0] == 'd' && word[1] == 'o' {
        proof { assert(word@ =~= kw_do()); }
        Tokens::Do
    } else if word.len() == 3 && word[0] == 'e' && word[1] == 'n'
        && word[2] == 'd' {
        proof { assert(word@ =~= kw_end()); }
        Tokens::End
    } else {
        proof {
            assert(word@ != kw_true());
            assert(word@ != kw_false());
            assert(word@ != kw_macro());
            assert(word@ != kw_incl());
            assert(word@ != kw_proc());
            assert(word@ != kw_do());
            assert(word@ != kw_end());
        }
        Tokens::Word(chars_to_string(word))
    };
    kind
}

/// Decides whether a character is an ASCII decimal digit.
fn is_digit_char(c: char) -> (b: bool)
    ensures
        b == is_digit(c),
{
    match c {
        '0' | '1' | '2' | '3' | '4' | '5' | '6' | '7' | '8' | '9' => true,
        _ => false,
    }
}

/// The numeric value of a digit character.
fn digit_to_i64(c: char) -> (d: i64)
    requires
        is_digit(c),
    ensures
        d as int == digit_val(c),
        0 <= d <= 9,
{
    match c {
        '0' => 0,
        '1' => 1,
        '2' => 2,
        '3' => 3,
        '4' => 4,
        '5' => 5,
        '6' => 6,
        '7' => 7,
        '8' => 8,
        _ => 9,
    }
}

/// Relies on `String::push`: appending one character to the string.
#[verifier::external_body]
fn push_char(s: &mut String, c: char)
    ensures
        final(s)@ == old(s)@ + seq![c],
{
    s.push(c)
}

/// Builds a `String` holding exactly the given characters.
#[verifier::loop_isolation(false)]
pub fn chars_to_string(v: &Vec<char>) -> (s: String)
    ensures
        s@ == v@,
{
    let mut s = String::new();
    let mut i: usize = 0;
    while i < v.len()
        invariant
            i <= v@.len(),
            s@ =~= v@.take(i as int),
        decreases v@.len() - i,
    {
        push_char(&mut s, v[i]);
        i = i + 1;
        assert(s@ =~= v@.take(i as int));
    }
    assert(s@ =~= v@);
    s
}

} // verus!
