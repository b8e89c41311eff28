//! The preprocessor: resolves `macro` definitions and file-splicing
//! directives over a lexed token stream, and hands every other token
//! through unchanged, in order.
//!
//! The behaviour is pinned down by a functional model: `spec_process`
//! says, for every token stream, table state, file table and fuel, exactly
//! which output stream or which error comes out. The executable
//! `Preprocessor` is proved to compute that model.

use vstd::prelude::*;
use crate::span::Span;
use crate::token::{Token, Tokens, TokenV, TokensV, TokenKind, views, kind_of};
use crate::error::{Error, Errors, ErrorV, ErrorsV};
use crate::lexer::{Lexer, spec_lex, chars_to_string};

verus! {

/// Nesting bound for directive resolution: splices within splices and
/// macros expanding macros deeper than this are reported as
/// `RecursionLimit` rather than recursing without bound.
pub const MAX_DEPTH: u64 = 256;

// ------------------------------------------------------------------
// The preprocessor's state, modelled
// ------------------------------------------------------------------

/// The model of the tables one run owns: the macros defined so far and
/// the resolved paths already spliced in.
pub struct PpState {
    pub macros: Map<Seq<char>, Seq<TokenV>>,
    pub incl: Set<Seq<char>>,
}

/// The model of the macro table: later entries shadow earlier ones, but
/// the table invariant keeps names unique, so no shadowing ever happens.
pub open spec fn macros_view(m: Seq<(String, Vec<Token>)>) -> Map<Seq<char>, Seq<TokenV>>
    decreases m.len(),
{
    if m.len() == 0 {
        Map::empty()
    } else {
        macros_view(m.drop_last()).insert(m.last().0@, views(m.last().1@))
    }
}

/// The model of a vector of strings as a set of character sequences.
pub open spec fn strs_set(v: Seq<String>) -> Set<Seq<char>>
    decreases v.len(),
{
    if v.len() == 0 {
        Set::empty()
    } else {
        strs_set(v.drop_last()).insert(v.last()@)
    }
}

/// The model of a vector of strings as a sequence of character sequences,
/// order kept: the active chain of paths being spliced.
pub open spec fn strs_seq(v: Seq<String>) -> Seq<Seq<char>> {
    v.map(|i: int, s: String| s@)
}

/// Looking a path up in the file table takes the first matching entry.
pub open spec fn file_lookup(files: Seq<(String, String)>, p: Seq<char>) -> Option<Seq<char>>
    decreases files.len(),
{
    if files.len() == 0 {
        None
    } else if files[0].0@ == p {
        Some(files[0].1@)
    } else {
        file_lookup(files.drop_first(), p)
    }
}

pub proof fn lemma_strs_set_contains(v: Seq<String>, x: Seq<char>)
    ensures
        strs_set(v).contains(x) <==> exists|k: int| 0 <= k < v.len() && v[k]@ == x,
    decreases v.len(),
{
    if v.len() > 0 {
        lemma_strs_set_contains(v.drop_last(), x);
        if exists|k: int| 0 <= k < v.len() - 1 && v.drop_last()[k]@ == x {
            let k = choose|k: int| 0 <= k < v.len() - 1 && v.drop_last()[k]@ == x;
            assert(v[k]@ == x);
        }
        if x == v.last()@ {
            assert(v[v.len() - 1]@ == x);
        }
        if exists|k: int| 0 <= k < v.len() && v[k]@ == x {
            let k = choose|k: int| 0 <= k < v.len() && v[k]@ == x;
            if k < v.len() - 1 {
                assert(v.drop_last()[k]@ == x);
            }
        }
    }
}

pub proof fn lemma_strs_seq_contains(v: Seq<String>, x: Seq<char>)
    ensures
        strs_seq(v).contains(x) <==> exists|k: int| 0 <= k < v.len() && v[k]@ == x,
{
    if exists|k: int| 0 <= k < v.len() && v[k]@ == x {
        let k = choose|k: int| 0 <= k < v.len() && v[k]@ == x;
        assert(strs_seq(v)[k] == x);
    }
    if strs_seq(v).contains(x) {
        let k = choose|k: int| 0 <= k < strs_seq(v).len() && strs_seq(v)[k] == x;
        assert(v[k]@ == x);
    }
}

/// Appending a string adds its characters to the modelled set.
pub proof fn lemma_strs_set_push(v: Seq<String>, s: String)
    ensures
        strs_set(v.push(s)) == strs_set(v).insert(s@),
{
    assert(v.push(s).drop_last() =~= v);
    assert(v.push(s).last() == s);
}

/// The modelled set only depends on the strings' characters.
pub proof fn lemma_strs_set_from_seq(a: Seq<String>, b: Seq<String>)
    requires
        strs_seq(a) == strs_seq(b),
    ensures
        strs_set(a) == strs_set(b),
{
    assert(strs_seq(a).len() == a.len());
    assert(strs_seq(b).len() == b.len());
    assert forall|x: Seq<char>| strs_set(a).contains(x) == strs_set(b).contains(x) by {
        lemma_strs_set_contains(a, x);
        lemma_strs_set_contains(b, x);
        if exists|k: int| 0 <= k < a.len() && a[k]@ == x {
            let k = choose|k: int| 0 <= k < a.len() && a[k]@ == x;
            assert(strs_seq(a)[k] == a[k]@);
            assert(strs_seq(b)[k] == b[k]@);
            assert(b[k]@ == x);
        }
        if exists|k: int| 0 <= k < b.len() && b[k]@ == x {
            let k = choose|k: int| 0 <= k < b.len() && b[k]@ == x;
            assert(strs_seq(b)[k] == b[k]@);
            assert(strs_seq(a)[k] == a[k]@);
            assert(a[k]@ == x);
        }
    }
    assert(strs_set(a) =~= strs_set(b));
}

/// Whether the names in a macro table are pairwise distinct.
pub open spec fn macros_unique(m: Seq<(String, Vec<Token>)>) -> bool {
    forall|i: int, j: int| 0 <= i < j < m.len() ==> m[i].0@ != m[j].0@
}

pub proof fn lemma_macros_view_contains(m: Seq<(String, Vec<Token>)>, x: Seq<char>)
    ensures
        macros_view(m).contains_key(x) <==> exists|k: int| 0 <= k < m.len() && m[k].0@ == x,
    decreases m.len(),
{
    if m.len() > 0 {
        lemma_macros_view_contains(m.drop_last(), x);
        if exists|k: int| 0 <= k < m.len() - 1 && m.drop_last()[k].0@ == x {
            let k = choose|k: int| 0 <= k < m.len() - 1 && m.drop_last()[k].0@ == x;
            assert(m[k].0@ == x);
        }
        if x == m.last().0@ {
            assert(m[m.len() - 1].0@ == x);
        }
        if exists|k: int| 0 <= k < m.len() && m[k].0@ == x {
            let k = choose|k: int| 0 <= k < m.len() && m[k].0@ == x;
            if k < m.len() - 1 {
                assert(m.drop_last()[k].0@ == x);
            }
        }
    }
}

/// With unique names, the table's model maps each name to its entry.
pub proof fn lemma_macros_view_lookup(m: Seq<(String, Vec<Token>)>, k: int)
    requires
        macros_unique(m),
        0 <= k < m.len(),
    ensures
        macros_view(m).contains_key(m[k].0@),
        macros_view(m)[m[k].0@] == views(m[k].1@),
    decreases m.len(),
{
    if k == m.len() - 1 {
        assert(m.last() == m[k]);
    } else {
        assert(macros_unique(m.drop_last()));
        assert(m.drop_last()[k] == m[k]);
        lemma_macros_view_lookup(m.drop_last(), k);
        assert(m.last().0@ != m[k].0@);
    }
}

// ------------------------------------------------------------------
// Path resolution
// ------------------------------------------------------------------

/// Whether a path is absolute (starts at the root).
pub open spec fn is_abs(p: Seq<char>) -> bool {
    p.len() > 0 && p[0] == '/'
}

/// A splice path is resolved against the directory of the file the
/// directive stands in; absolute paths stand as they are.
pub open spec fn spec_resolve(dir: Seq<char>, p: Seq<char>) -> Seq<char> {
    if is_abs(p) || dir.len() == 0 {
        p
    } else {
        dir + seq!['/'] + p
    }
}

/// The directory part of a path: everything before the last separator,
/// or empty when there is none.
pub open spec fn spec_dir_of(p: Seq<char>) -> Seq<char>
    decreases p.len(),
{
    if p.len() == 0 {
        p
    } else if p.last() == '/' {
        p.drop_last()
    } else {
        spec_dir_of(p.drop_last())
    }
}

/// Turns a string into its character sequence.
#[verifier::loop_isolation(false)]
pub fn string_to_chars(s: &String) -> (v: Vec<char>)
    ensures
        v@ == s@,
{
    let n = s.as_str().unicode_len();
    let mut v: Vec<char> = Vec::new();
    let mut i: usize = 0;
    while i < n
        invariant
            i <= n,
            n == s@.len(),
            v@ =~= s@.take(i as int),
        decreases n - i,
    {
        v.push(s.as_str().get_char(i));
        i = i + 1;
        assert(v@ =~= s@.take(i as int));
    }
    assert(v@ =~= s@);
    v
}

/// Resolves a splice path against the directory of the current file.
#[verifier::loop_isolation(false)]
pub fn resolve_path(dir: &String, p: &String) -> (r: String)
    ensures
        r@ == spec_resolve(dir@, p@),
{
    let pc = string_to_chars(p);
    let dc = string_to_chars(dir);
    if (pc.len() > 0 && pc[0] == '/') || dc.len() == 0 {
        let r = p.clone();
        proof {
            assert(r@ == spec_resolve(dir@, p@));
        }
        r
    } else {
        let mut out: Vec<char> = Vec::new();
        let mut i: usize = 0;
        while i < dc.len()
            invariant
                i <= dc@.len(),
                out@ =~= dc@.take(i as int),
            decreases dc@.len() - i,
        {
            out.push(dc[i]);
            i = i + 1;
            assert(out@ =~= dc@.take(i as int));
        }
        assert(out@ =~= dc@);
        out.push('/');
        let mut k: usize = 0;
        while k < pc.len()
            invariant
                k <= pc@.len(),
                out@ =~= dc@ + seq!['/'] + pc@.take(k as int),
            decreases pc@.len() - k,
        {
            out.push(pc[k]);
            k = k + 1;
            assert(out@ =~= dc@ + seq!['/'] + pc@.take(k as int));
        }
        assert(out@ =~= dc@ + seq!['/'] + pc@);
        chars_to_string(&out)
    }
}

/// The directory part of a path, for resolving nested splices.
#[verifier::loop_isolation(false)]
pub fn dir_of(p: &String) -> (r: String)
    ensures
        r@ == spec_dir_of(p@),
{
    let pc = string_to_chars(p);
    let mut i: usize = pc.len();
    proof {
        assert(pc@.take(i as int) =~= pc@);
    }
    while i > 0
        invariant
            i <= pc@.len(),
            spec_dir_of(pc@.take(i as int)) == spec_dir_of(pc@),
        decreases i,
    {
        if pc[i - 1] == '/' {
            let mut out: Vec<char> = Vec::new();
            let mut k: usize = 0;
            while k < i - 1
                invariant
                    i <= pc@.len(),
                    k <= i - 1,
                    out@ =~= pc@.take(k as int),
                decreases i - 1 - k,
            {
                out.push(pc[k]);
                k = k + 1;
                assert(out@ =~= pc@.take(k as int));
            }
            proof {
                assert(pc@.take(i as int).last() == '/');
                assert(pc@.take(i as int).drop_last() =~= pc@.take(i - 1 as int));
                assert(out@ =~= pc@.take(i - 1 as int));
            }
            return chars_to_string(&out);
        }
        proof {
            assert(pc@.take(i as int).last() == pc@[i - 1]);
            assert(pc@.take(i as int).drop_last() =~= pc@.take(i - 1 as int));
        }
        i = i - 1;
    }
    proof {
        assert(pc@.take(0) =~= Seq::<char>::empty());
        assert(spec_dir_of(pc@) =~= Seq::<char>::empty());
    }
    String::new()
}

// ------------------------------------------------------------------
// Executable lookups
// ------------------------------------------------------------------

/// Whether some string in the vector holds exactly these characters.
#[verifier::loop_isolation(false)]
pub fn contains_string(v: &Vec<String>, x: &String) -> (b: bool)
    ensures
        b == exists|k: int| 0 <= k < v@.len() && v@[k]@ == x@,
{
    let mut i: usize = 0;
    while i < v.len()
        invariant
            i <= v@.len(),
            forall|k: int| 0 <= k < i ==> v@[k]@ != x@,
        decreases v@.len() - i,
    {
        if v[i] == *x {
            return true;
        }
        i = i + 1;
    }
    false
}

/// Finds the macro table entry carrying this name, if any.
#[verifier::loop_isolation(false)]
fn find_macro(m: &Vec<(String, Vec<Token>)>, name: &String) -> (r: Option<usize>)
    requires
        macros_unique(m@),
    ensures
        match r {
            Some(i) => {
                &&& i < m@.len()
                &&& m@[i as int].0@ == name@
                &&& macros_view(m@).contains_key(name@)
                &&& macros_view(m@)[name@] == views(m@[i as int].1@)
            },
            None => !macros_view(m@).contains_key(name@),
        },
{
    let mut i: usize = 0;
    while i < m.len()
        invariant
            i <= m@.len(),
            forall|k: int| 0 <= k < i ==> m@[k].0@ != name@,
        decreases m@.len() - i,
    {
        if m[i].0 == *name {
            proof {
                lemma_macros_view_lookup(m@, i as int);
            }
            return Some(i);
        }
        i = i + 1;
    }
    proof {
        lemma_macros_view_contains(m@, name@);
    }
    None
}

/// Finds a file's contents in the table, taking the first matching entry.
#[verifier::loop_isolation(false)]
fn find_file(files: &Vec<(String, String)>, p: &String) -> (r: Option<String>)
    ensures
        match file_lookup(files@, p@) {
            Some(c) => r matches Some(s) && s@ == c,
            None => r is None,
        },
{
    let mut i: usize = 0;
    proof {
        assert(files@.skip(0) =~= files@);
    }
    while i < files.len()
        invariant
            i <= files@.len(),
            file_lookup(files@.skip(i as int), p@) == file_lookup(files@, p@),
        decreases files@.len() - i,
    {
        proof {
            assert(files@.skip(i as int).drop_first() =~= files@.skip(i + 1));
            assert(files@.skip(i as int)[0] == files@[i as int]);
        }
        if files[i].0 == *p {
            return Some(files[i].1.clone());
        }
        i = i + 1;
    }
    proof {
        assert(files@.skip(files@.len() as int) =~= Seq::<(String, String)>::empty());
    }
    None
}

/// Copies a vector of strings, keeping each string's characters.
#[verifier::loop_isolation(false)]
fn clone_strings(v: &Vec<String>) -> (r: Vec<String>)
    ensures
        strs_seq(r@) == strs_seq(v@),
        r@.len() == v@.len(),
        forall|k: int| 0 <= k < v@.len() ==> r@[k]@ == v@[k]@,
{
    let mut r: Vec<String> = Vec::new();
    let mut i: usize = 0;
    while i < v.len()
        invariant
            i <= v@.len(),
            r@.len() == i,
            forall|k: int| 0 <= k < i ==> r@[k]@ == v@[k]@,
        decreases v@.len() - i,
    {
        r.push(v[i].clone());
        i = i + 1;
    }
    proof {
        assert(strs_seq(r@) =~= strs_seq(v@));
    }
    r
}

// ------------------------------------------------------------------
// Macro expansion, modelled and executed
// ------------------------------------------------------------------

/// Expands every macro reference in a stored body, recursively. A word on
/// the active chain is a cycle; a directive token inside an expansion is
/// malformed, since an expansion cannot open a new directive.
pub open spec fn spec_expand_seq(
    macros: Map<Seq<char>, Seq<TokenV>>,
    body: Seq<TokenV>,
    active: Set<Seq<char>>,
    depth: nat,
) -> Result<Seq<TokenV>, ErrorV>
    decreases depth, body.len(),
{
    if body.len() == 0 {
        Ok(Seq::empty())
    } else {
        let t = body[0];
        match t.kind {
            TokensV::Word(n) => {
                if active.contains(n) {
                    Err(ErrorV { kind: ErrorsV::CircularIncl(n), span: t.span })
                } else if macros.contains_key(n) {
                    if depth == 0 {
                        Err(ErrorV { kind: ErrorsV::RecursionLimit, span: t.span })
                    } else {
                        match spec_expand_seq(macros, macros[n], active.insert(n), (depth - 1) as nat) {
                            Ok(ex) => match spec_expand_seq(macros, body.drop_first(), active, depth) {
                                Ok(rest) => Ok(ex + rest),
                                Err(e) => Err(e),
                            },
                            Err(e) => Err(e),
                        }
                    }
                } else {
                    match spec_expand_seq(macros, body.drop_first(), active, depth) {
                        Ok(rest) => Ok(seq![t] + rest),
                        Err(e) => Err(e),
                    }
                }
            },
            TokensV::Macro => Err(ErrorV {
                kind: ErrorsV::InvalidToken { expected: TokenKind::Word, got: TokenKind::Macro },
                span: t.span,
            }),
            TokensV::Incl => Err(ErrorV {
                kind: ErrorsV::InvalidToken { expected: TokenKind::Word, got: TokenKind::Incl },
                span: t.span,
            }),
            _ => match spec_expand_seq(macros, body.drop_first(), active, depth) {
                Ok(rest) => Ok(seq![t] + rest),
                Err(e) => Err(e),
            },
        }
    }
}

/// One top-level macro use: the stored body expands with the used name as
/// the whole active chain.
pub open spec fn spec_expand_use(
    macros: Map<Seq<char>, Seq<TokenV>>,
    n: Seq<char>,
    use_span: Span,
    depth: nat,
) -> Result<Seq<TokenV>, ErrorV> {
    if !macros.contains_key(n) {
        Err(ErrorV { kind: ErrorsV::UndefinedMacro(n), span: use_span })
    } else if depth == 0 {
        Err(ErrorV { kind: ErrorsV::RecursionLimit, span: use_span })
    } else {
        spec_expand_seq(macros, macros[n], set![n], (depth - 1) as nat)
    }
}

// ------------------------------------------------------------------
// Reading a macro definition, modelled
// ------------------------------------------------------------------

/// The result of scanning a macro body: the verbatim tokens up to the
/// terminating `End` and the offset after it, or the stream ended first
/// (`last` is the span of the last token read, for the error report).
pub enum BodyScan {
    Done { body: Seq<TokenV>, next: int },
    Eof { last: Span },
}

/// Scans a macro body from `i`: tokens accumulate verbatim until the
/// first `End`.
pub open spec fn scan_body(toks: Seq<TokenV>, i: int, last: Span) -> BodyScan
    decreases toks.len() - i,
    when 0 <= i <= toks.len()
{
    if i >= toks.len() {
        BodyScan::Eof { last }
    } else if toks[i].kind is End {
        BodyScan::Done { body: Seq::empty(), next: i + 1 }
    } else {
        match scan_body(toks, i + 1, toks[i].span) {
            BodyScan::Done { body, next } => BodyScan::Done { body: seq![toks[i]] + body, next },
            BodyScan::Eof { last } => BodyScan::Eof { last },
        }
    }
}

pub proof fn lemma_scan_body_bounds(toks: Seq<TokenV>, i: int, last: Span)
    requires
        0 <= i <= toks.len(),
    ensures
        scan_body(toks, i, last) matches BodyScan::Done { body, next } ==> i < next <= toks.len(),
    decreases toks.len() - i,
{
    if i < toks.len() && !(toks[i].kind is End) {
        lemma_scan_body_bounds(toks, i + 1, toks[i].span);
    }
}

/// The result of reading one whole macro definition.
pub enum MacroRead {
    Done { name: Seq<char>, body: Seq<TokenV>, next: int },
    Fail { e: ErrorV },
}

/// Reads a macro definition whose name slot sits at `i`: the name must be
/// a string literal, must not already be defined, and the body runs to
/// the first `End`. `dspan` is the span of the `Macro` token itself, used
/// when the stream ends before the name.
pub open spec fn read_macro_at(
    toks: Seq<TokenV>,
    i: int,
    dspan: Span,
    macros: Map<Seq<char>, Seq<TokenV>>,
) -> MacroRead {
    if i >= toks.len() {
        MacroRead::Fail { e: ErrorV { kind: ErrorsV::UnexpectedEOF, span: dspan } }
    } else {
        match toks[i].kind {
            TokensV::Str(name) => {
                if macros.contains_key(name) {
                    MacroRead::Fail {
                        e: ErrorV { kind: ErrorsV::DuplicateMacro(name), span: toks[i].span },
                    }
                } else {
                    match scan_body(toks, i + 1, toks[i].span) {
                        BodyScan::Done { body, next } => MacroRead::Done { name, body, next },
                        BodyScan::Eof { last } => MacroRead::Fail {
                            e: ErrorV { kind: ErrorsV::UnexpectedEOF, span: last },
                        },
                    }
                }
            },
            k => MacroRead::Fail {
                e: ErrorV {
                    kind: ErrorsV::InvalidToken { expected: TokenKind::Str, got: kind_of(k) },
                    span: toks[i].span,
                },
            },
        }
    }
}

// ------------------------------------------------------------------
// Reading a splice directive, modelled
// ------------------------------------------------------------------

/// The decision a splice directive comes to, before any recursion: a
/// no-op (the file is already spliced in), a sub-stream to process (the
/// file's lexed tokens), or a failure.
pub enum InclStep {
    NoOp { next: int },
    Sub { resolved: Seq<char>, lexed: Seq<TokenV>, next: int },
    Fail { e: ErrorV },
}

/// Reads the path slot of a splice directive at `i` and decides what to
/// do: a path on the active chain is a cycle; one already spliced is a
/// no-op; otherwise the file is looked up and lexed, its first lexical
/// error propagating as the directive's error. `dspan` is the span of the
/// directive token itself.
pub open spec fn incl_step(
    toks: Seq<TokenV>,
    i: int,
    dspan: Span,
    st: PpState,
    files: Seq<(String, String)>,
    dir: Seq<char>,
    chain: Seq<Seq<char>>,
    depth: nat,
) -> InclStep {
    if i >= toks.len() {
        InclStep::Fail { e: ErrorV { kind: ErrorsV::UnexpectedEOF, span: dspan } }
    } else {
        match toks[i].kind {
            TokensV::Str(p) => {
                let resolved = spec_resolve(dir, p);
                if chain.contains(resolved) {
                    InclStep::Fail {
                        e: ErrorV { kind: ErrorsV::CircularIncl(resolved), span: toks[i].span },
                    }
                } else if st.incl.contains(resolved) {
                    InclStep::NoOp { next: i + 1 }
                } else if depth == 0 {
                    InclStep::Fail {
                        e: ErrorV { kind: ErrorsV::RecursionLimit, span: toks[i].span },
                    }
                } else {
                    match file_lookup(files, resolved) {
                        None => InclStep::Fail {
                            e: ErrorV { kind: ErrorsV::FileError(resolved), span: toks[i].span },
                        },
                        Some(content) => {
                            let (lts, les) = spec_lex(content, 0);
                            if les.len() > 0 {
                                InclStep::Fail { e: les[0] }
                            } else {
                                InclStep::Sub { resolved, lexed: lts, next: i + 1 }
                            }
                        },
                    }
                }
            },
            k => InclStep::Fail {
                e: ErrorV {
                    kind: ErrorsV::InvalidToken { expected: TokenKind::Str, got: kind_of(k) },
                    span: toks[i].span,
                },
            },
        }
    }
}

// ------------------------------------------------------------------
// The whole pass, modelled
// ------------------------------------------------------------------

/// Processes a token stream from offset `i` under the given tables:
/// macro definitions are read into the table, splice directives pull in
/// their file's preprocessed tokens (once per resolved path), words that
/// name a macro expand in place, and every other token passes through.
/// The first directive error stops the pass.
pub open spec fn spec_process(
    toks: Seq<TokenV>,
    i: int,
    st: PpState,
    files: Seq<(String, String)>,
    dir: Seq<char>,
    chain: Seq<Seq<char>>,
    depth: nat,
) -> Result<(Seq<TokenV>, PpState), ErrorV>
    decreases depth, toks.len() - i, 1int,
    when 0 <= i <= toks.len()
    via spec_process_decreases
{
    if i >= toks.len() {
        Ok((Seq::empty(), st))
    } else {
        match toks[i].kind {
            TokensV::Macro => {
                match read_macro_at(toks, i + 1, toks[i].span, st.macros) {
                    MacroRead::Done { name, body, next } => spec_process(
                        toks,
                        next,
                        PpState { macros: st.macros.insert(name, body), incl: st.incl },
                        files,
                        dir,
                        chain,
                        depth,
                    ),
                    MacroRead::Fail { e } => Err(e),
                }
            },
            TokensV::Incl => {
                match incl_step(toks, i + 1, toks[i].span, st, files, dir, chain, depth) {
                    InclStep::NoOp { next } => spec_process(toks, next, st, files, dir, chain, depth),
                    InclStep::Sub { resolved, lexed, next } => {
                        match spec_process(
                            lexed,
                            0,
                            PpState { macros: st.macros, incl: st.incl.insert(resolved) },
                            files,
                            spec_dir_of(resolved),
                            chain.push(resolved),
                            (depth - 1) as nat,
                        ) {
                            Ok((sub, st2)) => match spec_process(
                                toks,
                                next,
                                st2,
                                files,
                                dir,
                                chain,
                                depth,
                            ) {
                                Ok((rest, st3)) => Ok((sub + rest, st3)),
                                Err(e) => Err(e),
                            },
                            Err(e) => Err(e),
                        }
                    },
                    InclStep::Fail { e } => Err(e),
                }
            },
            TokensV::Word(n) => {
                if st.macros.contains_key(n) {
                    match spec_expand_use(st.macros, n, toks[i].span, depth) {
                        Ok(ex) => match spec_process(toks, i + 1, st, files, dir, chain, depth) {
                            Ok((rest, st2)) => Ok((ex + rest, st2)),
                            Err(e) => Err(e),
                        },
                        Err(e) => Err(e),
                    }
                } else {
                    match spec_process(toks, i + 1, st, files, dir, chain, depth) {
                        Ok((rest, st2)) => Ok((seq![toks[i]] + rest, st2)),
                        Err(e) => Err(e),
                    }
                }
            },
            _ => {
                match spec_process(toks, i + 1, st, files, dir, chain, depth) {
                    Ok((rest, st2)) => Ok((seq![toks[i]] + rest, st2)),
                    Err(e) => Err(e),
                }
            },
        }
    }
}

#[via_fn]
proof fn spec_process_decreases(
    toks: Seq<TokenV>,
    i: int,
    st: PpState,
    files: Seq<(String, String)>,
    dir: Seq<char>,
    chain: Seq<Seq<char>>,
    depth: nat,
) {
    if 0 <= i < toks.len() {
        match toks[i].kind {
            TokensV::Macro => {
                if i + 1 < toks.len() {
                    match toks[i + 1].kind {
                        TokensV::Str(name) => {
                            lemma_scan_body_bounds(toks, i + 2, toks[i + 1].span);
                        },
                        _ => {},
                    }
                }
            },
            _ => {},
        }
    }
}

/// The whole preprocessing pass over a top-level stream: an empty active
/// chain and the full fuel.
pub open spec fn spec_preprocess(
    toks: Seq<TokenV>,
    i: int,
    st: PpState,
    files: Seq<(String, String)>,
    dir: Seq<char>,
) -> Result<(Seq<TokenV>, PpState), ErrorV> {
    spec_process(toks, i, st, files, dir, Seq::empty(), MAX_DEPTH as nat)
}

// ------------------------------------------------------------------
// The executable preprocessor
// ------------------------------------------------------------------

/// An explicit-cursor preprocessor over a lexed token stream. One value
/// owns the tables of a single run: the macro table (names unique, each
/// mapped to its verbatim body) and the set of resolved paths already
/// spliced in. `last_token_loc` remembers the span of the last token
/// read, so directive errors can point at it.
pub struct Preprocessor {
    pub macros: Vec<(String, Vec<Token>)>,
    pub incl_files: Vec<String>,
    pub tokens: Vec<Token>,
    pub cursor: usize,
    pub last_token_loc: Option<Span>,
}

impl Preprocessor {
    /// The modelled table state of this run.
    pub open spec fn st(self) -> PpState {
        PpState { macros: macros_view(self.macros@), incl: strs_set(self.incl_files@) }
    }

    /// The internal invariant: the cursor stays inside the stream and
    /// macro names are pairwise distinct (define-once).
    pub open spec fn wf(self) -> bool {
        self.cursor <= self.tokens.len() && macros_unique(self.macros@)
    }

    /// Builds a preprocessor over a token stream, with empty tables.
    pub fn new(tokens: Vec<Token>) -> (p: Preprocessor)
        ensures
            p.tokens@ == tokens@,
            p.cursor == 0,
            p.st().macros == Map::<Seq<char>, Seq<TokenV>>::empty(),
            p.st().incl == Set::<Seq<char>>::empty(),
            p.last_token_loc is None,
            p.wf(),
    {
        Preprocessor {
            macros: Vec::new(),
            incl_files: Vec::new(),
            tokens,
            cursor: 0,
            last_token_loc: None,
        }
    }

    /// Consumes and returns the next token of the stream, remembering its
    /// span; at the end of the stream the state is unchanged and the
    /// generic end-of-input error comes back.
    pub fn next(&mut self) -> (r: Result<Token, Errors>)
        requires
            old(self).wf(),
        ensures
            final(self).tokens == old(self).tokens,
            final(self).macros == old(self).macros,
            final(self).incl_files == old(self).incl_files,
            final(self).wf(),
            old(self).cursor < old(self).tokens@.len() ==> ({
                &&& r matches Ok(t) && t@ == views(old(self).tokens@)[old(self).cursor as int]
                &&& final(self).cursor == old(self).cursor + 1
                &&& final(self).last_token_loc == Some(
                    views(old(self).tokens@)[old(self).cursor as int].span,
                )
            }),
            old(self).cursor >= old(self).tokens@.len() ==> ({
                &&& r matches Err(e) && e@ == ErrorsV::UnexpectedEOF
                &&& *final(self) == *old(self)
            }),
    {
        if self.cursor < self.tokens.len() {
            let t = self.tokens[self.cursor].duplicate();
            proof {
                assert(views(self.tokens@)[self.cursor as int] == self.tokens@[self.cursor as int]@);
            }
            self.cursor = self.cursor + 1;
            self.last_token_loc = Some(t.span);
            Ok(t)
        } else {
            Err(Errors::UnexpectedEOF)
        }
    }

    /// Expands a stored macro body into `out`, recursively: nested macro
    /// references expand again under a grown active chain, any other
    /// token is copied through, and a directive token inside an expansion
    /// is malformed.
    #[verifier::loop_isolation(false)]
    fn expand_body(
        &self,
        body: &Vec<Token>,
        active: &Vec<String>,
        depth: u64,
        out: &mut Vec<Token>,
    ) -> (r: Result<(), Error>)
        requires
            self.wf(),
        ensures
            match spec_expand_seq(self.st().macros, views(body@), strs_set(active@), depth as nat) {
                Ok(ex) => r is Ok && views(final(out)@) == views(old(out)@) + ex,
                Err(e) => r matches Err(er) && er@ == e,
            },
        decreases depth,
    {
        let ghost m = self.st().macros;
        let ghost act = strs_set(active@);
        let ghost whole = spec_expand_seq(m, views(body@), act, depth as nat);
        let ghost base = views(old(out)@);
        let ghost mut acc: Seq<TokenV> = Seq::empty();

        proof {
            assert(views(body@).skip(0) =~= views(body@));
            assert(base + Seq::<TokenV>::empty() =~= base);
        }
        let mut i: usize = 0;
        while i < body.len()
            invariant
                i <= body@.len(),
                views(out@) == base + acc,
                match spec_expand_seq(m, views(body@).skip(i as int), act, depth as nat) {
                    Ok(rest) => whole == Ok::<Seq<TokenV>, ErrorV>(acc + rest),
                    Err(e) => whole == Err::<Seq<TokenV>, ErrorV>(e),
                },
            decreases body@.len() - i,
        {
            let ghost rem = views(body@).skip(i as int);
            proof {
                assert(rem[0] == body@[i as int]@);
                assert(rem.drop_first() =~= views(body@).skip(i as int + 1));
            }
            let t = &body[i];
            match &t.kind {
                Tokens::Word(name) => {
                    let on_chain = contains_string(active, name);
                    proof {
                        lemma_strs_set_contains(active@, name@);
                    }
                    if on_chain {
                        return Err(Error::new(Errors::CircularIncl(name.clone()), t.span));
                    }
                    match find_macro(&self.macros, name) {
                        Some(k) => {
                            if depth == 0 {
                                return Err(Error::new(Errors::RecursionLimit, t.span));
                            }
                            let mut new_active = clone_strings(active);
                            proof {
                                lemma_strs_set_from_seq(new_active@, active@);
                            }
                            let ghost na0 = new_active@;
                            new_active.push(name.clone());
                            proof {
                                lemma_strs_set_push(na0, new_active@.last());
                                assert(new_active@ == na0.push(new_active@.last()));
                                assert(strs_set(new_active@) == act.insert(name@));
                            }
                            let ghost before = views(out@);
                            match self.expand_body(&self.macros[k].1, &new_active, depth - 1, out) {
                                Ok(()) => {
                                    proof {
                                        let ex = spec_expand_seq(
                                            m,
                                            m[name@],
                                            act.insert(name@),
                                            (depth - 1) as nat,
                                        )->Ok_0;
                                        acc = acc + ex;
                                        assert(views(out@) =~= base + acc);
                                    }
                                },
                                Err(e) => {
                                    return Err(e);
                                },
                            }
                        },
                        None => {
                            let d = t.duplicate();
                            let ghost ov = out@;
                            out.push(d);
                            proof {
                                assert(views(out@) =~= views(ov).push(rem[0]));
                                acc = acc + seq![rem[0]];
                                assert(views(out@) =~= base + acc);
                            }
                        },
                    }
                },
                Tokens::Macro => {
                    return Err(Error::new(
                        Errors::InvalidToken { expected: TokenKind::Word, got: TokenKind::Macro },
                        t.span,
                    ));
                },
                Tokens::Incl => {
                    return Err(Error::new(
                        Errors::InvalidToken { expected: TokenKind::Word, got: TokenKind::Incl },
                        t.span,
                    ));
                },
                _ => {
                    let d = t.duplicate();
                    let ghost ov = out@;
                    out.push(d);
                    proof {
                        assert(views(out@) =~= views(ov).push(rem[0]));
                        acc = acc + seq![rem[0]];
                        assert(views(out@) =~= base + acc);
                    }
                },
            }
            proof {
                match spec_expand_seq(m, views(body@).skip(i as int + 1), act, depth as nat) {
                    Ok(rest2) => {
                        assert(whole matches Ok(w) && w =~= acc + rest2);
                    },
                    Err(_) => {},
                }
            }
            i = i + 1;
        }
        proof {
            assert(views(body@).skip(body@.len() as int) =~= Seq::<TokenV>::empty());
            assert(acc + Seq::<TokenV>::empty() =~= acc);
        }
        Ok(())
    }

    /// Reads one macro definition, the `Macro` token itself having just
    /// been consumed: the name slot must hold a string literal naming a
    /// macro not yet defined, and the body runs verbatim to the first
    /// `End`. On success the definition enters the table.
    #[verifier::loop_isolation(false)]
    pub fn read_macro(&mut self) -> (r: Result<(), Errors>)
        requires
            old(self).wf(),
            old(self).last_token_loc is Some,
        ensures
            final(self).tokens == old(self).tokens,
            final(self).incl_files == old(self).incl_files,
            final(self).wf(),
            match read_macro_at(
                views(old(self).tokens@),
                old(self).cursor as int,
                old(self).last_token_loc->Some_0,
                macros_view(old(self).macros@),
            ) {
                MacroRead::Done { name, body, next } => {
                    &&& r is Ok
                    &&& final(self).cursor == next
                    &&& macros_view(final(self).macros@) == macros_view(old(self).macros@).insert(
                        name,
                        body,
                    )
                },
                MacroRead::Fail { e } => {
                    &&& r matches Err(k) && k@ == e.kind
                    &&& final(self).last_token_loc == Some(e.span)
                    &&& final(self).macros == old(self).macros
                },
            },
    {
        let ghost t_seq = views(self.tokens@);
        let ghost iname = self.cursor as int;
        let name_tok = match self.next() {
            Ok(t) => t,
            Err(e) => {
                return Err(e);
            },
        };
        let name = match name_tok.kind {
            Tokens::Str(name) => name,
            other => {
                return Err(Errors::InvalidToken { expected: TokenKind::Str, got: other.to_kind() });
            },
        };
        proof {
            assert(t_seq[iname].kind == TokensV::Str(name@));
        }
        if find_macro(&self.macros, &name).is_some() {
            return Err(Errors::DuplicateMacro(name));
        }

        let mut body: Vec<Token> = Vec::new();
        proof {
            assert(views(body@) =~= Seq::<TokenV>::empty());
        }
        loop
            invariant
                self.wf(),
                self.tokens == old(self).tokens,
                self.macros == old(self).macros,
                self.incl_files == old(self).incl_files,
                iname + 1 <= self.cursor as int <= t_seq.len(),
                self.last_token_loc == Some(t_seq[self.cursor as int - 1].span),
                match scan_body(t_seq, self.cursor as int, t_seq[self.cursor as int - 1].span) {
                    BodyScan::Done { body: b2, next } => scan_body(t_seq, iname + 1, t_seq[iname].span)
                        == (BodyScan::Done { body: views(body@) + b2, next }),
                    BodyScan::Eof { last } => scan_body(t_seq, iname + 1, t_seq[iname].span)
                        == (BodyScan::Eof { last }),
                },
            decreases t_seq.len() - self.cursor,
        {
            let ghost c = self.cursor as int;
            let t2 = match self.next() {
                Ok(t) => t,
                Err(_) => {
                    return Err(Errors::UnexpectedEOF);
                },
            };
            let is_end = match &t2.kind {
                Tokens::End => true,
                _ => false,
            };
            if is_end {
                proof {
                    assert(scan_body(t_seq, c, t_seq[c - 1].span) == (BodyScan::Done {
                        body: Seq::<TokenV>::empty(),
                        next: c + 1,
                    }));
                    assert(views(body@) + Seq::<TokenV>::empty() =~= views(body@));
                    lemma_macros_view_contains(self.macros@, name@);
                }
                let ghost m_old = self.macros@;
                self.macros.push((name, body));
                proof {
                    assert(self.macros@.drop_last() =~= m_old);
                    assert(macros_view(self.macros@) == macros_view(m_old).insert(
                        name@,
                        views(body@),
                    ));
                    assert forall|a: int, b: int|
                        0 <= a < b < self.macros@.len() implies self.macros@[a].0@
                        != self.macros@[b].0@ by {
                        if b < self.macros@.len() - 1 {
                            assert(m_old[a].0@ != m_old[b].0@);
                        }
                    }
                }
                return Ok(());
            } else {
                let ghost prev = views(body@);
                body.push(t2);
                proof {
                    assert(views(body@) =~= prev.push(t_seq[c]));
                    assert(!(t_seq[c].kind is End));
                    match scan_body(t_seq, c + 1, t_seq[c].span) {
                        BodyScan::Done { body: b3, next } => {
                            assert(scan_body(t_seq, c, t_seq[c - 1].span) == (BodyScan::Done {
                                body: seq![t_seq[c]] + b3,
                                next,
                            }));
                            assert(prev + (seq![t_seq[c]] + b3) =~= views(body@) + b3);
                        },
                        BodyScan::Eof { last } => {},
                    }
                }
            }
        }
    }

    /// Reads the path slot of a splice directive, the directive token
    /// itself having just been consumed, and decides the directive's
    /// fate: an error, a no-op for a path already spliced, or the lexed
    /// tokens of the file, which the caller preprocesses recursively. On
    /// the last outcome the resolved path is recorded as spliced.
    pub fn read_incl(
        &mut self,
        files: &Vec<(String, String)>,
        dir: &String,
        chain: &Vec<String>,
        depth: u64,
    ) -> (r: Result<Option<(Vec<Token>, String)>, Error>)
        requires
            old(self).wf(),
            old(self).last_token_loc is Some,
        ensures
            final(self).tokens == old(self).tokens,
            final(self).macros == old(self).macros,
            final(self).wf(),
            match incl_step(
                views(old(self).tokens@),
                old(self).cursor as int,
                old(self).last_token_loc->Some_0,
                old(self).st(),
                files@,
                dir@,
                strs_seq(chain@),
                depth as nat,
            ) {
                InclStep::NoOp { next } => {
                    &&& r matches Ok(o) && o is None
                    &&& final(self).cursor == next
                    &&& final(self).incl_files == old(self).incl_files
                },
                InclStep::Sub { resolved, lexed, next } => {
                    &&& r matches Ok(o) && (o matches Some((v, rp)) && views(v@) == lexed && rp@
                        == resolved)
                    &&& final(self).cursor == next
                    &&& strs_set(final(self).incl_files@) == old(self).st().incl.insert(resolved)
                },
                InclStep::Fail { e } => {
                    &&& r matches Err(er) && er@ == e
                    &&& final(self).incl_files == old(self).incl_files
                },
            },
    {
        let ghost t_seq = views(self.tokens@);
        let ghost ipath = self.cursor as int;
        let dspan = match self.last_token_loc {
            Some(s) => s,
            None => Span::new(0, 0),
        };
        let path_tok = match self.next() {
            Ok(t) => t,
            Err(_) => {
                return Err(Error::new(Errors::UnexpectedEOF, dspan));
            },
        };
        let p = match path_tok.kind {
            Tokens::Str(p) => p,
            other => {
                return Err(Error::new(
                    Errors::InvalidToken { expected: TokenKind::Str, got: other.to_kind() },
                    path_tok.span,
                ));
            },
        };
        proof {
            assert(t_seq[ipath].kind == TokensV::Str(p@));
            assert(t_seq[ipath].span == path_tok.span);
        }
        let resolved = resolve_path(dir, &p);
        let on_chain = contains_string(chain, &resolved);
        proof {
            lemma_strs_seq_contains(chain@, resolved@);
        }
        if on_chain {
            return Err(Error::new(Errors::CircularIncl(resolved), path_tok.span));
        }
        let spliced = contains_string(&self.incl_files, &resolved);
        proof {
            lemma_strs_set_contains(self.incl_files@, resolved@);
        }
        if spliced {
            return Ok(None);
        }
        if depth == 0 {
            return Err(Error::new(Errors::RecursionLimit, path_tok.span));
        }
        let content = match find_file(files, &resolved) {
            Some(c) => c,
            None => {
                return Err(Error::new(Errors::FileError(resolved), path_tok.span));
            },
        };
        let mut lx = Lexer::new(content.as_str());
        match lx.collect() {
            Ok(toks) => {
                let ghost i_old = self.incl_files@;
                self.incl_files.push(resolved.clone());
                proof {
                    assert(self.incl_files@.drop_last() =~= i_old);
                    assert(strs_set(self.incl_files@) == strs_set(i_old).insert(resolved@));
                }
                Ok(Some((toks, resolved)))
            },
            Err(errs) => {
                proof {
                    assert(crate::error::error_views(errs@).len() > 0);
                    assert(errs@.len() > 0);
                    assert(crate::error::error_views(errs@)[0] == errs@[0]@);
                }
                let e0 = &errs[0];
                Err(Error::new(e0.kind.duplicate(), e0.span))
            },
        }
    }

    /// Processes the stream from the cursor under the current tables,
    /// exactly as `spec_process` says: reads definitions, splices files
    /// (recursing with one unit less fuel and the resolved path on the
    /// active chain), expands macro words, passes other tokens through,
    /// and stops at the first directive error.
    #[verifier::loop_isolation(false)]
    fn process_loop(
        &mut self,
        files: &Vec<(String, String)>,
        dir: &String,
        chain: &Vec<String>,
        depth: u64,
    ) -> (r: Result<Vec<Token>, Error>)
        requires
            old(self).wf(),
        ensures
            final(self).tokens == old(self).tokens,
            final(self).wf(),
            match spec_process(
                views(old(self).tokens@),
                old(self).cursor as int,
                old(self).st(),
                files@,
                dir@,
                strs_seq(chain@),
                depth as nat,
            ) {
                Ok((out, st2)) => r matches Ok(v) && views(v@) == out && final(self).st() == st2,
                Err(e) => r matches Err(er) && er@ == e,
            },
        decreases depth,
    {
        let ghost t_seq = views(old(self).tokens@);
        let ghost i0 = old(self).cursor as int;
        let ghost st0 = old(self).st();
        let ghost f_seq = files@;
        let ghost d_seq = dir@;
        let ghost c_seq = strs_seq(chain@);
        let ghost whole = spec_process(t_seq, i0, st0, f_seq, d_seq, c_seq, depth as nat);

        let mut out: Vec<Token> = Vec::new();
        let ghost mut acc: Seq<TokenV> = Seq::empty();

        loop
            invariant
                self.wf(),
                self.tokens == old(self).tokens,
                i0 <= self.cursor as int <= t_seq.len(),
                views(out@) == acc,
                match spec_process(
                    t_seq,
                    self.cursor as int,
                    self.st(),
                    f_seq,
                    d_seq,
                    c_seq,
                    depth as nat,
                ) {
                    Ok((rest, stf)) => whole == Ok::<(Seq<TokenV>, PpState), ErrorV>(
                        (acc + rest, stf),
                    ),
                    Err(e) => whole == Err::<(Seq<TokenV>, PpState), ErrorV>(e),
                },
            decreases t_seq.len() - self.cursor,
        {
            if self.cursor >= self.tokens.len() {
                proof {
                    assert(acc + Seq::<TokenV>::empty() =~= acc);
                }
                return Ok(out);
            }
            let ghost i = self.cursor as int;
            let ghost st_i = self.st();
            let tok = match self.next() {
                Ok(t) => t,
                Err(_) => {
                    proof {
                        assert(false);
                    }
                    return Err(Error::new(Errors::UnexpectedEOF, Span::new(0, 0)));
                },
            };
            proof {
                assert(tok@ == t_seq[i]);
            }
            let is_dir_macro = match &tok.kind {
                Tokens::Macro => true,
                _ => false,
            };
            let is_dir_incl = match &tok.kind {
                Tokens::Incl => true,
                _ => false,
            };
            if is_dir_macro {
                proof {
                    if i + 1 < t_seq.len() {
                        match t_seq[i + 1].kind {
                            TokensV::Str(nm) => {
                                lemma_scan_body_bounds(t_seq, i + 2, t_seq[i + 1].span);
                            },
                            _ => {},
                        }
                    }
                }
                match self.read_macro() {
                    Ok(()) => {},
                    Err(err) => {
                        let sp = match self.last_token_loc {
                            Some(s) => s,
                            None => Span::new(0, 0),
                        };
                        return Err(Error::new(err, sp));
                    },
                }
            } else if is_dir_incl {
                match self.read_incl(files, dir, chain, depth) {
                    Err(e) => {
                        return Err(e);
                    },
                    Ok(None) => {},
                    Ok(Some((sub_toks, resolved))) => {
                        let sub_dir = dir_of(&resolved);
                        let mut new_chain = clone_strings(chain);
                        new_chain.push(resolved.clone());
                        proof {
                            assert(strs_seq(new_chain@) =~= c_seq.push(resolved@));
                        }
                        let mut stream = sub_toks;
                        core::mem::swap(&mut self.tokens, &mut stream);
                        let saved_cursor = self.cursor;
                        self.cursor = 0;
                        let sub_r = self.process_loop(files, &sub_dir, &new_chain, depth - 1);
                        core::mem::swap(&mut self.tokens, &mut stream);
                        self.cursor = saved_cursor;
                        match sub_r {
                            Err(e) => {
                                return Err(e);
                            },
                            Ok(mut sub_out) => {
                                let ghost sub_views = views(sub_out@);
                                out.append(&mut sub_out);
                                proof {
                                    assert(views(out@) =~= acc + sub_views);
                                    acc = acc + sub_views;
                                }
                            },
                        }
                    },
                }
            } else {
                let handled = match &tok.kind {
                    Tokens::Word(name) => {
                        match find_macro(&self.macros, name) {
                            Some(k) => {
                                if depth == 0 {
                                    return Err(Error::new(Errors::RecursionLimit, tok.span));
                                }
                                let mut active: Vec<String> = Vec::new();
                                let ghost a0 = active@;
                                active.push(name.clone());
                                proof {
                                    lemma_strs_set_push(a0, active@.last());
                                    assert(active@ == a0.push(active@.last()));
                                    assert(strs_set(a0) =~= Set::<Seq<char>>::empty());
                                    assert(strs_set(active@) =~= set![name@]);
                                }
                                match self.expand_body(
                                    &self.macros[k].1,
                                    &active,
                                    depth - 1,
                                    &mut out,
                                ) {
                                    Ok(()) => {
                                        proof {
                                            let ex = spec_expand_use(
                                                st_i.macros,
                                                name@,
                                                t_seq[i].span,
                                                depth as nat,
                                            )->Ok_0;
                                            acc = acc + ex;
                                            assert(views(out@) =~= acc);
                                        }
                                    },
                                    Err(e) => {
                                        return Err(e);
                                    },
                                }
                                true
                            },
                            None => false,
                        }
                    },
                    _ => false,
                };
                if !handled {
                    let ghost tv = tok@;
                    out.push(tok);
                    proof {
                        acc = acc + seq![tv];
                        assert(views(out@) =~= acc);
                    }
                }
            }
            proof {
                match spec_process(
                    t_seq,
                    self.cursor as int,
                    self.st(),
                    f_seq,
                    d_seq,
                    c_seq,
                    depth as nat,
                ) {
                    Ok((rest, stf)) => {
                        assert(whole matches Ok(w) && w.0 =~= acc + rest && w.1 == stf);
                    },
                    Err(e) => {},
                }
            }
        }
    }

    /// Runs the whole preprocessing pass over this run's stream: `dir` is
    /// the directory of the file the stream was lexed from, against which
    /// its splice paths resolve, and `files` maps resolved paths to file
    /// contents. The result is the flat stream for the parser, or the
    /// first directive error.
    pub fn preprocess(
        &mut self,
        files: &Vec<(String, String)>,
        dir: &String,
    ) -> (r: Result<Vec<Token>, Error>)
        requires
            old(self).wf(),
        ensures
            final(self).tokens == old(self).tokens,
            final(self).wf(),
            match spec_preprocess(
                views(old(self).tokens@),
                old(self).cursor as int,
                old(self).st(),
                files@,
                dir@,
            ) {
                Ok((out, st2)) => r matches Ok(v) && views(v@) == out && final(self).st() == st2,
                Err(e) => r matches Err(er) && er@ == e,
            },
    {
        let chain: Vec<String> = Vec::new();
        proof {
            assert(strs_seq(chain@) =~= Seq::<Seq<char>>::empty());
        }
        self.process_loop(files, dir, &chain, MAX_DEPTH)
    }
}

} // verus!
