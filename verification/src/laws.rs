//! Laws of the two stages, each proved once and for all against the
//! functional models `spec_lex` and `spec_process`.

use vstd::prelude::*;
use crate::span::Span;
use crate::token::{TokenV, TokensV};
use crate::error::{ErrorV, ErrorsV};
use crate::lexer::{
    spec_lex, lex_step, LexStep, skip_ws_end, word_end, word_token, word_val, all_digits, is_ws,
    is_digit, digit_val, kw_true, kw_false, kw_macro, kw_incl, kw_proc, kw_do, kw_end,
    lemma_skip_ws_end_bounds, lemma_lex_step_bounds,
};
use crate::preprocessor::{
    PpState, spec_process, spec_preprocess, spec_expand_seq, read_macro_at, incl_step, InclStep,
    MacroRead, spec_resolve, spec_dir_of, MAX_DEPTH,
};

verus! {

/// The empty preprocessor state: no macros defined, nothing spliced yet.
pub open spec fn empty_state() -> PpState {
    PpState { macros: Map::empty(), incl: Set::empty() }
}

/// Whether a token stream is free of preprocessor directives.
pub open spec fn no_directives(ts: Seq<TokenV>) -> bool {
    forall|i: int| 0 <= i < ts.len() ==> !(ts[i].kind is Macro) && !(ts[i].kind is Incl)
}

// ------------------------------------------------------------------
// Source with no directives: preprocessing is the identity
// ------------------------------------------------------------------

proof fn lemma_process_identity_from(
    toks: Seq<TokenV>,
    i: int,
    st: PpState,
    files: Seq<(String, String)>,
    dir: Seq<char>,
    chain: Seq<Seq<char>>,
    depth: nat,
)
    requires
        no_directives(toks),
        st.macros == Map::<Seq<char>, Seq<TokenV>>::empty(),
        0 <= i <= toks.len(),
    ensures
        spec_process(toks, i, st, files, dir, chain, depth) == Ok::<
            (Seq<TokenV>, PpState),
            ErrorV,
        >((toks.skip(i), st)),
    decreases toks.len() - i,
{
    if i < toks.len() {
        lemma_process_identity_from(toks, i + 1, st, files, dir, chain, depth);
        assert(seq![toks[i]] + toks.skip(i + 1) =~= toks.skip(i));
        match toks[i].kind {
            TokensV::Word(n) => {
                assert(!st.macros.contains_key(n));
            },
            _ => {},
        }
    } else {
        assert(toks.skip(i) =~= Seq::<TokenV>::empty());
    }
}

/// On a stream with no directives, a fresh preprocessing run returns the
/// stream unchanged: the preprocessor's output equals the lexer's output
/// whenever the source uses no macros and splices no files.
pub proof fn lemma_no_directives_identity(
    toks: Seq<TokenV>,
    files: Seq<(String, String)>,
    dir: Seq<char>,
)
    requires
        no_directives(toks),
    ensures
        spec_preprocess(toks, 0, empty_state(), files, dir) == Ok::<
            (Seq<TokenV>, PpState),
            ErrorV,
        >((toks, empty_state())),
{
    lemma_process_identity_from(toks, 0, empty_state(), files, dir, Seq::empty(), MAX_DEPTH as nat);
    assert(toks.skip(0) =~= toks);
}

/// The whole pipeline on a directive-free source: when the lexer accepts
/// the source and hands out no `Macro` or splice token, a fresh
/// preprocessing run returns the lexer's token sequence unchanged.
pub proof fn lemma_pipeline_identity(
    src: Seq<char>,
    files: Seq<(String, String)>,
    dir: Seq<char>,
)
    requires
        spec_lex(src, 0).1.len() == 0,
        no_directives(spec_lex(src, 0).0),
    ensures
        spec_preprocess(spec_lex(src, 0).0, 0, empty_state(), files, dir) == Ok::<
            (Seq<TokenV>, PpState),
            ErrorV,
        >((spec_lex(src, 0).0, empty_state())),
{
    lemma_no_directives_identity(spec_lex(src, 0).0, files, dir);
}

// ------------------------------------------------------------------
// Whitespace-only source lexes to nothing
// ------------------------------------------------------------------

/// A source of nothing but whitespace lexes to an empty token sequence
/// with no errors.
pub proof fn lemma_ws_only_lexes_empty(src: Seq<char>)
    requires
        forall|k: int| 0 <= k < src.len() ==> is_ws(src[k]),
    ensures
        spec_lex(src, 0) == (Seq::<TokenV>::empty(), Seq::<ErrorV>::empty()),
{
    lemma_skip_ws_end_bounds(src, 0);
    assert(skip_ws_end(src, 0) == src.len());
}

// ------------------------------------------------------------------
// Numeric round trip
// ------------------------------------------------------------------

/// The digit character of a value between zero and nine.
pub open spec fn dec_digit_char(d: int) -> char {
    if d == 0 {
        '0'
    } else if d == 1 {
        '1'
    } else if d == 2 {
        '2'
    } else if d == 3 {
        '3'
    } else if d == 4 {
        '4'
    } else if d == 5 {
        '5'
    } else if d == 6 {
        '6'
    } else if d == 7 {
        '7'
    } else if d == 8 {
        '8'
    } else {
        '9'
    }
}

/// The decimal text of a nonnegative value, most significant digit first.
pub open spec fn dec_digits(n: int) -> Seq<char>
    decreases n,
    when n >= 0
{
    if n <= 9 {
        seq![dec_digit_char(n)]
    } else {
        dec_digits(n / 10).push(dec_digit_char(n % 10))
    }
}

proof fn lemma_dec_digits_facts(n: int)
    requires
        n >= 0,
    ensures
        dec_digits(n).len() >= 1,
        all_digits(dec_digits(n)),
        word_val(dec_digits(n)) == n,
    decreases n,
{
    if n <= 9 {
        let w = dec_digits(n);
        assert(w.len() == 1);
        assert(w.drop_last() =~= Seq::<char>::empty());
        assert(word_val(Seq::<char>::empty()) == 0);
        assert(w.last() == dec_digit_char(n));
        assert(word_val(w) == word_val(w.drop_last()) * 10 + digit_val(w.last()));
        assert(digit_val(dec_digit_char(n)) == n);
    } else {
        lemma_dec_digits_facts(n / 10);
        let p = dec_digits(n / 10);
        let c = dec_digit_char(n % 10);
        let w = p.push(c);
        assert(w.drop_last() =~= p);
        assert(w.last() == c);
        assert(0 <= n % 10 <= 9);
        assert(digit_val(c) == n % 10);
        assert(word_val(w) == (n / 10) * 10 + n % 10);
        vstd::arithmetic::div_mod::lemma_fundamental_div_mod(n, 10);
        assert forall|k: int| 0 <= k < w.len() implies is_digit(w[k]) by {
            if k < p.len() {
                assert(w[k] == p[k]);
            }
        }
    }
}

proof fn lemma_word_end_no_ws(src: Seq<char>, i: int)
    requires
        0 <= i <= src.len(),
        forall|k: int| i <= k < src.len() ==> !is_ws(src[k]),
    ensures
        word_end(src, i) == src.len(),
    decreases src.len() - i,
{
    if i < src.len() {
        lemma_word_end_no_ws(src, i + 1);
    }
}

/// Lexing the decimal text of any nonnegative 64-bit value yields exactly
/// one integer token carrying that value, spanning the whole text.
pub proof fn lemma_int_round_trip(n: i64)
    requires
        n >= 0,
    ensures
        spec_lex(dec_digits(n as int), 0) == (
            seq![
                TokenV {
                    kind: TokensV::Int(n as int),
                    span: Span { start: 0, end: dec_digits(n as int).len() as usize },
                },
            ],
            Seq::<ErrorV>::empty(),
        ),
{
    let w = dec_digits(n as int);
    lemma_dec_digits_facts(n as int);
    assert(forall|k: int| 0 <= k < w.len() ==> !is_ws(w[k]));
    assert(skip_ws_end(w, 0) == 0);
    lemma_word_end_no_ws(w, 0);
    assert(w[0] != '"');
    assert(w.subrange(0, w.len() as int) =~= w);
    assert(word_token(w) == Ok::<TokensV, ErrorsV>(TokensV::Int(n as int)));
    assert(lex_step(w, 0) == (LexStep::Tok {
        t: TokenV {
            kind: TokensV::Int(n as int),
            span: Span { start: 0, end: w.len() as usize },
        },
        next: w.len() as int,
    }));
    lemma_skip_ws_end_bounds(w, w.len() as int);
    assert(spec_lex(w, w.len() as int) == (Seq::<TokenV>::empty(), Seq::<ErrorV>::empty()));
    assert(seq![
        TokenV {
            kind: TokensV::Int(n as int),
            span: Span { start: 0, end: w.len() as usize },
        },
    ] + Seq::<TokenV>::empty() =~= seq![
        TokenV {
            kind: TokensV::Int(n as int),
            span: Span { start: 0, end: w.len() as usize },
        },
    ]);
}

/// A digit-only literal whose value is past the 64-bit range lexes to an
/// overflow error, never to a silently truncated integer.
pub proof fn lemma_int_overflow_is_error(w: Seq<char>)
    requires
        all_digits(w),
        w.len() > 0,
        word_val(w) > i64::MAX,
    ensures
        spec_lex(w, 0) == (
            Seq::<TokenV>::empty(),
            seq![
                ErrorV {
                    kind: ErrorsV::IntOverflow,
                    span: Span { start: 0, end: w.len() as usize },
                },
            ],
        ),
{
    assert(forall|k: int| 0 <= k < w.len() ==> !is_ws(w[k]));
    assert(skip_ws_end(w, 0) == 0);
    lemma_word_end_no_ws(w, 0);
    assert(w[0] != '"');
    assert(w.subrange(0, w.len() as int) =~= w);
    assert(word_token(w) == Err::<TokensV, ErrorsV>(ErrorsV::IntOverflow));
    lemma_skip_ws_end_bounds(w, w.len() as int);
    assert(spec_lex(w, w.len() as int) == (Seq::<TokenV>::empty(), Seq::<ErrorV>::empty()));
    assert(seq![
        ErrorV { kind: ErrorsV::IntOverflow, span: Span { start: 0, end: w.len() as usize } },
    ] + Seq::<ErrorV>::empty() =~= seq![
        ErrorV { kind: ErrorsV::IntOverflow, span: Span { start: 0, end: w.len() as usize } },
    ]);
}

// ------------------------------------------------------------------
// Keyword precedence
// ------------------------------------------------------------------

/// Whether a word is one of the fixed keywords.
pub open spec fn is_keyword(w: Seq<char>) -> bool {
    w == kw_true() || w == kw_false() || w == kw_macro() || w == kw_incl() || w == kw_proc()
        || w == kw_do() || w == kw_end()
}

/// Whether no `Word` token in the sequence carries keyword text.
pub open spec fn no_keyword_words(ts: Seq<TokenV>) -> bool {
    forall|k: int|
        0 <= k < ts.len() ==> match #[trigger] ts[k].kind {
            TokensV::Word(w) => !is_keyword(w),
            _ => true,
        }
}

/// The lexer never emits a `Word` token whose text is a keyword: a
/// keyword always lexes to its keyword token, wherever it stands.
pub proof fn lemma_keyword_precedence(src: Seq<char>, i: int)
    requires
        0 <= i <= src.len(),
    ensures
        no_keyword_words(spec_lex(src, i).0),
    decreases src.len() - i,
{
    lemma_skip_ws_end_bounds(src, i);
    let j = skip_ws_end(src, i);
    if j < src.len() {
        lemma_lex_step_bounds(src, j);
        match lex_step(src, j) {
            LexStep::Tok { t, next } => {
                lemma_keyword_precedence(src, next);
                let (ts, es) = spec_lex(src, next);
                assert(spec_lex(src, i).0 == seq![t] + ts);
                match t.kind {
                    TokensV::Word(w) => {
                        assert(!is_keyword(w));
                    },
                    _ => {},
                }
                assert forall|k: int| 0 <= k < spec_lex(src, i).0.len() implies match #[trigger]
                spec_lex(src, i).0[k].kind {
                    TokensV::Word(w) => !is_keyword(w),
                    _ => true,
                } by {
                    if k > 0 {
                        assert(spec_lex(src, i).0[k] == ts[k - 1]);
                    } else {
                        assert(spec_lex(src, i).0[k] == t);
                    }
                }
            },
            LexStep::Fail { e, next } => {
                lemma_keyword_precedence(src, next);
            },
        }
    }
}

// ------------------------------------------------------------------
// Preprocessing output carries no directives; the pass is idempotent
// ------------------------------------------------------------------

proof fn lemma_expand_no_directives(
    macros: Map<Seq<char>, Seq<TokenV>>,
    body: Seq<TokenV>,
    active: Set<Seq<char>>,
    depth: nat,
)
    ensures
        spec_expand_seq(macros, body, active, depth) matches Ok(ex) ==> no_directives(ex),
    decreases depth, body.len(),
{
    if body.len() > 0 {
        let t = body[0];
        match t.kind {
            TokensV::Word(n) => {
                if !active.contains(n) && macros.contains_key(n) && depth > 0 {
                    lemma_expand_no_directives(macros, macros[n], active.insert(n), (depth - 1) as nat);
                    lemma_expand_no_directives(macros, body.drop_first(), active, depth);
                } else if !active.contains(n) && !macros.contains_key(n) {
                    lemma_expand_no_directives(macros, body.drop_first(), active, depth);
                }
            },
            TokensV::Macro => {},
            TokensV::Incl => {},
            _ => {
                lemma_expand_no_directives(macros, body.drop_first(), active, depth);
            },
        }
    }
}

proof fn lemma_process_no_directives(
    toks: Seq<TokenV>,
    i: int,
    st: PpState,
    files: Seq<(String, String)>,
    dir: Seq<char>,
    chain: Seq<Seq<char>>,
    depth: nat,
)
    requires
        0 <= i <= toks.len(),
    ensures
        spec_process(toks, i, st, files, dir, chain, depth) matches Ok((out, st2))
            ==> no_directives(out),
    decreases depth, toks.len() - i,
{
    if i < toks.len() {
        match toks[i].kind {
            TokensV::Macro => {
                match read_macro_at(toks, i + 1, toks[i].span, st.macros) {
                    MacroRead::Done { name, body, next } => {
                        crate::preprocessor::lemma_scan_body_bounds(
                            toks,
                            i + 2,
                            toks[i + 1].span,
                        );
                        lemma_process_no_directives(
                            toks,
                            next,
                            PpState { macros: st.macros.insert(name, body), incl: st.incl },
                            files,
                            dir,
                            chain,
                            depth,
                        );
                    },
                    MacroRead::Fail { e } => {},
                }
            },
            TokensV::Incl => {
                match incl_step(toks, i + 1, toks[i].span, st, files, dir, chain, depth) {
                    InclStep::NoOp { next } => {
                        lemma_process_no_directives(toks, next, st, files, dir, chain, depth);
                    },
                    InclStep::Sub { resolved, lexed, next } => {
                        let st1 = PpState { macros: st.macros, incl: st.incl.insert(resolved) };
                        lemma_process_no_directives(
                            lexed,
                            0,
                            st1,
                            files,
                            spec_dir_of(resolved),
                            chain.push(resolved),
                            (depth - 1) as nat,
                        );
                        match spec_process(
                            lexed,
                            0,
                            st1,
                            files,
                            spec_dir_of(resolved),
                            chain.push(resolved),
                            (depth - 1) as nat,
                        ) {
                            Ok((sub, st2)) => {
                                lemma_process_no_directives(
                                    toks,
                                    next,
                                    st2,
                                    files,
                                    dir,
                                    chain,
                                    depth,
                                );
                            },
                            Err(_) => {},
                        }
                    },
                    InclStep::Fail { e } => {},
                }
            },
            TokensV::Word(n) => {
                if st.macros.contains_key(n) {
                    if depth > 0 {
                        lemma_expand_no_directives(
                            st.macros,
                            st.macros[n],
                            set![n],
                            (depth - 1) as nat,
                        );
                    }
                    lemma_process_no_directives(toks, i + 1, st, files, dir, chain, depth);
                } else {
                    lemma_process_no_directives(toks, i + 1, st, files, dir, chain, depth);
                }
            },
            _ => {
                lemma_process_no_directives(toks, i + 1, st, files, dir, chain, depth);
            },
        }
    }
}

/// A successful preprocessing run leaves no directive token in its
/// output: `Macro` and the splice directive never survive the pass.
pub proof fn lemma_output_no_directives(
    toks: Seq<TokenV>,
    st: PpState,
    files: Seq<(String, String)>,
    dir: Seq<char>,
)
    ensures
        spec_preprocess(toks, 0, st, files, dir) matches Ok((out, st2)) ==> no_directives(out),
{
    lemma_process_no_directives(toks, 0, st, files, dir, Seq::empty(), MAX_DEPTH as nat);
}

/// Preprocessing is idempotent: running a fresh pass over the output of a
/// successful run hands the output back unchanged, whatever file table
/// the second run sees.
pub proof fn lemma_preprocess_idempotent(
    toks: Seq<TokenV>,
    files: Seq<(String, String)>,
    dir: Seq<char>,
    files2: Seq<(String, String)>,
    dir2: Seq<char>,
)
    requires
        spec_preprocess(toks, 0, empty_state(), files, dir) is Ok,
    ensures
        ({
            let out = spec_preprocess(toks, 0, empty_state(), files, dir)->Ok_0.0;
            spec_preprocess(out, 0, empty_state(), files2, dir2) == Ok::<
                (Seq<TokenV>, PpState),
                ErrorV,
            >((out, empty_state()))
        }),
{
    lemma_output_no_directives(toks, empty_state(), files, dir);
    let out = spec_preprocess(toks, 0, empty_state(), files, dir)->Ok_0.0;
    lemma_no_directives_identity(out, files2, dir2);
}

// ------------------------------------------------------------------
// Splicing a file is idempotent within one run
// ------------------------------------------------------------------

/// Whether every macro of `m1` still stands in `m2`, with the same body.
pub open spec fn macros_preserved(
    m1: Map<Seq<char>, Seq<TokenV>>,
    m2: Map<Seq<char>, Seq<TokenV>>,
) -> bool {
    forall|k: Seq<char>| #[trigger] m1.contains_key(k) ==> m2.contains_key(k) && m2[k] == m1[k]
}

proof fn lemma_submap_insert(m: Map<Seq<char>, Seq<TokenV>>, k: Seq<char>, v: Seq<TokenV>)
    requires
        !m.contains_key(k),
    ensures
        macros_preserved(m, m.insert(k, v)),
{
}

proof fn lemma_submap_trans(
    a: Map<Seq<char>, Seq<TokenV>>,
    b: Map<Seq<char>, Seq<TokenV>>,
    c: Map<Seq<char>, Seq<TokenV>>,
)
    requires
        macros_preserved(a, b),
        macros_preserved(b, c),
    ensures
        macros_preserved(a, c),
{
    assert forall|k: Seq<char>| #[trigger] a.contains_key(k) implies c.contains_key(k) && c[k]
        == a[k] by {
        assert(b.contains_key(k));
    }
}

/// One run's tables grow monotonically: a successful pass only ever adds
/// to the set of spliced paths, and a macro definition, once entered, is
/// never removed or altered.
pub proof fn lemma_state_monotone(
    toks: Seq<TokenV>,
    i: int,
    st: PpState,
    files: Seq<(String, String)>,
    dir: Seq<char>,
    chain: Seq<Seq<char>>,
    depth: nat,
)
    requires
        0 <= i <= toks.len(),
    ensures
        spec_process(toks, i, st, files, dir, chain, depth) matches Ok((out, st2)) ==> {
            &&& forall|p: Seq<char>| st.incl.contains(p) ==> st2.incl.contains(p)
            &&& macros_preserved(st.macros, st2.macros)
        },
    decreases depth, toks.len() - i,
{
    if i < toks.len() {
        match toks[i].kind {
            TokensV::Macro => {
                match read_macro_at(toks, i + 1, toks[i].span, st.macros) {
                    MacroRead::Done { name, body, next } => {
                        crate::preprocessor::lemma_scan_body_bounds(
                            toks,
                            i + 2,
                            toks[i + 1].span,
                        );
                        let st1 = PpState { macros: st.macros.insert(name, body), incl: st.incl };
                        lemma_state_monotone(toks, next, st1, files, dir, chain, depth);
                        lemma_submap_insert(st.macros, name, body);
                        match spec_process(toks, next, st1, files, dir, chain, depth) {
                            Ok((out, st2)) => {
                                lemma_submap_trans(st.macros, st1.macros, st2.macros);
                            },
                            Err(_) => {},
                        }
                    },
                    MacroRead::Fail { e } => {},
                }
            },
            TokensV::Incl => {
                match incl_step(toks, i + 1, toks[i].span, st, files, dir, chain, depth) {
                    InclStep::NoOp { next } => {
                        lemma_state_monotone(toks, next, st, files, dir, chain, depth);
                    },
                    InclStep::Sub { resolved, lexed, next } => {
                        let st1 = PpState { macros: st.macros, incl: st.incl.insert(resolved) };
                        lemma_state_monotone(
                            lexed,
                            0,
                            st1,
                            files,
                            spec_dir_of(resolved),
                            chain.push(resolved),
                            (depth - 1) as nat,
                        );
                        match spec_process(
                            lexed,
                            0,
                            st1,
                            files,
                            spec_dir_of(resolved),
                            chain.push(resolved),
                            (depth - 1) as nat,
                        ) {
                            Ok((sub, st2)) => {
                                lemma_state_monotone(toks, next, st2, files, dir, chain, depth);
                                match spec_process(toks, next, st2, files, dir, chain, depth) {
                                    Ok((rest, st3)) => {
                                        lemma_submap_trans(st.macros, st2.macros, st3.macros);
                                    },
                                    Err(_) => {},
                                }
                            },
                            Err(_) => {},
                        }
                    },
                    InclStep::Fail { e } => {},
                }
            },
            _ => {
                lemma_state_monotone(toks, i + 1, st, files, dir, chain, depth);
            },
        }
    }
}

/// A splice directive whose resolved path was already spliced earlier in
/// the run (and is not on the active chain) is a no-op: processing
/// continues right after the directive with the state unchanged. With
/// `lemma_state_monotone`, a second directive for the same resolved
/// path in one run therefore splices nothing: the file's tokens enter the
/// output exactly once, at the first directive.
pub proof fn lemma_splice_once(
    toks: Seq<TokenV>,
    i: int,
    st: PpState,
    files: Seq<(String, String)>,
    dir: Seq<char>,
    chain: Seq<Seq<char>>,
    depth: nat,
    p: Seq<char>,
)
    requires
        0 <= i,
        i + 1 < toks.len(),
        toks[i].kind is Incl,
        toks[i + 1].kind == TokensV::Str(p),
        st.incl.contains(spec_resolve(dir, p)),
        !chain.contains(spec_resolve(dir, p)),
    ensures
        spec_process(toks, i, st, files, dir, chain, depth) == spec_process(
            toks,
            i + 2,
            st,
            files,
            dir,
            chain,
            depth,
        ),
{
    assert(incl_step(toks, i + 1, toks[i].span, st, files, dir, chain, depth) == (InclStep::NoOp {
        next: i + 2,
    }));
}

/// A splice directive whose resolved path is on the active chain — the
/// file is still being spliced somewhere below — fails with
/// `CircularIncl` at the path token: a file that splices itself, directly
/// or transitively, is rejected rather than recursed into forever.
pub proof fn lemma_splice_cycle_is_error(
    toks: Seq<TokenV>,
    i: int,
    st: PpState,
    files: Seq<(String, String)>,
    dir: Seq<char>,
    chain: Seq<Seq<char>>,
    depth: nat,
    p: Seq<char>,
)
    requires
        0 <= i,
        i + 1 < toks.len(),
        toks[i].kind is Incl,
        toks[i + 1].kind == TokensV::Str(p),
        chain.contains(spec_resolve(dir, p)),
    ensures
        spec_process(toks, i, st, files, dir, chain, depth) == Err::<
            (Seq<TokenV>, PpState),
            ErrorV,
        >(ErrorV { kind: ErrorsV::CircularIncl(spec_resolve(dir, p)), span: toks[i + 1].span }),
{
    assert(incl_step(toks, i + 1, toks[i].span, st, files, dir, chain, depth) == (InclStep::Fail {
        e: ErrorV { kind: ErrorsV::CircularIncl(spec_resolve(dir, p)), span: toks[i + 1].span },
    }));
}

// ------------------------------------------------------------------
// Duplicate macro names
// ------------------------------------------------------------------

/// Defining a macro under a name that is already defined fails with
/// `DuplicateMacro` carrying that name and the name token's span:
/// never a silent overwrite.
pub proof fn lemma_duplicate_macro(
    toks: Seq<TokenV>,
    i: int,
    st: PpState,
    files: Seq<(String, String)>,
    dir: Seq<char>,
    chain: Seq<Seq<char>>,
    depth: nat,
    n: Seq<char>,
)
    requires
        0 <= i,
        i + 1 < toks.len(),
        toks[i].kind is Macro,
        toks[i + 1].kind == TokensV::Str(n),
        st.macros.contains_key(n),
    ensures
        spec_process(toks, i, st, files, dir, chain, depth) == Err::<
            (Seq<TokenV>, PpState),
            ErrorV,
        >(ErrorV { kind: ErrorsV::DuplicateMacro(n), span: toks[i + 1].span }),
{
    assert(read_macro_at(toks, i + 1, toks[i].span, st.macros) == (MacroRead::Fail {
        e: ErrorV { kind: ErrorsV::DuplicateMacro(n), span: toks[i + 1].span },
    }));
}

} // verus!
