use stck::lexer::Lexer;
use stck::token::{Token, Tokens};
use stck::error::Errors;
use stck::span::Span;

fn lex(src: &str) -> Result<Vec<Token>, Vec<stck::error::Error>> {
    Lexer::new(src).collect()
}

fn kinds(src: &str) -> Vec<Tokens> {
    lex(src).unwrap().into_iter().map(|t| t.kind).collect()
}

#[test]
fn empty_source_lexes_to_nothing() {
    assert_eq!(kinds(""), vec![]);
}

#[test]
fn whitespace_only_lexes_to_nothing() {
    assert_eq!(kinds("  \n\r  \n"), vec![]);
}

#[test]
fn single_word() {
    assert_eq!(kinds("foo"), vec![Tokens::Word("foo".to_string())]);
}

#[test]
fn integers_parse_exactly() {
    assert_eq!(kinds("0 42 123"), vec![Tokens::Int(0), Tokens::Int(42), Tokens::Int(123)]);
}

#[test]
fn max_i64_round_trips() {
    assert_eq!(kinds("9223372036854775807"), vec![Tokens::Int(9223372036854775807)]);
}

#[test]
fn int_past_range_is_an_error_not_truncation() {
    let errs = lex("9223372036854775808").unwrap_err();
    assert_eq!(errs.len(), 1);
    assert_eq!(errs[0].kind, Errors::IntOverflow);
    assert_eq!(errs[0].span, Span { start: 0, end: 19 });
}

#[test]
fn keywords_lex_to_keyword_tokens() {
    assert_eq!(
        kinds("true false macro proc do end"),
        vec![
            Tokens::Bool(true),
            Tokens::Bool(false),
            Tokens::Macro,
            Tokens::Proc,
            Tokens::Do,
            Tokens::End,
        ]
    );
}

#[test]
fn splice_keyword_lexes_to_directive() {
    let mut kw = String::from("inc");
    kw.push_str("lude");
    assert_eq!(kinds(&kw), vec![Tokens::Incl]);
}

#[test]
fn end_is_never_a_word_even_outside_blocks() {
    // No block structure anywhere in sight: `end` still lexes to `End`.
    assert_eq!(kinds("end"), vec![Tokens::End]);
    assert_eq!(
        kinds("x end y"),
        vec![
            Tokens::Word("x".to_string()),
            Tokens::End,
            Tokens::Word("y".to_string()),
        ]
    );
}

#[test]
fn near_keywords_are_words() {
    assert_eq!(
        kinds("ends tru procs"),
        vec![
            Tokens::Word("ends".to_string()),
            Tokens::Word("tru".to_string()),
            Tokens::Word("procs".to_string()),
        ]
    );
}

#[test]
fn string_escapes_decode() {
    // Source text: "a\nb" (six characters). One newline in the payload.
    let toks = lex("\"a\\nb\"").unwrap();
    assert_eq!(toks.len(), 1);
    assert_eq!(toks[0].kind, Tokens::Str("a\nb".to_string()));
    assert_eq!(toks[0].span, Span { start: 0, end: 6 });
    if let Tokens::Str(s) = &toks[0].kind {
        assert_eq!(s.chars().count(), 3);
    }
}

#[test]
fn all_escapes_and_passthrough() {
    let toks = lex("\"x\\ty\\rz\\qw\"").unwrap();
    assert_eq!(toks[0].kind, Tokens::Str("x\ty\rzqw".to_string()));
}

#[test]
fn empty_string_is_an_error() {
    let errs = lex("\"\"").unwrap_err();
    assert_eq!(errs.len(), 1);
    assert_eq!(errs[0].kind, Errors::EmptyString);
    assert_eq!(errs[0].span, Span { start: 0, end: 2 });
}

#[test]
fn unclosed_string_is_an_error() {
    let errs = lex("\"abc").unwrap_err();
    assert_eq!(errs.len(), 1);
    assert_eq!(errs[0].kind, Errors::UnclosedString);
    assert_eq!(errs[0].span, Span { start: 0, end: 4 });
}

#[test]
fn spans_are_tight_around_tokens() {
    let toks = lex("  foo  12 ").unwrap();
    assert_eq!(toks[0].span, Span { start: 2, end: 5 });
    assert_eq!(toks[1].span, Span { start: 7, end: 9 });
}

#[test]
fn errors_or_tokens_never_both() {
    // One bad literal poisons the whole call: the good token is not handed out.
    let errs = lex("ok \"\" also").unwrap_err();
    assert_eq!(errs.len(), 1);
    assert_eq!(errs[0].kind, Errors::EmptyString);
    assert_eq!(errs[0].span, Span { start: 3, end: 5 });
}

#[test]
fn recovery_collects_every_error() {
    let errs = lex("\"\" \"\"").unwrap_err();
    assert_eq!(errs.len(), 2);
    assert_eq!(errs[1].span, Span { start: 3, end: 5 });
}

#[test]
fn maximal_munch_no_punctuation_split() {
    assert_eq!(kinds("a+b 1x"), vec![
        Tokens::Word("a+b".to_string()),
        Tokens::Word("1x".to_string()),
    ]);
}

#[test]
fn token_kind_text() {
    let toks = lex("end 5").unwrap();
    assert_eq!(toks[0].to_str(), "end");
    assert_eq!(toks[1].to_str(), "<int>");
    assert_eq!(toks[1].kind.to_str(), "<int>");
}

#[test]
fn constructors_build_what_they_are_given() {
    let sp = Span::new(3, 7);
    assert_eq!(sp, Span { start: 3, end: 7 });
    let t = Token::new(Tokens::Do, sp);
    assert_eq!(t.kind, Tokens::Do);
    assert_eq!(t.span, sp);
    let e = stck::error::Error::new(Errors::EmptyString, sp);
    assert_eq!(e.kind, Errors::EmptyString);
    assert_eq!(e.span, sp);
}

#[test]
fn lexer_cursor_primitives() {
    let mut lx = Lexer::new("ab");
    assert!(!lx.is_end());
    assert!(!lx.is_whitespace());
    assert_eq!(lx.peek(), Ok('a'));
    assert_eq!(lx.next(), Ok('a'));
    assert_eq!(lx.next(), Ok('b'));
    assert!(lx.is_end());
    assert_eq!(lx.next(), Err(Errors::UnexpectedEOF));
    let sp = lx.span();
    assert_eq!(sp, Span { start: 0, end: 2 });
}
