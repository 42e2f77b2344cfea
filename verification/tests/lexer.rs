use ore_compiler::lexer::TokKind::{Arrow, Assign, Eof, EqEq, Error, Fn, Ident, If, Int, Le, Lt, Minus, Str};
use ore_compiler::lexer::{LineIndex, Lexer, Span, TokKind, Token};

fn kinds(src: &str) -> Vec<TokKind> {
    Lexer::new(src).tokens().into_iter().map(|t| t.kind).collect()
}

#[test]
fn maximal_munch() {
    assert_eq!(kinds("a<=b->c==d"), vec![Ident, Le, Ident, Arrow, Ident, EqEq, Ident, Eof]);
    assert_eq!(kinds("a< =b"), vec![Ident, Lt, Assign, Ident, Eof]); // whitespace splits tokens
    assert_eq!(kinds("x--1"), vec![Ident, Minus, Minus, Int(1), Eof]); // no `--` operator in Ore
}

#[test]
fn keywords_are_whole_words() {
    assert_eq!(kinds("if iffy fn fnord"), vec![If, Ident, Fn, Ident, Eof]);
}

#[test]
fn literals() {
    assert_eq!(kinds("1_000_000"), vec![Int(1_000_000), Eof]);
    assert_eq!(kinds("9223372036854775807"), vec![Int(i64::MAX), Eof]);
    assert!(matches!(kinds("9223372036854775808")[0], Error(_))); // i64::MIN needs `-` + a too-big literal
    assert_eq!(kinds(r#""a\"b\n""#), vec![Str("a\"b\n".into()), Eof]);
}

#[test]
fn comments_and_spans() {
    let toks: Vec<Token> = Lexer::new("x // ignored\n  y").tokens();
    assert_eq!(toks.len(), 3);
    assert_eq!(toks[1].span, Span { lo: 15, hi: 16 });
    assert_eq!(LineIndex::new("x // ignored\n  y").line_col(15), (2, 3));
}

#[test]
fn errors_do_not_stop_the_lexer() {
    let k = kinds("a # b");
    assert_eq!(k.len(), 4);
    assert!(matches!(k[1], Error(_)));
    assert_eq!(k[2], Ident);
}

#[test]
fn unterminated_string_stops_at_the_line_end() {
    let toks = Lexer::new("\"abc\nx").tokens();
    assert!(matches!(toks[0].kind, Error(_)));
    assert_eq!(toks[0].span, Span { lo: 0, hi: 4 });
    assert_eq!(toks[1].kind, Ident);
}

#[test]
fn unknown_escape_is_an_error_and_non_ascii_is_one_token() {
    let k = kinds("\"a\\qb\" \u{2295} x");
    assert!(matches!(k[0], Error(_)));
    assert!(matches!(k[1], Error(_)));
    assert_eq!(k[2], Ident);
    assert_eq!(k.len(), 4);
    let toks = Lexer::new("\u{2295}").tokens();
    assert_eq!(toks[0].span, Span { lo: 0, hi: 3 });
}

#[test]
fn lexer_stream_ends_with_one_eof() {
    let mut lx = Lexer::new("a");
    assert_eq!(lx.next().unwrap().kind, Ident);
    assert_eq!(lx.next().unwrap().kind, Eof);
    assert!(lx.next().is_none());
}
