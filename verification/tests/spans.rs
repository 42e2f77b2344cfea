use ore_compiler::spans::Kind::{Ident, Int, Op};
use ore_compiler::spans::{chars_vec, is_ident, lex_chars, lex_owned, lex_spans, next_span, Kind};

#[test]
fn spans_copy_nothing() {
    assert_eq!(lex_spans("a->b == 10"), vec![(Ident, 0, 1), (Op, 1, 3), (Ident, 3, 4), (Op, 5, 7), (Int, 8, 10)]);
    assert_eq!(next_span(b"  x1 ", 0), Some((Ident, 2, 4)));
    assert_eq!(next_span(b"  x1 ", 4), None);
    assert!(is_ident(b'_') && !is_ident(b'-'));
}

#[test]
fn the_three_lexers_agree() {
    let src = "fn sum_to_1(limit_1: int) -> int {\n    let mut total = 0;\n    while limit_1 > 0 { total = total + limit_1; }\n    total\n}\n";
    let spans = lex_spans(src);
    let owned = lex_owned(src);
    let chars = lex_chars(src);
    assert_eq!(spans.len(), owned.len());
    assert_eq!(spans.len(), chars.len());
    for ((s, o), c) in spans.iter().zip(&owned).zip(&chars) {
        assert_eq!(s.0, o.kind);
        assert_eq!(s.0, c.0);
        assert_eq!(&src[s.1..s.2], c.1);
        match s.0 {
            Kind::Op => assert!(o.text.is_none()),
            _ => assert_eq!(o.text.as_deref(), Some(&src[s.1..s.2])),
        }
    }
}

#[test]
fn chars_lexer_is_unicode_aware() {
    let toks = lex_chars("é1 -> 7");
    assert_eq!(toks, vec![(Kind::Ident, "é1".to_string()), (Kind::Op, "->".to_string()), (Kind::Int, "7".to_string())]);
    assert_eq!(chars_vec("aé"), vec!['a', 'é']);
}
