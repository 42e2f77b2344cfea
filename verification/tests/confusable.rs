use ore_compiler::confusable::{confusable, lex_rule, lint_literal};

#[test]
fn rules_that_print_alike() {
    let (f1, l1) = lex_rule("country == \"DE\"").unwrap();
    let (f2, l2) = lex_rule("country == \"D\u{0415}\"").unwrap();
    assert_eq!((f1.as_str(), f2.as_str()), ("country", "country"));
    assert_eq!(l1, "DE");
    assert_ne!(l2, "DE");
    assert_eq!(l2.chars().count(), 2);
    assert_eq!(l2.len(), 3);
    assert!(lex_rule("country = DE").is_none());
}

#[test]
fn lint_flags_look_alikes() {
    assert!(lint_literal("DE").is_empty());
    assert_eq!(lint_literal("D\u{0415}"), vec!["byte 1: U+0415 CYRILLIC CAPITAL LETTER IE looks like 'E' (mixed with ASCII letters)"]);
    assert_eq!(lint_literal("\u{0391}\u{0410}"), vec![
        "byte 0: U+0391 GREEK CAPITAL LETTER ALPHA looks like 'A'",
        "byte 2: U+0410 CYRILLIC CAPITAL LETTER A looks like 'A'",
    ]);
    assert_eq!(confusable('\u{0421}'), Some(('C', "CYRILLIC CAPITAL LETTER ES")));
    assert_eq!(confusable('C'), None);
}
