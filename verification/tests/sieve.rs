use ore_compiler::sieve::{render, Diag, Record, Rule, Span};
use std::cell::Cell;

fn rec<'a>(amount: i64, country: &'a str, g: &'a dyn Fn() -> i64) -> Record<'a, dyn Fn() -> i64 + 'a> {
    Record { amount, country, velocity_1h: 7, graph_score: g }
}

fn err(src: &str) -> String {
    Rule::compile(src).err().expect("should not compile")[0].msg.clone()
}

#[test]
fn rules_evaluate() {
    let g = || 90;
    let r = Rule::compile("amount > 100 && country == \"DE\" || graph_score > 80").unwrap();
    assert!(r.eval(&rec(150, "DE", &g)));
    assert!(r.eval(&rec(5, "FR", &g))); // || binds loosest: the graph score alone suffices
    let r = Rule::compile("(amount > 100 || velocity_1h > 5) && country != \"DE\"").unwrap();
    assert!(r.eval(&rec(1, "FR", &g)));
    assert!(!r.eval(&rec(500, "DE", &g)));
}

#[test]
fn review_findings_are_compile_errors() {
    assert!(err("country == \"D\u{0415}\"").contains("non-ASCII"));
    assert!(err("amount > 99999999999999999999").contains("too large"));
    assert!(err("1 < amount < 1000").contains("chained"));
    assert!(err("velocty_1h > 20").contains("did you mean `velocity_1h`"));
    assert!(err("amount > \"1000\"").contains("mismatched types"));
    assert!(err("amount > 1000 * 1000 * 1000 * 1000 * 1000 * 1000 * 1000").contains("overflows"));
    assert!(err("amount >").contains("expected a value"));
    assert!(err("amount + 1").contains("must be a condition"));
    assert!(err(&format!("{}amount > 1{}", "(".repeat(100), ")".repeat(100))).contains("nested"));
    assert!(err("country == \"DE").contains("unterminated"));
}

#[test]
fn remote_features_are_fetched_lazily() {
    let n = Cell::new(0);
    let g = || { n.set(n.get() + 1); 99 };
    let r = Rule::compile("amount > 100 && graph_score > 80").unwrap();
    assert!(!r.eval(&rec(5, "DE", &g)));
    assert_eq!(n.get(), 0);
    assert!(r.eval(&rec(500, "DE", &g)));
    assert_eq!(n.get(), 1);
}

#[test]
fn sieve_messages_in_full() {
    assert_eq!(err("country == \"D\u{0415}\""), "non-ASCII character U+0415 in a string literal (Sieve literals are ASCII)");
    assert_eq!(err("amount > \"1000\""), "mismatched types: Int > Str");
    assert_eq!(err("amount + 1"), "a rule must be a condition, found Int");
    assert_eq!(err("velocty_1h > 20"), "unknown feature `velocty_1h`; did you mean `velocity_1h`?");
    assert_eq!(err("zzzzzz > 1"), "unknown feature `zzzzzz`");
    assert_eq!(err("amount > 1 )"), "unexpected input after the rule");
    assert_eq!(err("amount # 1"), "unexpected character '#'");
    assert_eq!(err("1 < amount < 1000"), "comparison operators cannot be chained; use `&&`");
}

#[test]
fn sieve_folding_and_render() {
    // 1000 * 1000 folds to a constant; the rule still compiles and compares.
    let g = || 0;
    let r = Rule::compile("amount > 1000 * 1000").unwrap();
    assert!(r.eval(&rec(1_000_001, "DE", &g)));
    assert!(!r.eval(&rec(1_000_000, "DE", &g)));
    let d = Diag { span: Span { lo: 9, hi: 15 }, msg: "mismatched types: Int > Str".to_string() };
    assert_eq!(render("amount > \"1000\"", &d), "error: mismatched types: Int > Str\n      | amount > \"1000\"\n      |          ^^^^^^");
}
