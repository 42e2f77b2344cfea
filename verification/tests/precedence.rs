use ore_compiler::precedence::{buggy_bp, correct_bp, eval, lcg_next, parse, show, tokens, Table};

const RULE: &str = "high_risk_country || volume_30d > 50000 && age_days < 30";

fn rec(hr: i64, vol: i64, age: i64) -> Vec<(&'static str, i64)> {
    vec![("high_risk_country", hr), ("volume_30d", vol), ("age_days", age)]
}

#[test]
fn one_wrong_row_changes_the_tree() {
    let toks = tokens(RULE);
    assert_eq!(toks.len(), 9);
    let good = parse(&toks, &mut 0, 0, Table::Correct).unwrap();
    let bad = parse(&toks, &mut 0, 0, Table::Buggy).unwrap();
    assert_eq!(show(&good), "(|| high_risk_country (&& (> volume_30d 50000) (< age_days 30)))");
    assert_eq!(show(&bad), "(&& (|| high_risk_country (> volume_30d 50000)) (< age_days 30))");
    assert_eq!(correct_bp("&&"), Some((3, 4)));
    assert_eq!(buggy_bp("&&"), Some((1, 2)));
    assert_eq!(correct_bp("+"), None);
}

#[test]
fn decisions_differ() {
    let toks = tokens(RULE);
    let good = parse(&toks, &mut 0, 0, Table::Correct).unwrap();
    let bad = parse(&toks, &mut 0, 0, Table::Buggy).unwrap();
    assert_eq!((eval(&good, &rec(1, 1_000, 400)), eval(&bad, &rec(1, 1_000, 400))), (Some(1), Some(0)));
    assert_eq!((eval(&good, &rec(0, 90_000, 10)), eval(&bad, &rec(0, 90_000, 10))), (Some(1), Some(1)));
    assert_eq!(eval(&good, &[("high_risk_country", 0)]), None); // a variable without a value
    assert_eq!(eval(&good, &rec(1, 0, 0)), Some(1));
}

#[test]
fn parse_failures_and_generator() {
    assert!(parse(&tokens("a b"), &mut 0, 0, Table::Correct).is_none());
    assert!(parse(&tokens(""), &mut 0, 0, Table::Correct).is_none());
    let mut at = 0;
    let e = parse(&tokens("7"), &mut at, 0, Table::Correct).unwrap();
    assert_eq!((show(&e), at), ("7".to_string(), 1));
    let (s, v) = lcg_next(42, 100);
    assert_eq!(s, 42u64.wrapping_mul(6364136223846793005).wrapping_add(1442695040888963407));
    assert_eq!(v, ((s >> 33) % 100) as i64);
}
