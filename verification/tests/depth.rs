use ore_compiler::depth::{nested, Pr, Rd, R};

fn rd(src: &str) -> Option<Result<i64, String>> {
    Rd { s: src.as_bytes(), i: 0, depth: 0 }.expr()
}

fn pr(src: &str) -> Option<Result<i64, String>> {
    Pr { s: src.as_bytes(), i: 0, depth: 0 }.expr_bp(0)
}

#[test]
fn values() {
    assert_eq!(nested(2), "((1+2))");
    assert_eq!(rd("2*3+-1<9"), Some(Ok(1)));
    assert_eq!(rd("1||2&&3"), Some(Ok(3)));
    assert_eq!(pr("1||2&&3"), Some(Ok(3)));
    assert_eq!(pr("2*3+4"), Some(Ok(10)));
    assert_eq!(R { s: b"(2+3)*4", i: 0 }.expr(), Some(20));
}

#[test]
fn depth_limit_rejects_instead_of_crashing() {
    assert_eq!(rd(&nested(200)), Some(Ok(3)));
    assert_eq!(rd(&nested(256)), Some(Ok(3)));
    assert_eq!(rd(&nested(257)), Some(Err("expression nested more than 256 levels deep at byte 256".to_string())));
    assert_eq!(pr(&nested(250)), Some(Ok(3)));
    assert_eq!(pr(&nested(257)), Some(Err("expression nested more than 256 levels deep".to_string())));
}

#[test]
fn failures() {
    assert_eq!(rd(""), None); // no operand
    assert_eq!(pr("9*9*9*9*9*9*9*9*9*9*9*9*9*9*9*9*9*9*9*9*9"), None); // overflows i64
    assert_eq!(R { s: b"1+", i: 0 }.expr(), None);
}
