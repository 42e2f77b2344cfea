use ore_compiler::pratt::{infix_bp, lex, parse, postfix_bp, prefix_bp, Op, Tok};

/// The same cases as the recursive-descent parser's tests: both parsers must agree.
#[test]
fn agrees_with_recursive_descent() {
    for (src, want) in [
        ("1 + 2 * 3", "(+ 1 (* 2 3))"),
        ("(1 + 2) * 3", "(* (+ 1 2) 3)"),
        ("a || b && c", "(|| a (&& b c))"),
        ("a + 1 < b * 2 && c", "(&& (< (+ a 1) (* b 2)) c)"),
        ("-x * y", "(* (- x) y)"),
        ("!a == b", "(== (! a) b)"),
        ("1 - 2 - 3", "(- (- 1 2) 3)"),
        ("a / b / c", "(/ (/ a b) c)"),
        ("x = y = 3", "(= x (= y 3))"),
        ("f(1)(2)", "(call (call f 1) 2)"),
    ] {
        assert_eq!(parse(src).unwrap(), want, "input: {src}");
    }
}

#[test]
fn the_extension() {
    assert_eq!(parse("-2 ** 2").unwrap(), "(- (** 2 2))");
    assert_eq!(parse("2 ** 3 ** 2").unwrap(), "(** 2 (** 3 2))");
    assert!(parse("a < b < c").is_err());
}

#[test]
fn pratt_calls_and_errors() {
    assert_eq!(parse("f(a, b + 1)(c) * -d").unwrap(), "(* (call (call f a (+ b 1)) c) (- d))");
    assert_eq!(parse("(1 + 2").unwrap_err(), "expected `)`");
    assert_eq!(parse("1 $ 2").unwrap_err(), "bad char at 2");
    assert_eq!(parse("99999999999999999999").unwrap_err(), "number too large to fit in target type");
    assert_eq!(parse("a b").unwrap_err(), "expected an operator, found Name(\"b\")");
    assert_eq!(parse("a )").unwrap_err(), "trailing input: Op(\")\")");
    assert_eq!(parse("").unwrap_err(), "unexpected end of input");
    assert_eq!(parse("* 2").unwrap_err(), "unexpected `*`");
}

#[test]
fn pratt_tables_and_lexer() {
    assert_eq!(infix_bp(Op::Assign), Some((2, 1)));
    assert_eq!(infix_bp(Op::Pow), Some((16, 15)));
    assert_eq!(infix_bp(Op::Lt), Some((7, 8)));
    assert_eq!(prefix_bp(Op::Minus), Some(13));
    assert_eq!(postfix_bp(Op::LParen), Some(17));
    assert_eq!(infix_bp(Op::Comma), None);
    let toks = lex("a**2<=b").unwrap();
    assert_eq!(toks.len(), 6);
    assert!(matches!(toks[1], Tok::Op(Op::Pow)));
    assert!(matches!(toks[3], Tok::Op(Op::Le)));
    assert!(matches!(toks[5], Tok::Eof));
}
