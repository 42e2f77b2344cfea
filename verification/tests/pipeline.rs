use ore_compiler::pipeline::{compile, lex, run, sexpr, Parser, Tok};

const GOOD: &str = "
        let mut i = 0;
        let mut total = 0;
        while i < 10 {
            i = i + 1;
            if i % 2 == 0 { total = total + i; } else { total = total - 1; }
        }
        total";

#[test]
fn the_good_program_runs() {
    let c = compile(GOOD).ok().expect("the good program compiles");
    let (v, steps) = run(&c.code, c.nslots, 1_000_000).unwrap();
    assert_eq!(v, 25); // 2+4+6+8+10 minus one for each of the five odd numbers
    assert!(steps > 10);
    assert_eq!(run(&c.code, c.nslots, 5), Err("step limit reached".to_string()));
}

#[test]
fn each_stage_reports_its_own_errors() {
    let stage = |src: &str| compile(src).err().map(|e| (e.stage, e.pos));
    assert_eq!(stage("let x = 5 # 3; x"), Some(("lexer", 10)));
    assert_eq!(stage("let x = 5 let y = 6; x").map(|s| s.0), Some("parser"));
    assert_eq!(stage("let x = 5; y + 1"), Some(("resolver", 11)));
    assert_eq!(stage("let x = 1; x = 2; x").map(|s| s.0), Some("resolver"));
    assert_eq!(stage("let x = 5; x + true").map(|s| s.0), Some("types"));
    let e = compile("let x = 5; y + 1").err().unwrap();
    assert_eq!(e.msg, "cannot find `y` in this scope");
    assert_eq!(compile("let x = 5 # 3; x").err().unwrap().msg, "unexpected character '#'");
}

#[test]
fn division_by_zero_is_a_runtime_error() {
    let c = compile("let z = 0; 10 / z").ok().unwrap();
    let r = run(&c.code, c.nslots, 1000);
    assert!(matches!(r, Err(m) if m.starts_with("division by zero at pc ")));
}

#[test]
fn parse_trees() {
    let toks = lex("1 + 2 * 3 - 4").ok().unwrap();
    assert!(matches!(toks[0].tok, Tok::Int(1)));
    let mut p = Parser::new(toks);
    let e = p.expr(0).ok().unwrap();
    assert_eq!(sexpr(&e), "(- (+ 1 (* 2 3)) 4)");
}

#[test]
fn an_expression_program_runs_to_its_value() {
    // `&&` takes the right operand once the left is true; `||` stops at a true left operand.
    let c = compile("(1 + 2) * 3 == 9 && 7 % 4 == 3 || false").ok().unwrap();
    assert_eq!(c.code.len(), 21);
    // 7 instructions for the comparison, 1 jump test, 5 for the second comparison, 1 jump,
    // then `||`: its negation and jump test, the pushed 1, and the final halt.
    assert_eq!(run(&c.code, c.nslots, 1000), Ok((1, 18)));
    let c = compile("false && 1 / 0 == 1").ok().unwrap();
    assert_eq!(run(&c.code, c.nslots, 1000), Ok((0, 4)));
}
