use ore_compiler::ore::{lex, parse_program};
use ore_compiler::visitor::{walk_block, walk_expr, CallGraph};

#[test]
fn walking_a_block_visits_its_statements_then_its_tail() {
    let items = parse_program("fn f() -> int { let a = g(1); h(a) + k() }").ok().unwrap();
    let mut cg = CallGraph::new();
    walk_block(&mut cg, &items[0].body);
    let names: Vec<&str> = cg.calls.iter().map(|s| s.as_str()).collect();
    assert_eq!(names, vec!["g", "h", "k"]);
}

#[test]
fn walking_an_expression_visits_its_children_left_to_right() {
    let items = parse_program("fn f() -> int { p(q(1), r()) }").ok().unwrap();
    let tail = items[0].body.tail.as_ref().unwrap();
    let mut cg = CallGraph::new();
    walk_expr(&mut cg, tail);
    let names: Vec<&str> = cg.calls.iter().map(|s| s.as_str()).collect();
    // the call itself is not visited by the walk, only its callee and arguments
    assert_eq!(names, vec!["q", "r"]);
}

#[test]
fn lexical_error_spans() {
    let e = lex("1 + #").err().unwrap();
    assert_eq!((e.span.lo, e.span.hi), (4, 5));
    assert_eq!(e.msg, "unexpected character");
    let e = lex("x = 99999999999999999999;").err().unwrap();
    assert_eq!((e.span.lo, e.span.hi), (4, 24));
    assert_eq!(e.msg, "integer too large");
}
