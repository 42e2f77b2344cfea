use ore_compiler::infer::{infer_fn, show, Infer, Scheme};
use ore_compiler::ore::parse_program;

const SRC: &str = "
fn add(a, b) { a + b }
fn pick(c, a, b) { if c { a } else { b } }
fn id(x) { x }
fn twice(f, x) { f(f(x)) }
fn fact(n) { if n < 2 { 1 } else { n * fact(n - 1) } }
fn use_them() {
    let w = if pick(false, true, false) { 1 } else { 0 };
    pick(true, 1, 2) + add(3, 4) + twice(id, 5) + w
}
fn self_apply(x) { x(x) }
fn branches(x) { if x { 1 } else { false } }
fn plus_bool(n) { n + true }";

#[test]
fn hindley_milner_schemes() {
    let items = parse_program(SRC).ok().unwrap();
    let mut inf = Infer::new();
    let mut globals: Vec<(String, Scheme)> = Vec::new();
    let mut shown = Vec::new();
    for f in &items {
        match infer_fn(&mut inf, &globals, f) {
            Ok(s) => {
                shown.push(show(&s.ty, &s.vars));
                globals.push((f.name.clone(), s));
            }
            Err(_) => shown.push("error".to_string()),
        }
    }
    assert_eq!(shown[0], "fn(int, int) -> int");
    assert_eq!(shown[1], "fn(bool, a, a) -> a");
    assert_eq!(shown[2], "fn(a) -> a");
    assert_eq!(shown[3], "fn(fn(a) -> a, a) -> a");
    assert_eq!(shown[4], "fn(int) -> int");
    assert_eq!(shown[5], "fn() -> int");
    assert_eq!(&shown[6..], &["error", "error", "error"]);
}
