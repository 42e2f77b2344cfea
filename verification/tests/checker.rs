use ore_compiler::checker::Checker;
use ore_compiler::ore::parse_program;

const SRC: &str = "fn add(a: int, b: int) -> int { a + b }

fn good(flag: bool) -> int {
    let n = add(2, 3) * 4;
    let big = n > 10;
    let v: int = if flag { n } else { return 0 };
    if big && flag { v } else { -v }
}

fn main() -> int {
    let flag = 3 > 2;
    let total: int = if flag { 10 } else { false };
    let y = add(1);
    let z = flag + 1;
    let w = z * 2;
    while total { }
    if flag { return true; }
    total
}";

#[test]
fn errors_per_function() {
    let items = parse_program(SRC).ok().unwrap();
    let mut ck = Checker::new(SRC, &items);
    let mut counts = Vec::new();
    for f in &items {
        let before = ck.errors.len();
        ck.check_fn(f);
        counts.push(ck.errors.len() - before);
    }
    assert_eq!(counts[0], 0);
    assert_eq!(counts[1], 0);
    assert!(counts[2] >= 4);
}
