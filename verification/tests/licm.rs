use ore_compiler::licm::{defined_in_loop, inst_debug, licm, may_trap, program, run, I};

#[test]
fn naive_and_safe_hoisting() {
    let mut naive = program();
    let mut safe = program();
    assert_eq!(licm(&mut naive, false), vec![
        "Op(\"nz\", \"a\", '!', \"zero\") from bb2".to_string(),
        "Op(\"q\", \"b\", '/', \"a\") from bb3".to_string(),
    ]);
    assert_eq!(licm(&mut safe, true), vec!["Op(\"nz\", \"a\", '!', \"zero\") from bb2".to_string()]);
    assert_eq!(naive[0].len(), 7);
    assert!(may_trap(&I::Op("q", "b", '/', "a")));
    assert!(defined_in_loop(&program(), "acc"));
    assert!(!defined_in_loop(&program(), "a"));
    assert_eq!(inst_debug(&I::Jmp(4)), "Jmp(4)");
}

#[test]
fn hoisting_a_division_breaks_a_correct_program() {
    let original = program();
    let mut naive = program();
    licm(&mut naive, false);
    let mut safe = program();
    licm(&mut safe, true);
    assert_eq!(run(&original, 1000, 2, 10, 1_000_000), Ok((5000, 1000)));
    assert_eq!(run(&original, 1000, 0, 10, 1_000_000), Ok((0, 0)));
    assert_eq!(run(&naive, 1000, 2, 10, 1_000_000), Ok((5000, 1)));
    assert_eq!(run(&naive, 1000, 0, 10, 1_000_000), Err("division by zero".to_string()));
    assert_eq!(run(&naive, 0, 0, 10, 1_000_000), Err("division by zero".to_string()));
    assert_eq!(run(&naive, 0, 5, 10, 1_000_000), Ok((0, 1)));
    for (n, a, b) in [(1000, 2, 10), (1000, 0, 10), (0, 0, 10), (0, 5, 10)] {
        assert_eq!(run(&safe, n, a, b, 1_000_000), run(&original, n, a, b, 1_000_000));
    }
}

#[test]
fn hoisting_moves_instructions_without_losing_any() {
    for safe in [false, true] {
        let original = program();
        let mut p = program();
        let moved = licm(&mut p, safe);
        let loop_len = |q: &Vec<Vec<I>>| q[1].len() + q[2].len() + q[3].len() + q[4].len();
        assert_eq!(p[0].len(), original[0].len() + moved.len());
        assert_eq!(loop_len(&p) + moved.len(), loop_len(&original));
        assert_eq!(p.len(), original.len());
    }
}
