use ore_compiler::emulator::emulate;
use ore_compiler::regalloc::{interpret, intervals, linear_scan, liveness, program, select, Loc};

fn lines(src: &[&str]) -> Vec<String> {
    src.iter().map(|s| s.to_string()).collect()
}

#[test]
fn interpreter_results() {
    let code = program();
    // a=4 b=6 c=12 d=10 e=8 f=80 g=18; each round adds 4i - 46, for i in 0..5
    assert_eq!(interpret(&code, &[5, 3, 4], 100_000), Some(-190));
    assert_eq!(interpret(&code, &[0, 1, 1], 100_000), Some(0));
    assert_eq!(interpret(&code, &[5, 3, 4], 3), None);
}

#[test]
fn every_allocation_computes_what_the_interpreter_computes() {
    let code = program();
    let live = liveness(&code);
    let ivs = intervals(&code, &live);
    let inputs = [[5i64, 3, 4], [0, 1, 1], [10, -7, 2], [3, 100, -50]];
    for k in [2usize, 3, 4, 6, 8, 12] {
        let loc = linear_scan(&ivs, k);
        let text = select(&code, &loc);
        for a in &inputs {
            let want = interpret(&code, a, 100_000).unwrap();
            assert_eq!(emulate(&text, a, 1_000_000).map(|r| r.0), Some(want), "K={k} args={a:?}");
        }
    }
}

#[test]
fn allocations_respect_the_register_budget() {
    let code = program();
    let live = liveness(&code);
    let ivs = intervals(&code, &live);
    assert_eq!(ivs.len(), 16);
    let spills = |k: usize| linear_scan(&ivs, k).iter().filter(|(_, l)| matches!(l, Loc::Slot(_))).count();
    assert_eq!(spills(12), 0);
    assert!(spills(2) > 0);
    for (v, l) in linear_scan(&ivs, 3) {
        if let Loc::Reg(r) = l {
            assert!(r < 3, "v{v} in r{r}");
        }
    }
    // more registers never spill more
    assert!(spills(2) >= spills(4));
}

#[test]
fn emulator_basics() {
    assert_eq!(emulate(&lines(&["mov rax, 5", "ret"]), &[], 10), Some((5, 0)));
    assert_eq!(emulate(&lines(&["mov [rsp+0], 7", "mov rax, [rsp+0]", "ret"]), &[], 10), Some((7, 2)));
    assert_eq!(emulate(&lines(&["mov rax, [args+8]", "imul rax, 3", "sub rax, 1", "ret"]), &[4, 5], 10), Some((14, 1)));
    let branchy = lines(&[".L0:", "mov rax, 1", "cmp rax, 0", "jge .L1", "mov rax, 2", ".L1:", "ret"]);
    assert_eq!(emulate(&branchy, &[], 100), Some((1, 0)));
}

#[test]
fn emulator_failures() {
    assert_eq!(emulate(&lines(&["ret"]), &[], 10), None); // rax never written
    assert_eq!(emulate(&lines(&["nop", "ret"]), &[], 10), None); // unknown mnemonic
    assert_eq!(emulate(&lines(&["jmp .L9"]), &[], 10), None); // no such label
    assert_eq!(emulate(&lines(&[".L0:", "jmp .L0"]), &[], 1000), None); // never returns
    assert_eq!(emulate(&lines(&["mov rax, 1"]), &[], 10), None); // runs off the end
}
