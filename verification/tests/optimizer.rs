use ore_compiler::interp::run_ssa;
use ore_compiler::ir::Term;
use ore_compiler::lower::lower_fn;
use ore_compiler::opt::{count, dce, gvn, merge_blocks, simplify};
use ore_compiler::ore::parse_program;
use ore_compiler::ssa::{to_ssa, SsaFn};

const SRC: &str = "
fn demo(x: int) -> int {
    let scale = 4 * 25;
    let a = x * scale + 1;
    let b = x * scale + 1;
    let unused = a / 3;
    let debug = false;
    if debug { a } else { a + b }
}
fn guarded(x: int, d: int) -> int {
    let unused = x / d;
    if d != 0 { x / d } else { 0 }
}
fn sum_to(n: int) -> int {
    let mut i = 0;
    let mut total = 0;
    while i < n {
        i = i + 1;
        total = total + i;
    }
    total
}
fn classify(a: int, b: int) -> int {
    if a > 0 && b / a > 2 { 1 } else if a == 0 || b < 0 { 2 } else { 3 }
}";

fn build() -> Vec<SsaFn> {
    parse_program(SRC).ok().unwrap().iter().map(|f| to_ssa(&lower_fn(f))).collect()
}

#[test]
fn optimizing_keeps_every_answer() {
    let before = build();
    let mut after = build();
    for f in after.iter_mut() {
        simplify(f);
        gvn(f);
        dce(f);
        simplify(f);
        merge_blocks(f);
    }
    assert!(count(&after[0]) < count(&before[0]));
    let (mut s1, mut s2) = (0u64, 0u64);
    for x in -6..=6i64 {
        for y in -3..=9i64 {
            for (name, args) in [("demo", vec![x]), ("guarded", vec![x, y]), ("sum_to", vec![y]), ("classify", vec![x, y])] {
                assert_eq!(run_ssa(&before, name, &args, &mut s1), run_ssa(&after, name, &args, &mut s2), "{name}{args:?}");
            }
        }
    }
    assert!(s2 < s1);
    assert_eq!(run_ssa(&after, "demo", &[3], &mut 0), Ok(602));
    assert_eq!(run_ssa(&after, "sum_to", &[4], &mut 0), Ok(10));
    assert_eq!(run_ssa(&after, "classify", &[1, 5], &mut 0), Ok(1));
    assert_eq!(run_ssa(&after, "classify", &[0, 5], &mut 0), Ok(2));
    assert_eq!(run_ssa(&after, "classify", &[2, 1], &mut 0), Ok(3));
    assert!(run_ssa(&after, "guarded", &[1, 0], &mut 0).is_err()); // the dead `x / d` still traps
}

#[test]
fn listings_of_a_constant_function() {
    let items = parse_program("fn one() -> int { 1 }").ok().unwrap();
    let ir = lower_fn(&items[0]);
    assert_eq!(ore_compiler::dump::print_fn(&ir), vec!["fn one():".to_string(), "  bb0:".to_string(), "      return 1".to_string()]);
    let s = to_ssa(&ir);
    assert_eq!(ore_compiler::dump::print_ssa(&s), vec!["fn one (SSA):".to_string(), "  bb0:".to_string(), "      return 1".to_string()]);
}

#[test]
fn frontiers_of_an_if_else() {
    let items = parse_program("fn f(x: int) -> int { let mut y = 7; if x > 0 { y = 1; 5 } else { y } }").ok().unwrap();
    let ir = lower_fn(&items[0]);
    assert_eq!(ir.blocks.len(), 4);
    let idom = ore_compiler::ir::dominators(&ir);
    assert_eq!(idom, vec![0, 0, 0, 0]);
    let df = ore_compiler::ir::dominance_frontiers(&ir, &idom);
    assert_eq!(df, vec![vec![], vec![2], vec![], vec![2]]);
}

#[test]
fn simplify_leaves_nothing_to_rewrite() {
    let mut fs = build();
    for f in fs.iter_mut() {
        let n = simplify(f);
        assert!(n < usize::MAX);
        for b in &f.blocks {
            for i in &b.insts {
                assert!(!matches!(i, ore_compiler::ir::Inst::Copy { .. }));
            }
            assert!(!matches!(b.term, ore_compiler::ir::Term::Branch { cond: ore_compiler::ir::Val::Const(_), .. }));
        }
    }
}

#[test]
fn a_name_defined_twice_is_reported_at_the_second() {
    let src = "fn f() -> int { 1 }\nfn f() -> int { 2 }";
    let items = parse_program(src).ok().unwrap();
    let mut r = ore_compiler::resolver::Resolver::new();
    r.collect_items(&items, src);
    let d = r.diags();
    assert_eq!(d.len(), 1);
    assert_eq!(d[0].msg, "the name `f` is defined multiple times");
    assert_eq!(d[0].help.as_deref(), Some("previous definition of `f` is on line 1"));
    assert_eq!((d[0].span.lo, d[0].span.hi), (23, 24));
}

#[test]
fn cfg_and_ssa_runs_of_a_division() {
    let items = parse_program("fn f(x: int, d: int) -> int { x / d }").ok().unwrap();
    let ir = lower_fn(&items[0]);
    let cfg = std::slice::from_ref(&ir);
    let mut s = 0u64;
    assert_eq!(ore_compiler::interp::run(cfg, "f", &[7, 2], &mut s), Ok(3));
    assert_eq!(s, 2);
    assert_eq!(ore_compiler::interp::run(cfg, "f", &[1, 0], &mut 0), Err("division by zero in f".to_string()));
    assert_eq!(ore_compiler::interp::run(cfg, "f", &[5], &mut 0), Err("division by zero in f".to_string()));
    let ssa = vec![to_ssa(&ir)];
    let mut s = 0u64;
    assert_eq!(run_ssa(&ssa, "f", &[7, 2], &mut s), Ok(3));
    assert_eq!(s, 2);
    assert_eq!(run_ssa(&ssa, "f", &[-7, 2], &mut 0), Ok(-3));
    assert_eq!(run_ssa(&ssa, "f", &[1, 0], &mut 0), Err("division by zero".to_string()));
}

#[test]
fn ssa_form_runs_like_the_cfg() {
    let items = parse_program("fn f(x: int) -> int { let mut y = 7; if x > 0 { y = 1; 5 } else { y } }").ok().unwrap();
    let ir = lower_fn(&items[0]);
    let ssa = vec![to_ssa(&ir)];
    let cfg = std::slice::from_ref(&ir);
    assert_eq!(run_ssa(&ssa, "f", &[0], &mut 0), Ok(7));
    assert_eq!(run_ssa(&ssa, "f", &[3], &mut 0), Ok(5));
    assert_eq!(ore_compiler::interp::run(cfg, "f", &[0], &mut 0), Ok(7));
    assert_eq!(ore_compiler::interp::run(cfg, "f", &[3], &mut 0), Ok(5));
}

#[test]
fn lowering_needs_every_name_bound() {
    let ok = parse_program("fn f(x: int) -> int { let y = x + 1; g(y) }").ok().unwrap();
    assert!(ore_compiler::lower::lowerable_fn(&ok[0]));
    let bad = parse_program("fn f(x: int) -> int { y + x }").ok().unwrap();
    assert!(!ore_compiler::lower::lowerable_fn(&bad[0]));
    let src = "fn f() -> int { 1 }\nfn g() -> int { 2 }";
    let items = parse_program(src).ok().unwrap();
    assert!(ore_compiler::resolver::items_collectable(&items, src));
}

#[test]
fn lowered_loops_never_jump_back_to_the_entry() {
    let src = "fn f(n: int, step: int) -> int { let mut i = 0; while i < n { i = i + step; } i }";
    let items = parse_program(src).ok().unwrap();
    let ir = lower_fn(&items[0]);
    assert_eq!(ir.vars[0], "n");
    assert_eq!(ir.vars[1], "step");
    assert!(ir.blocks.len() > 1);
    for b in &ir.blocks {
        match b.term {
            Some(Term::Jump(x)) => assert_ne!(x, 0),
            Some(Term::Branch { then, els, .. }) => {
                assert_ne!(then, 0);
                assert_ne!(els, 0);
            }
            Some(Term::Return(_)) => {}
            None => panic!("unterminated block"),
        }
    }
}
