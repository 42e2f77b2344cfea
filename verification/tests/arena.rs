use ore_compiler::arena::{bump_new, eval_arena, eval_box, eval_bump, Arena, BoxB, BumpB, P};

#[test]
fn three_stores_give_one_value() {
    let env = [5i64, 9, 2];
    for i in 0..50u64 {
        let src = format!("(a + {}) * (b - {}) / {} + c * {} - {}", i % 97, i % 13, 1 + i % 5, i % 7, i % 11);
        let tree = P { s: src.as_bytes(), i: 0 }.expr(&mut BoxB).unwrap();
        let mut arena = Arena { nodes: Vec::new() };
        let root = P { s: src.as_bytes(), i: 0 }.expr(&mut arena).unwrap();
        let bump = bump_new();
        let mut bb = BumpB { bump: &bump };
        let bt = P { s: src.as_bytes(), i: 0 }.expr(&mut bb).unwrap();
        let v = eval_box(&tree, &env);
        assert_eq!(eval_arena(&arena.nodes, root, &env), v);
        assert_eq!(eval_bump(bt, &env), v);
    }
    let src = "(a + 12) * (b - 7) / 3 + c * 2 - 4";
    let tree = P { s: src.as_bytes(), i: 0 }.expr(&mut BoxB).unwrap();
    assert_eq!(eval_box(&tree, &env), 11); // 17 * 2 / 3 + 4 - 4
}
