use ore_compiler::let_order::{eval, resolve, Let, E, R};

fn prog() -> Vec<Let> {
    vec![
        Let { name: "x", init: E::Num(1) },
        Let { name: "x", init: E::Add(Box::new(E::Var("x")), Box::new(E::Num(1))) },
        Let { name: "y", init: E::Add(Box::new(E::Var("x")), Box::new(E::Var("x"))) },
    ]
}

fn y_of(declare_before_init: bool) -> i64 {
    let p = prog();
    let resolved = resolve(&p, declare_before_init);
    let mut slots = vec![0i64; p.len()];
    for (slot, r) in &resolved {
        slots[*slot] = eval(r, &slots);
    }
    slots[2]
}

#[test]
fn scope_order_decides_what_x_means() {
    assert_eq!(y_of(false), 4);
    assert_eq!(y_of(true), 2); // `let x = x + 1` read its own, still-zero slot
    let r = resolve(&prog(), true);
    assert!(matches!(&r[1].1, R::Add(a, _) if matches!(**a, R::Slot(1))));
    let r = resolve(&prog(), false);
    assert!(matches!(&r[1].1, R::Add(a, _) if matches!(**a, R::Slot(0))));
}
