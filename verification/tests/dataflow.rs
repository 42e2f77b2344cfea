use ore_compiler::dataflow::{definite_assignment, liveness, set_str, Cfg, Ev};

fn diamond() -> Cfg {
    Cfg {
        names: vec!["c", "x", "y"],
        blocks: vec![
            (vec![Ev::Use(0)], vec![1, 2]),
            (vec![Ev::Def(1)], vec![3]),
            (vec![], vec![3]),
            (vec![Ev::Use(1), Ev::Def(2)], vec![]),
        ],
    }
}

fn sum_to() -> Cfg {
    let (Def, Use) = (Ev::Def, Ev::Use);
    Cfg {
        names: vec!["n", "i", "total", "%0", "%1", "%2"],
        blocks: vec![
            (vec![Def(1), Def(2)], vec![1]),
            (vec![Use(1), Use(0), Def(3), Use(3)], vec![2, 3]),
            (vec![Use(1), Def(4), Use(4), Def(1), Use(2), Use(1), Def(5), Use(5), Def(2)], vec![1]),
            (vec![Use(2)], vec![]),
        ],
    }
}

#[test]
fn possibly_unassigned_use_is_found() {
    let cfg = diamond();
    let (ins, _, unassigned) = definite_assignment(&cfg, 1);
    assert_eq!(ins, vec![1, 1, 1, 1]);
    assert_eq!(unassigned, vec![(1, 3)]);
    assert_eq!(set_str(&cfg, ins[3]), "{c}");
    let (_, _, none) = definite_assignment(&sum_to(), 1);
    assert!(none.is_empty());
}

#[test]
fn liveness_needs_the_back_edge() {
    let cfg = sum_to();
    let (live, rounds) = liveness(&cfg);
    assert_eq!(live, vec![1, 7, 7, 4]);
    assert!(rounds >= 2);
    assert_eq!(set_str(&cfg, live[1]), "{n,i,total}");
}

#[test]
fn iteration_counts_are_exact() {
    // The diamond settles in one round; the second round changes nothing.
    let (_, rounds, _) = definite_assignment(&diamond(), 1);
    assert_eq!(rounds, 2);
    // The back edge brings `n` into the loop body in the second round; the third changes nothing.
    let (_, rounds) = liveness(&sum_to());
    assert_eq!(rounds, 3);
}
