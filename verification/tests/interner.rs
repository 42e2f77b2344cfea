use ore_compiler::interner::{identifiers, Interner, Symbol};

#[test]
fn interning_round_trips() {
    let mut t = Interner::new();
    let a = t.intern("value_1");
    let b = t.intern("compute_total");
    let c = t.intern("value_1");
    assert_eq!((a, b, c), (Symbol(0), Symbol(1), Symbol(0)));
    assert_eq!(t.len(), 2);
    assert_eq!(t.resolve(a), "value_1");
    assert_eq!(t.resolve(b), "compute_total");
}

#[test]
fn identifiers_skip_numbers() {
    let words = identifiers("let value_1 = value_2 + f(value_1); 3x");
    assert_eq!(words, vec!["let", "value_1", "value_2", "f", "value_1"]);
    let mut t = Interner::new();
    let syms: Vec<Symbol> = words.iter().map(|w| t.intern(w)).collect();
    assert_eq!(t.len(), 4);
    assert_eq!(syms[1], syms[4]);
}
