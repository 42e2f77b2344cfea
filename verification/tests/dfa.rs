use ore_compiler::dfa::Kind::{Error, Ident, Int, Op};
use ore_compiler::dfa::{build_classes, build_table, lex_by_hand, lex_dfa, Kind, DEAD, DIGIT, LETTER, NCLASS, NSTATE, START, S_IDENT};

#[test]
fn tables() {
    let c = build_classes();
    assert_eq!(c.len(), 256);
    assert_eq!(c[b'a' as usize], LETTER);
    assert_eq!(c[b'_' as usize], LETTER);
    assert_eq!(c[b'7' as usize], DIGIT);
    let t = build_table();
    assert_eq!((t.len(), t[0].len()), (NSTATE, NCLASS));
    assert_eq!(t[START as usize][LETTER as usize], S_IDENT);
    assert_eq!(t[S_IDENT as usize][DIGIT as usize], S_IDENT);
    assert_eq!(t[START as usize][10], DEAD);
}

#[test]
fn longest_match() {
    assert_eq!(lex_dfa(b"<=>"), vec![(Op, 0, 2), (Op, 2, 3)]);
    assert_eq!(lex_dfa(b"12ab"), vec![(Int, 0, 2), (Ident, 2, 4)]);
    assert_eq!(lex_dfa(b"x & y"), vec![(Ident, 0, 1), (Error, 2, 3), (Ident, 4, 5)]);
    assert_eq!(lex_dfa(b"a&&b||c"), vec![(Ident, 0, 1), (Op, 1, 3), (Ident, 3, 4), (Op, 4, 6), (Ident, 6, 7)]);
    assert_eq!(lex_dfa(b"  "), vec![]);
}

#[test]
fn dfa_and_hand_written_lexers_agree() {
    let src = "fn f(a1: int) -> int { a1<=b->c && d||!e == 42 }  x & y";
    assert_eq!(lex_dfa(src.as_bytes()), lex_by_hand(src.as_bytes()));
    let mut seed = 0x2545F4914F6CDD1Du64;
    let alphabet = b"ab1_ <=>!-&|+*(){};:\n";
    for _ in 0..500 {
        let s: Vec<u8> = (0..40)
            .map(|_| {
                seed ^= seed << 13;
                seed ^= seed >> 7;
                seed ^= seed << 17;
                alphabet[(seed % alphabet.len() as u64) as usize]
            })
            .collect();
        assert_eq!(lex_dfa(&s), lex_by_hand(&s));
    }
}
