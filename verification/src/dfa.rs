//! A lexer as a DFA, in the shape lexer generators produce: a byte-to-class table, a
//! (state, class)-to-state table, and a longest-match loop that remembers the last accepting
//! state. Beside it stands the hand-written scanner with the same rules; the two agree on
//! every input.

use vstd::prelude::*;

verus! {

#[derive(Debug, Clone, Copy, PartialEq, Eq, Structural)]
pub enum Kind {
    Ident,
    Int,
    Op,
    Error,
}

// Character classes.
pub const LETTER: u8 = 0;
pub const DIGIT: u8 = 1;
pub const LT: u8 = 2;
pub const GT: u8 = 3;
pub const EQ: u8 = 4;
pub const BANG: u8 = 5;
pub const MINUS: u8 = 6;
pub const AMP: u8 = 7;
pub const PIPE: u8 = 8;
pub const SINGLE: u8 = 9;
pub const OTHER: u8 = 10;
pub const NCLASS: usize = 11;

// States; `DEAD` means there is no transition.
pub const START: u8 = 0;
pub const S_IDENT: u8 = 1;
pub const S_INT: u8 = 2;
pub const S_LT: u8 = 3;
pub const S_GT: u8 = 4;
pub const S_EQ: u8 = 5;
pub const S_BANG: u8 = 6;
pub const S_MINUS: u8 = 7;
pub const S_AMP: u8 = 8;
pub const S_PIPE: u8 = 9;
pub const S_TWO: u8 = 10;
pub const S_SINGLE: u8 = 11;
pub const NSTATE: usize = 12;
pub const DEAD: u8 = 255;

pub open spec fn is_ws(c: u8) -> bool {
    c == 32 || c == 9 || c == 10 || c == 12 || c == 13
}

pub open spec fn is_digit(c: u8) -> bool {
    48 <= c <= 57
}

pub open spec fn is_alpha(c: u8) -> bool {
    (65 <= c <= 90) || (97 <= c <= 122)
}

/// A byte that may continue an identifier.
pub open spec fn is_word(c: u8) -> bool {
    is_alpha(c) || is_digit(c) || c == 95
}

/// The class of a byte.
pub open spec fn class_of(c: u8) -> u8 {
    if is_alpha(c) || c == 95 { LETTER }
    else if is_digit(c) { DIGIT }
    else if c == 60 { LT } else if c == 62 { GT } else if c == 61 { EQ }
    else if c == 33 { BANG } else if c == 45 { MINUS } else if c == 38 { AMP }
    else if c == 124 { PIPE }
    else if c == 43 || c == 42 || c == 47 || c == 37 || c == 40 || c == 41 || c == 123 || c == 125
        || c == 44 || c == 59 || c == 58 { SINGLE }
    else { OTHER }
}

/// The transition table.
pub open spec fn trans(s: u8, k: u8) -> u8 {
    if s == START {
        if k == LETTER { S_IDENT } else if k == DIGIT { S_INT } else if k == LT { S_LT }
        else if k == GT { S_GT } else if k == EQ { S_EQ } else if k == BANG { S_BANG }
        else if k == MINUS { S_MINUS } else if k == AMP { S_AMP } else if k == PIPE { S_PIPE }
        else if k == SINGLE { S_SINGLE } else { DEAD }
    } else if s == S_IDENT && (k == LETTER || k == DIGIT) {
        S_IDENT
    } else if s == S_INT && k == DIGIT {
        S_INT
    } else if (s == S_LT || s == S_GT || s == S_EQ || s == S_BANG) && k == EQ {
        S_TWO
    } else if s == S_MINUS && k == GT {
        S_TWO
    } else if s == S_AMP && k == AMP {
        S_TWO
    } else if s == S_PIPE && k == PIPE {
        S_TWO
    } else {
        DEAD
    }
}

/// What each state accepts if the input stops there; a lone `&` or `|` accepts nothing.
pub open spec fn accept_of(s: u8) -> Option<Kind> {
    if s == S_IDENT { Some(Kind::Ident) }
    else if s == S_INT { Some(Kind::Int) }
    else if s == S_LT || s == S_GT || s == S_EQ || s == S_BANG || s == S_MINUS || s == S_TWO || s == S_SINGLE { Some(Kind::Op) }
    else { None }
}

/// The longest-match loop from position `j` in state `st`, with the last accepting end
/// seen so far.
pub open spec fn scan(src: Seq<u8>, j: int, st: u8, last: Option<(Kind, int)>) -> Option<(Kind, int)>
    decreases src.len() - j,
{
    if j < 0 || j >= src.len() {
        last
    } else {
        let nx = trans(st, class_of(src[j]));
        if nx == DEAD {
            last
        } else {
            scan(src, j + 1, nx, match accept_of(nx) { Some(k) => Some((k, j + 1)), None => last })
        }
    }
}

pub proof fn lemma_scan_ends(src: Seq<u8>, j: int, st: u8, last: Option<(Kind, int)>, lo: int)
    requires 0 <= j, last matches Some(p) ==> p.1 > lo, j > lo,
    ensures scan(src, j, st, last) matches Some(p) ==> p.1 > lo,
    decreases src.len() - j,
{
    if j < src.len() {
        let nx = trans(st, class_of(src[j]));
        if nx != DEAD {
            lemma_scan_ends(src, j + 1, nx, match accept_of(nx) { Some(k) => Some((k, j + 1)), None => last }, lo);
        }
    }
}

/// The tokens the DFA lexer gives from position `i` on.
pub open spec fn dfa_tokens(src: Seq<u8>, i: int) -> Seq<(Kind, usize, usize)>
    decreases src.len() - i,
{
    if i < 0 || i >= src.len() {
        Seq::empty()
    } else if is_ws(src[i]) {
        dfa_tokens(src, i + 1)
    } else {
        match scan(src, i, START, None) {
            Some((k, e)) => {
                proof { lemma_scan_ends(src, i, START, None, i - 1); }
                if i < e <= src.len() {
                    seq![(k, i as usize, e as usize)] + dfa_tokens(src, e)
                } else {
                    Seq::empty()
                }
            },
            None => seq![(Kind::Error, i as usize, (i + 1) as usize)] + dfa_tokens(src, i + 1),
        }
    }
}

/// The end of the run of digits that starts at `j`.
pub open spec fn digits_end(src: Seq<u8>, j: int) -> int
    decreases src.len() - j,
{
    if 0 <= j < src.len() && is_digit(src[j]) { digits_end(src, j + 1) } else { j }
}

/// The end of the run of word bytes that starts at `j`.
pub open spec fn word_end(src: Seq<u8>, j: int) -> int
    decreases src.len() - j,
{
    if 0 <= j < src.len() && is_word(src[j]) { word_end(src, j + 1) } else { j }
}

pub proof fn lemma_digits_end(src: Seq<u8>, j: int)
    ensures digits_end(src, j) >= j, 0 <= j ==> digits_end(src, j) <= src.len() || digits_end(src, j) == j,
    decreases src.len() - j,
{
    if 0 <= j < src.len() && is_digit(src[j]) { lemma_digits_end(src, j + 1); }
}

pub proof fn lemma_word_end(src: Seq<u8>, j: int)
    ensures word_end(src, j) >= j, 0 <= j ==> word_end(src, j) <= src.len() || word_end(src, j) == j,
    decreases src.len() - j,
{
    if 0 <= j < src.len() && is_word(src[j]) { lemma_word_end(src, j + 1); }
}

/// A two-byte operator starts at `i`.
pub open spec fn two_at(src: Seq<u8>, i: int) -> bool {
    let c = src[i];
    i + 1 < src.len() && {
        let d = src[i + 1];
        ((c == 60 || c == 62 || c == 61 || c == 33) && d == 61) || (c == 45 && d == 62)
            || (c == 38 && d == 38) || (c == 124 && d == 124)
    }
}

/// The tokens the hand-written scanner gives from position `i` on.
pub open spec fn hand_tokens(src: Seq<u8>, i: int) -> Seq<(Kind, usize, usize)>
    decreases src.len() - i,
{
    if i < 0 || i >= src.len() {
        Seq::empty()
    } else {
        let c = src[i];
        if is_ws(c) {
            hand_tokens(src, i + 1)
        } else if is_digit(c) {
            let e = digits_end(src, i);
            proof { lemma_digits_end(src, i + 1); }
            seq![(Kind::Int, i as usize, e as usize)] + hand_tokens(src, e)
        } else if is_alpha(c) || c == 95 {
            let e = word_end(src, i);
            proof { lemma_word_end(src, i + 1); }
            seq![(Kind::Ident, i as usize, e as usize)] + hand_tokens(src, e)
        } else {
            let two = two_at(src, i);
            let ok = two || (class_of(c) != OTHER && c != 38 && c != 124);
            let e = if two { i + 2 } else { i + 1 };
            seq![(if ok { Kind::Op } else { Kind::Error }, i as usize, e as usize)] + hand_tokens(src, e)
        }
    }
}

fn is_ws_byte(c: u8) -> (r: bool)
    ensures r == is_ws(c),
{
    c == 32 || c == 9 || c == 10 || c == 12 || c == 13
}

fn class_byte(c: u8) -> (r: u8)
    ensures r == class_of(c),
{
    if (65 <= c && c <= 90) || (97 <= c && c <= 122) || c == 95 { LETTER }
    else if 48 <= c && c <= 57 { DIGIT }
    else if c == 60 { LT } else if c == 62 { GT } else if c == 61 { EQ }
    else if c == 33 { BANG } else if c == 45 { MINUS } else if c == 38 { AMP }
    else if c == 124 { PIPE }
    else if c == 43 || c == 42 || c == 47 || c == 37 || c == 40 || c == 41 || c == 123 || c == 125
        || c == 44 || c == 59 || c == 58 { SINGLE }
    else { OTHER }
}

/// The byte-to-class table: entry `b` is the class of byte `b`.
pub fn build_classes() -> (t: Vec<u8>)
    ensures t@.len() == 256, forall|b: int| 0 <= b < 256 ==> #[trigger] t@[b] == class_of(b as u8),
{
    let mut t: Vec<u8> = Vec::new();
    let mut b: u32 = 0;
    while b < 256
        invariant b <= 256, t@.len() == b, forall|x: int| 0 <= x < b ==> #[trigger] t@[x] == class_of(x as u8),
        decreases 256 - b,
    {
        t.push(class_byte(b as u8));
        b += 1;
    }
    t
}

fn trans_entry(s: u8, k: u8) -> (r: u8)
    ensures r == trans(s, k),
{
    if s == START {
        if k == LETTER { S_IDENT } else if k == DIGIT { S_INT } else if k == LT { S_LT }
        else if k == GT { S_GT } else if k == EQ { S_EQ } else if k == BANG { S_BANG }
        else if k == MINUS { S_MINUS } else if k == AMP { S_AMP } else if k == PIPE { S_PIPE }
        else if k == SINGLE { S_SINGLE } else { DEAD }
    } else if s == S_IDENT && (k == LETTER || k == DIGIT) {
        S_IDENT
    } else if s == S_INT && k == DIGIT {
        S_INT
    } else if (s == S_LT || s == S_GT || s == S_EQ || s == S_BANG) && k == EQ {
        S_TWO
    } else if s == S_MINUS && k == GT {
        S_TWO
    } else if s == S_AMP && k == AMP {
        S_TWO
    } else if s == S_PIPE && k == PIPE {
        S_TWO
    } else {
        DEAD
    }
}

/// The transition table: row `s`, column `k` is the state after class `k` in state `s`.
pub fn build_table() -> (t: Vec<Vec<u8>>)
    ensures
        t@.len() == NSTATE,
        forall|s: int| 0 <= s < NSTATE ==> (#[trigger] t@[s])@.len() == NCLASS,
        forall|s: int, k: int| 0 <= s < NSTATE && 0 <= k < NCLASS ==> #[trigger] t@[s]@[k] == trans(s as u8, k as u8),
{
    let mut t: Vec<Vec<u8>> = Vec::new();
    let mut s: usize = 0;
    while s < NSTATE
        invariant
            s <= NSTATE, t@.len() == s,
            forall|x: int| 0 <= x < s ==> (#[trigger] t@[x])@.len() == NCLASS,
            forall|x: int, k: int| 0 <= x < s && 0 <= k < NCLASS ==> #[trigger] t@[x]@[k] == trans(x as u8, k as u8),
        decreases NSTATE - s,
    {
        let mut row: Vec<u8> = Vec::new();
        let mut k: usize = 0;
        while k < NCLASS
            invariant
                k <= NCLASS, s < NSTATE, row@.len() == k,
                forall|y: int| 0 <= y < k ==> #[trigger] row@[y] == trans(s as u8, y as u8),
            decreases NCLASS - k,
        {
            row.push(trans_entry(s as u8, k as u8));
            k += 1;
        }
        t.push(row);
        s += 1;
    }
    t
}

/// What a state accepts.
pub fn accepting(s: u8) -> (r: Option<Kind>)
    ensures r == accept_of(s),
{
    if s == S_IDENT { Some(Kind::Ident) }
    else if s == S_INT { Some(Kind::Int) }
    else if s == S_LT || s == S_GT || s == S_EQ || s == S_BANG || s == S_MINUS || s == S_TWO || s == S_SINGLE { Some(Kind::Op) }
    else { None }
}

proof fn lemma_trans_range(s: u8, k: u8)
    ensures trans(s, k) == DEAD || trans(s, k) < NSTATE,
{
}

/// The DFA lexer: skips whitespace, then takes the longest match from each position; a
/// byte where nothing matches is an error token of length one.
pub fn lex_dfa(src: &[u8]) -> (out: Vec<(Kind, usize, usize)>)
    ensures out@ == dfa_tokens(src@, 0),
{
    let classes = build_classes();
    let table = build_table();
    let mut out: Vec<(Kind, usize, usize)> = Vec::new();
    let mut i: usize = 0;
    let n = src.len();
    while i < n
        invariant
            i <= n, n == src@.len(),
            out@ + dfa_tokens(src@, i as int) == dfa_tokens(src@, 0),
            classes@.len() == 256, forall|b: int| 0 <= b < 256 ==> #[trigger] classes@[b] == class_of(b as u8),
            table@.len() == NSTATE,
            forall|s: int| 0 <= s < NSTATE ==> (#[trigger] table@[s])@.len() == NCLASS,
            forall|s: int, k: int| 0 <= s < NSTATE && 0 <= k < NCLASS ==> #[trigger] table@[s]@[k] == trans(s as u8, k as u8),
        decreases n - i,
    {
        if is_ws_byte(src[i]) {
            i += 1;
            continue;
        }
        let mut state: u8 = START;
        let mut j: usize = i;
        let mut last: Option<(Kind, usize)> = None;
        while j < n
            invariant
                i <= j <= n, n == src@.len(), i < n, state < NSTATE,
                last matches Some(p) ==> i < p.1 <= j,
                scan(src@, j as int, state, match last { Some(p) => Some((p.0, p.1 as int)), None => None })
                    == scan(src@, i as int, START, None),
                classes@.len() == 256, forall|b: int| 0 <= b < 256 ==> #[trigger] classes@[b] == class_of(b as u8),
                table@.len() == NSTATE,
                forall|s: int| 0 <= s < NSTATE ==> (#[trigger] table@[s])@.len() == NCLASS,
                forall|s: int, k: int| 0 <= s < NSTATE && 0 <= k < NCLASS ==> #[trigger] table@[s]@[k] == trans(s as u8, k as u8),
            ensures
                scan(src@, i as int, START, None) == (match last { Some(p) => Some((p.0, p.1 as int)), None => None::<(Kind, int)> }),
                last matches Some(p) ==> i < p.1 <= n,
            decreases n - j,
        {
            let cls = classes[src[j] as usize];
            assert(cls == class_of(src@[j as int]));
            assert(cls < NCLASS);
            let next = table[state as usize][cls as usize];
            assert(next == trans(state, cls));
            if next == DEAD {
                break;
            }
            proof { lemma_trans_range(state, cls); }
            state = next;
            j += 1;
            if let Some(k) = accepting(state) {
                last = Some((k, j));
            }
        }
        match last {
            Some((k, end)) => {
                out.push((k, i, end));
                proof {
                    assert(dfa_tokens(src@, i as int) == seq![(k, i, end)] + dfa_tokens(src@, end as int));
                    assert(out@ + dfa_tokens(src@, end as int) =~= dfa_tokens(src@, 0));
                }
                i = end;
            },
            None => {
                out.push((Kind::Error, i, i + 1));
                proof {
                    assert(out@ + dfa_tokens(src@, i + 1) =~= dfa_tokens(src@, 0));
                }
                i += 1;
            },
        }
    }
    out
}

/// The hand-written scanner with the same rules.
pub fn lex_by_hand(src: &[u8]) -> (out: Vec<(Kind, usize, usize)>)
    ensures out@ == hand_tokens(src@, 0),
{
    let classes = build_classes();
    let mut out: Vec<(Kind, usize, usize)> = Vec::new();
    let mut i: usize = 0;
    let n = src.len();
    while i < n
        invariant
            i <= n, n == src@.len(),
            out@ + hand_tokens(src@, i as int) == hand_tokens(src@, 0),
            classes@.len() == 256, forall|b: int| 0 <= b < 256 ==> #[trigger] classes@[b] == class_of(b as u8),
        decreases n - i,
    {
        let c = src[i];
        let start = i;
        if is_ws_byte(c) {
            i += 1;
            continue;
        }
        let kind = if 48 <= c && c <= 57 {
            while i < n && 48 <= src[i] && src[i] <= 57
                invariant start <= i <= n, n == src@.len(), digits_end(src@, i as int) == digits_end(src@, start as int),
                decreases n - i,
            {
                i += 1;
            }
            Kind::Int
        } else if (65 <= c && c <= 90) || (97 <= c && c <= 122) || c == 95 {
            while i < n && ((65 <= src[i] && src[i] <= 90) || (97 <= src[i] && src[i] <= 122)
                || (48 <= src[i] && src[i] <= 57) || src[i] == 95)
                invariant start <= i <= n, n == src@.len(), word_end(src@, i as int) == word_end(src@, start as int),
                decreases n - i,
            {
                i += 1;
            }
            Kind::Ident
        } else {
            let two = i + 1 < n && {
                let d = src[i + 1];
                ((c == 60 || c == 62 || c == 61 || c == 33) && d == 61) || (c == 45 && d == 62)
                    || (c == 38 && d == 38) || (c == 124 && d == 124)
            };
            assert(two == two_at(src@, i as int));
            let ok = two || (classes[c as usize] != OTHER && c != 38 && c != 124);
            i += if two { 2 } else { 1 };
            if ok { Kind::Op } else { Kind::Error }
        };
        out.push((kind, start, i));
        assert(out@ + hand_tokens(src@, i as int) =~= hand_tokens(src@, 0));
    }
    out
}

proof fn lemma_int_scan(src: Seq<u8>, j: int)
    requires 0 < j <= src.len(),
    ensures scan(src, j, S_INT, Some((Kind::Int, j))) == Some((Kind::Int, digits_end(src, j))),
    decreases src.len() - j,
{
    if j < src.len() && is_digit(src[j]) {
        lemma_int_scan(src, j + 1);
    }
}

proof fn lemma_ident_scan(src: Seq<u8>, j: int)
    requires 0 < j <= src.len(),
    ensures scan(src, j, S_IDENT, Some((Kind::Ident, j))) == Some((Kind::Ident, word_end(src, j))),
    decreases src.len() - j,
{
    if j < src.len() && is_word(src[j]) {
        lemma_ident_scan(src, j + 1);
    }
}

proof fn lemma_op_scan(src: Seq<u8>, i: int)
    requires
        0 <= i < src.len(), !is_ws(src[i]), !is_digit(src[i]), !(is_alpha(src[i]) || src[i] == 95),
    ensures
        scan(src, i, START, None) == (if two_at(src, i) {
            Some((Kind::Op, i + 2))
        } else if class_of(src[i]) != OTHER && src[i] != 38 && src[i] != 124 {
            Some((Kind::Op, i + 1))
        } else {
            None::<(Kind, int)>
        }),
{
    let c = src[i];
    let k = class_of(c);
    let s1 = trans(START, k);
    if s1 != DEAD {
        let l1 = match accept_of(s1) { Some(a) => Some((a, i + 1)), None => None::<(Kind, int)> };
        assert(scan(src, i, START, None) == scan(src, i + 1, s1, l1));
        if i + 1 < src.len() {
            let d = src[i + 1];
            let s2 = trans(s1, class_of(d));
            if s2 != DEAD {
                assert(s2 == S_TWO);
                assert(scan(src, i + 1, s1, l1) == scan(src, i + 2, S_TWO, Some((Kind::Op, i + 2))));
                if i + 2 < src.len() {
                    assert(trans(S_TWO, class_of(src[i + 2])) == DEAD);
                }
            }
        }
    }
}

proof fn lemma_agree(src: Seq<u8>, i: int)
    requires 0 <= i,
    ensures dfa_tokens(src, i) == hand_tokens(src, i),
    decreases src.len() - i,
{
    if i < src.len() {
        let c = src[i];
        if is_ws(c) {
            lemma_agree(src, i + 1);
        } else if is_digit(c) {
            lemma_int_scan(src, i + 1);
            lemma_digits_end(src, i + 1);
            assert(scan(src, i, START, None) == scan(src, i + 1, S_INT, Some((Kind::Int, i + 1))));
            lemma_agree(src, digits_end(src, i));
        } else if is_alpha(c) || c == 95 {
            lemma_ident_scan(src, i + 1);
            lemma_word_end(src, i + 1);
            assert(scan(src, i, START, None) == scan(src, i + 1, S_IDENT, Some((Kind::Ident, i + 1))));
            lemma_agree(src, word_end(src, i));
        } else {
            lemma_op_scan(src, i);
            if two_at(src, i) {
                lemma_agree(src, i + 2);
            } else {
                lemma_agree(src, i + 1);
            }
        }
    }
}

/// The DFA lexer and the hand-written scanner give the same tokens on every input.
pub proof fn law_dfa_agrees_with_hand(src: Seq<u8>)
    ensures dfa_tokens(src, 0) == hand_tokens(src, 0),
{
    lemma_agree(src, 0);
}

} // verus!
