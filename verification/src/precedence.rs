//! A binding-power table decides what a rule means. With one wrong row `&&` and `||` bind
//! equally strongly, and a review rule silently changes meaning; running both tables side
//! by side and comparing the decisions shows it.

use vstd::prelude::*;
use vstd::string::{StringExecFns, StrSliceExecFns};
use crate::regalloc::{numeral, parse_i64};
use crate::spans::{unicode_white, char_is_whitespace, push_char, chars_vec};
use crate::text::{ascii_chars, int_text, int_to_string, text_is};

verus! {

/// A rule: numbers, variables, and binary operators.
#[derive(Debug)]
pub enum E {
    Num(i64),
    Var(String),
    Bin(&'static str, Box<E>, Box<E>),
}

/// A rule as a value: variables and operators by their text.
pub enum Ex {
    Num(i64),
    Var(Seq<char>),
    Bin(Seq<char>, Box<Ex>, Box<Ex>),
}

pub open spec fn ex_of(e: E) -> Ex
    decreases e,
{
    match e {
        E::Num(n) => Ex::Num(n),
        E::Var(v) => Ex::Var(v@),
        E::Bin(op, a, b) => Ex::Bin(op@, Box::new(ex_of(*a)), Box::new(ex_of(*b))),
    }
}

/// Which binding-power table a parse uses.
#[derive(Debug, Clone, Copy, PartialEq, Eq, Structural)]
pub enum Table {
    Correct,
    Buggy,
}

pub open spec fn correct_bp_spec(op: Seq<char>) -> Option<(u8, u8)> {
    if op == "||"@ { Some((1u8, 2u8)) }
    else if op == "&&"@ { Some((3u8, 4u8)) }
    else if op == "<"@ || op == ">"@ { Some((5u8, 6u8)) }
    else { None }
}

pub open spec fn buggy_bp_spec(op: Seq<char>) -> Option<(u8, u8)> {
    if op == "||"@ || op == "&&"@ { Some((1u8, 2u8)) }
    else if op == "<"@ || op == ">"@ { Some((5u8, 6u8)) }
    else { None }
}

pub open spec fn table_bp(t: Table, op: Seq<char>) -> Option<(u8, u8)> {
    match t {
        Table::Correct => correct_bp_spec(op),
        Table::Buggy => buggy_bp_spec(op),
    }
}

/// The binding powers of the correct table: `&&` binds tighter than `||`.
pub fn correct_bp(op: &str) -> (r: Option<(u8, u8)>)
    ensures r == correct_bp_spec(op@),
{
    if text_is(op, "||") { Some((1, 2)) }
    else if text_is(op, "&&") { Some((3, 4)) }
    else if text_is(op, "<") || text_is(op, ">") { Some((5, 6)) }
    else { None }
}

/// The binding powers of the buggy table: `&&` and `||` share a row.
pub fn buggy_bp(op: &str) -> (r: Option<(u8, u8)>)
    ensures r == buggy_bp_spec(op@),
{
    if text_is(op, "||") || text_is(op, "&&") { Some((1, 2)) }
    else if text_is(op, "<") || text_is(op, ">") { Some((5, 6)) }
    else { None }
}

fn lookup_bp(t: Table, op: &str) -> (r: Option<(u8, u8)>)
    ensures r == table_bp(t, op@),
{
    match t {
        Table::Correct => correct_bp(op),
        Table::Buggy => buggy_bp(op),
    }
}

/// The words of a text: maximal runs of characters that are not white space. `cur` is
/// the word being read at position `i`.
pub open spec fn words_from(s: Seq<char>, i: int, cur: Seq<char>) -> Seq<Seq<char>>
    decreases s.len() - i,
{
    if i < 0 || i >= s.len() {
        if cur.len() > 0 { seq![cur] } else { Seq::empty() }
    } else if unicode_white(s[i]) {
        (if cur.len() > 0 { seq![cur] } else { Seq::empty() }) + words_from(s, i + 1, Seq::empty())
    } else {
        words_from(s, i + 1, cur.push(s[i]))
    }
}

pub open spec fn strings_view(v: Seq<String>) -> Seq<Seq<char>> {
    v.map_values(|s: String| s@)
}

/// The whitespace-separated words of a rule.
pub fn tokens(src: &str) -> (out: Vec<String>)
    ensures strings_view(out@) == words_from(src@, 0, Seq::empty()),
{
    let cs = chars_vec(src);
    let mut out: Vec<String> = Vec::new();
    let mut cur = String::new();
    let mut i: usize = 0;
    while i < cs.len()
        invariant
            i <= cs@.len(), cs@ == src@,
            strings_view(out@) + words_from(cs@, i as int, cur@) == words_from(cs@, 0, Seq::empty()),
        decreases cs@.len() - i,
    {
        let c = cs[i];
        if char_is_whitespace(c) {
            if cur.unicode_len() > 0 {
                let ghost before = out@;
                out.push(cur);
                assert(strings_view(out@) =~= strings_view(before).push(cur@));
                cur = String::new();
                assert(strings_view(out@) + words_from(cs@, i + 1, cur@) =~= words_from(cs@, 0, Seq::empty()));
            } else {
                assert(cur@ =~= Seq::<char>::empty());
            }
        } else {
            push_char(&mut cur, c);
        }
        i += 1;
    }
    if cur.unicode_len() > 0 {
        let ghost before = out@;
        out.push(cur);
        assert(strings_view(out@) =~= strings_view(before).push(cur@));
    }
    assert(strings_view(out@) =~= words_from(cs@, 0, Seq::empty()));
    out
}

/// The operator a word spells, if any.
pub open spec fn op_word(w: Seq<char>) -> Option<Seq<char>> {
    if w == "||"@ || w == "&&"@ || w == "<"@ || w == ">"@ { Some(w) } else { None }
}

/// An operand: a number when the word parses as one, else a variable.
pub open spec fn atom_of(w: Seq<char>) -> Ex {
    match numeral(w) {
        Some(n) => Ex::Num(n),
        None => Ex::Var(w),
    }
}

/// Parsing from word `at` with minimum binding power `min_bp`: the tree and the position
/// after it, or `None` where the words run out before an operand or an operand is
/// followed by a word that is no operator.
pub open spec fn parse_at(toks: Seq<Seq<char>>, at: int, min_bp: u8, t: Table) -> Option<(Ex, int)>
    decreases toks.len() - at, 1int,
{
    if at < 0 || at >= toks.len() {
        None
    } else {
        parse_loop(toks, at + 1, min_bp, t, atom_of(toks[at]))
    }
}

/// The loop that extends `lhs` with operators of enough binding power.
pub open spec fn parse_loop(toks: Seq<Seq<char>>, at: int, min_bp: u8, t: Table, lhs: Ex) -> Option<(Ex, int)>
    decreases toks.len() - at, 0int,
{
    if at < 0 || at >= toks.len() {
        Some((lhs, at))
    } else {
        match op_word(toks[at]) {
            None => None,
            Some(op) => match table_bp(t, op) {
                None => Some((lhs, at)),
                Some((l, r)) => if l < min_bp {
                    Some((lhs, at))
                } else {
                    match parse_at(toks, at + 1, r, t) {
                        Some((rhs, at2)) => if at < at2 <= toks.len() {
                            parse_loop(toks, at2, min_bp, t, Ex::Bin(op, Box::new(lhs), Box::new(rhs)))
                        } else {
                            None
                        },
                        None => None,
                    }
                },
            },
        }
    }
}

proof fn lemma_parse_ends(toks: Seq<Seq<char>>, at: int, min_bp: u8, t: Table)
    ensures parse_at(toks, at, min_bp, t) matches Some(p) ==> at < p.1 <= toks.len(),
    decreases toks.len() - at, 1int,
{
    if 0 <= at < toks.len() {
        lemma_loop_ends(toks, at + 1, min_bp, t, atom_of(toks[at]));
    }
}

proof fn lemma_loop_ends(toks: Seq<Seq<char>>, at: int, min_bp: u8, t: Table, lhs: Ex)
    requires 0 <= at <= toks.len(),
    ensures parse_loop(toks, at, min_bp, t, lhs) matches Some(p) ==> at <= p.1 <= toks.len(),
    decreases toks.len() - at, 0int,
{
    if at < toks.len() {
        if let Some(op) = op_word(toks[at]) {
            if let Some((l, r)) = table_bp(t, op) {
                if l >= min_bp {
                    if let Some((rhs, at2)) = parse_at(toks, at + 1, r, t) {
                        if at < at2 <= toks.len() {
                            lemma_loop_ends(toks, at2, min_bp, t, Ex::Bin(op, Box::new(lhs), Box::new(rhs)));
                        }
                    }
                }
            }
        }
    }
}

fn op_static(w: &str) -> (r: Option<&'static str>)
    ensures
        r matches Some(o) ==> op_word(w@) == Some(o@),
        r is None ==> op_word(w@) is None,
{
    if text_is(w, "||") { Some("||") }
    else if text_is(w, "&&") { Some("&&") }
    else if text_is(w, "<") { Some("<") }
    else if text_is(w, ">") { Some(">") }
    else { None }
}

/// Parses the words from `*at` with minimum binding power `min_bp`, advancing `*at` past
/// what it read; `None` where the words run out before an operand or an operand is
/// followed by a word that is no operator.
pub fn parse(toks: &[String], at: &mut usize, min_bp: u8, table: Table) -> (r: Option<E>)
    requires *old(at) <= toks@.len(),
    ensures
        match parse_at(strings_view(toks@), *old(at) as int, min_bp, table) {
            Some((ex, end)) => r matches Some(e) && ex_of(e) == ex && *final(at) == end,
            None => r is None,
        },
    decreases toks@.len() - *old(at), 1int,
{
    let ghost tv = strings_view(toks@);
    if *at >= toks.len() {
        return None;
    }
    let t = &toks[*at];
    assert(tv[*at as int] == t@);
    *at += 1;
    let mut lhs = match parse_i64(t.as_str()) {
        Some(n) => E::Num(n),
        None => E::Var(t.clone()),
    };
    proof { lemma_loop_ends(tv, *at as int, min_bp, table, ex_of(lhs)); }
    parse_rest(toks, at, min_bp, table, lhs)
}

fn parse_rest(toks: &[String], at: &mut usize, min_bp: u8, table: Table, lhs: E) -> (r: Option<E>)
    requires *old(at) <= toks@.len(),
    ensures
        match parse_loop(strings_view(toks@), *old(at) as int, min_bp, table, ex_of(lhs)) {
            Some((ex, end)) => r matches Some(e) && ex_of(e) == ex && *final(at) == end,
            None => r is None,
        },
    decreases toks@.len() - *old(at), 0int,
{
    let ghost tv = strings_view(toks@);
    if *at >= toks.len() {
        return Some(lhs);
    }
    assert(tv[*at as int] == toks@[*at as int]@);
    let op = match op_static(toks[*at].as_str()) {
        Some(op) => op,
        None => { return None; },
    };
    let (l, r) = match lookup_bp(table, op) {
        Some(p) => p,
        None => { return Some(lhs); },
    };
    if l < min_bp {
        return Some(lhs);
    }
    let ghost at0 = *at;
    *at += 1;
    proof { lemma_parse_ends(tv, *at as int, r, table); }
    let rhs = match parse(toks, at, r, table) {
        Some(e) => e,
        None => { return None; },
    };
    let lhs2 = E::Bin(op, Box::new(lhs), Box::new(rhs));
    parse_rest(toks, at, min_bp, table, lhs2)
}

/// The rule in prefix notation.
pub open spec fn show_spec(x: Ex) -> Seq<char>
    decreases x,
{
    match x {
        Ex::Num(n) => ascii_chars(int_text(n as int)),
        Ex::Var(v) => v,
        Ex::Bin(op, a, b) => "("@ + op + " "@ + show_spec(*a) + " "@ + show_spec(*b) + ")"@,
    }
}

/// Writes the rule in prefix notation, `(op lhs rhs)`.
pub fn show(e: &E) -> (s: String)
    ensures s@ == show_spec(ex_of(*e)),
    decreases e,
{
    match e {
        E::Num(n) => int_to_string(*n),
        E::Var(v) => v.clone(),
        E::Bin(op, a, b) => {
            let sa = show(a);
            let sb = show(b);
            let mut s = String::from_str("(");
            s.append(op);
            s.append(" ");
            s.append(sa.as_str());
            s.append(" ");
            s.append(sb.as_str());
            s.append(")");
            s
        },
    }
}

/// The value last given to a variable in a record.
pub open spec fn rec_get(rec: Seq<(Seq<char>, i64)>, v: Seq<char>) -> Option<i64>
    decreases rec.len(),
{
    if rec.len() == 0 {
        None
    } else if rec.last().0 == v {
        Some(rec.last().1)
    } else {
        rec_get(rec.drop_last(), v)
    }
}

pub open spec fn rec_view(rec: Seq<(&str, i64)>) -> Seq<(Seq<char>, i64)> {
    rec.map_values(|p: (&str, i64)| (p.0@, p.1))
}

pub open spec fn truth(b: bool) -> i64 {
    if b { 1 } else { 0 }
}

/// The rule's value on a record: `||` and `&&` evaluate their right side only when the
/// left does not decide, comparisons give 1 or 0. `None` where a variable that is read
/// has no value or an operator is unknown.
pub open spec fn eval_spec(x: Ex, rec: Seq<(Seq<char>, i64)>) -> Option<i64>
    decreases x,
{
    match x {
        Ex::Num(n) => Some(n),
        Ex::Var(v) => rec_get(rec, v),
        Ex::Bin(op, a, b) => match eval_spec(*a, rec) {
            None => None,
            Some(x) => if op == "||"@ {
                if x != 0 { Some(1) } else { match eval_spec(*b, rec) { Some(y) => Some(truth(y != 0)), None => None } }
            } else if op == "&&"@ {
                if x == 0 { Some(0) } else { match eval_spec(*b, rec) { Some(y) => Some(truth(y != 0)), None => None } }
            } else if op == "<"@ {
                match eval_spec(*b, rec) { Some(y) => Some(truth(x < y)), None => None }
            } else if op == ">"@ {
                match eval_spec(*b, rec) { Some(y) => Some(truth(x > y)), None => None }
            } else {
                None
            },
        },
    }
}

fn rec_lookup(rec: &[(&str, i64)], v: &str) -> (r: Option<i64>)
    ensures r == rec_get(rec_view(rec@), v@),
{
    let mut i = rec.len();
    assert(rec@.subrange(0, i as int) =~= rec@);
    while i > 0
        invariant
            i <= rec@.len(),
            rec_get(rec_view(rec@), v@) == rec_get(rec_view(rec@.subrange(0, i as int)), v@),
        decreases i,
    {
        let ghost pre = rec@.subrange(0, i as int);
        assert(rec_view(pre).drop_last() =~= rec_view(rec@.subrange(0, i - 1)));
        assert(rec_view(pre).last() == (rec@[i - 1].0@, rec@[i - 1].1));
        if text_is(rec[i - 1].0, v) {
            return Some(rec[i - 1].1);
        }
        i -= 1;
    }
    assert(rec_view(rec@.subrange(0, 0)) =~= Seq::<(Seq<char>, i64)>::empty());
    None
}

/// Evaluates the rule on a record of named values.
pub fn eval(e: &E, rec: &[(&str, i64)]) -> (r: Option<i64>)
    ensures r == eval_spec(ex_of(*e), rec_view(rec@)),
    decreases e,
{
    match e {
        E::Num(n) => Some(*n),
        E::Var(v) => rec_lookup(rec, v.as_str()),
        E::Bin(op, a, b) => {
            let x = match eval(a, rec) { Some(x) => x, None => { return None; } };
            if text_is(op, "||") {
                if x != 0 { return Some(1); }
                match eval(b, rec) { Some(y) => Some(if y != 0 { 1 } else { 0 }), None => None }
            } else if text_is(op, "&&") {
                if x == 0 { return Some(0); }
                match eval(b, rec) { Some(y) => Some(if y != 0 { 1 } else { 0 }), None => None }
            } else if text_is(op, "<") {
                match eval(b, rec) { Some(y) => Some(if x < y { 1 } else { 0 }), None => None }
            } else if text_is(op, ">") {
                match eval(b, rec) { Some(y) => Some(if x > y { 1 } else { 0 }), None => None }
            } else {
                None
            }
        },
    }
}

/// One step of the shadow run's generator: the next seed, and a value below `m` from its
/// upper bits.
pub open spec fn lcg_spec(seed: u64, m: u64) -> (u64, i64) {
    let s = vstd::wrapping::u64_specs::wrapping_add(
        vstd::wrapping::u64_specs::wrapping_mul(seed, 6364136223846793005u64), 1442695040888963407u64);
    (s, ((s >> 33u64) % m) as i64)
}

pub fn lcg_next(seed: u64, m: u64) -> (r: (u64, i64))
    requires m > 0,
    ensures r == lcg_spec(seed, m),
{
    let s = seed.wrapping_mul(6364136223846793005).wrapping_add(1442695040888963407);
    (s, ((s >> 33) % m) as i64)
}

} // verus!
