//! An emulator for the selected x86-64 text: it reads each line as a mnemonic and
//! comma-separated operands, keeps registers and memory cells in one table keyed by the
//! operand's text, and counts the memory operands it executes.

use vstd::prelude::*;
use vstd::string::{StringExecFns, StrSliceExecFns};
use crate::regalloc::{apply, apply_spec, numeral, parse_i64, lines_view};
use crate::text::{ascii_chars, decimal, decimal_string, text_is};

verus! {

/// The first position at or after `i` that holds `c`.
pub open spec fn index_of_char(s: Seq<char>, c: char, i: int) -> Option<int>
    decreases s.len() - i,
{
    if i < 0 || i >= s.len() {
        None
    } else if s[i] == c {
        Some(i)
    } else {
        index_of_char(s, c, i + 1)
    }
}

/// The first position at or after `i` where the separator `", "` starts.
pub open spec fn sep_from(s: Seq<char>, i: int) -> Option<int>
    decreases s.len() - i,
{
    if i < 0 || i + 1 >= s.len() {
        None
    } else if s[i] == ',' && s[i + 1] == ' ' {
        Some(i)
    } else {
        sep_from(s, i + 1)
    }
}

/// The mnemonic: the text before the first space, or the whole line.
pub open spec fn line_mnem(l: Seq<char>) -> Seq<char> {
    match index_of_char(l, ' ', 0) {
        Some(j) => l.subrange(0, j),
        None => l,
    }
}

/// The operands' text: what follows the first space, or nothing.
pub open spec fn line_rest(l: Seq<char>) -> Seq<char> {
    match index_of_char(l, ' ', 0) {
        Some(j) => l.subrange(j + 1, l.len() as int),
        None => Seq::empty(),
    }
}

/// The first operand: the operand text up to the first `", "`.
pub open spec fn field0(r: Seq<char>) -> Seq<char> {
    match sep_from(r, 0) {
        Some(j) => r.subrange(0, j),
        None => r,
    }
}

/// The second operand, when there is a separator.
pub open spec fn field1(r: Seq<char>) -> Option<Seq<char>> {
    match sep_from(r, 0) {
        Some(j) => Some(
            match sep_from(r, j + 2) {
                Some(k) => r.subrange(j + 2, k),
                None => r.subrange(j + 2, r.len() as int),
            },
        ),
        None => None,
    }
}

/// How often `c` occurs in `s`.
pub open spec fn count_char(s: Seq<char>, c: char) -> nat
    decreases s.len(),
{
    if s.len() == 0 {
        0
    } else {
        count_char(s.drop_last(), c) + (if s.last() == c { 1nat } else { 0nat })
    }
}

/// The value last written under a name.
pub open spec fn mem_read(m: Seq<(Seq<char>, i64)>, k: Seq<char>) -> Option<i64>
    decreases m.len(),
{
    if m.len() == 0 {
        None
    } else if m.last().0 == k {
        Some(m.last().1)
    } else {
        mem_read(m.drop_last(), k)
    }
}

/// An operand's value: the number it spells, or else what its cell holds.
pub open spec fn operand_value(m: Seq<(Seq<char>, i64)>, o: Seq<char>) -> Option<i64> {
    match numeral(o) {
        Some(v) => Some(v),
        None => mem_read(m, o),
    }
}

/// The first line at or after `i` that reads exactly `t`.
pub open spec fn line_index(text: Seq<Seq<char>>, t: Seq<char>, i: int) -> Option<int>
    decreases text.len() - i,
{
    if i < 0 || i >= text.len() {
        None
    } else if text[i] == t {
        Some(i)
    } else {
        line_index(text, t, i + 1)
    }
}

/// The cell that holds argument `i`.
pub open spec fn arg_cell(i: int) -> Seq<char> {
    "[args+"@ + ascii_chars(decimal((8 * i) as nat)) + "]"@
}

/// The table before the first instruction: the arguments in their cells.
pub open spec fn init_mem(args: Seq<i64>) -> Seq<(Seq<char>, i64)> {
    Seq::new(args.len(), |i: int| (arg_cell(i), args[i]))
}

pub open spec fn mem_view(m: Seq<(String, i64)>) -> Seq<(Seq<char>, i64)> {
    m.map_values(|e: (String, i64)| (e.0@, e.1))
}

/// The operator of an arithmetic mnemonic.
pub open spec fn arith_of(mn: Seq<char>) -> Option<char> {
    if mn == "add"@ {
        Some('+')
    } else if mn == "sub"@ {
        Some('-')
    } else if mn == "imul"@ {
        Some('*')
    } else {
        None
    }
}

/// The emulator from program counter `pc`, with the comparison flag `ge`, `ops` memory
/// operands counted so far, and at most `fuel` more lines. `None` where the text
/// names an unknown mnemonic, a missing operand, an unwritten cell or a missing label,
/// runs off its end, overflows the count, or does not return within the fuel.
pub open spec fn emu_run(text: Seq<Seq<char>>, m: Seq<(Seq<char>, i64)>, pc: int, ge: bool, ops: nat, fuel: nat) -> Option<(i64, u64)>
    decreases fuel,
{
    if fuel == 0 || pc < 0 || pc >= text.len() {
        None
    } else {
        let line = text[pc];
        let ops2 = ops + count_char(line, '[');
        let mn = line_mnem(line);
        let r = line_rest(line);
        let a = field0(r);
        let b = field1(r);
        if ops2 > u64::MAX {
            None
        } else if mn == "mov"@ {
            match b {
                Some(b) => match operand_value(m, b) {
                    Some(v) => emu_run(text, m.push((a, v)), pc + 1, ge, ops2, (fuel - 1) as nat),
                    None => None,
                },
                None => None,
            }
        } else if arith_of(mn) is Some {
            match b {
                Some(b) => match (operand_value(m, a), operand_value(m, b)) {
                    (Some(x), Some(y)) => emu_run(text, m.push((a, apply_spec(arith_of(mn)->0, x, y))),
                        pc + 1, ge, ops2, (fuel - 1) as nat),
                    _ => None,
                },
                None => None,
            }
        } else if mn == "cmp"@ {
            match b {
                Some(b) => match (operand_value(m, a), operand_value(m, b)) {
                    (Some(x), Some(y)) => emu_run(text, m, pc + 1, x >= y, ops2, (fuel - 1) as nat),
                    _ => None,
                },
                None => None,
            }
        } else if mn == "jmp"@ || (mn == "jge"@ && ge) {
            match line_index(text, a + ":"@, 0) {
                Some(t) => emu_run(text, m, t, ge, ops2, (fuel - 1) as nat),
                None => None,
            }
        } else if mn == "jge"@ {
            emu_run(text, m, pc + 1, ge, ops2, (fuel - 1) as nat)
        } else if mn == "ret"@ {
            match mem_read(m, "rax"@) {
                Some(v) => Some((v, ops2 as u64)),
                None => None,
            }
        } else if mn.len() > 0 && mn.last() == ':' {
            emu_run(text, m, pc + 1, ge, ops2, (fuel - 1) as nat)
        } else {
            None
        }
    }
}

fn find_char(s: &str, c: char, from: usize) -> (r: Option<usize>)
    requires from <= s@.len(),
    ensures
        r matches Some(j) ==> from <= j < s@.len() && index_of_char(s@, c, from as int) == Some(j as int),
        r is None ==> index_of_char(s@, c, from as int) is None,
{
    let n = s.unicode_len();
    let mut i = from;
    while i < n
        invariant
            from <= i <= n, n == s@.len(),
            index_of_char(s@, c, i as int) == index_of_char(s@, c, from as int),
        decreases n - i,
    {
        if s.get_char(i) == c {
            return Some(i);
        }
        i += 1;
    }
    None
}

fn find_sep(s: &str, from: usize) -> (r: Option<usize>)
    requires from <= s@.len(),
    ensures
        r matches Some(j) ==> from <= j && j + 1 < s@.len() && sep_from(s@, from as int) == Some(j as int),
        r is None ==> sep_from(s@, from as int) is None,
{
    let n = s.unicode_len();
    let mut i = from;
    while n > 0 && i < n - 1
        invariant
            from <= i, i <= n, n == s@.len(),
            sep_from(s@, i as int) == sep_from(s@, from as int),
        decreases n - i,
    {
        if s.get_char(i) == ',' && s.get_char(i + 1) == ' ' {
            return Some(i);
        }
        i += 1;
    }
    None
}

fn count_in(s: &str, c: char) -> (r: usize)
    ensures r == count_char(s@, c),
{
    let n = s.unicode_len();
    let mut k: usize = 0;
    let mut i: usize = 0;
    while i < n
        invariant
            i <= n, n == s@.len(), k <= i,
            k == count_char(s@.subrange(0, i as int), c),
        decreases n - i,
    {
        assert(s@.subrange(0, i + 1).drop_last() =~= s@.subrange(0, i as int));
        if s.get_char(i) == c {
            k += 1;
        }
        i += 1;
    }
    assert(s@.subrange(0, n as int) =~= s@);
    k
}

fn mem_lookup(m: &Vec<(String, i64)>, k: &str) -> (r: Option<i64>)
    ensures r == mem_read(mem_view(m@), k@),
{
    let key = String::from_str(k);
    let mut i = m.len();
    assert(m@.subrange(0, i as int) =~= m@);
    while i > 0
        invariant
            i <= m@.len(), key@ == k@,
            mem_read(mem_view(m@), k@) == mem_read(mem_view(m@.subrange(0, i as int)), k@),
        decreases i,
    {
        let ghost pre = m@.subrange(0, i as int);
        assert(mem_view(pre).drop_last() =~= mem_view(m@.subrange(0, i - 1)));
        assert(mem_view(pre).last() == (m@[i - 1].0@, m@[i - 1].1));
        if m[i - 1].0 == key {
            return Some(m[i - 1].1);
        }
        i -= 1;
    }
    assert(mem_view(m@.subrange(0, 0)) =~= Seq::<(Seq<char>, i64)>::empty());
    None
}

fn operand(m: &Vec<(String, i64)>, o: &str) -> (r: Option<i64>)
    ensures r == operand_value(mem_view(m@), o@),
{
    match parse_i64(o) {
        Some(v) => Some(v),
        None => mem_lookup(m, o),
    }
}

fn find_line(text: &[String], t: &String) -> (r: Option<usize>)
    ensures
        r matches Some(j) ==> j < text@.len() && line_index(lines_view(text@), t@, 0) == Some(j as int),
        r is None ==> line_index(lines_view(text@), t@, 0) is None,
{
    let mut i: usize = 0;
    while i < text.len()
        invariant
            i <= text@.len(),
            line_index(lines_view(text@), t@, i as int) == line_index(lines_view(text@), t@, 0),
        decreases text@.len() - i,
    {
        assert(lines_view(text@)[i as int] == text@[i as int]@);
        if text[i] == *t {
            return Some(i);
        }
        i += 1;
    }
    None
}

/// Runs the text on the arguments for at most `fuel` lines: the value returned in `rax`
/// and the number of memory operands executed, or `None` where the text fails.
pub fn emulate(text: &[String], args: &[i64], fuel: u64) -> (r: Option<(i64, u64)>)
    requires 8 * args@.len() <= u64::MAX,
    ensures r == emu_run(lines_view(text@), init_mem(args@), 0, false, 0, fuel as nat),
{
    let ghost lv = lines_view(text@);
    let mut m: Vec<(String, i64)> = Vec::new();
    let mut i: usize = 0;
    while i < args.len()
        invariant
            i <= args@.len(), 8 * args@.len() <= u64::MAX,
            mem_view(m@) == init_mem(args@).subrange(0, i as int),
        decreases args@.len() - i,
    {
        let n = decimal_string(8 * (i as u64));
        let mut cell = String::from_str("[args+");
        cell.append(n.as_str());
        cell.append("]");
        assert(cell@ == arg_cell(i as int));
        let ghost m0 = m@;
        assert(mem_view(m0).len() == m0.len());
        m.push((cell, args[i]));
        assert(init_mem(args@)[i as int] == (arg_cell(i as int), args@[i as int]));
        assert forall|j: int| 0 <= j <= i implies #[trigger] mem_view(m@)[j] == init_mem(args@).subrange(0, i + 1)[j] by {
            if j < i {
                assert(m@[j] == m0[j]);
                assert(mem_view(m0)[j] == init_mem(args@).subrange(0, i as int)[j]);
            }
        }
        assert(mem_view(m@) =~= init_mem(args@).subrange(0, i + 1));
        i += 1;
    }
    assert(init_mem(args@).subrange(0, args@.len() as int) =~= init_mem(args@));
    let mut pc: usize = 0;
    let mut ge = false;
    let mut ops: u64 = 0;
    let mut left = fuel;
    while left > 0
        invariant
            lv == lines_view(text@),
            emu_run(lv, mem_view(m@), pc as int, ge, ops as nat, left as nat)
                == emu_run(lv, init_mem(args@), 0, false, 0, fuel as nat),
        decreases left,
    {
        if pc >= text.len() {
            return None;
        }
        let line = text[pc].as_str();
        assert(lv[pc as int] == line@);
        let cnt = count_in(line, '[');
        if cnt as u64 > u64::MAX - ops {
            return None;
        }
        let ops2 = ops + cnt as u64;
        let n = line.unicode_len();
        let (mn, rest) = match find_char(line, ' ', 0) {
            Some(j) => (line.substring_char(0, j), line.substring_char(j + 1, n)),
            None => (line, ""),
        };
        proof { reveal_strlit(""); }
        assert(mn@ == line_mnem(line@));
        assert(rest@ == line_rest(line@));
        let rn = rest.unicode_len();
        let (a, b) = match find_sep(rest, 0) {
            Some(j) => {
                let b = match find_sep(rest, j + 2) {
                    Some(k) => rest.substring_char(j + 2, k),
                    None => rest.substring_char(j + 2, rn),
                };
                (rest.substring_char(0, j), Some(b))
            },
            None => (rest, None),
        };
        assert(a@ == field0(rest@));
        assert(b matches Some(x) ==> field1(rest@) == Some(x@));
        assert(b is None ==> field1(rest@) is None);
        let ghost mv = mem_view(m@);
        if text_is(mn, "mov") {
            let b = match b { Some(b) => b, None => { return None; } };
            let v = match operand(&m, b) { Some(v) => v, None => { return None; } };
            m.push((String::from_str(a), v));
            assert(mem_view(m@) =~= mv.push((a@, v)));
            pc += 1;
        } else if text_is(mn, "add") || text_is(mn, "sub") || text_is(mn, "imul") {
            let op = if text_is(mn, "add") { '+' } else if text_is(mn, "sub") { '-' } else { '*' };
            assert(arith_of(mn@) == Some(op));
            let b = match b { Some(b) => b, None => { return None; } };
            let x = match operand(&m, a) { Some(v) => v, None => { return None; } };
            let y = match operand(&m, b) { Some(v) => v, None => { return None; } };
            let v = apply(op, x, y);
            m.push((String::from_str(a), v));
            assert(mem_view(m@) =~= mv.push((a@, v)));
            pc += 1;
        } else if text_is(mn, "cmp") {
            assert(arith_of(mn@) is None);
            let b = match b { Some(b) => b, None => { return None; } };
            let x = match operand(&m, a) { Some(v) => v, None => { return None; } };
            let y = match operand(&m, b) { Some(v) => v, None => { return None; } };
            ge = x >= y;
            pc += 1;
        } else if text_is(mn, "jmp") || (text_is(mn, "jge") && ge) {
            assert(arith_of(mn@) is None);
            let mut t = String::from_str(a);
            t.append(":");
            match find_line(text, &t) {
                Some(j) => { pc = j; },
                None => { return None; },
            }
        } else if text_is(mn, "jge") {
            assert(arith_of(mn@) is None);
            pc += 1;
        } else if text_is(mn, "ret") {
            assert(arith_of(mn@) is None);
            return match mem_lookup(&m, "rax") {
                Some(v) => Some((v, ops2)),
                None => None,
            };
        } else {
            assert(arith_of(mn@) is None);
            let k = mn.unicode_len();
            if k > 0 && mn.get_char(k - 1) == ':' {
                pc += 1;
            } else {
                return None;
            }
        }
        ops = ops2;
        left -= 1;
    }
    None
}

} // verus!
