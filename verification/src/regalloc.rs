//! The back end, end to end: three-address code over unlimited virtual registers, liveness,
//! live intervals, linear-scan register allocation with spilling, and selection of
//! two-address x86-64 text. A machine for the input code and an emulator for the text run
//! both, so every allocation can be checked against the input's own results.

use vstd::prelude::*;
use vstd::string::StringExecFns;
use crate::wrap::{wadd, wsub, wmul};
use crate::text::{ascii_chars, int_text, decimal, int_to_string, decimal_string};

verus! {

/// An operand: a virtual register, an immediate, or an incoming argument.
#[derive(Debug, Clone, Copy, PartialEq, Eq, Structural)]
pub enum Opnd {
    V(u32),
    Imm(i64),
    Arg(u32),
}

/// One three-address instruction. `Bin(d, op, a, b)` computes `d = a op b` for `op` among
/// `+`, `-` and `*` (any other character multiplies, as the selector does).
#[derive(Debug, Clone, Copy, PartialEq, Eq, Structural)]
pub enum Tac {
    Bin(u32, char, Opnd, Opnd),
    Copy(u32, Opnd),
    Label(u32),
    JumpIfGe(Opnd, Opnd, u32),
    Jump(u32),
    Ret(Opnd),
}

/// `f(n, x, y)`: seven values computed up front stay live across a loop that uses all of them.
pub fn program() -> (code: Vec<Tac>)
    ensures code@.len() == 23, labels_ok(code@), falls_in(code@),
{
    let n = Opnd::Arg(0);
    let x = Opnd::Arg(1);
    let y = Opnd::Arg(2);
    let code = vec![
        Tac::Bin(1, '+', x, Opnd::Imm(1)),
        Tac::Bin(2, '+', y, Opnd::Imm(2)),
        Tac::Bin(3, '*', x, y),
        Tac::Bin(4, '+', Opnd::V(1), Opnd::V(2)),
        Tac::Bin(5, '-', Opnd::V(3), Opnd::V(1)),
        Tac::Bin(6, '*', Opnd::V(4), Opnd::V(5)),
        Tac::Bin(7, '+', Opnd::V(2), Opnd::V(3)),
        Tac::Copy(8, Opnd::Imm(0)),
        Tac::Copy(9, Opnd::Imm(0)),
        Tac::Label(0),
        Tac::JumpIfGe(Opnd::V(9), n, 1),
        Tac::Bin(10, '*', Opnd::V(1), Opnd::V(9)),
        Tac::Bin(11, '+', Opnd::V(10), Opnd::V(2)),
        Tac::Bin(12, '+', Opnd::V(11), Opnd::V(3)),
        Tac::Bin(13, '-', Opnd::V(12), Opnd::V(4)),
        Tac::Bin(14, '+', Opnd::V(13), Opnd::V(5)),
        Tac::Bin(15, '-', Opnd::V(14), Opnd::V(6)),
        Tac::Bin(16, '+', Opnd::V(15), Opnd::V(7)),
        Tac::Bin(8, '+', Opnd::V(8), Opnd::V(16)),
        Tac::Bin(9, '+', Opnd::V(9), Opnd::Imm(1)),
        Tac::Jump(0),
        Tac::Label(1),
        Tac::Ret(Opnd::V(8)),
    ];
    proof {
        assert(label_from(code@, 0, 9) == Some(9int));
        assert(label_from(code@, 1, 21) == Some(21int));
        assert forall|k: int| 0 <= k <= 9 implies label_from(code@, 0, k) == Some(9int) by {
            lemma_label_from_skip(code@, 0, k, 9);
        }
        assert forall|k: int| 0 <= k <= 21 implies label_from(code@, 1, k) == Some(21int) by {
            lemma_label_from_skip(code@, 1, k, 21);
        }
        assert(label_pos(code@, 0) == Some(9int));
        assert(label_pos(code@, 1) == Some(21int));
    }
    code
}

/// What `Bin` computes: wrapping `+`, `-`, and `*` for every other operator character.
pub open spec fn apply_spec(op: char, a: i64, b: i64) -> i64 {
    if op == '+' { wadd(a, b) } else if op == '-' { wsub(a, b) } else { wmul(a, b) }
}

pub fn apply(op: char, a: i64, b: i64) -> (r: i64)
    ensures r == apply_spec(op, a, b),
{
    if op == '+' {
        a.wrapping_add(b)
    } else if op == '-' {
        a.wrapping_sub(b)
    } else {
        a.wrapping_mul(b)
    }
}

/// The first position at or after `i` that holds `Label(l)`.
pub open spec fn label_from(code: Seq<Tac>, l: u32, i: int) -> Option<int>
    decreases code.len() - i,
{
    if i < 0 || i >= code.len() {
        None
    } else if code[i] == Tac::Label(l) {
        Some(i)
    } else {
        label_from(code, l, i + 1)
    }
}

/// The position of the first `Label(l)`.
pub open spec fn label_pos(code: Seq<Tac>, l: u32) -> Option<int> {
    label_from(code, l, 0)
}

proof fn lemma_label_from_skip(code: Seq<Tac>, l: u32, k: int, p: int)
    requires
        0 <= k <= p < code.len(),
        code[p] == Tac::Label(l),
        forall|j: int| k <= j < p ==> code[j] != Tac::Label(l),
    ensures label_from(code, l, k) == Some(p),
    decreases p - k,
{
    if k < p {
        lemma_label_from_skip(code, l, k + 1, p);
    }
}

proof fn lemma_label_from_found(code: Seq<Tac>, l: u32, i: int)
    requires 0 <= i <= code.len(),
    ensures
        label_from(code, l, i) matches Some(p) ==> i <= p < code.len() && code[p] == Tac::Label(l),
    decreases code.len() - i,
{
    if i < code.len() && code[i] != Tac::Label(l) {
        lemma_label_from_found(code, l, i + 1);
    }
}

/// Every label that a jump names is present.
pub open spec fn labels_ok(code: Seq<Tac>) -> bool {
    forall|i: int| 0 <= i < code.len() ==> match #[trigger] code[i] {
        Tac::Jump(l) => label_pos(code, l) is Some,
        Tac::JumpIfGe(_, _, l) => label_pos(code, l) is Some,
        _ => true,
    }
}

/// Control never falls off the end: the last instruction is a `Ret` or a `Jump`.
pub open spec fn falls_in(code: Seq<Tac>) -> bool {
    code.len() > 0 && (code.last() is Ret || code.last() is Jump)
}

/// The position of the first `Label(l)`, found by a scan.
pub fn find_label(code: &[Tac], l: u32) -> (r: Option<usize>)
    ensures
        match label_pos(code@, l) {
            Some(p) => r == Some(p as usize),
            None => r is None,
        },
        r matches Some(p) ==> p < code@.len() && label_pos(code@, l) == Some(p as int),
{
    proof { lemma_label_from_found(code@, l, 0); }
    let mut i: usize = 0;
    while i < code.len()
        invariant
            i <= code@.len(),
            label_pos(code@, l) == label_from(code@, l, i as int),
        decreases code@.len() - i,
    {
        if code[i] == Tac::Label(l) {
            return Some(i);
        }
        i += 1;
    }
    None
}

/// A virtual register's value in a machine state given as an association list: the last
/// binding wins.
pub open spec fn env_get(env: Seq<(u32, i64)>, r: u32) -> Option<i64>
    decreases env.len(),
{
    if env.len() == 0 {
        None
    } else if env.last().0 == r {
        Some(env.last().1)
    } else {
        env_get(env.drop_last(), r)
    }
}

/// An operand's value; `None` when a register was never written or an argument is missing.
pub open spec fn opnd_val(env: Seq<(u32, i64)>, args: Seq<i64>, o: Opnd) -> Option<i64> {
    match o {
        Opnd::V(r) => env_get(env, r),
        Opnd::Imm(c) => Some(c),
        Opnd::Arg(i) => if (i as int) < args.len() { Some(args[i as int]) } else { None },
    }
}

/// What the input code returns from position `pc`, with at most `fuel` instructions left to
/// execute. `None` when a register is read before it is written, an argument or a label is
/// missing, control leaves the code, or the fuel runs out.
pub open spec fn tac_run(code: Seq<Tac>, args: Seq<i64>, env: Seq<(u32, i64)>, pc: int, fuel: nat) -> Option<i64>
    decreases fuel,
{
    if fuel == 0 || pc < 0 || pc >= code.len() {
        None
    } else {
        let f = (fuel - 1) as nat;
        match code[pc] {
            Tac::Bin(d, op, a, b) => match (opnd_val(env, args, a), opnd_val(env, args, b)) {
                (Some(x), Some(y)) => tac_run(code, args, env.push((d, apply_spec(op, x, y))), pc + 1, f),
                _ => None,
            },
            Tac::Copy(d, a) => match opnd_val(env, args, a) {
                Some(x) => tac_run(code, args, env.push((d, x)), pc + 1, f),
                None => None,
            },
            Tac::Label(_) => tac_run(code, args, env, pc + 1, f),
            Tac::JumpIfGe(a, b, l) => match (opnd_val(env, args, a), opnd_val(env, args, b)) {
                (Some(x), Some(y)) => if x >= y {
                    match label_pos(code, l) {
                        Some(p) => tac_run(code, args, env, p, f),
                        None => None,
                    }
                } else {
                    tac_run(code, args, env, pc + 1, f)
                },
                _ => None,
            },
            Tac::Jump(l) => match label_pos(code, l) {
                Some(p) => tac_run(code, args, env, p, f),
                None => None,
            },
            Tac::Ret(a) => opnd_val(env, args, a),
        }
    }
}

fn env_lookup(env: &Vec<(u32, i64)>, r: u32) -> (v: Option<i64>)
    ensures v == env_get(env@, r),
{
    let mut i: usize = env.len();
    assert(env@.subrange(0, env@.len() as int) =~= env@);
    while i > 0
        invariant
            i <= env@.len(),
            env_get(env@, r) == env_get(env@.subrange(0, i as int), r),
        decreases i,
    {
        let ghost pre = env@.subrange(0, i as int);
        assert(pre.drop_last() =~= env@.subrange(0, i - 1));
        if env[i - 1].0 == r {
            return Some(env[i - 1].1);
        }
        i -= 1;
    }
    assert(env@.subrange(0, 0) =~= Seq::<(u32, i64)>::empty());
    None
}

fn operand(env: &Vec<(u32, i64)>, args: &[i64], o: Opnd) -> (v: Option<i64>)
    ensures v == opnd_val(env@, args@, o),
{
    match o {
        Opnd::V(r) => env_lookup(env, r),
        Opnd::Imm(c) => Some(c),
        Opnd::Arg(i) => {
            if (i as usize) < args.len() { Some(args[i as usize]) } else { None }
        },
    }
}

/// Runs the input code on the arguments for at most `steps` instructions. Where the code
/// reads a register it never wrote, names a missing argument or label, or runs past its
/// end, the answer is `None` rather than a crash.
pub fn interpret(code: &[Tac], args: &[i64], steps: u64) -> (r: Option<i64>)
    ensures r == tac_run(code@, args@, Seq::empty(), 0, steps as nat),
{
    let mut env: Vec<(u32, i64)> = Vec::new();
    let mut pc: usize = 0;
    let mut fuel: u64 = steps;
    while fuel > 0 && pc < code.len()
        invariant
            tac_run(code@, args@, env@, pc as int, fuel as nat)
                == tac_run(code@, args@, Seq::empty(), 0, steps as nat),
        decreases fuel,
    {
        let f = fuel - 1;
        let ghost e0 = env@;
        let ghost pc0 = pc as int;
        let t = code[pc];
        assert(t == code@[pc0]);
        match t {
            Tac::Bin(d, op, a, b) => {
                let x = operand(&env, args, a);
                let y = operand(&env, args, b);
                match (x, y) {
                    (Some(x), Some(y)) => {
                        env.push((d, apply(op, x, y)));
                        pc = pc + 1;
                    },
                    _ => { return None; },
                }
            },
            Tac::Copy(d, a) => {
                match operand(&env, args, a) {
                    Some(x) => {
                        env.push((d, x));
                        pc = pc + 1;
                    },
                    None => { return None; },
                }
            },
            Tac::Label(_) => { pc = pc + 1; },
            Tac::JumpIfGe(a, b, l) => {
                let x = operand(&env, args, a);
                let y = operand(&env, args, b);
                match (x, y) {
                    (Some(x), Some(y)) => {
                        if x >= y {
                            match find_label(code, l) {
                                Some(p) => { pc = p; },
                                None => { return None; },
                            }
                        } else {
                            pc = pc + 1;
                        }
                    },
                    _ => { return None; },
                }
            },
            Tac::Jump(l) => {
                match find_label(code, l) {
                    Some(p) => { pc = p; },
                    None => { return None; },
                }
            },
            Tac::Ret(a) => { return operand(&env, args, a); },
        }
        assert(tac_run(code@, args@, e0, pc0, fuel as nat) == tac_run(code@, args@, env@, pc as int, f as nat));
        fuel = f;
    }
    None
}

/// The register an operand reads, if it reads one.
pub open spec fn reg_of(o: Opnd) -> Seq<u32> {
    match o {
        Opnd::V(r) => seq![r],
        _ => Seq::empty(),
    }
}

/// The registers an instruction reads, in operand order.
pub open spec fn uses_of(t: Tac) -> Seq<u32> {
    match t {
        Tac::Bin(_, _, a, b) => reg_of(a) + reg_of(b),
        Tac::Copy(_, a) => reg_of(a),
        Tac::JumpIfGe(a, b, _) => reg_of(a) + reg_of(b),
        Tac::Ret(a) => reg_of(a),
        _ => Seq::empty(),
    }
}

/// The register an instruction writes.
pub open spec fn def_of(t: Tac) -> Option<u32> {
    match t {
        Tac::Bin(d, _, _, _) => Some(d),
        Tac::Copy(d, _) => Some(d),
        _ => None,
    }
}

fn push_reg(v: &mut Vec<u32>, o: Opnd)
    ensures final(v)@ == old(v)@ + reg_of(o),
{
    if let Opnd::V(r) = o {
        v.push(r);
    }
    assert(v@ =~= old(v)@ + reg_of(o));
}

/// What an instruction reads and what it writes.
pub fn uses_defs(t: &Tac) -> (r: (Vec<u32>, Option<u32>))
    ensures r.0@ == uses_of(*t), r.1 == def_of(*t),
{
    let mut v: Vec<u32> = Vec::new();
    match *t {
        Tac::Bin(d, _, a, b) => {
            push_reg(&mut v, a);
            push_reg(&mut v, b);
            assert(v@ =~= uses_of(*t));
            (v, Some(d))
        },
        Tac::Copy(d, a) => {
            push_reg(&mut v, a);
            assert(v@ =~= uses_of(*t));
            (v, Some(d))
        },
        Tac::JumpIfGe(a, b, _) => {
            push_reg(&mut v, a);
            push_reg(&mut v, b);
            assert(v@ =~= uses_of(*t));
            (v, None)
        },
        Tac::Ret(a) => {
            push_reg(&mut v, a);
            assert(v@ =~= uses_of(*t));
            (v, None)
        },
        _ => {
            assert(v@ =~= uses_of(*t));
            (v, None)
        },
    }
}

/// Where the allocator put a virtual register: a machine register (an index into the
/// register file) or a stack slot.
#[derive(Debug, Clone, Copy, PartialEq, Eq, Structural)]
pub enum Loc {
    Reg(usize),
    Slot(usize),
}

/// An allocation as an association list: the last binding of a register wins, as a map's
/// `insert` does.
pub open spec fn loc_get(m: Seq<(u32, Loc)>, v: u32) -> Option<Loc>
    decreases m.len(),
{
    if m.len() == 0 {
        None
    } else if m.last().0 == v {
        Some(m.last().1)
    } else {
        loc_get(m.drop_last(), v)
    }
}

pub fn loc_lookup(m: &Vec<(u32, Loc)>, v: u32) -> (r: Option<Loc>)
    ensures r == loc_get(m@, v),
{
    let mut i: usize = m.len();
    assert(m@.subrange(0, m@.len() as int) =~= m@);
    while i > 0
        invariant
            i <= m@.len(),
            loc_get(m@, v) == loc_get(m@.subrange(0, i as int), v),
        decreases i,
    {
        assert(m@.subrange(0, i as int).drop_last() =~= m@.subrange(0, i - 1));
        if m[i - 1].0 == v {
            return Some(m[i - 1].1);
        }
        i -= 1;
    }
    assert(m@.subrange(0, 0) =~= Seq::<(u32, Loc)>::empty());
    None
}

/// The twelve allocatable registers, in allocation order; `r11` is kept free for
/// memory-to-memory moves and `rax` holds the return value.
pub open spec fn reg_name(r: int) -> Seq<char> {
    if r == 0 { "rcx"@ } else if r == 1 { "rdx"@ } else if r == 2 { "rsi"@ } else if r == 3 { "rdi"@ }
    else if r == 4 { "r8"@ } else if r == 5 { "r9"@ } else if r == 6 { "r10"@ } else if r == 7 { "rbx"@ }
    else if r == 8 { "r12"@ } else if r == 9 { "r13"@ } else if r == 10 { "r14"@ } else { "r15"@ }
}

pub const NUM_REGS: usize = 12;

pub fn reg_str(r: usize) -> (s: &'static str)
    requires r < NUM_REGS,
    ensures s@ == reg_name(r as int),
{
    if r == 0 { "rcx" } else if r == 1 { "rdx" } else if r == 2 { "rsi" } else if r == 3 { "rdi" }
    else if r == 4 { "r8" } else if r == 5 { "r9" } else if r == 6 { "r10" } else if r == 7 { "rbx" }
    else if r == 8 { "r12" } else if r == 9 { "r13" } else if r == 10 { "r14" } else { "r15" }
}

/// The text that names an operand's place under an allocation.
pub open spec fn place_text(o: Opnd, m: Seq<(u32, Loc)>) -> Seq<char> {
    match o {
        Opnd::V(v) => match loc_get(m, v) {
            Some(Loc::Reg(r)) => reg_name(r as int),
            Some(Loc::Slot(s)) => "[rsp+"@ + ascii_chars(decimal((8 * s) as nat)) + "]"@,
            None => Seq::empty(),
        },
        Opnd::Imm(c) => ascii_chars(int_text(c as int)),
        Opnd::Arg(i) => "[args+"@ + ascii_chars(decimal((8 * i) as nat)) + "]"@,
    }
}

/// The operand can be named without overflow or a missing register: registers are
/// allocated, machine registers exist, and byte offsets fit their types.
pub open spec fn place_ok(o: Opnd, m: Seq<(u32, Loc)>) -> bool {
    match o {
        Opnd::V(v) => match loc_get(m, v) {
            Some(Loc::Reg(r)) => r < NUM_REGS,
            Some(Loc::Slot(s)) => 8 * s <= usize::MAX,
            None => false,
        },
        Opnd::Imm(_) => true,
        Opnd::Arg(i) => 8 * i <= u32::MAX,
    }
}

pub fn place(o: Opnd, m: &Vec<(u32, Loc)>) -> (s: String)
    requires place_ok(o, m@),
    ensures s@ == place_text(o, m@),
{
    match o {
        Opnd::V(v) => {
            match loc_lookup(m, v) {
                Some(Loc::Reg(r)) => String::from_str(reg_str(r)),
                Some(Loc::Slot(k)) => {
                    let mut t = String::from_str("[rsp+");
                    let n = decimal_string((8 * k) as u64);
                    t.append(n.as_str());
                    t.append("]");
                    t
                },
                None => String::new(),
            }
        },
        Opnd::Imm(c) => int_to_string(c),
        Opnd::Arg(i) => {
            let mut t = String::from_str("[args+");
            let n = decimal_string((8 * i) as u64);
            t.append(n.as_str());
            t.append("]");
            t
        },
    }
}

/// A place in memory is written in square brackets.
pub open spec fn is_mem_text(s: Seq<char>) -> bool {
    s.len() > 0 && s[0] == '['
}

pub fn is_mem(s: &str) -> (r: bool)
    ensures r == is_mem_text(s@),
{
    s.unicode_len() > 0 && s.get_char(0) == '['
}

pub open spec fn is_dec_digit(c: char) -> bool {
    '0' <= c && c <= '9'
}

/// The number that a string of decimal digits denotes.
pub open spec fn digits_value(s: Seq<char>) -> int
    decreases s.len(),
{
    if s.len() == 0 { 0 } else { digits_value(s.drop_last()) * 10 + (s.last() as int - '0' as int) }
}

proof fn lemma_digits_nonneg(s: Seq<char>)
    requires forall|i: int| 0 <= i < s.len() ==> is_dec_digit(#[trigger] s[i]),
    ensures digits_value(s) >= 0,
    decreases s.len(),
{
    if s.len() > 0 {
        lemma_digits_nonneg(s.drop_last());
    }
}

pub open spec fn all_digits(b: Seq<char>) -> bool {
    forall|i: int| 0 <= i < b.len() ==> is_dec_digit(#[trigger] b[i])
}

/// The text starts with a sign.
pub open spec fn signed_text(s: Seq<char>) -> bool {
    s.len() > 0 && (s[0] == '-' || s[0] == '+')
}

/// The digits after the sign, if there is one.
pub open spec fn numeral_body(s: Seq<char>) -> Seq<char> {
    if signed_text(s) { s.subrange(1, s.len() as int) } else { s }
}

/// What `str::parse::<i64>` accepts: an optional sign, then one or more ASCII digits,
/// denoting a value in range.
pub open spec fn numeral(s: Seq<char>) -> Option<i64> {
    let body = numeral_body(s);
    let v = if s.len() > 0 && s[0] == '-' { -digits_value(body) } else { digits_value(body) };
    if body.len() == 0 || !all_digits(body) {
        None
    } else if i64::MIN <= v <= i64::MAX {
        Some(v as i64)
    } else {
        None
    }
}

/// `str::parse::<i64>`, as a function on the characters.
pub fn parse_i64(s: &str) -> (r: Option<i64>)
    ensures r == numeral(s@),
{
    let n = s.unicode_len();
    let signed = n > 0 && (s.get_char(0) == '-' || s.get_char(0) == '+');
    let neg = n > 0 && s.get_char(0) == '-';
    let start: usize = if signed { 1 } else { 0 };
    let ghost body = numeral_body(s@);
    assert(signed == (s@.len() > 0 && (s@[0] == '-' || s@[0] == '+')));
    assert(neg == (s@.len() > 0 && s@[0] == '-'));
    if start == n {
        return None;
    }
    let mut acc: u128 = 0;
    let mut big = false;
    let mut i: usize = start;
    while i < n
        invariant
            start <= i <= n, n == s@.len(), start == (if signed { 1usize } else { 0usize }),
            body == s@.subrange(start as int, n as int),
            signed == (s@.len() > 0 && (s@[0] == '-' || s@[0] == '+')),
            body == numeral_body(s@),
            forall|j: int| 0 <= j < i - start ==> is_dec_digit(#[trigger] body[j]),
            !big ==> acc == digits_value(body.subrange(0, i - start)) && acc <= 0x8000_0000_0000_0000u128,
            big ==> digits_value(body.subrange(0, i - start)) > 0x8000_0000_0000_0000,
        decreases n - i,
    {
        let c = s.get_char(i);
        assert(c == body[i - start]);
        if !('0' <= c && c <= '9') {
            assert(!is_dec_digit(body[i - start]));
            assert(!all_digits(body));
            return None;
        }
        let ghost pre = body.subrange(0, i - start);
        let ghost next = body.subrange(0, i + 1 - start);
        assert(next.drop_last() =~= pre);
        assert(next.last() == c);
        proof { lemma_digits_nonneg(pre); }
        if !big {
            let d = ((c as u32) - 48) as u128;
            acc = acc * 10 + d;
            if acc > 0x8000_0000_0000_0000u128 {
                big = true;
            }
        }
        i += 1;
    }
    assert(body.subrange(0, n - start) =~= body);
    assert(all_digits(body));
    if big {
        return None;
    }
    if neg {
        let m: i128 = -(acc as i128);
        Some(m as i64)
    } else if acc <= 0x7fff_ffff_ffff_ffffu128 {
        Some(acc as i64)
    } else {
        None
    }
}

/// The x86 mnemonic for an operator.
pub open spec fn mnem_text(op: char) -> Seq<char> {
    if op == '+' { "add"@ } else if op == '-' { "sub"@ } else { "imul"@ }
}

fn mnem_str(op: char) -> (s: &'static str)
    ensures s@ == mnem_text(op),
{
    if op == '+' { "add" } else if op == '-' { "sub" } else { "imul" }
}

/// The label line or jump target `.L<l>`.
pub open spec fn label_text(l: u32) -> Seq<char> {
    ".L"@ + ascii_chars(decimal(l as nat))
}

/// The lines selected for one instruction. x86 is two-address (`dst = dst op src`), so a
/// binary operation works in the scratch register `r11` when its destination is in memory
/// (`imul` cannot write memory) or would clobber the second operand; memory-to-memory moves
/// and comparisons whose left side is in memory or an immediate go through `r11` too.
pub open spec fn sel_lines(t: Tac, m: Seq<(u32, Loc)>) -> Seq<Seq<char>> {
    match t {
        Tac::Copy(d, a) => {
            let (d, a) = (place_text(Opnd::V(d), m), place_text(a, m));
            if is_mem_text(d) && is_mem_text(a) {
                seq!["mov r11, "@ + a, "mov "@ + d + ", r11"@]
            } else {
                seq!["mov "@ + d + ", "@ + a]
            }
        },
        Tac::Bin(d, op, a, b) => {
            let mn = mnem_text(op);
            let (d, a, b) = (place_text(Opnd::V(d), m), place_text(a, m), place_text(b, m));
            if is_mem_text(d) || d == b {
                seq!["mov r11, "@ + a, mn + " r11, "@ + b, "mov "@ + d + ", r11"@]
            } else if d != a {
                seq!["mov "@ + d + ", "@ + a, mn + " "@ + d + ", "@ + b]
            } else {
                seq![mn + " "@ + d + ", "@ + b]
            }
        },
        Tac::Label(l) => seq![label_text(l) + ":"@],
        Tac::JumpIfGe(a, b, l) => {
            let (a, b) = (place_text(a, m), place_text(b, m));
            if is_mem_text(a) || numeral(a) is Some {
                seq!["mov r11, "@ + a, "cmp r11, "@ + b, "jge "@ + label_text(l)]
            } else {
                seq!["cmp "@ + a + ", "@ + b, "jge "@ + label_text(l)]
            }
        },
        Tac::Jump(l) => seq!["jmp "@ + label_text(l)],
        Tac::Ret(a) => seq!["mov rax, "@ + place_text(a, m), "ret"@],
    }
}

/// The assembly text for a whole instruction list, instruction by instruction.
pub open spec fn select_spec(code: Seq<Tac>, m: Seq<(u32, Loc)>) -> Seq<Seq<char>>
    decreases code.len(),
{
    if code.len() == 0 {
        Seq::empty()
    } else {
        select_spec(code.drop_last(), m) + sel_lines(code.last(), m)
    }
}

/// Every operand of the instruction can be placed.
pub open spec fn tac_placeable(t: Tac, m: Seq<(u32, Loc)>) -> bool {
    match t {
        Tac::Copy(d, a) => place_ok(Opnd::V(d), m) && place_ok(a, m),
        Tac::Bin(d, _, a, b) => place_ok(Opnd::V(d), m) && place_ok(a, m) && place_ok(b, m),
        Tac::JumpIfGe(a, b, _) => place_ok(a, m) && place_ok(b, m),
        Tac::Ret(a) => place_ok(a, m),
        _ => true,
    }
}

pub open spec fn lines_view(v: Seq<String>) -> Seq<Seq<char>> {
    v.map_values(|s: String| s@)
}

fn cat2(a: &str, b: &str) -> (s: String)
    ensures s@ == a@ + b@,
{
    let mut t = String::from_str(a);
    t.append(b);
    t
}

fn cat4(a: &str, b: &str, c: &str, d: &str) -> (s: String)
    ensures s@ == a@ + b@ + c@ + d@,
{
    let mut t = String::from_str(a);
    t.append(b);
    t.append(c);
    t.append(d);
    t
}

fn label_string(l: u32) -> (s: String)
    ensures s@ == label_text(l),
{
    let n = decimal_string(l as u64);
    cat2(".L", n.as_str())
}

/// Appends the lines for one instruction.
fn select_one(out: &mut Vec<String>, t: Tac, m: &Vec<(u32, Loc)>)
    requires tac_placeable(t, m@),
    ensures lines_view(final(out)@) == lines_view(old(out)@) + sel_lines(t, m@),
{
    let ghost o0 = lines_view(out@);
    match t {
        Tac::Copy(d, a) => {
            let d = place(Opnd::V(d), m);
            let a = place(a, m);
            if is_mem(d.as_str()) && is_mem(a.as_str()) {
                out.push(cat2("mov r11, ", a.as_str()));
                out.push(cat4("mov ", d.as_str(), ", r11", ""));
            } else {
                out.push(cat4("mov ", d.as_str(), ", ", a.as_str()));
            }
        },
        Tac::Bin(d, op, a, b) => {
            let mn = mnem_str(op);
            let d = place(Opnd::V(d), m);
            let a = place(a, m);
            let b = place(b, m);
            if is_mem(d.as_str()) || d == b {
                out.push(cat2("mov r11, ", a.as_str()));
                out.push(cat4(mn, " r11, ", b.as_str(), ""));
                out.push(cat4("mov ", d.as_str(), ", r11", ""));
            } else {
                if d != a {
                    out.push(cat4("mov ", d.as_str(), ", ", a.as_str()));
                }
                let mut line = cat4(mn, " ", d.as_str(), ", ");
                line.append(b.as_str());
                out.push(line);
            }
        },
        Tac::Label(l) => {
            let lab = label_string(l);
            out.push(cat2(lab.as_str(), ":"));
        },
        Tac::JumpIfGe(a, b, l) => {
            let a = place(a, m);
            let b = place(b, m);
            if is_mem(a.as_str()) || parse_i64(a.as_str()).is_some() {
                out.push(cat2("mov r11, ", a.as_str()));
                out.push(cat2("cmp r11, ", b.as_str()));
            } else {
                out.push(cat4("cmp ", a.as_str(), ", ", b.as_str()));
            }
            let lab = label_string(l);
            out.push(cat2("jge ", lab.as_str()));
        },
        Tac::Jump(l) => {
            let lab = label_string(l);
            out.push(cat2("jmp ", lab.as_str()));
        },
        Tac::Ret(a) => {
            let a = place(a, m);
            out.push(cat2("mov rax, ", a.as_str()));
            out.push(String::from_str("ret"));
        },
    }
    proof {
        reveal_strlit("");
        assert(lines_view(out@) =~= o0 + sel_lines(t, m@));
    }
}

/// Instruction selection under an allocation: the two-address text, line by line.
pub fn select(code: &[Tac], m: &Vec<(u32, Loc)>) -> (out: Vec<String>)
    requires forall|i: int| 0 <= i < code@.len() ==> tac_placeable(#[trigger] code@[i], m@),
    ensures lines_view(out@) == select_spec(code@, m@),
{
    let mut out: Vec<String> = Vec::new();
    let mut i: usize = 0;
    while i < code.len()
        invariant
            i <= code@.len(),
            forall|j: int| 0 <= j < code@.len() ==> tac_placeable(#[trigger] code@[j], m@),
            lines_view(out@) == select_spec(code@.subrange(0, i as int), m@),
        decreases code@.len() - i,
    {
        assert(code@.subrange(0, i + 1).drop_last() =~= code@.subrange(0, i as int));
        select_one(&mut out, code[i], m);
        i += 1;
    }
    assert(code@.subrange(0, code@.len() as int) =~= code@);
    out
}

/// A set of registers kept as a strictly increasing sequence.
pub open spec fn sorted_set(s: Seq<u32>) -> bool {
    forall|i: int, j: int| 0 <= i < j < s.len() ==> s[i] < s[j]
}

/// Adds `x` to a sorted set, keeping it sorted.
fn set_insert(v: &mut Vec<u32>, x: u32)
    requires sorted_set(old(v)@),
    ensures
        sorted_set(final(v)@),
        forall|y: u32| final(v)@.contains(y) <==> (old(v)@.contains(y) || y == x),
{
    let mut p: usize = 0;
    while p < v.len() && v[p] < x
        invariant
            p <= v@.len(), sorted_set(v@), v@ == old(v)@,
            forall|j: int| 0 <= j < p ==> v@[j] < x,
        decreases v@.len() - p,
    {
        p += 1;
    }
    if p < v.len() && v[p] == x {
        assert(v@[p as int] == x);
        return;
    }
    let ghost old_v = v@;
    assert(old_v == old(v)@);
    v.insert(p, x);
    proof {
        assert forall|i: int, j: int| 0 <= i < j < v@.len() implies v@[i] < v@[j] by {
            if j < p {
                assert(v@[i] == old_v[i] && v@[j] == old_v[j]);
            } else if j == p {
                assert(v@[i] == old_v[i]);
            } else if i < p {
                assert(v@[j] == old_v[j - 1]);
                assert(old_v[j - 1] >= x) by {
                    if j - 1 > p { assert(old_v[p as int] < old_v[j - 1]); }
                }
            } else if i == p {
                assert(v@[j] == old_v[j - 1]);
                if j - 1 > p { assert(old_v[p as int] < old_v[j - 1]); }
            } else {
                assert(v@[i] == old_v[i - 1] && v@[j] == old_v[j - 1]);
            }
        }
        assert forall|y: u32| #[trigger] v@.contains(y) <==> (old(v)@.contains(y) || y == x) by {
            if v@.contains(y) {
                let k = choose|k: int| 0 <= k < v@.len() && v@[k] == y;
                if k < p { assert(old_v[k] == y); } else if k > p { assert(old_v[k - 1] == y); }
            }
            if old_v.contains(y) {
                let k = choose|k: int| 0 <= k < old_v.len() && old_v[k] == y;
                if k < p { assert(v@[k] == y); } else { assert(v@[k + 1] == y); }
            }
            if y == x { assert(v@[p as int] == x); }
        }
        assert(old_v == old(v)@);
    }
}

fn vec_eq_u32(a: &Vec<u32>, b: &Vec<u32>) -> (r: bool)
    ensures r == (a@ == b@),
{
    if a.len() != b.len() {
        return false;
    }
    let mut i: usize = 0;
    while i < a.len()
        invariant
            i <= a@.len(), a@.len() == b@.len(),
            forall|j: int| 0 <= j < i ==> a@[j] == b@[j],
        decreases a@.len() - i,
    {
        if a[i] != b[i] {
            return false;
        }
        i += 1;
    }
    assert(a@ =~= b@);
    true
}

/// The instructions that can run right after instruction `i`.
pub open spec fn succs(code: Seq<Tac>, i: int) -> Seq<int> {
    match code[i] {
        Tac::Jump(l) => seq![label_pos(code, l).unwrap()],
        Tac::JumpIfGe(_, _, l) => seq![i + 1, label_pos(code, l).unwrap()],
        Tac::Ret(_) => Seq::empty(),
        _ => seq![i + 1],
    }
}

/// Some instruction of the code reads the register.
pub open spec fn read_somewhere(code: Seq<Tac>, x: u32) -> bool {
    exists|j: int| 0 <= j < code.len() && #[trigger] uses_of(code[j]).contains(x)
}

fn succ_list(code: &[Tac], i: usize) -> (r: Vec<usize>)
    requires i < code@.len(), labels_ok(code@), falls_in(code@),
    ensures
        r@.len() == succs(code@, i as int).len(),
        forall|k: int| 0 <= k < r@.len() ==> r@[k] as int == succs(code@, i as int)[k] && r@[k] < code@.len(),
{
    let mut r: Vec<usize> = Vec::new();
    let t = code[i];
    assert(t == code@[i as int]);
    match t {
        Tac::Jump(l) => {
            let p = find_label(code, l);
            assert(label_pos(code@, l) is Some);
            r.push(p.unwrap());
        },
        Tac::JumpIfGe(_, _, l) => {
            let p = find_label(code, l);
            assert(label_pos(code@, l) is Some);
            assert(i + 1 < code@.len());
            r.push(i + 1);
            r.push(p.unwrap());
        },
        Tac::Ret(_) => {},
        _ => {
            assert(i + 1 < code@.len());
            r.push(i + 1);
        },
    }
    r
}

/// `p` is a path along successor edges whose last instruction reads `x`, with no instruction
/// before that on it writing `x`.
pub open spec fn read_path(code: Seq<Tac>, p: Seq<int>, x: u32) -> bool {
    &&& p.len() >= 1
    &&& forall|k: int| 0 <= k < p.len() ==> 0 <= #[trigger] p[k] < code.len()
    &&& forall|k: int| 0 <= k < p.len() - 1 ==> succs(code, #[trigger] p[k]).contains(p[k + 1])
    &&& uses_of(code[p.last()]).contains(x)
    &&& forall|k: int| 0 <= k < p.len() - 1 ==> def_of(code[#[trigger] p[k]]) != Some(x)
}

/// Register `x` is live on entry to instruction `i`: some path from `i` reads it before
/// anything writes it.
pub open spec fn live_before(code: Seq<Tac>, i: int, x: u32) -> bool {
    exists|p: Seq<int>| #[trigger] read_path(code, p, x) && p[0] == i
}

/// Register `x` is live on exit from instruction `i`: live on entry to one of its successors.
pub open spec fn live_after(code: Seq<Tac>, i: int, x: u32) -> bool {
    exists|k: int| 0 <= k < succs(code, i).len() && live_before(code, #[trigger] succs(code, i)[k], x)
}

/// The live-out set `o` of instruction `i` is the union of its successors' live-in sets.
pub open spec fn out_eq(code: Seq<Tac>, ins: Seq<Vec<u32>>, i: int, o: Seq<u32>) -> bool {
    forall|x: u32| #[trigger] o.contains(x)
        <==> exists|k: int| 0 <= k < succs(code, i).len() && (#[trigger] ins[succs(code, i)[k]])@.contains(x)
}

/// The live-in set `v` of instruction `i`: what is live out and not written there, and what
/// it reads.
pub open spec fn in_eq(code: Seq<Tac>, i: int, o: Seq<u32>, v: Seq<u32>) -> bool {
    forall|x: u32| #[trigger] v.contains(x) <==> ((o.contains(x) && def_of(code[i]) != Some(x)) || uses_of(code[i]).contains(x))
}

/// Every register in the sets is live there.
spec fn live_sound(code: Seq<Tac>, ins: Seq<Vec<u32>>, outs: Seq<Vec<u32>>) -> bool {
    &&& forall|i: int, x: u32| 0 <= i < ins.len() && #[trigger] ins[i]@.contains(x) ==> live_before(code, i, x)
    &&& forall|i: int, x: u32| 0 <= i < outs.len() && #[trigger] outs[i]@.contains(x) ==> live_after(code, i, x)
}

/// The sets are below what one more round of the equations gives: the iteration only adds.
spec fn live_below(code: Seq<Tac>, ins: Seq<Vec<u32>>, outs: Seq<Vec<u32>>) -> bool {
    &&& forall|i: int, x: u32| 0 <= i < ins.len() && #[trigger] ins[i]@.contains(x)
        ==> ((outs[i]@.contains(x) && def_of(code[i]) != Some(x)) || uses_of(code[i]).contains(x))
    &&& forall|i: int, x: u32| 0 <= i < outs.len() && #[trigger] outs[i]@.contains(x)
        ==> exists|k: int| 0 <= k < succs(code, i).len() && (#[trigger] ins[succs(code, i)[k]])@.contains(x)
}

/// The total size of the sets of the first `k` instructions.
spec fn live_size(ins: Seq<Vec<u32>>, outs: Seq<Vec<u32>>, k: int) -> int
    decreases k,
{
    if k <= 0 { 0 } else { live_size(ins, outs, k - 1) + ins[k - 1]@.len() + outs[k - 1]@.len() }
}

proof fn lemma_size_update(ins: Seq<Vec<u32>>, outs: Seq<Vec<u32>>, i: int, a: Vec<u32>, b: Vec<u32>, k: int)
    requires 0 <= i < ins.len(), ins.len() == outs.len(), k <= ins.len(),
    ensures live_size(ins.update(i, a), outs.update(i, b), k) == live_size(ins, outs, k)
        + if i < k { a@.len() + b@.len() - ins[i]@.len() - outs[i]@.len() } else { 0 },
    decreases k,
{
    if k > 0 { lemma_size_update(ins, outs, i, a, b, k - 1); }
}

proof fn lemma_size_bound(ins: Seq<Vec<u32>>, outs: Seq<Vec<u32>>, k: int, m: int)
    requires 0 <= k <= ins.len(), k <= outs.len(), 0 <= m,
        forall|i: int| 0 <= i < k ==> (#[trigger] ins[i])@.len() <= m && outs[i]@.len() <= m,
    ensures live_size(ins, outs, k) <= 2 * m * k,
    decreases k,
{
    if k > 0 {
        lemma_size_bound(ins, outs, k - 1, m);
        assert(ins[k - 1]@.len() <= m);
        assert(2 * m * (k - 1) + 2 * m == 2 * m * k) by (nonlinear_arith);
    }
}

proof fn lemma_size_nonneg(ins: Seq<Vec<u32>>, outs: Seq<Vec<u32>>, k: int)
    ensures live_size(ins, outs, k) >= 0,
    decreases k,
{
    if k > 0 { lemma_size_nonneg(ins, outs, k - 1); }
}

/// The successors of an instruction are instructions of the code.
proof fn lemma_succs_in(code: Seq<Tac>, j: int)
    requires labels_ok(code), falls_in(code), 0 <= j < code.len(),
    ensures forall|k: int| 0 <= k < succs(code, j).len() ==> 0 <= #[trigger] succs(code, j)[k] < code.len(),
{
    lemma_label_from_found(code, 0, 0);
    match code[j] {
        Tac::Jump(l) => { lemma_label_from_found(code, l, 0); },
        Tac::JumpIfGe(_, _, l) => { lemma_label_from_found(code, l, 0); },
        _ => {},
    }
}

proof fn lemma_live_use(code: Seq<Tac>, i: int, x: u32)
    requires 0 <= i < code.len(), uses_of(code[i]).contains(x),
    ensures live_before(code, i, x),
{
    let p = seq![i];
    assert(p.last() == i);
    assert(read_path(code, p, x));
}

proof fn lemma_live_step(code: Seq<Tac>, i: int, k: int, x: u32)
    requires 0 <= i < code.len(), 0 <= k < succs(code, i).len(), live_before(code, succs(code, i)[k], x),
        def_of(code[i]) != Some(x),
    ensures live_before(code, i, x),
{
    let j = succs(code, i)[k];
    let p = choose|p: Seq<int>| #[trigger] read_path(code, p, x) && p[0] == j;
    let q = seq![i] + p;
    assert(q.last() == p.last());
    assert(succs(code, i).contains(j));
    assert forall|m: int| 0 <= m < q.len() implies 0 <= #[trigger] q[m] < code.len() by {
        if m > 0 { assert(q[m] == p[m - 1]); }
    }
    assert forall|m: int| 0 <= m < q.len() - 1 implies succs(code, #[trigger] q[m]).contains(q[m + 1]) by {
        if m > 0 { assert(q[m] == p[m - 1]); assert(q[m + 1] == p[m]); } else { assert(q[1] == p[0]); }
    }
    assert forall|m: int| 0 <= m < q.len() - 1 implies def_of(code[#[trigger] q[m]]) != Some(x) by {
        if m > 0 { assert(q[m] == p[m - 1]); }
    }
    assert(read_path(code, q, x));
}

proof fn lemma_live_read(code: Seq<Tac>, i: int, x: u32)
    requires live_before(code, i, x),
    ensures read_somewhere(code, x),
{
    let p = choose|p: Seq<int>| #[trigger] read_path(code, p, x) && p[0] == i;
    let j = p[p.len() - 1];
    assert(0 <= j < code.len());
    assert(uses_of(code[j]).contains(x));
}

/// Where the equations hold everywhere, every register read on a path before a write is in
/// the live-in set of the path's start.
proof fn lemma_live_complete(code: Seq<Tac>, ins: Seq<Vec<u32>>, outs: Seq<Vec<u32>>, p: Seq<int>, x: u32)
    requires
        ins.len() == code.len(), outs.len() == code.len(),
        forall|i: int| 0 <= i < code.len() ==> out_eq(code, ins, i, (#[trigger] outs[i])@) && in_eq(code, i, outs[i]@, ins[i]@),
        read_path(code, p, x),
    ensures ins[p[0]]@.contains(x),
    decreases p.len(),
{
    let i = p[0];
    assert(0 <= i < code.len());
    assert(out_eq(code, ins, i, outs[i]@) && in_eq(code, i, outs[i]@, ins[i]@));
    if p.len() == 1 {
        assert(p.last() == i);
        assert(ins[i]@.contains(x));
    } else {
        let r = p.subrange(1, p.len() as int);
        assert forall|m: int| 0 <= m < r.len() implies 0 <= #[trigger] r[m] < code.len() by {
            assert(r[m] == p[m + 1]);
        }
        assert forall|m: int| 0 <= m < r.len() - 1 implies succs(code, #[trigger] r[m]).contains(r[m + 1]) by {
            assert(r[m] == p[m + 1]); assert(r[m + 1] == p[m + 2]);
        }
        assert forall|m: int| 0 <= m < r.len() - 1 implies def_of(code[#[trigger] r[m]]) != Some(x) by {
            assert(r[m] == p[m + 1]);
        }
        assert(r.last() == p.last());
        assert(read_path(code, r, x));
        lemma_live_complete(code, ins, outs, r, x);
        assert(r[0] == p[1]);
        assert(succs(code, p[0]).contains(p[1]));
        let k = choose|k: int| 0 <= k < succs(code, i).len() && succs(code, i)[k] == p[1];
        assert(ins[succs(code, i)[k]]@.contains(x));
        assert(outs[i]@.contains(x));
        assert(def_of(code[p[0]]) != Some(x));
        assert(ins[i]@.contains(x));
    }
}

/// A sorted set inside another is no longer, and as long only when equal.
proof fn lemma_sorted_sub(a: Seq<u32>, b: Seq<u32>)
    requires sorted_set(a), sorted_set(b), forall|x: u32| a.contains(x) ==> b.contains(x),
    ensures a.len() <= b.len(), a.len() == b.len() ==> a == b,
    decreases b.len(),
{
    if a.len() == 0 {
        if b.len() == 0 { assert(a =~= b); }
    } else {
        let la = a[a.len() - 1];
        assert(a.contains(la));
        assert(b.contains(la));
        let lb = b[b.len() - 1];
        let kb = choose|k: int| 0 <= k < b.len() && b[k] == la;
        assert(la <= lb) by { if kb < b.len() - 1 { assert(b[kb] < b[b.len() - 1]); } }
        let a2 = a.drop_last();
        let b2 = b.drop_last();
        if la == lb {
            assert forall|x: u32| a2.contains(x) implies b2.contains(x) by {
                let ka = choose|k: int| 0 <= k < a2.len() && a2[k] == x;
                assert(a[ka] < a[a.len() - 1]);
                assert(b.contains(x));
                let k2 = choose|k: int| 0 <= k < b.len() && b[k] == x;
                assert(k2 != b.len() - 1);
                assert(b2[k2] == x);
            }
            lemma_sorted_sub(a2, b2);
            if a.len() == b.len() {
                assert(a2 == b2);
                assert(a =~= a2.push(la));
                assert(b =~= b2.push(lb));
            }
        } else {
            assert forall|x: u32| a.contains(x) implies b2.contains(x) by {
                let ka = choose|k: int| 0 <= k < a.len() && a[k] == x;
                if ka < a.len() - 1 { assert(a[ka] < a[a.len() - 1]); }
                assert(b.contains(x));
                let k2 = choose|k: int| 0 <= k < b.len() && b[k] == x;
                if k2 == b.len() - 1 {
                    assert(x == lb);
                    assert(x <= la);
                    assert(false);
                }
                assert(b2[k2] == x);
            }
            lemma_sorted_sub(a, b2);
        }
    }
}

/// The registers the first `k` instructions read, in order, with repeats.
spec fn reads_upto(code: Seq<Tac>, k: int) -> Seq<u32>
    decreases k,
{
    if k <= 0 { Seq::empty() } else { reads_upto(code, k - 1) + uses_of(code[k - 1]) }
}

proof fn lemma_reads_upto(code: Seq<Tac>, k: int)
    requires 0 <= k <= code.len(),
    ensures reads_upto(code, k).len() <= 2 * k,
        forall|j: int, x: u32| 0 <= j < k && #[trigger] uses_of(code[j]).contains(x) ==> reads_upto(code, k).contains(x),
    decreases k,
{
    if k > 0 {
        lemma_reads_upto(code, k - 1);
        let u = reads_upto(code, k - 1);
        let w = uses_of(code[k - 1]);
        assert(reads_upto(code, k) == u + w);
        assert forall|j: int, x: u32| 0 <= j < k && #[trigger] uses_of(code[j]).contains(x) implies reads_upto(code, k).contains(x) by {
            if j < k - 1 {
                let q = choose|q: int| 0 <= q < u.len() && u[q] == x;
                assert((u + w)[q] == x);
            } else {
                let q = choose|q: int| 0 <= q < w.len() && w[q] == x;
                assert((u + w)[u.len() + q] == x);
            }
        }
    }
}

/// A sorted set of registers read somewhere has at most two per instruction.
proof fn lemma_live_set_bound(code: Seq<Tac>, a: Seq<u32>)
    requires sorted_set(a), forall|x: u32| a.contains(x) ==> read_somewhere(code, x),
    ensures a.len() <= 2 * code.len(),
{
    broadcast use vstd::seq_lib::seq_to_set_is_finite;
    let u = reads_upto(code, code.len() as int);
    lemma_reads_upto(code, code.len() as int);
    assert(a.no_duplicates()) by {
        assert forall|i: int, j: int| 0 <= i < a.len() && 0 <= j < a.len() && i != j implies a[i] != a[j] by {
            if i < j { assert(a[i] < a[j]); } else { assert(a[j] < a[i]); }
        }
    }
    a.unique_seq_to_set();
    u.lemma_cardinality_of_set();
    assert(a.to_set().subset_of(u.to_set())) by {
        assert forall|x: u32| a.to_set().contains(x) implies u.to_set().contains(x) by {
            assert(a.contains(x));
            let j = choose|j: int| 0 <= j < code.len() && #[trigger] uses_of(code[j]).contains(x);
            assert(u.contains(x));
        }
    }
    vstd::set_lib::lemma_len_subset(a.to_set(), u.to_set());
}

/// Backward liveness over the instruction list, iterated until nothing changes: what is
/// live out of an instruction is live into one of its successors, and what is live into it
/// is what is live out, less what it writes, plus what it reads. Returns live-out per
/// instruction: the registers read on some path from a successor before any write (the
/// iteration is bounded by `u64::MAX` rounds, which suffice below 2^31 instructions).
pub fn liveness(code: &[Tac]) -> (live_out: Vec<Vec<u32>>)
    requires labels_ok(code@), falls_in(code@),
    ensures
        live_out@.len() == code@.len(),
        forall|i: int| 0 <= i < live_out@.len() ==> sorted_set(#[trigger] live_out@[i]@),
        forall|i: int, x: u32| 0 <= i < live_out@.len() && #[trigger] live_out@[i]@.contains(x)
            ==> read_somewhere(code@, x),
        forall|i: int, x: u32| 0 <= i < live_out@.len() && #[trigger] live_out@[i]@.contains(x)
            ==> live_after(code@, i, x),
        code@.len() < 0x8000_0000 ==> forall|i: int, x: u32| 0 <= i < live_out@.len()
            ==> (#[trigger] live_out@[i]@.contains(x) <==> live_after(code@, i, x)),
{
    let n = code.len();
    let ghost c = code@;
    let mut live_in: Vec<Vec<u32>> = Vec::new();
    let mut live_out: Vec<Vec<u32>> = Vec::new();
    let mut k: usize = 0;
    while k < n
        invariant
            k <= n, n == code@.len(), live_in@.len() == k, live_out@.len() == k,
            forall|i: int| 0 <= i < k ==> live_in@[i]@ == Seq::<u32>::empty() && live_out@[i]@ == Seq::<u32>::empty(),
        decreases n - k,
    {
        live_in.push(Vec::new());
        live_out.push(Vec::new());
        k += 1;
    }
    proof {
        lemma_size_nonneg(live_in@, live_out@, n as int);
    }
    let mut passes: u64 = u64::MAX;
    loop
        invariant
            n == code@.len(), c == code@, labels_ok(c), falls_in(c),
            live_in@.len() == n, live_out@.len() == n,
            forall|i: int| 0 <= i < n ==> sorted_set(#[trigger] live_in@[i]@),
            forall|i: int| 0 <= i < n ==> sorted_set(#[trigger] live_out@[i]@),
            live_sound(c, live_in@, live_out@),
            live_below(c, live_in@, live_out@),
            live_size(live_in@, live_out@, n as int) + passes >= u64::MAX,
        decreases passes,
    {
        if passes == 0 {
            proof {
                if n < 0x8000_0000 {
                    assert forall|i: int| 0 <= i < n implies (#[trigger] live_in@[i])@.len() <= 2 * n && live_out@[i]@.len() <= 2 * n by {
                        assert forall|x: u32| live_in@[i]@.contains(x) implies read_somewhere(c, x) by { lemma_live_read(c, i, x); }
                        assert forall|x: u32| live_out@[i]@.contains(x) implies read_somewhere(c, x) by {
                            let k = choose|k: int| 0 <= k < succs(c, i).len() && live_before(c, #[trigger] succs(c, i)[k], x);
                            lemma_live_read(c, succs(c, i)[k], x);
                        }
                        lemma_live_set_bound(c, live_in@[i]@);
                        lemma_live_set_bound(c, live_out@[i]@);
                    }
                    lemma_size_bound(live_in@, live_out@, n as int, 2 * n);
                    assert(2 * (2 * n) * n < u64::MAX) by (nonlinear_arith) requires n < 0x8000_0000;
                    assert(false);
                }
                assert forall|i: int, x: u32| 0 <= i < n && #[trigger] live_out@[i]@.contains(x) implies read_somewhere(c, x) by {
                    let k = choose|k: int| 0 <= k < succs(c, i).len() && live_before(c, #[trigger] succs(c, i)[k], x);
                    lemma_live_read(c, succs(c, i)[k], x);
                }
            }
            return live_out;
        }
        passes -= 1;
        let mut changed = false;
        let ghost in0 = live_in@;
        let ghost out0 = live_out@;
        let ghost t0 = live_size(live_in@, live_out@, n as int);
        let mut i: usize = n;
        while i > 0
            invariant
                i <= n, n == code@.len(), c == code@, labels_ok(c), falls_in(c),
                live_in@.len() == n, live_out@.len() == n,
                forall|i: int| 0 <= i < n ==> sorted_set(#[trigger] live_in@[i]@),
                forall|i: int| 0 <= i < n ==> sorted_set(#[trigger] live_out@[i]@),
                live_sound(c, live_in@, live_out@),
                live_below(c, live_in@, live_out@),
                live_size(live_in@, live_out@, n as int) >= t0,
                changed ==> live_size(live_in@, live_out@, n as int) > t0,
                !changed ==> live_in@ == in0 && live_out@ == out0,
                !changed ==> forall|j: int| i <= j < n ==> out_eq(c, live_in@, j, (#[trigger] live_out@[j])@)
                    && in_eq(c, j, live_out@[j]@, live_in@[j]@),
            decreases i,
        {
            i -= 1;
            let ss = succ_list(code, i);
            let mut out: Vec<u32> = Vec::new();
            let mut a: usize = 0;
            while a < ss.len()
                invariant
                    a <= ss@.len(), n == code@.len(), c == code@, live_in@.len() == n, i < n,
                    ss@.len() == succs(c, i as int).len(),
                    forall|k: int| 0 <= k < ss@.len() ==> ss@[k] as int == succs(c, i as int)[k] && ss@[k] < n,
                    sorted_set(out@),
                    forall|x: u32| #[trigger] out@.contains(x) <==> exists|k: int| 0 <= k < a
                        && (#[trigger] live_in@[succs(c, i as int)[k]])@.contains(x),
                decreases ss@.len() - a,
            {
                let src = &live_in[ss[a]];
                let ghost out_a = out@;
                let mut b: usize = 0;
                while b < src.len()
                    invariant
                        b <= src@.len(), sorted_set(out@),
                        forall|x: u32| #[trigger] out@.contains(x) <==> (out_a.contains(x) || src@.subrange(0, b as int).contains(x)),
                    decreases src@.len() - b,
                {
                    let ghost pre = out@;
                    set_insert(&mut out, src[b]);
                    proof {
                    let sb1 = src@.subrange(0, b + 1);
                    let sb0 = src@.subrange(0, b as int);
                        assert forall|x: u32| #[trigger] out@.contains(x) <==> (out_a.contains(x) || sb1.contains(x)) by {
                            if sb1.contains(x) && !sb0.contains(x) {
                                let q = choose|q: int| 0 <= q < b + 1 && sb1[q] == x;
                                if q < b { assert(sb0[q] == x); }
                                assert(x == src@[b as int]);
                            }
                            if sb0.contains(x) {
                                let q = choose|q: int| 0 <= q < b && sb0[q] == x;
                                assert(sb1[q] == x);
                            }
                            if x == src@[b as int] {
                                assert(sb1[b as int] == x);
                            }
                        }
                    }
                    b += 1;
                }
                proof {
                    assert(src@.subrange(0, src@.len() as int) =~= src@);
                    let s = succs(c, i as int)[a as int];
                    assert(ss@[a as int] as int == s);
                    assert forall|x: u32| #[trigger] out@.contains(x) <==> exists|k: int| 0 <= k < a + 1
                        && (#[trigger] live_in@[succs(c, i as int)[k]])@.contains(x) by {
                        if live_in@[s]@.contains(x) {
                            assert(live_in@[succs(c, i as int)[a as int]]@.contains(x));
                        }
                        if exists|k: int| 0 <= k < a + 1 && (#[trigger] live_in@[succs(c, i as int)[k]])@.contains(x) {
                            let k = choose|k: int| 0 <= k < a + 1 && (#[trigger] live_in@[succs(c, i as int)[k]])@.contains(x);
                            if k < a {
                                assert(exists|k2: int| 0 <= k2 < a && (#[trigger] live_in@[succs(c, i as int)[k2]])@.contains(x));
                            }
                        }
                    }
                }
                a += 1;
            }
            assert(out_eq(c, live_in@, i as int, out@));
            let (uses, def) = uses_defs(&code[i]);
            let mut inn: Vec<u32> = Vec::new();
            let mut b: usize = 0;
            while b < out.len()
                invariant
                    b <= out@.len(), sorted_set(inn@), i < n, c == code@, def == def_of(c[i as int]),
                    forall|x: u32| #[trigger] inn@.contains(x) <==> (out@.subrange(0, b as int).contains(x) && def != Some(x)),
                decreases out@.len() - b,
            {
                let ghost pre = inn@;
                if def != Some(out[b]) {
                    set_insert(&mut inn, out[b]);
                }
                proof {
                    let sb1 = out@.subrange(0, b + 1);
                    let sb0 = out@.subrange(0, b as int);
                    assert forall|x: u32| #[trigger] inn@.contains(x) <==> (sb1.contains(x) && def != Some(x)) by {
                        if sb1.contains(x) && !sb0.contains(x) {
                            let q = choose|q: int| 0 <= q < b + 1 && sb1[q] == x;
                            if q < b { assert(sb0[q] == x); }
                            assert(x == out@[b as int]);
                        }
                        if sb0.contains(x) {
                            let q = choose|q: int| 0 <= q < b && sb0[q] == x;
                            assert(sb1[q] == x);
                        }
                        if x == out@[b as int] {
                            assert(sb1[b as int] == x);
                        }
                    }
                }
                b += 1;
            }
            assert(out@.subrange(0, out@.len() as int) =~= out@);
            let mut b: usize = 0;
            while b < uses.len()
                invariant
                    b <= uses@.len(), sorted_set(inn@), i < code@.len(), c == code@,
                    uses@ == uses_of(c[i as int]), def == def_of(c[i as int]),
                    forall|x: u32| #[trigger] inn@.contains(x) <==> ((out@.contains(x) && def != Some(x)) || uses@.subrange(0, b as int).contains(x)),
                decreases uses@.len() - b,
            {
                set_insert(&mut inn, uses[b]);
                proof {
                    let sb1 = uses@.subrange(0, b + 1);
                    let sb0 = uses@.subrange(0, b as int);
                    assert forall|x: u32| #[trigger] inn@.contains(x) <==> ((out@.contains(x) && def != Some(x)) || sb1.contains(x)) by {
                        if sb1.contains(x) && !sb0.contains(x) {
                            let q = choose|q: int| 0 <= q < b + 1 && sb1[q] == x;
                            if q < b { assert(sb0[q] == x); }
                            assert(x == uses@[b as int]);
                        }
                        if sb0.contains(x) {
                            let q = choose|q: int| 0 <= q < b && sb0[q] == x;
                            assert(sb1[q] == x);
                        }
                        if x == uses@[b as int] {
                            assert(sb1[b as int] == x);
                        }
                    }
                }
                b += 1;
            }
            assert(uses@.subrange(0, uses@.len() as int) =~= uses@);
            assert(in_eq(c, i as int, out@, inn@));
            let ghost li0 = live_in@;
            let ghost lo0 = live_out@;
            proof {
                // What the new sets hold is live.
                assert forall|x: u32| out@.contains(x) implies live_after(c, i as int, x) by {
                    let k = choose|k: int| 0 <= k < succs(c, i as int).len() && (#[trigger] li0[succs(c, i as int)[k]])@.contains(x);
                    assert(ss@[k] as int == succs(c, i as int)[k]);
                    assert(live_before(c, succs(c, i as int)[k], x));
                }
                assert forall|x: u32| inn@.contains(x) implies live_before(c, i as int, x) by {
                    if uses_of(c[i as int]).contains(x) {
                        lemma_live_use(c, i as int, x);
                    } else {
                        assert(out@.contains(x));
                        let k = choose|k: int| 0 <= k < succs(c, i as int).len() && live_before(c, #[trigger] succs(c, i as int)[k], x);
                        lemma_live_step(c, i as int, k, x);
                    }
                }
                // The old sets are inside the new ones.
                assert forall|x: u32| lo0[i as int]@.contains(x) implies out@.contains(x) by {
                    let k = choose|k: int| 0 <= k < succs(c, i as int).len() && (#[trigger] li0[succs(c, i as int)[k]])@.contains(x);
                }
                assert forall|x: u32| li0[i as int]@.contains(x) implies inn@.contains(x) by {
                    if lo0[i as int]@.contains(x) && def_of(c[i as int]) != Some(x) {
                        assert(out@.contains(x));
                    }
                }
                lemma_sorted_sub(li0[i as int]@, inn@);
                lemma_sorted_sub(lo0[i as int]@, out@);
            }
            if !vec_eq_u32(&inn, &live_in[i]) || !vec_eq_u32(&out, &live_out[i]) {
                let ghost inn_v = inn;
                let ghost out_v = out;
                live_in.set(i, inn);
                live_out.set(i, out);
                proof {
                    lemma_size_update(li0, lo0, i as int, inn_v, out_v, n as int);
                    assert(live_in@ == li0.update(i as int, inn_v));
                    assert(live_out@ == lo0.update(i as int, out_v));
                    assert forall|j: int, x: u32| 0 <= j < n && #[trigger] li0[j]@.contains(x) implies live_in@[j]@.contains(x) by {
                        if j == i as int { assert(inn_v@.contains(x)); }
                    }
                    assert forall|j: int, x: u32| 0 <= j < n && #[trigger] live_in@[j]@.contains(x) implies live_before(c, j, x) by {
                        if j != i as int { assert(li0[j]@.contains(x)); }
                    }
                    assert forall|j: int, x: u32| 0 <= j < n && #[trigger] live_out@[j]@.contains(x) implies live_after(c, j, x) by {
                        if j != i as int { assert(lo0[j]@.contains(x)); }
                    }
                    assert forall|j: int, x: u32| 0 <= j < n && #[trigger] live_in@[j]@.contains(x)
                        implies ((live_out@[j]@.contains(x) && def_of(c[j]) != Some(x)) || uses_of(c[j]).contains(x)) by {
                        if j != i as int { assert(li0[j]@.contains(x)); }
                    }
                    assert forall|j: int, x: u32| 0 <= j < n && #[trigger] live_out@[j]@.contains(x)
                        implies exists|k: int| 0 <= k < succs(c, j).len() && (#[trigger] live_in@[succs(c, j)[k]])@.contains(x) by {
                        let k = choose|k: int| 0 <= k < succs(c, j).len() && (#[trigger] li0[succs(c, j)[k]])@.contains(x);
                        let s = succs(c, j)[k];
                        lemma_succs_in(c, j);
                        if s == i as int {
                            assert(inn_v@.contains(x));
                        } else {
                            assert(live_in@[s] == li0[s]);
                        }
                        assert(live_in@[succs(c, j)[k]]@.contains(x));
                    }
                }
                changed = true;
            } else {
                proof {
                    assert(inn@ == li0[i as int]@);
                    assert(out@ == lo0[i as int]@);
                }
            }
        }
        if !changed {
            proof {
                assert forall|i: int, x: u32| 0 <= i < n implies
                    (#[trigger] live_out@[i]@.contains(x) <==> live_after(c, i, x)) by {
                    if live_after(c, i, x) {
                        let k = choose|k: int| 0 <= k < succs(c, i).len() && live_before(c, #[trigger] succs(c, i)[k], x);
                        let j = succs(c, i)[k];
                        let p = choose|p: Seq<int>| #[trigger] read_path(c, p, x) && p[0] == j;
                        lemma_live_complete(c, live_in@, live_out@, p, x);
                        assert(out_eq(c, live_in@, i, live_out@[i]@));
                        assert(live_in@[succs(c, i)[k]]@.contains(x));
                    }
                }
                assert forall|i: int, x: u32| 0 <= i < n && #[trigger] live_out@[i]@.contains(x) implies read_somewhere(c, x) by {
                    let k = choose|k: int| 0 <= k < succs(c, i).len() && live_before(c, #[trigger] succs(c, i)[k], x);
                    lemma_live_read(c, succs(c, i)[k], x);
                }
            }
            return live_out;
        }
    }
}

/// Instruction `i` reads, writes, or keeps live the register.
pub open spec fn touches(code: Seq<Tac>, lo: Seq<Vec<u32>>, i: int, v: u32) -> bool {
    uses_of(code[i]).contains(v) || def_of(code[i]) == Some(v) || lo[i]@.contains(v)
}

/// The first and last of the instructions before `n` that touch the register.
pub open spec fn span_upto(code: Seq<Tac>, lo: Seq<Vec<u32>>, n: int, v: u32) -> Option<(int, int)>
    decreases n,
{
    if n <= 0 {
        None
    } else {
        let p = span_upto(code, lo, n - 1, v);
        if touches(code, lo, n - 1, v) {
            match p {
                Some((s, _)) => Some((s, n - 1)),
                None => Some((n - 1, n - 1)),
            }
        } else {
            p
        }
    }
}

/// The span while instruction `i` is half processed: the registers in `seen` have been
/// touched at `i` already.
spec fn span_mid(code: Seq<Tac>, lo: Seq<Vec<u32>>, i: int, v: u32, seen: Seq<u32>) -> Option<(int, int)> {
    if seen.contains(v) {
        match span_upto(code, lo, i, v) {
            Some((s, _)) => Some((s, i)),
            None => Some((i, i)),
        }
    } else {
        span_upto(code, lo, i, v)
    }
}

/// Interval order: by start, then by register.
pub open spec fn iv_before(a: (u32, usize, usize), b: (u32, usize, usize)) -> bool {
    a.1 < b.1 || (a.1 == b.1 && a.0 < b.0)
}

fn iv_lt(a: (u32, usize, usize), b: (u32, usize, usize)) -> (r: bool)
    ensures r == iv_before(a, b),
{
    a.1 < b.1 || (a.1 == b.1 && a.0 < b.0)
}

/// One interval per virtual register: from the first instruction that touches it (defines
/// it, reads it, or has it live out) to the last, sorted by start and then by register.
pub fn intervals(code: &[Tac], live_out: &[Vec<u32>]) -> (ivs: Vec<(u32, usize, usize)>)
    requires live_out@.len() == code@.len(),
    ensures
        forall|k: int| 0 <= k < ivs@.len() ==>
            span_upto(code@, live_out@, code@.len() as int, (#[trigger] ivs@[k]).0) == Some((ivs@[k].1 as int, ivs@[k].2 as int)),
        forall|v: u32| span_upto(code@, live_out@, code@.len() as int, v) is Some ==>
            exists|k: int| 0 <= k < ivs@.len() && (#[trigger] ivs@[k]).0 == v,
        forall|a: int, b: int| 0 <= a < b < ivs@.len() ==> iv_before(ivs@[a], ivs@[b]),
{
    let n = code.len();
    let mut span: Vec<(u32, usize, usize)> = Vec::new();
    let mut i: usize = 0;
    while i < n
        invariant
            i <= n, n == code@.len(), live_out@.len() == n,
            forall|a: int, b: int| 0 <= a < b < span@.len() ==> span@[a].0 != span@[b].0,
            forall|k: int| 0 <= k < span@.len() ==>
                span_upto(code@, live_out@, i as int, (#[trigger] span@[k]).0) == Some((span@[k].1 as int, span@[k].2 as int)),
            forall|v: u32| span_upto(code@, live_out@, i as int, v) is Some ==>
                exists|k: int| 0 <= k < span@.len() && (#[trigger] span@[k]).0 == v,
        decreases n - i,
    {
        let (uses, def) = uses_defs(&code[i]);
        let mut l: Vec<u32> = uses.clone();
        if let Some(d) = def {
            l.push(d);
        }
        assert(def is None ==> l@ == uses@);
        assert(def matches Some(d) ==> l@ == uses@.push(d));
        let lo = &live_out[i];
        let mut c: usize = 0;
        proof {
            assert(lo@.subrange(0, 0) =~= Seq::<u32>::empty());
            assert forall|v: u32| #[trigger] l@.contains(v) <==> (uses_of(code@[i as int]).contains(v)
                || def_of(code@[i as int]) == Some(v)) by {
                if def is Some {
                    let d = def.unwrap();
                    if l@.contains(v) {
                        let k = choose|k: int| 0 <= k < l@.len() && l@[k] == v;
                        if k < uses@.len() { assert(uses@[k] == v); }
                    }
                    if uses@.contains(v) {
                        let k = choose|k: int| 0 <= k < uses@.len() && uses@[k] == v;
                        assert(l@[k] == v);
                    }
                    if v == d { assert(l@[uses@.len() as int] == v); }
                }
            }
        }
        while c < lo.len()
            invariant
                c <= lo@.len(), i < n, n == code@.len(),
                forall|v: u32| #[trigger] l@.contains(v) <==> (uses_of(code@[i as int]).contains(v)
                    || def_of(code@[i as int]) == Some(v) || lo@.subrange(0, c as int).contains(v)),
            decreases lo@.len() - c,
        {
            let ghost l0 = l@;
            l.push(lo[c]);
            proof {
                assert forall|v: u32| #[trigger] l@.contains(v) <==> (l0.contains(v) || v == lo@[c as int]) by {
                    if l@.contains(v) {
                        let k = choose|k: int| 0 <= k < l@.len() && l@[k] == v;
                        if k < l0.len() { assert(l0[k] == v); }
                    }
                    if l0.contains(v) {
                        let k = choose|k: int| 0 <= k < l0.len() && l0[k] == v;
                        assert(l@[k] == v);
                    }
                    if v == lo@[c as int] { assert(l@[l0.len() as int] == v); }
                }
                let t0 = lo@.subrange(0, c as int);
                let t1 = lo@.subrange(0, c + 1);
                assert forall|v: u32| t1.contains(v) <==> (t0.contains(v) || v == lo@[c as int]) by {
                    if t1.contains(v) {
                        let k = choose|k: int| 0 <= k < t1.len() && t1[k] == v;
                        if k < c { assert(t0[k] == v); }
                    }
                    if t0.contains(v) {
                        let k = choose|k: int| 0 <= k < t0.len() && t0[k] == v;
                        assert(t1[k] == v);
                    }
                    if v == lo@[c as int] { assert(t1[c as int] == v); }
                }
            }
            c += 1;
        }
        assert(lo@.subrange(0, lo@.len() as int) =~= lo@);
        assert(lo@ == live_out@[i as int]@);
        assert forall|w: u32| l@.contains(w) == touches(code@, live_out@, i as int, w) by {}
        let mut j: usize = 0;
        assert(l@.subrange(0, 0) =~= Seq::<u32>::empty());
        while j < l.len()
            invariant
                j <= l@.len(), i < n, n == code@.len(), live_out@.len() == n,
                forall|w: u32| l@.contains(w) == touches(code@, live_out@, i as int, w),
                forall|a: int, b: int| 0 <= a < b < span@.len() ==> span@[a].0 != span@[b].0,
                forall|k: int| 0 <= k < span@.len() ==>
                    span_mid(code@, live_out@, i as int, (#[trigger] span@[k]).0, l@.subrange(0, j as int))
                        == Some((span@[k].1 as int, span@[k].2 as int)),
                forall|v: u32| span_mid(code@, live_out@, i as int, v, l@.subrange(0, j as int)) is Some ==>
                    exists|k: int| 0 <= k < span@.len() && (#[trigger] span@[k]).0 == v,
            decreases l@.len() - j,
        {
            let v = l[j];
            let ghost seen = l@.subrange(0, j as int);
            let ghost seen2 = l@.subrange(0, j + 1);
            assert forall|w: u32| seen2.contains(w) <==> (seen.contains(w) || w == v) by {
                if seen2.contains(w) {
                    let k = choose|k: int| 0 <= k < seen2.len() && seen2[k] == w;
                    if k < j { assert(seen[k] == w); }
                }
                if seen.contains(w) {
                    let k = choose|k: int| 0 <= k < seen.len() && seen[k] == w;
                    assert(seen2[k] == w);
                }
                if w == v { assert(seen2[j as int] == w); }
            }
            let mut k: usize = 0;
            while k < span.len() && span[k].0 != v
                invariant
                    k <= span@.len(),
                    forall|q: int| 0 <= q < k ==> span@[q].0 != v,
                decreases span@.len() - k,
            {
                k += 1;
            }
            let ghost old_span = span@;
            if k < span.len() {
                let s0 = span[k].1;
                span.set(k, (v, s0, i));
                proof {
                    assert forall|q: int| 0 <= q < span@.len() implies
                        span_mid(code@, live_out@, i as int, (#[trigger] span@[q]).0, seen2)
                            == Some((span@[q].1 as int, span@[q].2 as int)) by {
                        if q == k {
                            assert(old_span[q].0 == v);
                        } else {
                            assert(span@[q] == old_span[q]);
                            assert(old_span[q].0 != old_span[k as int].0);
                        }
                    }
                    assert forall|w: u32| span_mid(code@, live_out@, i as int, w, seen2) is Some implies
                        exists|q: int| 0 <= q < span@.len() && (#[trigger] span@[q]).0 == w by {
                        if w == v {
                            assert(span@[k as int].0 == w);
                        } else {
                            assert(span_mid(code@, live_out@, i as int, w, seen) is Some);
                            let q = choose|q: int| 0 <= q < old_span.len() && (#[trigger] old_span[q]).0 == w;
                            assert(span@[q].0 == w);
                        }
                    }
                }
            } else {
                span.push((v, i, i));
                proof {
                    if span_mid(code@, live_out@, i as int, v, seen) is Some {
                        let q = choose|q: int| 0 <= q < old_span.len() && (#[trigger] old_span[q]).0 == v;
                        assert(false);
                    }
                    assert forall|q: int| 0 <= q < span@.len() implies
                        span_mid(code@, live_out@, i as int, (#[trigger] span@[q]).0, seen2)
                            == Some((span@[q].1 as int, span@[q].2 as int)) by {
                        if q < old_span.len() {
                            assert(span@[q] == old_span[q]);
                        }
                    }
                    assert forall|w: u32| span_mid(code@, live_out@, i as int, w, seen2) is Some implies
                        exists|q: int| 0 <= q < span@.len() && (#[trigger] span@[q]).0 == w by {
                        if w == v {
                            assert(span@[old_span.len() as int].0 == w);
                        } else {
                            assert(span_mid(code@, live_out@, i as int, w, seen) is Some);
                            let q = choose|q: int| 0 <= q < old_span.len() && (#[trigger] old_span[q]).0 == w;
                            assert(span@[q].0 == w);
                        }
                    }
                }
            }
            j += 1;
        }
        proof {
            assert(l@.subrange(0, l@.len() as int) =~= l@);
            assert forall|w: u32| span_mid(code@, live_out@, i as int, w, l@) == span_upto(code@, live_out@, i + 1, w) by {
                assert(l@.contains(w) == touches(code@, live_out@, i as int, w));
            }
            let ip = i + 1;
            assert forall|w: u32| #[trigger] span_upto(code@, live_out@, ip, w) is Some implies
                exists|k: int| 0 <= k < span@.len() && (#[trigger] span@[k]).0 == w by {
                assert(span_mid(code@, live_out@, i as int, w, l@.subrange(0, j as int)) is Some);
            }
        }
        i += 1;
    }
    let mut out: Vec<(u32, usize, usize)> = Vec::new();
    let mut j: usize = 0;
    while j < span.len()
        invariant
            j <= span@.len(),
            forall|a: int, b: int| 0 <= a < b < span@.len() ==> span@[a].0 != span@[b].0,
            forall|e: (u32, usize, usize)| #[trigger] out@.contains(e) <==> span@.subrange(0, j as int).contains(e),
            forall|a: int, b: int| 0 <= a < b < out@.len() ==> iv_before(out@[a], out@[b]),
        decreases span@.len() - j,
    {
        let x = span[j];
        let mut p: usize = 0;
        while p < out.len() && iv_lt(out[p], x)
            invariant
                p <= out@.len(),
                forall|q: int| 0 <= q < p ==> iv_before(out@[q], x),
            decreases out@.len() - p,
        {
            p += 1;
        }
        let ghost o0 = out@;
        proof {
            // every later entry comes after x: entries differ from x in their register
            assert forall|q: int| p <= q < o0.len() implies iv_before(x, #[trigger] o0[q]) by {
                assert(o0.contains(o0[q]));
                assert(span@.subrange(0, j as int).contains(o0[q]));
                let a = choose|a: int| 0 <= a < j && span@.subrange(0, j as int)[a] == o0[q];
                assert(span@[a].0 != span@[j as int].0);
                if p < q { assert(iv_before(o0[p as int], o0[q])); }
            }
        }
        out.insert(p, x);
        proof {
            assert forall|a: int, b: int| 0 <= a < b < out@.len() implies iv_before(out@[a], out@[b]) by {
                if b < p {
                    assert(out@[a] == o0[a] && out@[b] == o0[b]);
                } else if b == p {
                    assert(out@[a] == o0[a]);
                } else if a < p {
                    assert(out@[a] == o0[a] && out@[b] == o0[b - 1]);
                } else if a == p {
                    assert(out@[b] == o0[b - 1]);
                } else {
                    assert(out@[a] == o0[a - 1] && out@[b] == o0[b - 1]);
                }
            }
            assert forall|e: (u32, usize, usize)| #[trigger] out@.contains(e) <==> span@.subrange(0, j + 1).contains(e) by {
                let s0 = span@.subrange(0, j as int);
                let s1 = span@.subrange(0, j + 1);
                if out@.contains(e) {
                    let k = choose|k: int| 0 <= k < out@.len() && out@[k] == e;
                    if k < p { assert(o0.contains(e)); assert(o0[k] == e); }
                    else if k > p { assert(o0[k - 1] == e); assert(o0.contains(e)); }
                    if k != p {
                        let a = choose|a: int| 0 <= a < j && s0[a] == e;
                        assert(s1[a] == e);
                    } else {
                        assert(s1[j as int] == e);
                    }
                }
                if s1.contains(e) {
                    let a = choose|a: int| 0 <= a < j + 1 && s1[a] == e;
                    if a < j {
                        assert(s0[a] == e);
                        assert(s0.contains(e));
                        assert(o0.contains(e));
                        let k = choose|k: int| 0 <= k < o0.len() && o0[k] == e;
                        if k < p { assert(out@[k] == e); } else { assert(out@[k + 1] == e); }
                    } else {
                        assert(out@[p as int] == e);
                    }
                }
            }
        }
        j += 1;
    }
    proof {
        assert(span@.subrange(0, span@.len() as int) =~= span@);
        assert forall|k: int| 0 <= k < out@.len() implies
            span_upto(code@, live_out@, code@.len() as int, (#[trigger] out@[k]).0) == Some((out@[k].1 as int, out@[k].2 as int)) by {
            assert(out@.contains(out@[k]));
            let a = choose|a: int| 0 <= a < span@.len() && span@[a] == out@[k];
        }
        assert forall|v: u32| span_upto(code@, live_out@, code@.len() as int, v) is Some implies
            exists|k: int| 0 <= k < out@.len() && (#[trigger] out@[k]).0 == v by {
            let a = choose|a: int| 0 <= a < span@.len() && (#[trigger] span@[a]).0 == v;
            assert(span@.contains(span@[a]));
            assert(out@.contains(span@[a]));
            let k = choose|k: int| 0 <= k < out@.len() && out@[k] == span@[a];
            assert(out@[k].0 == v);
        }
    }
    out
}

pub open spec fn is_reg(o: Option<Loc>) -> bool {
    o matches Some(Loc::Reg(_))
}

pub open spec fn is_slot(o: Option<Loc>) -> bool {
    o matches Some(Loc::Slot(_))
}

/// Intervals as the scan takes them: sorted by start (then register), one per register,
/// each starting no later than it ends.
pub open spec fn ivs_ok(ivs: Seq<(u32, usize, usize)>) -> bool {
    &&& forall|a: int, b: int| 0 <= a < b < ivs.len() ==> iv_before(ivs[a], ivs[b])
    &&& forall|a: int, b: int| 0 <= a < b < ivs.len() ==> ivs[a].0 != ivs[b].0
    &&& forall|a: int| 0 <= a < ivs.len() ==> ivs[a].1 <= ivs[a].2
}

/// Two intervals are live at a common point.
pub open spec fn overlaps(a: (u32, usize, usize), b: (u32, usize, usize)) -> bool {
    a.1 <= b.2 && b.1 <= a.2
}

/// The allocation is sound for the intervals: every register has a place, machine
/// registers exist, two intervals that are live together never share a machine register,
/// and no two intervals share a stack slot.
pub open spec fn alloc_sound(ivs: Seq<(u32, usize, usize)>, m: Seq<(u32, Loc)>, k: usize) -> bool {
    &&& forall|a: int| 0 <= a < ivs.len() ==> (#[trigger] loc_get(m, ivs[a].0)) is Some
    &&& forall|v: u32| #[trigger] loc_get(m, v) matches Some(Loc::Reg(r)) ==> r < k
    &&& forall|a: int, b: int| 0 <= a < ivs.len() && 0 <= b < ivs.len() && a != b
            && is_reg(#[trigger] loc_get(m, ivs[a].0)) && loc_get(m, ivs[a].0) == (#[trigger] loc_get(m, ivs[b].0))
            ==> !overlaps(ivs[a], ivs[b])
    &&& forall|a: int, b: int| 0 <= a < ivs.len() && 0 <= b < ivs.len() && a != b
            && is_slot(#[trigger] loc_get(m, ivs[a].0))
            ==> loc_get(m, ivs[a].0) != (#[trigger] loc_get(m, ivs[b].0))
    &&& forall|v: u32| #[trigger] loc_get(m, v) matches Some(Loc::Slot(s)) ==> s < ivs.len()
}

fn act_lt(a: (usize, u32, usize), b: (usize, u32, usize)) -> (r: bool)
    ensures r == (a.0 < b.0 || (a.0 == b.0 && (a.1 < b.1 || (a.1 == b.1 && a.2 < b.2)))),
{
    a.0 < b.0 || (a.0 == b.0 && (a.1 < b.1 || (a.1 == b.1 && a.2 < b.2)))
}

/// Puts an entry into the active list at its place in `(end, register, machine register)`
/// order.
fn act_insert(active: &mut Vec<(usize, u32, usize)>, x: (usize, u32, usize))
    ensures
        final(active)@.len() == old(active)@.len() + 1,
        exists|p: int| 0 <= p <= old(active)@.len() && final(active)@ == old(active)@.insert(p, x),
{
    let mut p: usize = 0;
    while p < active.len() && act_lt(active[p], x)
        invariant p <= active@.len(), active@ == old(active)@,
        decreases active@.len() - p,
    {
        p += 1;
    }
    active.insert(p, x);
}

/// The first `n` intervals are placed soundly, with slots numbered below `slots`.
#[verifier::opaque]
spec fn placed_ok(ivs: Seq<(u32, usize, usize)>, n: int, k: usize, loc: Seq<(u32, Loc)>, slots: int) -> bool {
    &&& forall|a: int| 0 <= a < n ==> (#[trigger] loc_get(loc, ivs[a].0)) is Some
    &&& forall|v: u32| #[trigger] loc_get(loc, v) matches Some(Loc::Reg(r)) ==> r < k
    &&& forall|v: u32| #[trigger] loc_get(loc, v) matches Some(Loc::Slot(s)) ==> s < slots
    &&& forall|a: int, b: int| 0 <= a < n && 0 <= b < n && a != b
            && is_reg(#[trigger] loc_get(loc, ivs[a].0)) && loc_get(loc, ivs[a].0) == (#[trigger] loc_get(loc, ivs[b].0))
            ==> !overlaps(ivs[a], ivs[b])
    &&& forall|a: int, b: int| 0 <= a < n && 0 <= b < n && a != b
            && is_slot(#[trigger] loc_get(loc, ivs[a].0))
            ==> loc_get(loc, ivs[a].0) != (#[trigger] loc_get(loc, ivs[b].0))
}

/// Active entries `(end, register, machine register)` stand for processed intervals that
/// hold their machine registers, all different.
#[verifier::opaque]
spec fn act_ok(ivs: Seq<(u32, usize, usize)>, n: int, k: usize, loc: Seq<(u32, Loc)>, active: Seq<(usize, u32, usize)>) -> bool {
    &&& forall|t: int| 0 <= t < active.len() ==> (#[trigger] active[t]).2 < k
            && loc_get(loc, active[t].1) == Some(Loc::Reg(active[t].2))
            && exists|a: int| 0 <= a < n && (#[trigger] ivs[a]).0 == active[t].1 && ivs[a].2 == active[t].0
    &&& forall|t: int, u: int| 0 <= t < u < active.len() ==> (#[trigger] active[t]).2 != (#[trigger] active[u]).2
}

/// Free machine registers are distinct, not held, and together with the held ones make `k`.
#[verifier::opaque]
spec fn free_ok(k: usize, free: Seq<usize>, active: Seq<(usize, u32, usize)>) -> bool {
    &&& forall|f: int| 0 <= f < free.len() ==> #[trigger] free[f] < k
    &&& forall|f: int, g: int| 0 <= f < g < free.len() ==> free[f] != free[g]
    &&& forall|f: int, t: int| 0 <= f < free.len() && 0 <= t < active.len() ==> #[trigger] free[f] != (#[trigger] active[t]).2
    &&& free.len() + active.len() == k
}

/// A processed interval that holds a register but is not active ended before `bound`.
#[verifier::opaque]
spec fn expired_ok(ivs: Seq<(u32, usize, usize)>, n: int, loc: Seq<(u32, Loc)>, active: Seq<(usize, u32, usize)>, bound: int) -> bool {
    forall|a: int| 0 <= a < n && is_reg(#[trigger] loc_get(loc, ivs[a].0))
        && (forall|t: int| 0 <= t < active.len() ==> (#[trigger] active[t]).1 != ivs[a].0)
        ==> ivs[a].2 < bound
}

/// Removes the active intervals that end before `start`, freeing their registers in order.
fn expire(active: &mut Vec<(usize, u32, usize)>, free: &mut Vec<usize>, start: usize,
    Ghost(ivs): Ghost<Seq<(u32, usize, usize)>>, Ghost(n): Ghost<int>, Ghost(loc): Ghost<Seq<(u32, Loc)>>, k: usize)
    requires act_ok(ivs, n, k, loc, old(active)@), free_ok(k, old(free)@, old(active)@),
    ensures
        act_ok(ivs, n, k, loc, final(active)@), free_ok(k, final(free)@, final(active)@),
        forall|x: int| 0 <= x < final(active)@.len() ==> (#[trigger] final(active)@[x]).0 >= start,
        forall|t0: int| 0 <= t0 < old(active)@.len() && (#[trigger] old(active)@[t0]).0 >= start ==>
            exists|x: int| 0 <= x < final(active)@.len() && (#[trigger] final(active)@[x]) == old(active)@[t0],
{
    proof { reveal(act_ok); reveal(free_ok); }
    let ghost act0 = active@;
    let ghost free0 = free@;
    let mut kept: Vec<(usize, u32, usize)> = Vec::new();
    let ghost mut gk: Seq<int> = Seq::empty();
    let ghost mut ge: Seq<int> = Seq::empty();
    let mut t: usize = 0;
    while t < active.len()
        invariant
            t <= active@.len(), active@ == act0,
            kept@.len() == gk.len(),
            forall|x: int| 0 <= x < gk.len() ==> 0 <= #[trigger] gk[x] < t && kept@[x] == act0[gk[x]] && act0[gk[x]].0 >= start,
            forall|x: int, y: int| 0 <= x < y < gk.len() ==> gk[x] < gk[y],
            free@.len() == free0.len() + ge.len(),
            forall|f: int| 0 <= f < free0.len() ==> free@[f] == free0[f],
            forall|y: int| 0 <= y < ge.len() ==> 0 <= #[trigger] ge[y] < t && free@[free0.len() + y] == act0[ge[y]].2 && act0[ge[y]].0 < start,
            forall|x: int, y: int| 0 <= x < y < ge.len() ==> ge[x] < ge[y],
            forall|t0: int| 0 <= t0 < t && act0[t0].0 >= start ==> exists|x: int| 0 <= x < gk.len() && #[trigger] gk[x] == t0,
            gk.len() + ge.len() == t,
        decreases active@.len() - t,
    {
        let en = active[t];
        let ghost gk_old = gk;
        if en.0 < start {
            free.push(en.2);
            proof { ge = ge.push(t as int); }
        } else {
            kept.push(en);
            proof { gk = gk.push(t as int); }
        }
        proof {
            assert forall|t0: int| 0 <= t0 < t + 1 && act0[t0].0 >= start implies
                exists|x: int| 0 <= x < gk.len() && #[trigger] gk[x] == t0 by {
                if t0 == t {
                    assert(gk[gk.len() - 1] == t0);
                } else {
                    let x = choose|x: int| 0 <= x < gk_old.len() && #[trigger] gk_old[x] == t0;
                    assert(gk[x] == t0);
                }
            }
        }
        t += 1;
    }
    proof {
        assert forall|t: int| 0 <= t < kept@.len() implies (#[trigger] kept@[t]).2 < k
            && loc_get(loc, kept@[t].1) == Some(Loc::Reg(kept@[t].2))
            && exists|a: int| 0 <= a < n && (#[trigger] ivs[a]).0 == kept@[t].1 && ivs[a].2 == kept@[t].0 by {
            assert(kept@[t] == act0[gk[t]]);
        }
        assert forall|x: int, y: int| 0 <= x < y < kept@.len() implies (#[trigger] kept@[x]).2 != (#[trigger] kept@[y]).2 by {
            assert(act0[gk[x]].2 != act0[gk[y]].2);
        }
        assert forall|f: int| 0 <= f < free@.len() implies #[trigger] free@[f] < k by {
            if f >= free0.len() {
                let y = f - free0.len();
                assert(free@[free0.len() + y] == act0[ge[y]].2);
            } else {
                assert(free@[f] == free0[f]);
            }
        }
        assert forall|f: int, g: int| 0 <= f < g < free@.len() implies free@[f] != free@[g] by {
            if g < free0.len() {
                assert(free@[f] == free0[f] && free@[g] == free0[g]);
            } else if f < free0.len() {
                let y = g - free0.len();
                assert(free@[free0.len() + y] == act0[ge[y]].2);
                assert(free@[f] == free0[f]);
                assert(free0[f] != act0[ge[y]].2);
            } else {
                let x = f - free0.len();
                let y = g - free0.len();
                assert(free@[free0.len() + x] == act0[ge[x]].2);
                assert(free@[free0.len() + y] == act0[ge[y]].2);
                assert(act0[ge[x]].2 != act0[ge[y]].2);
            }
        }
        assert forall|f: int, x: int| 0 <= f < free@.len() && 0 <= x < kept@.len() implies #[trigger] free@[f] != (#[trigger] kept@[x]).2 by {
            assert(kept@[x] == act0[gk[x]]);
            if f < free0.len() {
                assert(free@[f] == free0[f]);
                assert(free0[f] != act0[gk[x]].2);
            } else {
                let y = f - free0.len();
                assert(free@[free0.len() + y] == act0[ge[y]].2);
                assert(ge[y] != gk[x]);
                assert(act0[ge[y]].2 != act0[gk[x]].2);
            }
        }
        assert forall|x: int| 0 <= x < kept@.len() implies (#[trigger] kept@[x]).0 >= start by {
            assert(kept@[x] == act0[gk[x]]);
        }
        assert forall|t0: int| 0 <= t0 < act0.len() && (#[trigger] act0[t0]).0 >= start implies
            exists|x: int| 0 <= x < kept@.len() && (#[trigger] kept@[x]) == act0[t0] by {
            let x = choose|x: int| 0 <= x < gk.len() && #[trigger] gk[x] == t0;
            assert(kept@[x] == act0[t0]);
        }
    }
    *active = kept;
}

/// After expiry, a processed interval that holds a register but is not active ended before
/// the new start.
proof fn lemma_expired(ivs: Seq<(u32, usize, usize)>, idx: int, k: usize, loc: Seq<(u32, Loc)>,
    act0: Seq<(usize, u32, usize)>, act1: Seq<(usize, u32, usize)>)
    requires
        ivs_ok(ivs), 0 <= idx < ivs.len(),
        act_ok(ivs, idx, k, loc, act0),
        idx > 0 ==> expired_ok(ivs, idx, loc, act0, ivs[idx - 1].1 as int),
        forall|t0: int| 0 <= t0 < act0.len() && (#[trigger] act0[t0]).0 >= ivs[idx].1 ==>
            exists|x: int| 0 <= x < act1.len() && (#[trigger] act1[x]) == act0[t0],
    ensures expired_ok(ivs, idx, loc, act1, ivs[idx].1 as int),
{
    reveal(act_ok); reveal(expired_ok);
    let start = ivs[idx].1;
    assert forall|a: int| 0 <= a < idx && is_reg(#[trigger] loc_get(loc, ivs[a].0))
        && (forall|t: int| 0 <= t < act1.len() ==> (#[trigger] act1[t]).1 != ivs[a].0)
        implies ivs[a].2 < start by {
        if exists|t0: int| 0 <= t0 < act0.len() && (#[trigger] act0[t0]).1 == ivs[a].0 {
            let t0 = choose|t0: int| 0 <= t0 < act0.len() && (#[trigger] act0[t0]).1 == ivs[a].0;
            let a2 = choose|a2: int| 0 <= a2 < idx && (#[trigger] ivs[a2]).0 == act0[t0].1 && ivs[a2].2 == act0[t0].0;
            if a2 != a {
                if a2 < a { assert(ivs[a2].0 != ivs[a].0); } else { assert(ivs[a].0 != ivs[a2].0); }
            }
            if act0[t0].0 >= start {
                let x = choose|x: int| 0 <= x < act1.len() && (#[trigger] act1[x]) == act0[t0];
                assert(act1[x].1 == ivs[a].0);
            }
        } else {
            assert(idx > 0);
            assert(iv_before(ivs[idx - 1], ivs[idx]));
        }
    }
}

/// The active list after an insertion, with the last entry evicted first when `ev` says so.
spec fn act_after(act0: Seq<(usize, u32, usize)>, ev: Option<u32>, p: int, e: (usize, u32, usize)) -> Seq<(usize, u32, usize)> {
    (if ev is Some { act0.drop_last() } else { act0 }).insert(p, e)
}

/// Giving interval `idx` its place keeps every invariant: the place is `nl`; `ev`, when
/// present, is the register whose interval was evicted to a fresh slot so that `idx` can
/// take its machine register.
#[verifier::spinoff_prover]
#[verifier::rlimit(60)]
proof fn lemma_assign(ivs: Seq<(u32, usize, usize)>, idx: int, k: usize,
    loc0: Seq<(u32, Loc)>, loc: Seq<(u32, Loc)>, act0: Seq<(usize, u32, usize)>, act1: Seq<(usize, u32, usize)>,
    nl: Loc, ev: Option<u32>, slots0: int, slots1: int)
    requires
        ivs_ok(ivs), 0 <= idx < ivs.len(), 0 <= slots0 <= idx, idx < usize::MAX,
        placed_ok(ivs, idx, k, loc0, slots0),
        act_ok(ivs, idx, k, loc0, act0),
        expired_ok(ivs, idx, loc0, act0, ivs[idx].1 as int),
        forall|u: u32| #[trigger] loc_get(loc, u) == (if u == ivs[idx].0 { Some(nl) }
            else if ev == Some(u) { Some(Loc::Slot(slots0 as usize)) } else { loc_get(loc0, u) }),
        nl is Slot ==> nl == Loc::Slot(slots0 as usize) && ev is None && slots1 == slots0 + 1 && act1 == act0,
        nl matches Loc::Reg(r) ==> r < k && (ev is None ==> slots1 == slots0 && forall|t: int| 0 <= t < act0.len() ==> (#[trigger] act0[t]).2 != r),
        nl matches Loc::Reg(r) ==> (ev matches Some(w) ==> slots1 == slots0 + 1 && act0.len() > 0 && act0.last().1 == w && act0.last().2 == r),
        nl matches Loc::Reg(r) ==> exists|p: int| 0 <= p <= act0.len() - (if ev is Some { 1int } else { 0int })
            && act1 == #[trigger] act_after(act0, ev, p, (ivs[idx].2, ivs[idx].0, r)),
    ensures
        act_ok(ivs, idx + 1, k, loc, act1),
        expired_ok(ivs, idx + 1, loc, act1, ivs[idx].1 as int),
{
    reveal(placed_ok); reveal(act_ok); reveal(expired_ok);
    let v = ivs[idx].0;
    let start = ivs[idx].1;
    assert forall|t: int| 0 <= t < act0.len() implies (#[trigger] act0[t]).1 != v by {
        let a = choose|a: int| 0 <= a < idx && (#[trigger] ivs[a]).0 == act0[t].1 && ivs[a].2 == act0[t].0;
        assert(ivs[a].0 != ivs[idx].0);
    }
    assert forall|a: int| 0 <= a < idx implies (#[trigger] ivs[a]).0 != v by {
        assert(ivs[a].0 != ivs[idx].0);
    }
    let base = if ev is Some { act0.drop_last() } else { act0 };
    // the entries of the new active list
    let pp: int = if nl is Reg {
        choose|p: int| 0 <= p <= act0.len() - (if ev is Some { 1int } else { 0int })
            && act1 == #[trigger] act_after(act0, ev, p, (ivs[idx].2, ivs[idx].0, nl->Reg_0))
    } else { 0 };
    assert forall|t: int| 0 <= t < base.len() implies (#[trigger] base[t]) == act0[t] && ev != Some(base[t].1) by {
        if ev is Some {
            assert(act0[t].2 != act0[act0.len() - 1].2);
        }
    }
    assert forall|t: int| #![trigger act1[t]] 0 <= t < act1.len() implies
        (nl is Reg && t == pp && act1[t] == (ivs[idx].2, v, nl->Reg_0))
        || (exists|x: int| 0 <= x < base.len() && (#[trigger] base[x]) == act1[t]) by {
        if nl is Reg {
            if t < pp { assert(act1[t] == base[t]); } else if t > pp { assert(act1[t] == base[t - 1]); }
        } else {
            assert(act1[t] == base[t]);
        }
    }
    assert forall|x: int| 0 <= x < act0.len() && ev != Some(act0[x].1) implies
        exists|t: int| 0 <= t < act1.len() && (#[trigger] act1[t]) == act0[x] by {
        if ev is Some {
            assert(x < act0.len() - 1);
        }
        assert(base[x] == act0[x]);
        if nl is Reg {
            if x < pp { assert(act1[x] == base[x]); } else { assert(act1[x + 1] == base[x]); }
        } else {
            assert(act1[x] == base[x]);
        }
    }
    // act_ok
    assert forall|t: int| 0 <= t < act1.len() implies (#[trigger] act1[t]).2 < k
        && loc_get(loc, act1[t].1) == Some(Loc::Reg(act1[t].2))
        && exists|a: int| 0 <= a < idx + 1 && (#[trigger] ivs[a]).0 == act1[t].1 && ivs[a].2 == act1[t].0 by {
        if nl is Reg && t == pp {
            assert(ivs[idx].0 == v);
        } else {
            let x = choose|x: int| 0 <= x < base.len() && (#[trigger] base[x]) == act1[t];
            assert(base[x] == act0[x]);
            let a = choose|a: int| 0 <= a < idx && (#[trigger] ivs[a]).0 == act0[x].1 && ivs[a].2 == act0[x].0;
        }
    }
    assert forall|t: int, u: int| 0 <= t < u < act1.len() implies (#[trigger] act1[t]).2 != (#[trigger] act1[u]).2 by {
        if nl is Reg && (t == pp || u == pp) {
            let q = if t == pp { u } else { t };
            let x = choose|x: int| 0 <= x < base.len() && (#[trigger] base[x]) == act1[q];
            assert(base[x] == act0[x]);
            if ev is Some {
                assert(act0[x].2 != act0[act0.len() - 1].2);
            }
        } else {
            let x = choose|x: int| 0 <= x < base.len() && (#[trigger] base[x]) == act1[t];
            let y = choose|y: int| 0 <= y < base.len() && (#[trigger] base[y]) == act1[u];
            assert(base[x] == act0[x] && base[y] == act0[y]);
            if x == y {
                // two different positions hold the same entry only if it is the new one
                if nl is Reg {
                    if t < pp { assert(act1[t] == base[t]); } else { assert(act1[t] == base[t - 1]); }
                    if u < pp { assert(act1[u] == base[u]); } else { assert(act1[u] == base[u - 1]); }
                } else {
                    assert(act1[t] == base[t] && act1[u] == base[u]);
                }
                assert(false);
            }
            if x < y { assert(act0[x].2 != act0[y].2); } else { assert(act0[y].2 != act0[x].2); }
        }
    }
    // expired_ok
    assert forall|a: int| 0 <= a < idx + 1 && is_reg(#[trigger] loc_get(loc, ivs[a].0))
        && (forall|t: int| 0 <= t < act1.len() ==> (#[trigger] act1[t]).1 != ivs[a].0)
        implies ivs[a].2 < start by {
        if a == idx {
            assert(act1[pp].1 == ivs[a].0);
        } else {
            assert(ev != Some(ivs[a].0));
            assert forall|t: int| 0 <= t < act0.len() implies (#[trigger] act0[t]).1 != ivs[a].0 by {
                if act0[t].1 == ivs[a].0 {
                    let q = choose|q: int| 0 <= q < act1.len() && (#[trigger] act1[q]) == act0[t];
                }
            }
        }
    }
}

proof fn lemma_assign_placed(ivs: Seq<(u32, usize, usize)>, idx: int, k: usize,
    loc0: Seq<(u32, Loc)>, loc: Seq<(u32, Loc)>, act0: Seq<(usize, u32, usize)>, act1: Seq<(usize, u32, usize)>,
    nl: Loc, ev: Option<u32>, slots0: int, slots1: int)
    requires
        ivs_ok(ivs), 0 <= idx < ivs.len(), 0 <= slots0 <= idx, idx < usize::MAX,
        placed_ok(ivs, idx, k, loc0, slots0),
        act_ok(ivs, idx, k, loc0, act0),
        expired_ok(ivs, idx, loc0, act0, ivs[idx].1 as int),
        forall|u: u32| #[trigger] loc_get(loc, u) == (if u == ivs[idx].0 { Some(nl) }
            else if ev == Some(u) { Some(Loc::Slot(slots0 as usize)) } else { loc_get(loc0, u) }),
        nl is Slot ==> nl == Loc::Slot(slots0 as usize) && ev is None && slots1 == slots0 + 1 && act1 == act0,
        nl matches Loc::Reg(r) ==> r < k && (ev is None ==> slots1 == slots0 && forall|t: int| 0 <= t < act0.len() ==> (#[trigger] act0[t]).2 != r),
        nl matches Loc::Reg(r) ==> (ev matches Some(w) ==> slots1 == slots0 + 1 && act0.len() > 0 && act0.last().1 == w && act0.last().2 == r),
        nl matches Loc::Reg(r) ==> exists|p: int| 0 <= p <= act0.len() - (if ev is Some { 1int } else { 0int })
            && act1 == #[trigger] act_after(act0, ev, p, (ivs[idx].2, ivs[idx].0, r)),
    ensures
        placed_ok(ivs, idx + 1, k, loc, slots1),
{
    reveal(placed_ok); reveal(act_ok); reveal(expired_ok);
    let v = ivs[idx].0;
    assert forall|a: int| 0 <= a < idx implies (#[trigger] ivs[a]).0 != v by {
        assert(ivs[a].0 != ivs[idx].0);
    }
    // placed_ok
    assert forall|a: int| 0 <= a < idx + 1 implies (#[trigger] loc_get(loc, ivs[a].0)) is Some by {
        if a < idx { assert(ivs[a].0 != v); }
    }
    assert forall|a: int, b: int| 0 <= a < idx + 1 && 0 <= b < idx + 1 && a != b
        && is_reg(#[trigger] loc_get(loc, ivs[a].0)) && loc_get(loc, ivs[a].0) == (#[trigger] loc_get(loc, ivs[b].0))
        implies !overlaps(ivs[a], ivs[b]) by {
        if a == idx || b == idx {
            let q = if a == idx { b } else { a };
            assert(ivs[q].0 != v);
            assert(iv_before(ivs[q], ivs[idx]));
            assert(ev != Some(ivs[q].0));
            if exists|x: int| 0 <= x < act0.len() && (#[trigger] act0[x]).1 == ivs[q].0 {
                let x = choose|x: int| 0 <= x < act0.len() && (#[trigger] act0[x]).1 == ivs[q].0;
                if ev is Some {
                    assert(x != act0.len() - 1);
                    assert(act0[x].2 != act0[act0.len() - 1].2);
                }
            }
        } else {
            assert(ivs[a].0 != v);
            assert(ivs[b].0 != v);
        }
    }
    assert forall|a: int, b: int| 0 <= a < idx + 1 && 0 <= b < idx + 1 && a != b
        && is_slot(#[trigger] loc_get(loc, ivs[a].0))
        implies loc_get(loc, ivs[a].0) != (#[trigger] loc_get(loc, ivs[b].0)) by {
        if a != idx { assert(ivs[a].0 != v); }
        if b != idx { assert(ivs[b].0 != v); }
        let fresh_a = a == idx || ev == Some(ivs[a].0);
        let fresh_b = b == idx || ev == Some(ivs[b].0);
        if !fresh_a && !fresh_b {
            assert(is_slot(loc_get(loc0, ivs[a].0)));
        } else if fresh_a && fresh_b {
            if a == idx { assert(ev == Some(ivs[b].0)); assert(nl is Reg); }
            else { assert(ev == Some(ivs[a].0)); assert(b == idx); assert(nl is Reg); }
        } else {
            let q = if fresh_a { b } else { a };
            assert(loc_get(loc0, ivs[q].0) matches Some(Loc::Slot(s)) ==> s < slots0);
        }
    }
    assert forall|u: u32| (#[trigger] loc_get(loc, u) matches Some(Loc::Slot(s)) ==> s < slots1) by {
        if u != v && ev != Some(u) {
            assert(loc_get(loc0, u) == loc_get(loc, u));
        }
    }
    assert forall|u: u32| (#[trigger] loc_get(loc, u) matches Some(Loc::Reg(r)) ==> r < k) by {
        if u != v && ev != Some(u) {
            assert(loc_get(loc0, u) == loc_get(loc, u));
        }
    }
}

/// The scan's state after `idx` intervals.
spec fn scan_inv(ivs: Seq<(u32, usize, usize)>, idx: int, k: usize, loc: Seq<(u32, Loc)>,
    active: Seq<(usize, u32, usize)>, free: Seq<usize>, slots: int) -> bool {
    &&& ivs_ok(ivs) && 0 <= idx <= ivs.len() && k >= 1 && 0 <= slots <= idx
    &&& placed_ok(ivs, idx, k, loc, slots)
    &&& act_ok(ivs, idx, k, loc, active)
    &&& free_ok(k, free, active)
    &&& idx > 0 ==> expired_ok(ivs, idx, loc, active, ivs[idx - 1].1 as int)
}

/// Taking the last free register and making it active keeps the free list sound, and no
/// active interval held that register.
proof fn lemma_free_pop(k: usize, free0: Seq<usize>, free: Seq<usize>, r: usize,
    act0: Seq<(usize, u32, usize)>, active: Seq<(usize, u32, usize)>, x: (usize, u32, usize))
    requires
        free_ok(k, free0, act0), free0.len() > 0, free0 == free.push(r), x.2 == r,
        exists|p: int| 0 <= p <= act0.len() && active == act0.insert(p, x),
    ensures
        free_ok(k, free, active), r < k,
        forall|t: int| 0 <= t < act0.len() ==> (#[trigger] act0[t]).2 != r,
{
    reveal(free_ok);
    assert(free0[free.len() as int] == r);
    assert forall|t: int| 0 <= t < act0.len() implies (#[trigger] act0[t]).2 != r by {
        assert(free0[free.len() as int] != act0[t].2);
    }
    let pp = choose|p: int| 0 <= p <= act0.len() && active == act0.insert(p, x);
    assert forall|f: int, t: int| 0 <= f < free.len() && 0 <= t < active.len() implies #[trigger] free[f] != (#[trigger] active[t]).2 by {
        assert(free0[f] == free[f]);
        if t == pp {
            assert(free0[f] != free0[free.len() as int]);
        } else {
            let t1 = if t < pp { t } else { t - 1 };
            assert(active[t] == act0[t1]);
        }
    }
    assert forall|f: int, g: int| 0 <= f < g < free.len() implies free[f] != free[g] by {
        assert(free0[f] == free[f] && free0[g] == free[g]);
    }
    assert forall|f: int| 0 <= f < free.len() implies #[trigger] free[f] < k by {
        assert(free0[f] == free[f]);
    }
}

/// Places interval `idx`.
#[verifier::rlimit(100)]
fn scan_step(ivs: &[(u32, usize, usize)], idx: usize, k: usize, loc: &mut Vec<(u32, Loc)>,
    active: &mut Vec<(usize, u32, usize)>, free: &mut Vec<usize>, slots: &mut usize)
    requires idx < ivs@.len(), scan_inv(ivs@, idx as int, k, old(loc)@, old(active)@, old(free)@, *old(slots) as int),
    ensures scan_inv(ivs@, idx + 1, k, final(loc)@, final(active)@, final(free)@, *final(slots) as int),
{
    let (v, start, end) = ivs[idx];
    let ghost act_in = active@;
    expire(active, free, start, Ghost(ivs@), Ghost(idx as int), Ghost(loc@), k);
    proof { lemma_expired(ivs@, idx as int, k, loc@, act_in, active@); }
    let ghost loc0 = loc@;
    let ghost act0 = active@;
    let ghost slots0 = *slots as int;
    let ghost nl: Loc;
    let ghost ev: Option<u32>;
    if free.len() > 0 {
        let ghost free0 = free@;
        let r = free.pop().unwrap();
        loc.push((v, Loc::Reg(r)));
        act_insert(active, (end, v, r));
        proof {
            nl = Loc::Reg(r);
            ev = None;
            assert(free0 =~= free@.push(r));
            lemma_free_pop(k, free0, free@, r, act0, active@, (end, v, r));
            let pp = choose|p: int| 0 <= p <= act0.len() && active@ == act0.insert(p, (end, v, r));
            assert(active@ == act_after(act0, ev, pp, (end, v, r)));
        }
    } else {
        proof { reveal(free_ok); }
        let last = active[active.len() - 1];
        if last.0 > end {
            loc.push((last.1, Loc::Slot(*slots)));
            loc.push((v, Loc::Reg(last.2)));
            active.pop();
            act_insert(active, (end, v, last.2));
            proof {
                reveal(act_ok);
                nl = Loc::Reg(last.2);
                ev = Some(last.1);
                assert(act0.last() == last);
                let t = act0.len() - 1;
                assert(act0[t] == last);
                let a = choose|a: int| 0 <= a < idx && (#[trigger] ivs@[a]).0 == act0[t].1 && ivs@[a].2 == act0[t].0;
                assert(ivs@[a].0 != ivs@[idx as int].0);
                let act_mid = act0.drop_last();
                let pp = choose|p: int| 0 <= p <= act_mid.len() && active@ == act_mid.insert(p, (end, v, last.2));
                assert(active@ == act_after(act0, ev, pp, (end, v, last.2)));
            }
        } else {
            loc.push((v, Loc::Slot(*slots)));
            proof {
                nl = Loc::Slot(slots0 as usize);
                ev = None;
            }
        }
        *slots += 1;
    }
    proof {
        assert forall|u: u32| #[trigger] loc_get(loc@, u) == (if u == v { Some(nl) }
            else if ev == Some(u) { Some(Loc::Slot(slots0 as usize)) } else { loc_get(loc0, u) }) by {
            reveal_with_fuel(loc_get, 3);
            if ev is Some {
                assert(loc@.drop_last().drop_last() == loc0);
            } else {
                assert(loc@.drop_last() == loc0);
            }
        }
        lemma_assign(ivs@, idx as int, k, loc0, loc@, act0, active@, nl, ev, slots0, *slots as int);
        lemma_assign_placed(ivs@, idx as int, k, loc0, loc@, act0, active@, nl, ev, slots0, *slots as int);
    }
}

/// Linear-scan register allocation (Poletto and Sarkar) over intervals sorted by start,
/// with `k` machine registers. When none is free, the active interval that ends last is
/// spilled if it ends after the new one; otherwise the new one is.
pub fn linear_scan(ivs: &[(u32, usize, usize)], k: usize) -> (m: Vec<(u32, Loc)>)
    requires ivs_ok(ivs@), k >= 1,
    ensures alloc_sound(ivs@, m@, k),
{
    proof { reveal(placed_ok); reveal(act_ok); reveal(free_ok); reveal(expired_ok); }
    let n = ivs.len();
    let mut loc: Vec<(u32, Loc)> = Vec::new();
    let mut active: Vec<(usize, u32, usize)> = Vec::new();
    let mut free: Vec<usize> = Vec::new();
    let mut r0: usize = k;
    while r0 > 0
        invariant
            r0 <= k, free@.len() == k - r0,
            forall|f: int| 0 <= f < free@.len() ==> r0 <= #[trigger] free@[f] < k,
            forall|f: int, g: int| 0 <= f < g < free@.len() ==> free@[f] > free@[g],
        decreases r0,
    {
        r0 -= 1;
        free.push(r0);
    }
    let mut slots: usize = 0;
    let mut idx: usize = 0;
    while idx < n
        invariant
            n == ivs@.len(), idx <= n,
            scan_inv(ivs@, idx as int, k, loc@, active@, free@, slots as int),
        decreases n - idx,
    {
        scan_step(ivs, idx, k, &mut loc, &mut active, &mut free, &mut slots);
        idx += 1;
    }
    loc
}

} // verus!
