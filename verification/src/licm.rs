//! Loop-invariant code motion and the one rule it must not break. `b / a` is loop-invariant,
//! but it only runs when `a != 0` and only if the loop body runs at all; hoisting it
//! unconditionally into the preheader makes a correct program fail. The safe pass hoists
//! only instructions that cannot trap.

use vstd::prelude::*;
use vstd::string::StringExecFns;
use crate::pipeline::{char_debug, char_debug_text};
use crate::text::{ascii_chars, decimal, decimal_string};
use crate::wrap::{b2i, wdiv, wrapping_div, bool_to_i64};

verus! {

#[derive(Clone, Copy, Debug)]
pub enum I {
    /// `x = constant` (printed as `Set`)
    Const(&'static str, i64),
    /// `x = y op z`
    Op(&'static str, &'static str, char, &'static str),
    /// `if x goto t else e`
    Br(&'static str, usize, usize),
    Jmp(usize),
    Ret(&'static str),
}

/// `acc = 0; i = 0; while i < n { if a != 0 { acc = acc + b / a } i = i + 1 } return acc`:
/// bb0 is the preheader, bb1 to bb4 the loop, bb5 the exit.
pub fn program() -> (p: Vec<Vec<I>>)
    ensures p@.len() == 6, p@[0]@.len() >= 1,
{
    let mut p: Vec<Vec<I>> = Vec::new();
    p.push(vec![I::Const("acc", 0), I::Const("i", 0), I::Const("zero", 0), I::Const("one", 1), I::Jmp(1)]);
    p.push(vec![I::Op("c", "i", '<', "n"), I::Br("c", 2, 5)]);
    p.push(vec![I::Op("nz", "a", '!', "zero"), I::Br("nz", 3, 4)]);
    p.push(vec![I::Op("q", "b", '/', "a"), I::Op("acc", "acc", '+', "q"), I::Jmp(4)]);
    p.push(vec![I::Op("i", "i", '+', "one"), I::Jmp(1)]);
    p.push(vec![I::Ret("acc")]);
    p
}

/// The loop's blocks.
pub open spec fn in_loop(b: int) -> bool {
    1 <= b <= 4
}

/// The instruction writes `var`.
pub open spec fn defines(i: I, var: Seq<char>) -> bool {
    match i {
        I::Op(d, _, _, _) => d@ == var,
        I::Const(d, _) => d@ == var,
        _ => false,
    }
}

pub open spec fn defined_in_loop_spec(p: Seq<Vec<I>>, var: Seq<char>) -> bool {
    exists|b: int, k: int| in_loop(b) && b < p.len() && 0 <= k < p[b]@.len() && #[trigger] defines(p[b]@[k], var)
}

fn same_str(a: &'static str, b: &'static str) -> (r: bool)
    ensures r == (a@ == b@),
{
    String::from_str(a) == String::from_str(b)
}

/// Some instruction in the loop writes `var`.
pub fn defined_in_loop(p: &Vec<Vec<I>>, var: &'static str) -> (r: bool)
    requires p@.len() >= 5,
    ensures r == defined_in_loop_spec(p@, var@),
{
    let mut b: usize = 1;
    while b <= 4
        invariant 1 <= b <= 5, p@.len() >= 5,
            forall|bb: int, k: int| 1 <= bb < b && 0 <= k < p@[bb]@.len() ==> !#[trigger] defines(p@[bb]@[k], var@),
        decreases 5 - b,
    {
        let blk = &p[b];
        let mut k: usize = 0;
        while k < blk.len()
            invariant k <= blk@.len(), blk@ == p@[b as int]@, 1 <= b <= 4, p@.len() >= 5,
                forall|bb: int, q: int| 1 <= bb < b && 0 <= q < p@[bb]@.len() ==> !#[trigger] defines(p@[bb]@[q], var@),
                forall|q: int| 0 <= q < k ==> !#[trigger] defines(p@[b as int]@[q], var@),
            decreases blk@.len() - k,
        {
            let hit = match blk[k] {
                I::Op(d, _, _, _) => same_str(d, var),
                I::Const(d, _) => same_str(d, var),
                _ => false,
            };
            if hit {
                assert(defines(p@[b as int]@[k as int], var@));
                return true;
            }
            k += 1;
        }
        b += 1;
    }
    false
}

/// Division is the only instruction that can fail.
pub open spec fn traps(i: I) -> bool {
    i matches I::Op(_, _, '/', _)
}

pub fn may_trap(i: &I) -> (r: bool)
    ensures r == traps(*i),
{
    match i {
        I::Op(_, _, op, _) => *op == '/',
        _ => false,
    }
}

/// The instructions of a block that can trap, in order.
pub open spec fn trapping(s: Seq<I>) -> Seq<I>
    decreases s.len(),
{
    if s.len() == 0 { Seq::empty() } else { trapping(s.drop_last()) + if traps(s.last()) { seq![s.last()] } else { Seq::empty() } }
}

proof fn lemma_trapping_remove(s: Seq<I>, k: int)
    requires 0 <= k < s.len(), !traps(s[k]),
    ensures trapping(s.remove(k)) == trapping(s),
    decreases s.len(),
{
    if k < s.len() - 1 {
        lemma_trapping_remove(s.drop_last(), k);
        assert(s.remove(k).drop_last() =~= s.drop_last().remove(k));
        assert(s.remove(k).last() == s.last());
    } else {
        assert(s.remove(k) =~= s.drop_last());
    }
}

proof fn lemma_trapping_insert(s: Seq<I>, k: int, x: I)
    requires 0 <= k <= s.len(), !traps(x),
    ensures trapping(s.insert(k, x)) == trapping(s),
    decreases s.len(),
{
    if k < s.len() {
        lemma_trapping_insert(s.drop_last(), k, x);
        assert(s.insert(k, x).drop_last() =~= s.drop_last().insert(k, x));
        assert(s.insert(k, x).last() == s.last());
    } else {
        assert(s.insert(k, x).drop_last() =~= s);
    }
}

/// What `{:?}` prints for a string slice (quoted, with escapes).
pub uninterp spec fn str_debug_text(s: Seq<char>) -> Seq<char>;

#[verifier::external_body]
fn str_debug(s: &str) -> (r: String)
    ensures r@ == str_debug_text(s@),
{
    format!("{:?}", s)
}

/// The instruction as `{:?}` prints it.
pub open spec fn inst_text(i: I) -> Seq<char> {
    match i {
        I::Const(d, c) => "Set("@ + str_debug_text(d@) + ", "@ + ascii_chars(crate::text::int_text(c as int)) + ")"@,
        I::Op(d, x, op, y) => "Op("@ + str_debug_text(d@) + ", "@ + str_debug_text(x@) + ", "@ + char_debug_text(op)
            + ", "@ + str_debug_text(y@) + ")"@,
        I::Br(c, t, e) => "Br("@ + str_debug_text(c@) + ", "@ + ascii_chars(decimal(t as nat)) + ", "@ + ascii_chars(decimal(e as nat)) + ")"@,
        I::Jmp(t) => "Jmp("@ + ascii_chars(decimal(t as nat)) + ")"@,
        I::Ret(x) => "Ret("@ + str_debug_text(x@) + ")"@,
    }
}

pub fn inst_debug(i: &I) -> (s: String)
    ensures s@ == inst_text(*i),
{
    let mut s = String::new();
    match *i {
        I::Const(d, c) => {
            s.append("Set(");
            let t = str_debug(d);
            s.append(t.as_str());
            s.append(", ");
            let n = crate::text::int_to_string(c);
            s.append(n.as_str());
            s.append(")");
        },
        I::Op(d, x, op, y) => {
            s.append("Op(");
            let t = str_debug(d);
            s.append(t.as_str());
            s.append(", ");
            let t = str_debug(x);
            s.append(t.as_str());
            s.append(", ");
            let t = char_debug(op);
            s.append(t.as_str());
            s.append(", ");
            let t = str_debug(y);
            s.append(t.as_str());
            s.append(")");
        },
        I::Br(c, t, e) => {
            s.append("Br(");
            let u = str_debug(c);
            s.append(u.as_str());
            s.append(", ");
            let n = decimal_string(t as u64);
            s.append(n.as_str());
            s.append(", ");
            let n = decimal_string(e as u64);
            s.append(n.as_str());
            s.append(")");
        },
        I::Jmp(t) => {
            s.append("Jmp(");
            let n = decimal_string(t as u64);
            s.append(n.as_str());
            s.append(")");
        },
        I::Ret(x) => {
            s.append("Ret(");
            let u = str_debug(x);
            s.append(u.as_str());
            s.append(")");
        },
    }
    s
}

/// The number of instructions in the loop's blocks (1 to 4).
pub open spec fn loop_len(p: Seq<Vec<I>>) -> nat {
    p[1]@.len() + p[2]@.len() + p[3]@.len() + p[4]@.len()
}

/// Hoists loop-invariant operations (neither operand written in the loop) into the
/// preheader, before its final jump; `safe` also requires that the operation cannot trap.
/// Returns what was moved, as `{inst:?} from bb{b}`. Only loop blocks and the preheader
/// change; in safe mode the trapping instructions of every block stay where they were.
pub fn licm(p: &mut Vec<Vec<I>>, safe: bool) -> (moved: Vec<String>)
    requires old(p)@.len() >= 5, old(p)@[0]@.len() >= 1,
    ensures
        final(p)@.len() == old(p)@.len(),
        final(p)@[0]@.len() == old(p)@[0]@.len() + moved@.len(),
        loop_len(final(p)@) + moved@.len() == loop_len(old(p)@),
        forall|b: int| 5 <= b < old(p)@.len() ==> (#[trigger] final(p)@[b])@ == old(p)@[b]@,
        final(p)@[0]@.len() >= 1,
        safe ==> forall|b: int| 0 <= b < 5 ==> trapping((#[trigger] final(p)@[b])@) == trapping(old(p)@[b]@),
{
    let mut moved: Vec<String> = Vec::new();
    let mut b: usize = 1;
    while b <= 4
        invariant
            1 <= b <= 5, p@.len() == old(p)@.len(), p@.len() >= 5, p@[0]@.len() >= 1,
            p@[0]@.len() == old(p)@[0]@.len() + moved@.len(),
            loop_len(p@) + moved@.len() == loop_len(old(p)@),
            forall|q: int| 5 <= q < old(p)@.len() ==> (#[trigger] p@[q])@ == old(p)@[q]@,
            safe ==> forall|q: int| 0 <= q < 5 ==> trapping((#[trigger] p@[q])@) == trapping(old(p)@[q]@),
        decreases 5 - b,
    {
        let mut k: usize = 0;
        while k < p[b].len()
            invariant
                1 <= b <= 4, p@.len() == old(p)@.len(), p@.len() >= 5, p@[0]@.len() >= 1,
                p@[0]@.len() == old(p)@[0]@.len() + moved@.len(),
                loop_len(p@) + moved@.len() == loop_len(old(p)@),
                forall|q: int| 5 <= q < old(p)@.len() ==> (#[trigger] p@[q])@ == old(p)@[q]@,
                safe ==> forall|q: int| 0 <= q < 5 ==> trapping((#[trigger] p@[q])@) == trapping(old(p)@[q]@),
            decreases p@[b as int]@.len() - k,
        {
            let hoist = match p[b][k] {
                I::Op(_, x, _, y) => {
                    let inv = !defined_in_loop(p, x) && !defined_in_loop(p, y);
                    inv && (!safe || !may_trap(&p[b][k]))
                },
                _ => false,
            };
            if hoist {
                let ghost pb = p@[b as int]@;
                let ghost p0 = p@[0]@;
                let ghost pp = p@;
                let inst = p[b].remove(k);
                let line = {
                    let mut l = inst_debug(&inst);
                    l.append(" from bb");
                    let n = decimal_string(b as u64);
                    l.append(n.as_str());
                    l
                };
                moved.push(line);
                let at = p[0].len() - 1;
                p[0].insert(at, inst);
                proof {
                    assert(p@[b as int]@ == pb.remove(k as int));
                    assert(p@[0]@ == p0.insert(at as int, inst));
                    assert forall|q: int| 1 <= q <= 4 && q != b implies (#[trigger] p@[q]) == pp[q] by {}
                    assert(loop_len(p@) + 1 == loop_len(pp));
                    if safe {
                        lemma_trapping_remove(pb, k as int);
                        lemma_trapping_insert(p0, at as int, inst);
                    }
                    assert forall|q: int| 5 <= q < old(p)@.len() implies (#[trigger] p@[q])@ == old(p)@[q]@ by {
                        assert(p@[q] == pp[q]);
                    }
                    if safe {
                        assert forall|q: int| 0 <= q < 5 implies trapping((#[trigger] p@[q])@) == trapping(old(p)@[q]@) by {
                            if q != 0 && q != b {
                                assert(p@[q] == pp[q]);
                            }
                        }
                    }
                }
            } else {
                k += 1;
            }
        }
        b += 1;
    }
    moved
}

// ---------------- running a program ----------------

/// How a run ends.
pub enum LEnd {
    /// `Ret` with this value, after this many divisions.
    Done(i64, nat),
    DivZero,
    /// A missing variable or block, an overflow, or an unknown operator.
    Fault,
    OutOfSteps,
}

/// A variable's value: the last assignment wins.
pub open spec fn var_get(env: Seq<(&'static str, i64)>, x: Seq<char>) -> Option<i64>
    decreases env.len(),
{
    if env.len() == 0 { None } else if env.last().0@ == x { Some(env.last().1) } else { var_get(env.drop_last(), x) }
}

/// What an operation computes; `None` for an overflow or an unknown operator (division by
/// zero is handled before).
pub open spec fn op_value(op: char, x: i64, y: i64) -> Option<i64> {
    if op == '<' { Some(b2i(x < y)) }
    else if op == '!' { Some(b2i(x != y)) }
    else if op == '+' { if i64::MIN <= x + y <= i64::MAX { Some((x + y) as i64) } else { None } }
    else if op == '/' { if y != 0 && !(x == i64::MIN && y == -1) { Some(wdiv(x, y)) } else { None } }
    else { None }
}

/// The program from instruction `k` of block `bb`, with at most `fuel` steps. A block that
/// ends without a jump runs again from its start.
pub open spec fn lrun(p: Seq<Vec<I>>, env: Seq<(&'static str, i64)>, bb: int, k: int, divs: nat, fuel: nat) -> LEnd
    decreases fuel,
{
    if fuel == 0 {
        LEnd::OutOfSteps
    } else if bb < 0 || bb >= p.len() {
        LEnd::Fault
    } else if k < 0 || k >= p[bb]@.len() {
        lrun(p, env, bb, 0, divs, (fuel - 1) as nat)
    } else {
        let f = (fuel - 1) as nat;
        match p[bb]@[k] {
            I::Const(d, c) => lrun(p, env.push((d, c)), bb, k + 1, divs, f),
            I::Op(d, x, op, y) => match (var_get(env, x@), var_get(env, y@)) {
                (Some(a), Some(b)) => {
                    let divs2 = if op == '/' { divs + 1 } else { divs };
                    if op == '/' && b == 0 {
                        LEnd::DivZero
                    } else {
                        match op_value(op, a, b) {
                            Some(v) => lrun(p, env.push((d, v)), bb, k + 1, divs2, f),
                            None => LEnd::Fault,
                        }
                    }
                },
                _ => LEnd::Fault,
            },
            I::Br(c, t, e) => match var_get(env, c@) {
                Some(v) => lrun(p, env, if v != 0 { t as int } else { e as int }, 0, divs, f),
                None => LEnd::Fault,
            },
            I::Jmp(t) => lrun(p, env, t as int, 0, divs, f),
            I::Ret(x) => match var_get(env, x@) {
                Some(v) => LEnd::Done(v, divs),
                None => LEnd::Fault,
            },
        }
    }
}

fn var_lookup(env: &Vec<(&'static str, i64)>, x: &'static str) -> (r: Option<i64>)
    ensures r == var_get(env@, x@),
{
    let target = String::from_str(x);
    let mut i: usize = env.len();
    assert(env@.subrange(0, env@.len() as int) =~= env@);
    while i > 0
        invariant i <= env@.len(), target@ == x@, var_get(env@, x@) == var_get(env@.subrange(0, i as int), x@),
        decreases i,
    {
        assert(env@.subrange(0, i as int).drop_last() =~= env@.subrange(0, i - 1));
        if String::from_str(env[i - 1].0) == target {
            return Some(env[i - 1].1);
        }
        i -= 1;
    }
    assert(env@.subrange(0, 0) =~= Seq::<(&'static str, i64)>::empty());
    None
}

fn op_eval(op: char, x: i64, y: i64) -> (r: Option<i64>)
    ensures r == op_value(op, x, y),
{
    if op == '<' { Some(bool_to_i64(x < y)) }
    else if op == '!' { Some(bool_to_i64(x != y)) }
    else if op == '+' { x.checked_add(y) }
    else if op == '/' { if y != 0 && !(x == i64::MIN && y == -1) { Some(wrapping_div(x, y)) } else { None } }
    else { None }
}

/// Runs the program with `n`, `a` and `b` bound, for at most `fuel` steps: the returned value
/// and the number of divisions executed, or the error.
pub fn run(p: &[Vec<I>], n: i64, a: i64, b: i64, fuel: u64) -> (r: Result<(i64, u64), String>)
    ensures
        match lrun(p@, seq![("n", n), ("a", a), ("b", b)], 0, 0, 0, fuel as nat) {
            LEnd::Done(v, d) => r == Ok::<(i64, u64), String>((v, d as u64)),
            LEnd::DivZero => r matches Err(m) && m@ == "division by zero"@,
            LEnd::Fault => r matches Err(m) && m@ == "malformed program"@,
            LEnd::OutOfSteps => r matches Err(m) && m@ == "step limit reached"@,
        },
{
    let mut env: Vec<(&'static str, i64)> = Vec::new();
    env.push(("n", n));
    env.push(("a", a));
    env.push(("b", b));
    let ghost goal = lrun(p@, seq![("n", n), ("a", a), ("b", b)], 0, 0, 0, fuel as nat);
    assert(env@ =~= seq![("n", n), ("a", a), ("b", b)]);
    let mut bb: usize = 0;
    let mut k: usize = 0;
    let mut divs: u64 = 0;
    let mut left: u64 = fuel;
    while left > 0
        invariant
            divs + left <= fuel,
            goal == lrun(p@, seq![("n", n), ("a", a), ("b", b)], 0, 0, 0, fuel as nat),
            lrun(p@, env@, bb as int, k as int, divs as nat, left as nat) == goal,
        decreases left,
    {
        if bb >= p.len() {
            return Err(String::from_str("malformed program"));
        }
        let blk = &p[bb];
        left -= 1;
        if k >= blk.len() {
            k = 0;
            continue;
        }
        match blk[k] {
            I::Const(d, c) => { env.push((d, c)); k += 1; },
            I::Op(d, x, op, y) => {
                match (var_lookup(&env, x), var_lookup(&env, y)) {
                    (Some(xv), Some(yv)) => {
                        if op == '/' {
                            divs += 1;
                            if yv == 0 {
                                return Err(String::from_str("division by zero"));
                            }
                        }
                        match op_eval(op, xv, yv) {
                            Some(v) => { env.push((d, v)); k += 1; },
                            None => { return Err(String::from_str("malformed program")); },
                        }
                    },
                    _ => { return Err(String::from_str("malformed program")); },
                }
            },
            I::Br(c, t, e) => {
                match var_lookup(&env, c) {
                    Some(v) => { bb = if v != 0 { t } else { e }; k = 0; },
                    None => { return Err(String::from_str("malformed program")); },
                }
            },
            I::Jmp(t) => { bb = t; k = 0; },
            I::Ret(x) => {
                match var_lookup(&env, x) {
                    Some(v) => { return Ok((v, divs)); },
                    None => { return Err(String::from_str("malformed program")); },
                }
            },
        }
    }
    Err(String::from_str("step limit reached"))
}

} // verus!
