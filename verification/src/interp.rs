//! Interpreters for the CFG and its SSA form, counting the instructions they execute. A
//! division or remainder by zero is a run-time error naming the function.

use vstd::prelude::*;
use vstd::string::{StringExecFns, StringSliceAdditionalSpecFns};
use crate::ore::{BinOp, UnOp};
use crate::ir::{FnIr, Inst, Term, Val, val_ok, inst_ok, term_ok, inst_operands, block_ok, fold, unary, bin_value, un_value};
use crate::ssa::{SsaFn, SsaBlock, Phi, phi_ok, ssa_block_ok};

verus! {

/// The functions of a program, each well formed, calling only functions the program has.
pub open spec fn program_ok(fns: Seq<FnIr>) -> bool {
    &&& forall|i: int| 0 <= i < fns.len() ==> (#[trigger] fns[i]).wf()
    &&& forall|i: int, b: int, k: int| 0 <= i < fns.len() && 0 <= b < fns[i].blocks@.len()
        && 0 <= k < fns[i].blocks@[b].insts@.len()
        ==> (#[trigger] fns[i].blocks@[b].insts@[k] matches Inst::Call { func, .. } ==> defines(fns, func@))
}

pub open spec fn defines(fns: Seq<FnIr>, name: Seq<char>) -> bool {
    exists|j: int| 0 <= j < fns.len() && (#[trigger] fns[j]).name@ == name
}

pub open spec fn ssa_program_ok(fns: Seq<SsaFn>) -> bool {
    &&& forall|i: int| 0 <= i < fns.len() ==> (#[trigger] fns[i]).wf()
    &&& forall|i: int, b: int, k: int| 0 <= i < fns.len() && 0 <= b < fns[i].blocks@.len()
        && 0 <= k < fns[i].blocks@[b].insts@.len()
        ==> (#[trigger] fns[i].blocks@[b].insts@[k] matches Inst::Call { func, .. } ==> ssa_defines(fns, func@))
}

pub open spec fn ssa_defines(fns: Seq<SsaFn>, name: Seq<char>) -> bool {
    exists|j: int| 0 <= j < fns.len() && (#[trigger] fns[j]).name@ == name
}

/// The errors a run can end in: a division by zero (naming the function), or running out of
/// the step counter.
pub open spec fn run_error(m: Seq<char>) -> bool {
    ||| (m.len() >= 20 && m.subrange(0, 20) == "division by zero in "@)
    ||| m == "division by zero"@
    ||| m == "step limit reached"@
}

fn step_limit() -> (s: String)
    ensures run_error(s@), s@ == "step limit reached"@,
{
    String::from_str("step limit reached")
}

fn div_error(name: &String) -> (s: String)
    ensures run_error(s@), s@ == "division by zero in "@ + name@,
{
    let mut s = String::from_str("division by zero in ");
    let ghost pre = s@;
    s.append(name.as_str());
    proof {
        reveal_strlit("division by zero in ");
        assert(s@.subrange(0, 20) =~= pre);
    }
    s
}

/// The index of the last function of `fns[..k]` named `name`, or -1.
pub open spec fn last_named(fns: Seq<FnIr>, name: Seq<char>, k: int) -> int
    decreases k,
{
    if k <= 0 { -1 } else if fns[k - 1].name@ == name { k - 1 } else { last_named(fns, name, k - 1) }
}

/// The last function named `name`.
fn find_fn(fns: &[FnIr], name: &String) -> (r: usize)
    requires defines(fns@, name@),
    ensures r < fns@.len(), fns@[r as int].name@ == name@, r as int == last_named(fns@, name@, fns@.len() as int),
{
    let mut i = fns.len();
    while i > 0
        invariant i <= fns@.len(), forall|k: int| i <= k < fns@.len() ==> (#[trigger] fns@[k]).name@ != name@,
            last_named(fns@, name@, i as int) == last_named(fns@, name@, fns@.len() as int),
        decreases i,
    {
        i -= 1;
        if fns[i].name == *name {
            return i;
        }
    }
    proof {
        let j = choose|j: int| 0 <= j < fns@.len() && (#[trigger] fns@[j]).name@ == name@;
        assert(fns@[j].name@ == name@);
    }
    0
}

fn get(vars: &Vec<i64>, v: Val) -> (r: i64)
    requires val_ok(v, vars@.len()),
    ensures r == val_of(vars@, v),
{
    match v {
        Val::Var(x) => vars[x as usize],
        Val::Const(c) => c,
    }
}

/// The value of an operand.
pub open spec fn val_of(vars: Seq<i64>, v: Val) -> i64 {
    match v {
        Val::Var(x) => vars[x as int],
        Val::Const(c) => c,
    }
}

/// The variables on entry: all 0, then each parameter set from its argument, as far as
/// both go (a missing argument reads as 0).
pub open spec fn entry_vars(params: Seq<u32>, nv: nat, args: Seq<i64>, k: int) -> Seq<i64>
    decreases k,
{
    if k <= 0 {
        Seq::new(nv, |_i: int| 0i64)
    } else {
        entry_vars(params, nv, args, k - 1).update(params[k - 1] as int, args[k - 1])
    }
}

/// How far parameters and arguments both go.
pub open spec fn min_len(a: int, b: int) -> int {
    if a < b { a } else { b }
}

/// The result of a run as plain values.
pub open spec fn res_view(r: Result<i64, String>) -> Result<i64, Seq<char>> {
    match r {
        Ok(v) => Ok(v),
        Err(m) => Err(m@),
    }
}

/// Calling `name` on `args` with the step counter at `s`: the result, and the counter
/// after. Each instruction and each terminator costs one step, checked before it runs.
pub open spec fn cfg_call(fns: Seq<FnIr>, name: Seq<char>, args: Seq<i64>, s: u64) -> (Result<i64, Seq<char>>, u64)
    decreases u64::MAX - s, 3nat, 0nat,
{
    let fi = last_named(fns, name, fns.len() as int);
    if fi < 0 || fi >= fns.len() {
        (Err(Seq::empty()), s)
    } else {
        let f = fns[fi];
        cfg_block(fns, fi, 0, entry_vars(f.params@, f.vars@.len(), args, min_len(f.params@.len() as int, args.len() as int)), s)
    }
}

/// Running function `fi` from the start of block `b`.
pub open spec fn cfg_block(fns: Seq<FnIr>, fi: int, b: int, vars: Seq<i64>, s: u64) -> (Result<i64, Seq<char>>, u64)
    decreases u64::MAX - s, 2nat, 0nat,
{
    if !(0 <= fi < fns.len() && 0 <= b < fns[fi].blocks@.len()) {
        (Err(Seq::empty()), s)
    } else {
        match cfg_insts(fns, fi, b, 0, vars, s) {
            Err((m, s2)) => (Err(m), s2),
            Ok((v2, s2)) => if s2 < s {
                (Err(Seq::empty()), s2)
            } else if s2 == u64::MAX {
                (Err("step limit reached"@), s2)
            } else {
                match fns[fi].blocks@[b].term {
                    None => (Ok(0), (s2 + 1) as u64),
                    Some(Term::Return(v)) => (Ok(val_of(v2, v)), (s2 + 1) as u64),
                    Some(Term::Jump(t)) => cfg_block(fns, fi, t as int, v2, (s2 + 1) as u64),
                    Some(Term::Branch { cond, then, els }) =>
                        cfg_block(fns, fi, if val_of(v2, cond) != 0 { then as int } else { els as int }, v2, (s2 + 1) as u64),
                }
            },
        }
    }
}

/// Running the instructions of block `b` of function `fi` from the `q`-th: the variables and
/// counter after the last, or the error and the counter then.
pub open spec fn cfg_insts(fns: Seq<FnIr>, fi: int, b: int, q: int, vars: Seq<i64>, s: u64)
    -> Result<(Seq<i64>, u64), (Seq<char>, u64)>
    decreases u64::MAX - s, 1nat, 0nat,
{
    if !(0 <= fi < fns.len() && 0 <= b < fns[fi].blocks@.len()) || q < 0 || q >= fns[fi].blocks@[b].insts@.len() {
        Ok((vars, s))
    } else if s == u64::MAX {
        Err(("step limit reached"@, s))
    } else {
        let s1 = (s + 1) as u64;
        match fns[fi].blocks@[b].insts@[q] {
            Inst::Copy { dst, src } => cfg_insts(fns, fi, b, q + 1, vars.update(dst as int, val_of(vars, src)), s1),
            Inst::Un { dst, op, a } => cfg_insts(fns, fi, b, q + 1, vars.update(dst as int, un_value(op, val_of(vars, a))), s1),
            Inst::Bin { dst, op, a, b: bb } => {
                let y = val_of(vars, bb);
                if (op == BinOp::Div || op == BinOp::Rem) && y == 0 {
                    Err(("division by zero in "@ + fns[fi].name@, s1))
                } else {
                    match bin_value(op, val_of(vars, a), y) {
                        Some(v) => cfg_insts(fns, fi, b, q + 1, vars.update(dst as int, v), s1),
                        None => cfg_insts(fns, fi, b, q + 1, vars, s1),
                    }
                }
            },
            Inst::Call { dst, func, args } => {
                let (r, s2) = cfg_call(fns, func@, args@.map_values(|v: Val| val_of(vars, v)), s1);
                match r {
                    Err(m) => Err((m, s2)),
                    Ok(v) => if s2 >= s1 {
                        cfg_insts(fns, fi, b, q + 1, vars.update(dst as int, v), s2)
                    } else {
                        Err((Seq::empty(), s2))
                    },
                }
            },
        }
    }
}

/// Runs function `name` of the program on `args`, adding the instructions it executes
/// (terminators included, callees too) to `steps`: exactly what `cfg_call` says.
pub fn run(fns: &[FnIr], name: &str, args: &[i64], steps: &mut u64) -> (r: Result<i64, String>)
    requires program_ok(fns@), defines(fns@, name@),
    ensures
        *final(steps) >= *old(steps),
        r matches Err(m) ==> run_error(m@),
        (res_view(r), *final(steps)) == cfg_call(fns@, name@, args@, *old(steps)),
{
    let nm = String::from_str(name);
    run_named(fns, &nm, args, steps)
}

fn run_named(fns: &[FnIr], name: &String, args: &[i64], steps: &mut u64) -> (r: Result<i64, String>)
    requires program_ok(fns@), defines(fns@, name@),
    ensures
        *final(steps) >= *old(steps),
        r matches Err(m) ==> run_error(m@),
        (res_view(r), *final(steps)) == cfg_call(fns@, name@, args@, *old(steps)),
    decreases u64::MAX - *old(steps), 0int,
{
    let fi = find_fn(fns, name);
    let f = &fns[fi];
    assert(f.wf());
    let n = f.blocks.len();
    let nv = f.vars.len();
    let mut vars: Vec<i64> = Vec::new();
    let mut i: usize = 0;
    while i < nv
        invariant i <= nv, vars@.len() == i, forall|j: int| 0 <= j < i ==> vars@[j] == 0,
        decreases nv - i,
    {
        vars.push(0);
        i += 1;
    }
    assert(vars@ =~= entry_vars(f.params@, nv as nat, args@, 0));
    let mut k: usize = 0;
    while k < f.params.len() && k < args.len()
        invariant f.wf(), vars@.len() == nv, nv == f.vars@.len(), k <= f.params@.len(), k <= args@.len(),
            vars@ == entry_vars(f.params@, nv as nat, args@, k as int),
        decreases f.params@.len() - k,
    {
        vars.set(f.params[k] as usize, args[k]);
        k += 1;
    }
    let ghost s0 = *steps;
    let mut b: usize = 0;
    assert(cfg_call(fns@, name@, args@, s0) == cfg_block(fns@, fi as int, 0, vars@, s0));
    loop
        invariant
            program_ok(fns@), fi < fns@.len(), *f == fns@[fi as int], f.wf(), *name == *name,
            fns@[fi as int].name@ == name@,
            n == f.blocks@.len(), nv == f.vars@.len(), vars@.len() == nv, b < n,
            *steps >= *old(steps), s0 == *old(steps),
            cfg_call(fns@, name@, args@, s0) == cfg_block(fns@, fi as int, b as int, vars@, *steps),
        decreases u64::MAX - *steps,
    {
        let blk = &f.blocks[b];
        let ghost s_top = *steps;
        let ghost v_top = vars@;
        assert(block_ok(*blk, n as nat, nv as nat));
        let mut q: usize = 0;
        while q < blk.insts.len()
            invariant
                program_ok(fns@), fi < fns@.len(), *f == fns@[fi as int], f.wf(), *blk == f.blocks@[b as int], b < n,
                fns@[fi as int].name@ == name@,
                n == f.blocks@.len(), nv == f.vars@.len(), vars@.len() == nv,
                block_ok(*blk, n as nat, nv as nat),
                *steps >= *old(steps), *steps >= s_top, q <= blk.insts@.len(), s0 == *old(steps),
                cfg_call(fns@, name@, args@, s0) == cfg_block(fns@, fi as int, b as int, v_top, s_top),
                cfg_insts(fns@, fi as int, b as int, 0, v_top, s_top) == cfg_insts(fns@, fi as int, b as int, q as int, vars@, *steps),
            decreases blk.insts@.len() - q,
        {
            if *steps == u64::MAX {
                let m = step_limit();
                assert(cfg_insts(fns@, fi as int, b as int, q as int, vars@, *steps) == Err::<(Seq<i64>, u64), (Seq<char>, u64)>((m@, *steps)));
                return Err(m);
            }
            *steps = *steps + 1;
            let inst = &blk.insts[q];
            assert(inst_ok(*inst, nv as nat));
            assert(*inst == fns@[fi as int].blocks@[b as int].insts@[q as int]);
            match inst {
                Inst::Copy { dst, src } => {
                    assert(inst_operands(*inst)[0] == *src);
                    let v = get(&vars, *src);
                    vars.set(*dst as usize, v);
                },
                Inst::Un { dst, op, a } => {
                    assert(inst_operands(*inst)[0] == *a);
                    let x = get(&vars, *a);
                    vars.set(*dst as usize, unary(*op, x));
                },
                Inst::Bin { dst, op, a, b: bb } => {
                    assert(inst_operands(*inst)[0] == *a);
                    assert(inst_operands(*inst)[1] == *bb);
                    let x = get(&vars, *a);
                    let y = get(&vars, *bb);
                    if (*op == BinOp::Div || *op == BinOp::Rem) && y == 0 {
                        let m = div_error(name);
                        assert(cfg_insts(fns@, fi as int, b as int, q as int, vars@, (*steps - 1) as u64)
                            == Err::<(Seq<i64>, u64), (Seq<char>, u64)>((m@, *steps)));
                        return Err(m);
                    }
                    match fold(*op, x, y) {
                        Some(v) => vars.set(*dst as usize, v),
                        None => {},
                    }
                },
                Inst::Call { dst, func, args: cargs } => {
                    let ghost vars_c = vars@;
                    let ghost s1 = *steps;
                    let mut a: Vec<i64> = Vec::new();
                    let mut w: usize = 0;
                    while w < cargs.len()
                        invariant
                            w <= cargs@.len(), vars@.len() == nv, inst_ok(*inst, nv as nat),
                            cargs@ == inst_operands(*inst),
                            a@ == cargs@.subrange(0, w as int).map_values(|v: Val| val_of(vars@, v)),
                        decreases cargs@.len() - w,
                    {
                        assert(val_ok(inst_operands(*inst)[w as int], nv as nat));
                        a.push(get(&vars, cargs[w]));
                        w += 1;
                        assert(a@ =~= cargs@.subrange(0, w as int).map_values(|v: Val| val_of(vars@, v)));
                    }
                    assert(cargs@.subrange(0, cargs@.len() as int) =~= cargs@);
                    assert(defines(fns@, func@)) by {
                        assert(fns@[fi as int].blocks@[b as int].insts@[q as int] == *inst);
                    }
                    let r = match run_named(fns, func, a.as_slice(), steps) {
                        Ok(v) => v,
                        Err(m) => {
                            assert(cfg_insts(fns@, fi as int, b as int, q as int, vars@, (s1 - 1) as u64)
                                == Err::<(Seq<i64>, u64), (Seq<char>, u64)>((m@, *steps)));
                            return Err(m);
                        },
                    };
                    vars.set(*dst as usize, r);
                },
            }
            q += 1;
        }
        if *steps == u64::MAX {
            return Err(step_limit());
        }
        *steps = *steps + 1;
        assert(term_ok(blk.term->Some_0, n as nat, nv as nat));
        match blk.term {
            Some(Term::Jump(t)) => { b = t; },
            Some(Term::Branch { cond, then, els }) => {
                b = if get(&vars, cond) != 0 { then } else { els };
            },
            Some(Term::Return(v)) => { return Ok(get(&vars, v)); },
            None => { return Ok(0); },
        }
    }
}

/// The index of the last SSA function of `fns[..k]` named `name`, or -1.
pub open spec fn last_ssa_named(fns: Seq<SsaFn>, name: Seq<char>, k: int) -> int
    decreases k,
{
    if k <= 0 { -1 } else if fns[k - 1].name@ == name { k - 1 } else { last_ssa_named(fns, name, k - 1) }
}

/// The operand a phi takes on an edge from block `prev`: the first argument from `prev`
/// at or after the `w`-th, and 0 when there is none.
pub open spec fn phi_input(args: Seq<(usize, Val)>, prev: usize, w: int) -> Val
    decreases args.len() - w,
{
    if w < 0 || w >= args.len() { Val::Const(0) } else if args[w].0 == prev { args[w].1 } else { phi_input(args, prev, w + 1) }
}

/// The writes the phis of a block make, all read from `vals` before any is written.
pub open spec fn phi_writes(phis: Seq<Phi>, prev: usize, vals: Seq<i64>) -> Seq<(u32, i64)> {
    phis.map_values(|p: Phi| (p.dst, val_of(vals, phi_input(p.args@, prev, 0))))
}

/// `vals` after the first `k` writes, in order.
pub open spec fn apply_writes(vals: Seq<i64>, ws: Seq<(u32, i64)>, k: int) -> Seq<i64>
    decreases k,
{
    if k <= 0 { vals } else { apply_writes(vals, ws, k - 1).update(ws[k - 1].0 as int, ws[k - 1].1) }
}

/// Calling SSA function `name` on `args` with the counter at `s`. Each block, on entry,
/// costs its phis, its instructions and its terminator at once.
pub open spec fn ssa_call(fns: Seq<SsaFn>, name: Seq<char>, args: Seq<i64>, s: u64) -> (Result<i64, Seq<char>>, u64)
    decreases u64::MAX - s, 2nat, 0nat,
{
    let fi = last_ssa_named(fns, name, fns.len() as int);
    if fi < 0 || fi >= fns.len() {
        (Err(Seq::empty()), s)
    } else {
        let f = fns[fi];
        ssa_block(fns, fi, 0, usize::MAX, entry_vars(f.params@, f.names@.len(), args, min_len(f.params@.len() as int, args.len() as int)), s)
    }
}

/// Running SSA function `fi` from block `b`, entered from block `prev`.
pub open spec fn ssa_block(fns: Seq<SsaFn>, fi: int, b: int, prev: usize, vals: Seq<i64>, s: u64) -> (Result<i64, Seq<char>>, u64)
    decreases u64::MAX - s, 1nat, 0nat,
{
    if !(0 <= fi < fns.len() && 0 <= b < fns[fi].blocks@.len()) {
        (Err(Seq::empty()), s)
    } else {
        let blk = fns[fi].blocks@[b];
        let ws = phi_writes(blk.phis@, prev, vals);
        let v1 = apply_writes(vals, ws, ws.len() as int);
        let cost = blk.phis@.len() + blk.insts@.len() + 1;
        if s + cost > u64::MAX {
            (Err("step limit reached"@), s)
        } else {
            let s1 = (s + cost) as u64;
            match ssa_insts(fns, fi, b, 0, v1, s1) {
                Err((m, s2)) => (Err(m), s2),
                Ok((v2, s2)) => if s2 < s1 {
                    (Err(Seq::empty()), s2)
                } else {
                    match blk.term {
                        Term::Return(v) => (Ok(val_of(v2, v)), s2),
                        Term::Jump(t) => ssa_block(fns, fi, t as int, b as usize, v2, s2),
                        Term::Branch { cond, then, els } =>
                            ssa_block(fns, fi, if val_of(v2, cond) != 0 { then as int } else { els as int }, b as usize, v2, s2),
                    }
                },
            }
        }
    }
}

/// Running the instructions of SSA block `b` from the `q`-th.
pub open spec fn ssa_insts(fns: Seq<SsaFn>, fi: int, b: int, q: int, vals: Seq<i64>, s: u64)
    -> Result<(Seq<i64>, u64), (Seq<char>, u64)>
    decreases u64::MAX - s, 3nat, if 0 <= fi < fns.len() && 0 <= b < fns[fi].blocks@.len() && 0 <= q <= fns[fi].blocks@[b].insts@.len() { (fns[fi].blocks@[b].insts@.len() - q) as nat } else { 0nat },
{
    if !(0 <= fi < fns.len() && 0 <= b < fns[fi].blocks@.len()) || q < 0 || q >= fns[fi].blocks@[b].insts@.len() {
        Ok((vals, s))
    } else {
        match fns[fi].blocks@[b].insts@[q] {
            Inst::Copy { dst, src } => ssa_insts(fns, fi, b, q + 1, vals.update(dst as int, val_of(vals, src)), s),
            Inst::Un { dst, op, a } => ssa_insts(fns, fi, b, q + 1, vals.update(dst as int, un_value(op, val_of(vals, a))), s),
            Inst::Bin { dst, op, a, b: bb } => {
                let y = val_of(vals, bb);
                if (op == BinOp::Div || op == BinOp::Rem) && y == 0 {
                    Err(("division by zero"@, s))
                } else {
                    match bin_value(op, val_of(vals, a), y) {
                        Some(v) => ssa_insts(fns, fi, b, q + 1, vals.update(dst as int, v), s),
                        None => ssa_insts(fns, fi, b, q + 1, vals, s),
                    }
                }
            },
            Inst::Call { dst, func, args } => {
                let (r, s2) = ssa_call(fns, func@, args@.map_values(|v: Val| val_of(vals, v)), s);
                match r {
                    Err(m) => Err((m, s2)),
                    Ok(v) => if s2 >= s {
                        ssa_insts(fns, fi, b, q + 1, vals.update(dst as int, v), s2)
                    } else {
                        Err((Seq::empty(), s2))
                    },
                }
            },
        }
    }
}

/// The last SSA function named `name`.
fn find_ssa_fn(fns: &[SsaFn], name: &String) -> (r: usize)
    requires ssa_defines(fns@, name@),
    ensures r < fns@.len(), fns@[r as int].name@ == name@, r as int == last_ssa_named(fns@, name@, fns@.len() as int),
{
    let mut i = fns.len();
    while i > 0
        invariant i <= fns@.len(), forall|k: int| i <= k < fns@.len() ==> (#[trigger] fns@[k]).name@ != name@,
            last_ssa_named(fns@, name@, i as int) == last_ssa_named(fns@, name@, fns@.len() as int),
        decreases i,
    {
        i -= 1;
        if fns[i].name == *name {
            return i;
        }
    }
    proof {
        let j = choose|j: int| 0 <= j < fns@.len() && (#[trigger] fns@[j]).name@ == name@;
        assert(fns@[j].name@ == name@);
    }
    0
}

/// Runs SSA code. Phis read their inputs all at once on entry to a block (parallel-copy
/// semantics), from the argument for the block control came from, 0 if there is none:
/// exactly what `ssa_call` says.
pub fn run_ssa(fns: &[SsaFn], name: &str, args: &[i64], steps: &mut u64) -> (r: Result<i64, String>)
    requires ssa_program_ok(fns@), ssa_defines(fns@, name@),
    ensures
        *final(steps) >= *old(steps),
        r matches Err(m) ==> run_error(m@),
        (res_view(r), *final(steps)) == ssa_call(fns@, name@, args@, *old(steps)),
{
    let nm = String::from_str(name);
    run_ssa_named(fns, &nm, args, steps)
}

fn run_ssa_named(fns: &[SsaFn], name: &String, args: &[i64], steps: &mut u64) -> (r: Result<i64, String>)
    requires ssa_program_ok(fns@), ssa_defines(fns@, name@),
    ensures
        *final(steps) >= *old(steps),
        r matches Err(m) ==> run_error(m@),
        (res_view(r), *final(steps)) == ssa_call(fns@, name@, args@, *old(steps)),
    decreases u64::MAX - *old(steps), 0int,
{
    let fi = find_ssa_fn(fns, name);
    let f = &fns[fi];
    assert(f.wf());
    let n = f.blocks.len();
    let nv = f.names.len();
    let mut vals: Vec<i64> = Vec::new();
    let mut i: usize = 0;
    while i < nv
        invariant i <= nv, vals@.len() == i, forall|j: int| 0 <= j < i ==> vals@[j] == 0,
        decreases nv - i,
    {
        vals.push(0);
        i += 1;
    }
    assert(vals@ =~= entry_vars(f.params@, nv as nat, args@, 0));
    let mut k: usize = 0;
    while k < f.params.len() && k < args.len()
        invariant f.wf(), vals@.len() == nv, nv == f.names@.len(), k <= f.params@.len(), k <= args@.len(),
            vals@ == entry_vars(f.params@, nv as nat, args@, k as int),
        decreases f.params@.len() - k,
    {
        vals.set(f.params[k] as usize, args[k]);
        k += 1;
    }
    let ghost s0 = *steps;
    let mut b: usize = 0;
    let mut prev: usize = usize::MAX;
    assert(ssa_call(fns@, name@, args@, s0) == ssa_block(fns@, fi as int, 0, usize::MAX, vals@, s0));
    loop
        invariant
            ssa_program_ok(fns@), fi < fns@.len(), *f == fns@[fi as int], f.wf(),
            n == f.blocks@.len(), nv == f.names@.len(), vals@.len() == nv, b < n,
            *steps >= *old(steps), s0 == *old(steps),
            ssa_call(fns@, name@, args@, s0) == ssa_block(fns@, fi as int, b as int, prev, vals@, *steps),
        decreases u64::MAX - *steps,
    {
        let blk = &f.blocks[b];
        let ghost s_top = *steps;
        let ghost v_top = vals@;
        assert(*blk == fns@[fi as int].blocks@[b as int]);
        assert(ssa_block_ok(*blk, n as nat, nv as nat));
        // All phis read before any is written.
        let ghost ws = phi_writes(blk.phis@, prev, v_top);
        let mut incoming: Vec<(u32, i64)> = Vec::new();
        let mut p: usize = 0;
        while p < blk.phis.len()
            invariant
                p <= blk.phis@.len(), ssa_block_ok(*blk, n as nat, nv as nat), vals@.len() == nv, vals@ == v_top,
                ws == phi_writes(blk.phis@, prev, v_top),
                forall|w: int| 0 <= w < incoming@.len() ==> (#[trigger] incoming@[w]).0 < nv,
                incoming@ == ws.subrange(0, p as int),
            decreases blk.phis@.len() - p,
        {
            let phi = &blk.phis[p];
            assert(phi_ok(*phi, n as nat, nv as nat));
            let mut v = Val::Const(0);
            let mut w: usize = 0;
            while w < phi.args.len()
                invariant_except_break
                    v == Val::Const(0), phi_input(phi.args@, prev, w as int) == phi_input(phi.args@, prev, 0),
                invariant w <= phi.args@.len(), phi_ok(*phi, n as nat, nv as nat), val_ok(v, nv as nat),
                ensures v == phi_input(phi.args@, prev, 0), val_ok(v, nv as nat),
                decreases phi.args@.len() - w,
            {
                if phi.args[w].0 == prev {
                    v = phi.args[w].1;
                    break;
                }
                w += 1;
            }
            assert(v == phi_input(phi.args@, prev, 0));
            incoming.push((phi.dst, get(&vals, v)));
            p += 1;
            assert(incoming@ =~= ws.subrange(0, p as int));
        }
        assert(ws.subrange(0, ws.len() as int) =~= ws);
        let mut c: usize = 0;
        while c < incoming.len()
            invariant vals@.len() == nv, forall|w: int| 0 <= w < incoming@.len() ==> (#[trigger] incoming@[w]).0 < nv,
                incoming@ == ws, c <= incoming@.len(),
                vals@ == apply_writes(v_top, ws, c as int),
            decreases incoming@.len() - c,
        {
            vals.set(incoming[c].0 as usize, incoming[c].1);
            c += 1;
        }
        let cost = blk.phis.len() as u128 + blk.insts.len() as u128 + 1;
        if (*steps as u128) + cost > u64::MAX as u128 {
            return Err(step_limit());
        }
        *steps = ((*steps as u128) + cost) as u64;
        let ghost s1 = *steps;
        let ghost v1 = vals@;
        let ghost prev_top = prev;
        let mut q: usize = 0;
        while q < blk.insts.len()
            invariant
                s0 == *old(steps), prev == prev_top, v1 == apply_writes(v_top, ws, ws.len() as int),
                ws == phi_writes(blk.phis@, prev, v_top), s1 == s_top + blk.phis@.len() + blk.insts@.len() + 1,
                ssa_call(fns@, name@, args@, s0) == ssa_block(fns@, fi as int, b as int, prev, v_top, s_top),
                ssa_program_ok(fns@), fi < fns@.len(), *f == fns@[fi as int], f.wf(), *blk == f.blocks@[b as int], b < n,
                n == f.blocks@.len(), nv == f.names@.len(), vals@.len() == nv,
                ssa_block_ok(*blk, n as nat, nv as nat),
                *steps > *old(steps), *steps >= s1, q <= blk.insts@.len(),
                ssa_insts(fns@, fi as int, b as int, 0, v1, s1) == ssa_insts(fns@, fi as int, b as int, q as int, vals@, *steps),
            decreases blk.insts@.len() - q,
        {
            let inst = &blk.insts[q];
            assert(inst_ok(*inst, nv as nat));
            assert(*inst == fns@[fi as int].blocks@[b as int].insts@[q as int]);
            match inst {
                Inst::Copy { dst, src } => {
                    assert(inst_operands(*inst)[0] == *src);
                    let v = get(&vals, *src);
                    vals.set(*dst as usize, v);
                },
                Inst::Un { dst, op, a } => {
                    assert(inst_operands(*inst)[0] == *a);
                    let x = get(&vals, *a);
                    vals.set(*dst as usize, unary(*op, x));
                },
                Inst::Bin { dst, op, a, b: bb } => {
                    assert(inst_operands(*inst)[0] == *a);
                    assert(inst_operands(*inst)[1] == *bb);
                    let x = get(&vals, *a);
                    let y = get(&vals, *bb);
                    if (*op == BinOp::Div || *op == BinOp::Rem) && y == 0 {
                        let m = String::from_str("division by zero");
                        proof { reveal_strlit("division by zero"); }
                        assert(ssa_insts(fns@, fi as int, b as int, q as int, vals@, *steps)
                            == Err::<(Seq<i64>, u64), (Seq<char>, u64)>((m@, *steps)));
                        return Err(m);
                    }
                    match fold(*op, x, y) {
                        Some(v) => vals.set(*dst as usize, v),
                        None => {},
                    }
                },
                Inst::Call { dst, func, args: cargs } => {
                    let ghost sc = *steps;
                    let mut a: Vec<i64> = Vec::new();
                    let mut w: usize = 0;
                    while w < cargs.len()
                        invariant
                            w <= cargs@.len(), vals@.len() == nv, inst_ok(*inst, nv as nat),
                            cargs@ == inst_operands(*inst),
                            a@ == cargs@.subrange(0, w as int).map_values(|v: Val| val_of(vals@, v)),
                        decreases cargs@.len() - w,
                    {
                        assert(val_ok(inst_operands(*inst)[w as int], nv as nat));
                        a.push(get(&vals, cargs[w]));
                        w += 1;
                        assert(a@ =~= cargs@.subrange(0, w as int).map_values(|v: Val| val_of(vals@, v)));
                    }
                    assert(cargs@.subrange(0, cargs@.len() as int) =~= cargs@);
                    assert(ssa_defines(fns@, func@)) by {
                        assert(fns@[fi as int].blocks@[b as int].insts@[q as int] == *inst);
                    }
                    let r = match run_ssa_named(fns, func, a.as_slice(), steps) {
                        Ok(v) => v,
                        Err(m) => {
                            assert(ssa_insts(fns@, fi as int, b as int, q as int, vals@, sc)
                                == Err::<(Seq<i64>, u64), (Seq<char>, u64)>((m@, *steps)));
                            return Err(m);
                        },
                    };
                    vals.set(*dst as usize, r);
                },
            }
            q += 1;
        }
        prev = b;
        match blk.term {
            Term::Jump(t) => { b = t; },
            Term::Branch { cond, then, els } => {
                b = if get(&vals, cond) != 0 { then } else { els };
            },
            Term::Return(v) => { return Ok(get(&vals, v)); },
        }
    }
}

} // verus!
