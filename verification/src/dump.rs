//! Text listings of a function in CFG form and in SSA form, one line per entry: the
//! function's header, then for each block its label, its phis and instructions, and its
//! terminator.

use vstd::prelude::*;
use vstd::string::{StringExecFns, StringSliceAdditionalSpecFns};
use crate::ore::{BinOp, UnOp, op_text, op_str};
use crate::ir::{FnIr, BasicBlock, Inst, Term, Val, val_ok, inst_ok, term_ok, block_ok, term_of, inst_operands};
use crate::ssa::{SsaFn, SsaBlock, Phi, phi_ok, ssa_block_ok};
use crate::text::{ascii_chars, int_text, decimal, int_to_string, decimal_string};

verus! {

/// A block number in decimal.
pub open spec fn num_text(n: usize) -> Seq<char> {
    ascii_chars(decimal(n as nat))
}

/// A value: the variable's name, or the constant in decimal.
pub open spec fn val_text(names: Seq<String>, v: Val) -> Seq<char> {
    match v {
        Val::Var(x) => names[x as int]@,
        Val::Const(c) => ascii_chars(int_text(c as int)),
    }
}

/// Values separated by `", "`.
pub open spec fn vals_text(names: Seq<String>, vs: Seq<Val>) -> Seq<char>
    decreases vs.len(),
{
    if vs.len() == 0 {
        Seq::empty()
    } else if vs.len() == 1 {
        val_text(names, vs[0])
    } else {
        vals_text(names, vs.drop_last()) + ", "@ + val_text(names, vs.last())
    }
}

/// Variable names separated by `", "`.
pub open spec fn params_text(names: Seq<String>, ps: Seq<u32>) -> Seq<char>
    decreases ps.len(),
{
    if ps.len() == 0 {
        Seq::empty()
    } else if ps.len() == 1 {
        names[ps[0] as int]@
    } else {
        params_text(names, ps.drop_last()) + ", "@ + names[ps.last() as int]@
    }
}

/// An instruction.
pub open spec fn inst_text(names: Seq<String>, i: Inst) -> Seq<char> {
    match i {
        Inst::Copy { dst, src } => names[dst as int]@ + " = "@ + val_text(names, src),
        Inst::Bin { dst, op, a, b } =>
            names[dst as int]@ + " = "@ + val_text(names, a) + " "@ + op_text(op) + " "@ + val_text(names, b),
        Inst::Un { dst, op, a } =>
            names[dst as int]@ + " = "@ + (if op == UnOp::Neg { "-"@ } else { "!"@ }) + val_text(names, a),
        Inst::Call { dst, func, args } =>
            names[dst as int]@ + " = call "@ + func@ + "("@ + vals_text(names, args@) + ")"@,
    }
}

/// A terminator.
pub open spec fn term_text(names: Seq<String>, t: Term) -> Seq<char> {
    match t {
        Term::Jump(x) => "jump bb"@ + num_text(x),
        Term::Branch { cond, then, els } =>
            "branch "@ + val_text(names, cond) + " ? bb"@ + num_text(then) + " : bb"@ + num_text(els),
        Term::Return(v) => "return "@ + val_text(names, v),
    }
}

/// The arguments of a phi: `bbN: value`, separated by `", "`.
pub open spec fn phi_args_text(names: Seq<String>, args: Seq<(usize, Val)>) -> Seq<char>
    decreases args.len(),
{
    if args.len() == 0 {
        Seq::empty()
    } else if args.len() == 1 {
        "bb"@ + num_text(args[0].0) + ": "@ + val_text(names, args[0].1)
    } else {
        phi_args_text(names, args.drop_last()) + ", "@ + "bb"@ + num_text(args.last().0) + ": "@ + val_text(names, args.last().1)
    }
}

/// A phi.
pub open spec fn phi_text(names: Seq<String>, p: Phi) -> Seq<char> {
    names[p.dst as int]@ + " = phi("@ + phi_args_text(names, p.args@) + ")"@
}

/// The label of block `b`.
pub open spec fn label_text(b: usize) -> Seq<char> {
    "  bb"@ + num_text(b) + ":"@
}

/// An indented body line.
pub open spec fn body_line(t: Seq<char>) -> Seq<char> {
    "      "@ + t
}

/// The lines of block `b` of a CFG: its label, instructions and terminator.
pub open spec fn cfg_block_lines(names: Seq<String>, b: usize, blk: BasicBlock) -> Seq<Seq<char>> {
    seq![label_text(b)] + blk.insts@.map_values(|i: Inst| body_line(inst_text(names, i)))
        + seq![body_line(term_text(names, term_of(blk)))]
}

/// The lines of the first `k` blocks of a CFG.
pub open spec fn cfg_blocks_lines(names: Seq<String>, bl: Seq<BasicBlock>, k: int) -> Seq<Seq<char>>
    decreases k,
{
    if k <= 0 { Seq::empty() } else { cfg_blocks_lines(names, bl, k - 1) + cfg_block_lines(names, (k - 1) as usize, bl[k - 1]) }
}

/// The listing of a function in CFG form.
pub open spec fn fn_listing(f: FnIr) -> Seq<Seq<char>> {
    seq!["fn "@ + f.name@ + "("@ + params_text(f.vars@, f.params@) + "):"@]
        + cfg_blocks_lines(f.vars@, f.blocks@, f.blocks@.len() as int)
}

/// The lines of block `b` in SSA form: its label, phis, instructions and terminator.
pub open spec fn ssa_block_lines(names: Seq<String>, b: usize, blk: SsaBlock) -> Seq<Seq<char>> {
    seq![label_text(b)] + blk.phis@.map_values(|p: Phi| body_line(phi_text(names, p)))
        + blk.insts@.map_values(|i: Inst| body_line(inst_text(names, i)))
        + seq![body_line(term_text(names, blk.term))]
}

pub open spec fn ssa_blocks_lines(names: Seq<String>, bl: Seq<SsaBlock>, k: int) -> Seq<Seq<char>>
    decreases k,
{
    if k <= 0 { Seq::empty() } else { ssa_blocks_lines(names, bl, k - 1) + ssa_block_lines(names, (k - 1) as usize, bl[k - 1]) }
}

/// The listing of a function in SSA form.
pub open spec fn ssa_listing(f: SsaFn) -> Seq<Seq<char>> {
    seq!["fn "@ + f.name@ + " (SSA):"@] + ssa_blocks_lines(f.names@, f.blocks@, f.blocks@.len() as int)
}

/// The text of each line.
pub open spec fn lines_view(v: Seq<String>) -> Seq<Seq<char>> {
    v.map_values(|s: String| s@)
}

fn push_val(s: &mut String, names: &Vec<String>, v: Val)
    requires val_ok(v, names@.len()),
    ensures final(s)@ == old(s)@ + val_text(names@, v),
{
    match v {
        Val::Var(x) => s.append(names[x as usize].as_str()),
        Val::Const(c) => {
            let t = int_to_string(c);
            s.append(t.as_str());
        },
    }
}

fn push_num(s: &mut String, n: usize)
    ensures final(s)@ == old(s)@ + num_text(n),
{
    let t = decimal_string(n as u64);
    s.append(t.as_str());
}

fn push_vals(s: &mut String, names: &Vec<String>, vs: &Vec<Val>)
    requires forall|k: int| 0 <= k < vs@.len() ==> val_ok(#[trigger] vs@[k], names@.len()),
    ensures final(s)@ == old(s)@ + vals_text(names@, vs@),
{
    let ghost s0 = s@;
    let mut i: usize = 0;
    assert(vs@.subrange(0, 0) =~= Seq::<Val>::empty());
    while i < vs.len()
        invariant
            i <= vs@.len(),
            forall|k: int| 0 <= k < vs@.len() ==> val_ok(#[trigger] vs@[k], names@.len()),
            s@ == s0 + vals_text(names@, vs@.subrange(0, i as int)),
        decreases vs@.len() - i,
    {
        let ghost pre = vs@.subrange(0, i as int);
        let ghost cur = vs@.subrange(0, i + 1);
        assert(cur.drop_last() =~= pre);
        assert(cur.last() == vs@[i as int]);
        if i > 0 {
            s.append(", ");
        } else {
            assert(cur =~= seq![vs@[0]]);
        }
        push_val(s, names, vs[i]);
        i += 1;
    }
    assert(vs@.subrange(0, vs@.len() as int) =~= vs@);
}

fn push_params(s: &mut String, names: &Vec<String>, ps: &Vec<u32>)
    requires forall|k: int| 0 <= k < ps@.len() ==> (#[trigger] ps@[k]) < names@.len(),
    ensures final(s)@ == old(s)@ + params_text(names@, ps@),
{
    let ghost s0 = s@;
    let mut i: usize = 0;
    assert(ps@.subrange(0, 0) =~= Seq::<u32>::empty());
    while i < ps.len()
        invariant
            i <= ps@.len(),
            forall|k: int| 0 <= k < ps@.len() ==> (#[trigger] ps@[k]) < names@.len(),
            s@ == s0 + params_text(names@, ps@.subrange(0, i as int)),
        decreases ps@.len() - i,
    {
        let ghost pre = ps@.subrange(0, i as int);
        let ghost cur = ps@.subrange(0, i + 1);
        assert(cur.drop_last() =~= pre);
        assert(cur.last() == ps@[i as int]);
        if i > 0 {
            s.append(", ");
        } else {
            assert(cur =~= seq![ps@[0]]);
        }
        s.append(names[ps[i] as usize].as_str());
        i += 1;
    }
    assert(ps@.subrange(0, ps@.len() as int) =~= ps@);
}

fn push_phi_args(s: &mut String, names: &Vec<String>, args: &Vec<(usize, Val)>)
    requires forall|k: int| 0 <= k < args@.len() ==> val_ok((#[trigger] args@[k]).1, names@.len()),
    ensures final(s)@ == old(s)@ + phi_args_text(names@, args@),
{
    let ghost s0 = s@;
    let mut i: usize = 0;
    assert(args@.subrange(0, 0) =~= Seq::<(usize, Val)>::empty());
    while i < args.len()
        invariant
            i <= args@.len(),
            forall|k: int| 0 <= k < args@.len() ==> val_ok((#[trigger] args@[k]).1, names@.len()),
            s@ == s0 + phi_args_text(names@, args@.subrange(0, i as int)),
        decreases args@.len() - i,
    {
        let ghost pre = args@.subrange(0, i as int);
        let ghost cur = args@.subrange(0, i + 1);
        assert(cur.drop_last() =~= pre);
        assert(cur.last() == args@[i as int]);
        if i > 0 {
            s.append(", ");
        } else {
            assert(cur =~= seq![args@[0]]);
        }
        s.append("bb");
        push_num(s, args[i].0);
        s.append(": ");
        push_val(s, names, args[i].1);
        i += 1;
    }
    assert(args@.subrange(0, args@.len() as int) =~= args@);
}

fn inst_string(names: &Vec<String>, i: &Inst) -> (s: String)
    requires inst_ok(*i, names@.len()),
    ensures s@ == body_line(inst_text(names@, *i)),
{
    let mut s = String::new();
    s.append("      ");
    match i {
        Inst::Copy { dst, src } => {
            assert(inst_operands(*i)[0] == *src);
            s.append(names[*dst as usize].as_str());
            s.append(" = ");
            push_val(&mut s, names, *src);
        },
        Inst::Bin { dst, op, a, b } => {
            assert(inst_operands(*i)[0] == *a);
            assert(inst_operands(*i)[1] == *b);
            s.append(names[*dst as usize].as_str());
            s.append(" = ");
            push_val(&mut s, names, *a);
            s.append(" ");
            s.append(op_str(*op));
            s.append(" ");
            push_val(&mut s, names, *b);
        },
        Inst::Un { dst, op, a } => {
            assert(inst_operands(*i)[0] == *a);
            s.append(names[*dst as usize].as_str());
            s.append(" = ");
            if *op == UnOp::Neg { s.append("-"); } else { s.append("!"); }
            push_val(&mut s, names, *a);
        },
        Inst::Call { dst, func, args } => {
            s.append(names[*dst as usize].as_str());
            s.append(" = call ");
            s.append(func.as_str());
            s.append("(");
            push_vals(&mut s, names, args);
            s.append(")");
        },
    }
    s
}

fn term_string(names: &Vec<String>, t: Term, nb: Ghost<nat>) -> (s: String)
    requires term_ok(t, nb@, names@.len()),
    ensures s@ == body_line(term_text(names@, t)),
{
    let mut s = String::new();
    s.append("      ");
    match t {
        Term::Jump(x) => {
            s.append("jump bb");
            push_num(&mut s, x);
        },
        Term::Branch { cond, then, els } => {
            s.append("branch ");
            push_val(&mut s, names, cond);
            s.append(" ? bb");
            push_num(&mut s, then);
            s.append(" : bb");
            push_num(&mut s, els);
        },
        Term::Return(v) => {
            s.append("return ");
            push_val(&mut s, names, v);
        },
    }
    s
}

fn label_string(b: usize) -> (s: String)
    ensures s@ == label_text(b),
{
    let mut s = String::new();
    s.append("  bb");
    push_num(&mut s, b);
    s.append(":");
    s
}

/// The listing of a function in CFG form, one line per entry.
pub fn print_fn(f: &FnIr) -> (lines: Vec<String>)
    requires f.wf(),
    ensures lines_view(lines@) == fn_listing(*f),
{
    let mut lines: Vec<String> = Vec::new();
    let mut h = String::new();
    h.append("fn ");
    h.append(f.name.as_str());
    h.append("(");
    push_params(&mut h, &f.vars, &f.params);
    h.append("):");
    lines.push(h);
    let n = f.blocks.len();
    let mut b: usize = 0;
    assert(lines_view(lines@) =~= seq![lines@[0]@] + cfg_blocks_lines(f.vars@, f.blocks@, 0));
    while b < n
        invariant
            b <= n, n == f.blocks@.len(), f.wf(), lines@.len() >= 1,
            lines_view(lines@) == seq![lines@[0]@] + cfg_blocks_lines(f.vars@, f.blocks@, b as int),
            lines@[0]@ == "fn "@ + f.name@ + "("@ + params_text(f.vars@, f.params@) + "):"@,
        decreases n - b,
    {
        let blk = &f.blocks[b];
        assert(block_ok(*blk, n as nat, f.vars@.len()));
        let ghost before = lines_view(lines@);
        let l = label_string(b);
        lines.push(l);
        let mut i: usize = 0;
        while i < blk.insts.len()
            invariant
                i <= blk.insts@.len(), block_ok(*blk, n as nat, f.vars@.len()), lines@.len() >= 1,
                lines@[0]@ == "fn "@ + f.name@ + "("@ + params_text(f.vars@, f.params@) + "):"@,
                lines_view(lines@) == before + seq![label_text(b)]
                    + blk.insts@.subrange(0, i as int).map_values(|x: Inst| body_line(inst_text(f.vars@, x))),
            decreases blk.insts@.len() - i,
        {
            let ghost pre = lines_view(lines@);
            let s = inst_string(&f.vars, &blk.insts[i]);
            lines.push(s);
            assert(blk.insts@.subrange(0, i + 1).map_values(|x: Inst| body_line(inst_text(f.vars@, x)))
                =~= blk.insts@.subrange(0, i as int).map_values(|x: Inst| body_line(inst_text(f.vars@, x))).push(s@));
            assert(lines_view(lines@) =~= pre.push(s@));
            i += 1;
        }
        assert(blk.insts@.subrange(0, blk.insts@.len() as int) =~= blk.insts@);
        let t = match blk.term { Some(t) => t, None => Term::Return(Val::Const(0)) };
        assert(t == term_of(*blk));
        let ghost pre2 = lines_view(lines@);
        let ts = term_string(&f.vars, t, Ghost(n as nat));
        lines.push(ts);
        proof {
            assert(lines_view(lines@) =~= pre2.push(ts@));
            assert(cfg_blocks_lines(f.vars@, f.blocks@, b + 1)
                == cfg_blocks_lines(f.vars@, f.blocks@, b as int) + cfg_block_lines(f.vars@, b, f.blocks@[b as int]));
            assert(lines_view(lines@) =~= seq![lines@[0]@] + cfg_blocks_lines(f.vars@, f.blocks@, b + 1));
        }
        b += 1;
    }
    lines
}

/// The listing of a function in SSA form, one line per entry.
pub fn print_ssa(f: &SsaFn) -> (lines: Vec<String>)
    requires f.wf(),
    ensures lines_view(lines@) == ssa_listing(*f),
{
    let mut lines: Vec<String> = Vec::new();
    let mut h = String::new();
    h.append("fn ");
    h.append(f.name.as_str());
    h.append(" (SSA):");
    lines.push(h);
    let n = f.blocks.len();
    let mut b: usize = 0;
    assert(lines_view(lines@) =~= seq![lines@[0]@] + ssa_blocks_lines(f.names@, f.blocks@, 0));
    while b < n
        invariant
            b <= n, n == f.blocks@.len(), f.wf(), lines@.len() >= 1,
            lines_view(lines@) == seq![lines@[0]@] + ssa_blocks_lines(f.names@, f.blocks@, b as int),
            lines@[0]@ == "fn "@ + f.name@ + " (SSA):"@,
        decreases n - b,
    {
        let blk = &f.blocks[b];
        assert(ssa_block_ok(*blk, n as nat, f.names@.len()));
        let ghost before = lines_view(lines@);
        let l = label_string(b);
        lines.push(l);
        let mut k: usize = 0;
        while k < blk.phis.len()
            invariant
                k <= blk.phis@.len(), ssa_block_ok(*blk, n as nat, f.names@.len()), lines@.len() >= 1,
                lines@[0]@ == "fn "@ + f.name@ + " (SSA):"@,
                lines_view(lines@) == before + seq![label_text(b)]
                    + blk.phis@.subrange(0, k as int).map_values(|p: Phi| body_line(phi_text(f.names@, p))),
            decreases blk.phis@.len() - k,
        {
            let ghost pre = lines_view(lines@);
            let p = &blk.phis[k];
            assert(phi_ok(*p, n as nat, f.names@.len()));
            let mut s = String::new();
            s.append("      ");
            s.append(f.names[p.dst as usize].as_str());
            s.append(" = phi(");
            push_phi_args(&mut s, &f.names, &p.args);
            s.append(")");
            assert(s@ =~= body_line(phi_text(f.names@, blk.phis@[k as int])));
            lines.push(s);
            assert(blk.phis@.subrange(0, k + 1).map_values(|p: Phi| body_line(phi_text(f.names@, p)))
                =~= blk.phis@.subrange(0, k as int).map_values(|p: Phi| body_line(phi_text(f.names@, p))).push(s@));
            assert(lines_view(lines@) =~= pre.push(s@));
            k += 1;
        }
        assert(blk.phis@.subrange(0, blk.phis@.len() as int) =~= blk.phis@);
        let ghost mid = lines_view(lines@);
        let mut i: usize = 0;
        while i < blk.insts.len()
            invariant
                i <= blk.insts@.len(), ssa_block_ok(*blk, n as nat, f.names@.len()), lines@.len() >= 1,
                lines@[0]@ == "fn "@ + f.name@ + " (SSA):"@,
                lines_view(lines@) == mid
                    + blk.insts@.subrange(0, i as int).map_values(|x: Inst| body_line(inst_text(f.names@, x))),
            decreases blk.insts@.len() - i,
        {
            let ghost pre = lines_view(lines@);
            let s = inst_string(&f.names, &blk.insts[i]);
            lines.push(s);
            assert(blk.insts@.subrange(0, i + 1).map_values(|x: Inst| body_line(inst_text(f.names@, x)))
                =~= blk.insts@.subrange(0, i as int).map_values(|x: Inst| body_line(inst_text(f.names@, x))).push(s@));
            assert(lines_view(lines@) =~= pre.push(s@));
            i += 1;
        }
        assert(blk.insts@.subrange(0, blk.insts@.len() as int) =~= blk.insts@);
        let ghost pre2 = lines_view(lines@);
        let ts = term_string(&f.names, blk.term, Ghost(n as nat));
        lines.push(ts);
        proof {
            assert(lines_view(lines@) =~= pre2.push(ts@));
            assert(ssa_blocks_lines(f.names@, f.blocks@, b + 1)
                == ssa_blocks_lines(f.names@, f.blocks@, b as int) + ssa_block_lines(f.names@, b, f.blocks@[b as int]));
            assert(lines_view(lines@) =~= seq![lines@[0]@] + ssa_blocks_lines(f.names@, f.blocks@, b + 1));
        }
        b += 1;
    }
    lines
}

} // verus!
