//! Optimization passes on SSA: constant folding and propagation with copy propagation,
//! trivial phis and branch folding; global value numbering over the dominator tree; dead-code
//! elimination; and merging straight-line blocks. Every pass keeps the function well formed.

use vstd::prelude::*;
use crate::ore::{BinOp, UnOp};
use crate::ir::{
    BasicBlock, FnIr, Inst, Term, Val, val_ok, inst_ok, term_ok, inst_operands, inst_dst, succ_seq,
    cfg_ok, term_of, dominators, idom_ok, preds, preds_upto, fold, unary, may_trap, traps, operands,
    inst_clone, bin_value, un_value, contains_usize, def_of, hits,
};
use crate::ssa::{Phi, SsaBlock, SsaFn, phi_ok, ssa_block_ok, blocks_ok, lemma_val_grow};
use crate::ir::lemma_bin_value_meaning;
use crate::interp::val_of;

verus! {

// ---------------- replacing uses ----------------

/// A value with uses of `from` read as `to`.
pub open spec fn subst(v: Val, from: u32, to: Val) -> Val {
    if v == Val::Var(from) { to } else { v }
}

pub fn subst_val(v: Val, from: u32, to: Val) -> (r: Val)
    ensures r == subst(v, from, to),
{
    if v == Val::Var(from) { to } else { v }
}

/// An instruction with its operands substituted; its destination stays.
pub open spec fn subst_inst_ok(old_i: Inst, new_i: Inst, from: u32, to: Val) -> bool {
    &&& inst_dst(new_i) == inst_dst(old_i)
    &&& inst_operands(new_i).len() == inst_operands(old_i).len()
    &&& forall|k: int| 0 <= k < inst_operands(old_i).len()
        ==> #[trigger] inst_operands(new_i)[k] == subst(inst_operands(old_i)[k], from, to)
    &&& match (old_i, new_i) {
        (Inst::Copy { .. }, Inst::Copy { .. }) => true,
        (Inst::Bin { op: o1, .. }, Inst::Bin { op: o2, .. }) => o1 == o2,
        (Inst::Un { op: o1, .. }, Inst::Un { op: o2, .. }) => o1 == o2,
        (Inst::Call { func: f1, .. }, Inst::Call { func: f2, .. }) => f1@ == f2@,
        _ => false,
    }
}

fn subst_inst(i: &Inst, from: u32, to: Val) -> (r: Inst)
    ensures subst_inst_ok(*i, r, from, to),
{
    match i {
        Inst::Copy { dst, src } => Inst::Copy { dst: *dst, src: subst_val(*src, from, to) },
        Inst::Bin { dst, op, a, b } => Inst::Bin { dst: *dst, op: *op, a: subst_val(*a, from, to), b: subst_val(*b, from, to) },
        Inst::Un { dst, op, a } => Inst::Un { dst: *dst, op: *op, a: subst_val(*a, from, to) },
        Inst::Call { dst, func, args } => {
            let mut out: Vec<Val> = Vec::new();
            let mut k: usize = 0;
            while k < args.len()
                invariant
                    k <= args@.len(), out@.len() == k,
                    forall|q: int| 0 <= q < k ==> #[trigger] out@[q] == subst(args@[q], from, to),
                decreases args@.len() - k,
            {
                out.push(subst_val(args[k], from, to));
                k += 1;
            }
            Inst::Call { dst: *dst, func: func.clone(), args: out }
        },
    }
}

fn subst_term(t: Term, from: u32, to: Val) -> (r: Term)
    ensures
        r == match t {
            Term::Branch { cond, then, els } => Term::Branch { cond: subst(cond, from, to), then, els },
            Term::Return(v) => Term::Return(subst(v, from, to)),
            Term::Jump(x) => Term::Jump(x),
        },
{
    match t {
        Term::Branch { cond, then, els } => Term::Branch { cond: subst_val(cond, from, to), then, els },
        Term::Return(v) => Term::Return(subst_val(v, from, to)),
        j => j,
    }
}

fn empty_block() -> (b: SsaBlock)
    ensures b.phis@.len() == 0, b.insts@.len() == 0, b.term == Term::Return(Val::Const(0)),
{
    SsaBlock { phis: Vec::new(), insts: Vec::new(), term: Term::Return(Val::Const(0)) }
}

/// Block `nb` is block `ob` with every use of `from` read as `to`.
pub open spec fn block_subst(ob: SsaBlock, nb: SsaBlock, from: u32, to: Val) -> bool {
    &&& nb.phis@.len() == ob.phis@.len()
    &&& forall|k: int| 0 <= k < nb.phis@.len() ==> (#[trigger] nb.phis@[k]).dst == ob.phis@[k].dst
        && nb.phis@[k].var == ob.phis@[k].var
        && nb.phis@[k].args@.len() == ob.phis@[k].args@.len()
        && forall|q: int| 0 <= q < nb.phis@[k].args@.len() ==> (#[trigger] nb.phis@[k].args@[q]).0 == ob.phis@[k].args@[q].0
            && nb.phis@[k].args@[q].1 == subst(ob.phis@[k].args@[q].1, from, to)
    &&& nb.insts@.len() == ob.insts@.len()
    &&& forall|k: int| 0 <= k < nb.insts@.len() ==> subst_inst_ok(ob.insts@[k], #[trigger] nb.insts@[k], from, to)
    &&& nb.term == match ob.term {
        Term::Branch { cond, then, els } => Term::Branch { cond: subst(cond, from, to), then, els },
        Term::Return(v) => Term::Return(subst(v, from, to)),
        Term::Jump(x) => Term::Jump(x),
    }
}

fn subst_block(ob: &SsaBlock, from: u32, to: Val, Ghost(nb): Ghost<nat>, Ghost(nv): Ghost<nat>) -> (r: SsaBlock)
    requires ssa_block_ok(*ob, nb, nv), val_ok(to, nv),
    ensures block_subst(*ob, r, from, to), ssa_block_ok(r, nb, nv),
{
    let mut phis: Vec<Phi> = Vec::new();
    let mut k: usize = 0;
    while k < ob.phis.len()
        invariant
            k <= ob.phis@.len(), phis@.len() == k, ssa_block_ok(*ob, nb, nv), val_ok(to, nv),
            forall|j: int| 0 <= j < k ==> (#[trigger] phis@[j]).dst == ob.phis@[j].dst
                && phis@[j].var == ob.phis@[j].var
                && phis@[j].args@.len() == ob.phis@[j].args@.len()
                && (forall|q: int| 0 <= q < phis@[j].args@.len() ==> (#[trigger] phis@[j].args@[q]).0 == ob.phis@[j].args@[q].0
                    && phis@[j].args@[q].1 == subst(ob.phis@[j].args@[q].1, from, to))
                && phi_ok(phis@[j], nb, nv),
        decreases ob.phis@.len() - k,
    {
        let p = &ob.phis[k];
        assert(phi_ok(*p, nb, nv));
        let mut args: Vec<(usize, Val)> = Vec::new();
        let mut q: usize = 0;
        while q < p.args.len()
            invariant
                q <= p.args@.len(), args@.len() == q, phi_ok(*p, nb, nv), val_ok(to, nv),
                forall|w: int| 0 <= w < q ==> (#[trigger] args@[w]).0 == p.args@[w].0
                    && args@[w].1 == subst(p.args@[w].1, from, to),
            decreases p.args@.len() - q,
        {
            let (pb, v) = p.args[q];
            args.push((pb, subst_val(v, from, to)));
            q += 1;
        }
        let np = Phi { dst: p.dst, var: p.var, args };
        assert(phi_ok(np, nb, nv)) by {
            assert forall|w: int| 0 <= w < np.args@.len() implies (#[trigger] np.args@[w]).0 < nb && val_ok(np.args@[w].1, nv) by {
                assert(p.args@[w].0 < nb && val_ok(p.args@[w].1, nv));
            }
        }
        phis.push(np);
        k += 1;
    }
    let mut insts: Vec<Inst> = Vec::new();
    let mut i: usize = 0;
    while i < ob.insts.len()
        invariant
            i <= ob.insts@.len(), insts@.len() == i, ssa_block_ok(*ob, nb, nv), val_ok(to, nv),
            forall|j: int| 0 <= j < i ==> subst_inst_ok(ob.insts@[j], #[trigger] insts@[j], from, to)
                && inst_ok(insts@[j], nv),
        decreases ob.insts@.len() - i,
    {
        let ni = subst_inst(&ob.insts[i], from, to);
        assert(inst_ok(ni, nv)) by {
            let oi = ob.insts@[i as int];
            assert(inst_ok(oi, nv));
            assert forall|w: int| 0 <= w < inst_operands(ni).len() implies val_ok(#[trigger] inst_operands(ni)[w], nv) by {
                assert(val_ok(inst_operands(oi)[w], nv));
            }
        }
        insts.push(ni);
        i += 1;
    }
    let r = SsaBlock { phis, insts, term: subst_term(ob.term, from, to) };
    r
}

/// Replaces every use of `from` with `to`, in phi arguments, instructions and terminators.
/// (In SSA `from` has one definition, which dominates its uses, and `to` is available
/// wherever `from` was.)
pub fn replace_uses(f: &mut SsaFn, from: u32, to: Val)
    requires old(f).wf(), val_ok(to, old(f).names@.len()),
    ensures
        final(f).wf(),
        final(f).name == old(f).name,
        final(f).params@ == old(f).params@,
        final(f).names@ == old(f).names@,
        final(f).blocks@.len() == old(f).blocks@.len(),
        forall|b: int| 0 <= b < final(f).blocks@.len()
            ==> block_subst(old(f).blocks@[b], #[trigger] final(f).blocks@[b], from, to),
{
    let n = f.blocks.len();
    let ghost nv = f.names@.len();
    let ghost f0 = *f;
    let mut b: usize = 0;
    while b < n
        invariant
            b <= n, n == f.blocks@.len(), nv == f.names@.len(), f.wf(),
            f.name == f0.name, f.params@ == f0.params@, f.names@ == f0.names@,
            val_ok(to, nv),
            forall|c: int| b <= c < n ==> #[trigger] f.blocks@[c] == f0.blocks@[c],
            forall|c: int| 0 <= c < b ==> block_subst(f0.blocks@[c], #[trigger] f.blocks@[c], from, to),
        decreases n - b,
    {
        assert(ssa_block_ok(f.blocks@[b as int], n as nat, nv));
        let nb = subst_block(&f.blocks[b], from, to, Ghost(n as nat), Ghost(nv));
        let ghost before = f.blocks@;
        f.blocks.set(b, nb);
        proof {
            assert forall|c: int| 0 <= c < n implies ssa_block_ok(#[trigger] f.blocks@[c], f.blocks@.len(), f.names@.len()) by {
                if c != b as int { assert(f.blocks@[c] == before[c]); }
            }
            assert forall|c: int| 0 <= c < b + 1 implies block_subst(f0.blocks@[c], #[trigger] f.blocks@[c], from, to) by {
                if c != b as int { assert(f.blocks@[c] == before[c]); }
            }
            assert forall|c: int| b + 1 <= c < n implies #[trigger] f.blocks@[c] == f0.blocks@[c] by {
                assert(f.blocks@[c] == before[c]);
            }
        }
        b += 1;
    }
}

// ---------------- reachability ----------------

/// How many of the first `upto` blocks are marked.
pub open spec fn marked(seen: Seq<bool>, upto: int) -> nat
    decreases upto,
{
    if upto <= 0 { 0 } else { marked(seen, upto - 1) + if seen[upto - 1] { 1nat } else { 0nat } }
}

proof fn lemma_marked_mono(seen: Seq<bool>, a: int, b: int)
    requires 0 <= a <= b,
    ensures marked(seen, a) <= marked(seen, b),
    decreases b - a,
{
    if a < b { lemma_marked_mono(seen, a, b - 1); }
}

proof fn lemma_marked_le(seen: Seq<bool>, a: int)
    requires 0 <= a,
    ensures marked(seen, a) <= a,
    decreases a,
{
    if a > 0 { lemma_marked_le(seen, a - 1); }
}

proof fn lemma_marked_all(seen: Seq<bool>, a: int)
    requires 0 <= a <= seen.len(), marked(seen, a) == a,
    ensures forall|i: int| 0 <= i < a ==> #[trigger] seen[i],
    decreases a,
{
    if a > 0 {
        lemma_marked_le(seen, a - 1);
        lemma_marked_all(seen, a - 1);
    }
}

/// Block `b` is a successor of block `a`.
pub open spec fn is_succ(bl: Seq<SsaBlock>, a: int, b: int) -> bool {
    0 <= a < bl.len() && exists|j: int| 0 <= j < succ_seq(bl[a].term).len() && #[trigger] succ_seq(bl[a].term)[j] == b
}

/// A path of blocks from the entry, each a successor of the one before.
pub open spec fn entry_path(bl: Seq<SsaBlock>, p: Seq<int>) -> bool {
    &&& p.len() >= 1
    &&& p[0] == 0
    &&& forall|i: int| 0 <= i < p.len() - 1 ==> is_succ(bl, #[trigger] p[i], p[i + 1])
}

/// Block `b` can be reached from the entry.
pub open spec fn reaches(bl: Seq<SsaBlock>, b: int) -> bool {
    exists|p: Seq<int>| #[trigger] entry_path(bl, p) && p.last() == b
}

/// How many of the first `m` blocks can be reached from the entry.
pub open spec fn reach_count(bl: Seq<SsaBlock>, m: int) -> nat
    decreases m,
{
    if m <= 0 { 0 } else { reach_count(bl, m - 1) + if reaches(bl, m - 1) { 1nat } else { 0nat } }
}

proof fn lemma_reach_entry(bl: Seq<SsaBlock>)
    ensures reaches(bl, 0),
{
    let p = seq![0int];
    assert(entry_path(bl, p));
}

proof fn lemma_reach_step(bl: Seq<SsaBlock>, x: int, j: int)
    requires 0 <= x < bl.len(), reaches(bl, x), 0 <= j < succ_seq(bl[x].term).len(),
    ensures reaches(bl, succ_seq(bl[x].term)[j] as int),
{
    let p = choose|p: Seq<int>| #[trigger] entry_path(bl, p) && p.last() == x;
    let s = succ_seq(bl[x].term)[j] as int;
    let q = p.push(s);
    assert(is_succ(bl, x, s));
    assert forall|i: int| 0 <= i < q.len() - 1 implies is_succ(bl, #[trigger] q[i], q[i + 1]) by {
        if i < p.len() - 1 {
            assert(q[i] == p[i] && q[i + 1] == p[i + 1]);
        } else {
            assert(q[i] == x && q[i + 1] == s);
        }
    }
    assert(entry_path(bl, q) && q.last() == s);
}

proof fn lemma_path_seen(bl: Seq<SsaBlock>, seen: Seq<bool>, p: Seq<int>, i: int)
    requires
        seen.len() == bl.len(), bl.len() >= 1, seen[0],
        forall|x: int, j: int| 0 <= x < seen.len() && seen[x] && 0 <= j < succ_seq(bl[x].term).len()
            ==> seen[#[trigger] succ_seq(bl[x].term)[j] as int],
        entry_path(bl, p), 0 <= i < p.len(),
    ensures seen[p[i]],
    decreases i,
{
    if i > 0 {
        lemma_path_seen(bl, seen, p, i - 1);
        assert(is_succ(bl, p[i - 1], p[i]));
        let j = choose|j: int| 0 <= j < succ_seq(bl[p[i - 1]].term).len() && #[trigger] succ_seq(bl[p[i - 1]].term)[j] == p[i];
        assert(seen[succ_seq(bl[p[i - 1]].term)[j] as int]);
    }
}

proof fn lemma_reach_closed(bl: Seq<SsaBlock>, seen: Seq<bool>, b: int)
    requires
        seen.len() == bl.len(), bl.len() >= 1, seen[0],
        forall|x: int, j: int| 0 <= x < seen.len() && seen[x] && 0 <= j < succ_seq(bl[x].term).len()
            ==> seen[#[trigger] succ_seq(bl[x].term)[j] as int],
        reaches(bl, b),
    ensures seen[b],
{
    let p = choose|p: Seq<int>| #[trigger] entry_path(bl, p) && p.last() == b;
    lemma_path_seen(bl, seen, p, p.len() - 1);
}

proof fn lemma_marked_reach(bl: Seq<SsaBlock>, seen: Seq<bool>, m: int)
    requires 0 <= m <= seen.len(), forall|b: int| 0 <= b < seen.len() ==> (seen[b] <==> reaches(bl, b)),
    ensures marked(seen, m) == reach_count(bl, m),
    decreases m,
{
    if m > 0 { lemma_marked_reach(bl, seen, m - 1); }
}

/// The blocks reachable from the entry: the entry is marked, and every marked block's
/// successors are marked.
#[verifier::spinoff_prover]
#[verifier::rlimit(60)]
fn reachable(f: &SsaFn) -> (seen: Vec<bool>)
    requires f.wf(),
    ensures
        seen@.len() == f.blocks@.len(),
        seen@[0],
        forall|x: int, k: int| 0 <= x < seen@.len() && seen@[x] && 0 <= k < succ_seq(f.blocks@[x].term).len()
            ==> seen@[#[trigger] succ_seq(f.blocks@[x].term)[k] as int],
        forall|b: int| 0 <= b < seen@.len() ==> (#[trigger] seen@[b] <==> reaches(f.blocks@, b)),
{
    let n = f.blocks.len();
    let ghost nv = f.names@.len();
    let mut seen: Vec<bool> = Vec::new();
    let mut i: usize = 0;
    while i < n
        invariant i <= n, seen@.len() == i, forall|k: int| 0 <= k < i ==> !(#[trigger] seen@[k]),
        decreases n - i,
    {
        seen.push(false);
        i += 1;
    }
    let mut stack: Vec<usize> = Vec::new();
    stack.push(0);
    assert(stack@[0] == 0);
    proof { lemma_reach_entry(f.blocks@); }
    loop
        invariant
            n >= 1, n == f.blocks@.len(), seen@.len() == n, f.wf(), nv == f.names@.len(),
            forall|k: int| 0 <= k < stack@.len() ==> (#[trigger] stack@[k]) < n,
            seen@[0] || stack@.contains(0),
            forall|x: int, k: int| 0 <= x < n && seen@[x] && 0 <= k < succ_seq(f.blocks@[x].term).len()
                ==> seen@[#[trigger] succ_seq(f.blocks@[x].term)[k] as int] || stack@.contains(succ_seq(f.blocks@[x].term)[k]),
            forall|q: int| 0 <= q < n && #[trigger] seen@[q] ==> reaches(f.blocks@, q),
            forall|q: int| 0 <= q < stack@.len() ==> reaches(f.blocks@, #[trigger] stack@[q] as int),
        ensures
            seen@.len() == n, seen@[0],
            forall|q: int| 0 <= q < n && #[trigger] seen@[q] ==> reaches(f.blocks@, q),
            forall|x: int, k: int| 0 <= x < n && seen@[x] && 0 <= k < succ_seq(f.blocks@[x].term).len()
                ==> seen@[#[trigger] succ_seq(f.blocks@[x].term)[k] as int],
        decreases crate::ir::unseen(seen@), stack@.len(),
    {
        let ghost st0 = stack@;
        match stack.pop() {
            None => {
                assert(!stack@.contains(0));
                break;
            },
            Some(b) => {
                let ghost st = stack@;
                assert(st0 =~= st.push(b));
                if seen[b] {
                    proof {
                        assert forall|x: int, k: int| 0 <= x < n && seen@[x] && 0 <= k < succ_seq(f.blocks@[x].term).len()
                            implies seen@[#[trigger] succ_seq(f.blocks@[x].term)[k] as int] || stack@.contains(succ_seq(f.blocks@[x].term)[k]) by {
                            let s = succ_seq(f.blocks@[x].term)[k];
                            if !seen@[s as int] {
                                let q = choose|q: int| 0 <= q < st0.len() && st0[q] == s;
                                if q < st.len() { assert(stack@[q] == s); }
                            }
                        }
                        if !seen@[0] {
                            let q = choose|q: int| 0 <= q < st0.len() && st0[q] == 0;
                            if q < st.len() { assert(stack@[q] == 0); }
                        }
                    }
                    continue;
                }
                let ghost seen_before = seen@;
                assert(reaches(f.blocks@, st0[st0.len() - 1] as int));
                seen.set(b, true);
                proof { crate::ir::lemma_unseen_mark_pub(seen_before, b as int); }
                let t = f.blocks[b].term;
                assert(ssa_block_ok(f.blocks@[b as int], n as nat, nv));
                let ss = t.succs();
                let mut k: usize = 0;
                while k < ss.len()
                    invariant
                        k <= ss@.len(), ss@ == succ_seq(t), term_ok(t, n as nat, nv), n == f.blocks@.len(),
                        forall|q: int| 0 <= q < stack@.len() ==> (#[trigger] stack@[q]) < n,
                        b < n, t == f.blocks@[b as int].term, reaches(f.blocks@, b as int),
                        forall|q: int| 0 <= q < stack@.len() ==> reaches(f.blocks@, #[trigger] stack@[q] as int),
                        forall|q: int| 0 <= q < st.len() ==> stack@.contains(#[trigger] st[q]),
                        forall|q: int| 0 <= q < k ==> stack@.contains(#[trigger] ss@[q]),
                    decreases ss@.len() - k,
                {
                    let ghost before = stack@;
                    assert(ss@[k as int] < n) by {
                        match t {
                            Term::Jump(x) => {},
                            Term::Branch { then, els, .. } => {},
                            Term::Return(_) => {},
                        }
                    }
                    proof { lemma_reach_step(f.blocks@, b as int, k as int); }
                    stack.push(ss[k]);
                    proof {
                        assert forall|q: int| 0 <= q < stack@.len() implies reaches(f.blocks@, #[trigger] stack@[q] as int) by {
                            if q < before.len() { assert(stack@[q] == before[q]); }
                        }
                        assert forall|q: int| 0 <= q < st.len() implies stack@.contains(#[trigger] st[q]) by {
                            let w = choose|w: int| 0 <= w < before.len() && before[w] == st[q];
                            assert(stack@[w] == st[q]);
                        }
                        assert forall|q: int| 0 <= q < k + 1 implies stack@.contains(#[trigger] ss@[q]) by {
                            if q < k {
                                let w = choose|w: int| 0 <= w < before.len() && before[w] == ss@[q];
                                assert(stack@[w] == ss@[q]);
                            } else {
                                assert(stack@[before.len() as int] == ss@[q]);
                            }
                        }
                    }
                    k += 1;
                }
                proof {
                    assert forall|x: int, k: int| 0 <= x < n && seen@[x] && 0 <= k < succ_seq(f.blocks@[x].term).len()
                        implies seen@[#[trigger] succ_seq(f.blocks@[x].term)[k] as int] || stack@.contains(succ_seq(f.blocks@[x].term)[k]) by {
                        let s = succ_seq(f.blocks@[x].term)[k];
                        if x == b as int {
                            assert(s == ss@[k]);
                        } else if !seen@[s as int] {
                            assert(seen_before[x]);
                            let q = choose|q: int| 0 <= q < st0.len() && st0[q] == s;
                            if q < st.len() { assert(st[q] == s); } else { assert(s == b); }
                        }
                    }
                    if !seen@[0] {
                        let q = choose|q: int| 0 <= q < st0.len() && st0[q] == 0;
                        if q < st.len() { assert(st[q] == 0); }
                    }
                }
            },
        }
    }
    proof {
        assert forall|b: int| 0 <= b < seen@.len() implies (#[trigger] seen@[b] <==> reaches(f.blocks@, b)) by {
            if reaches(f.blocks@, b) { lemma_reach_closed(f.blocks@, seen@, b); }
        }
    }
    seen
}

/// Removes blocks unreachable from the entry, renumbering the rest in order; phi arguments
/// from removed predecessors go too.
pub fn remove_unreachable_ssa(f: &mut SsaFn)
    requires old(f).wf(),
    ensures
        final(f).wf(),
        final(f).name == old(f).name,
        final(f).params@ == old(f).params@,
        final(f).names@ == old(f).names@,
        final(f).blocks@.len() <= old(f).blocks@.len(),
        final(f).blocks@.len() == reach_count(old(f).blocks@, old(f).blocks@.len() as int),
        fsize(final(f).blocks@) <= fsize(old(f).blocks@),
{
    let seen = reachable(f);
    let n = f.blocks.len();
    proof { lemma_marked_reach(f.blocks@, seen@, n as int); }
    let ghost nv = f.names@.len();
    let ghost f0 = *f;
    let mut cnt: usize = 0;
    let mut new_id: Vec<usize> = Vec::new();
    let mut j: usize = 0;
    while j < n
        invariant
            j <= n, seen@.len() == n, new_id@.len() == j, cnt == marked(seen@, j as int),
            forall|q: int| 0 <= q < j && seen@[q] ==> #[trigger] new_id@[q] == marked(seen@, q),
        decreases n - j,
    {
        proof { lemma_marked_le(seen@, j as int); }
        if seen[j] {
            new_id.push(cnt);
            cnt += 1;
        } else {
            new_id.push(usize::MAX);
        }
        j += 1;
    }
    if cnt == n {
        return;
    }
    let ghost total = marked(seen@, n as int);
    assert forall|q: int| 0 <= q < n && seen@[q] implies (#[trigger] new_id@[q]) < total by {
        lemma_marked_mono(seen@, q + 1, n as int);
    }
    proof {
        lemma_marked_mono(seen@, 1, n as int);
        lemma_marked_le(seen@, n as int);
    }
    let mut blocks: Vec<SsaBlock> = Vec::new();
    let mut b: usize = 0;
    while b < n
        invariant
            b <= n, n == f.blocks@.len(), f.blocks@ == f0.blocks@, f.wf(), nv == f.names@.len(),
            seen@.len() == n, new_id@.len() == n,
            forall|q: int| 0 <= q < n && seen@[q] ==> (#[trigger] new_id@[q]) < total,
            forall|x: int, k: int| 0 <= x < n && seen@[x] && 0 <= k < succ_seq(f.blocks@[x].term).len()
                ==> seen@[#[trigger] succ_seq(f.blocks@[x].term)[k] as int],
            blocks@.len() == marked(seen@, b as int),
            forall|q: int| 0 <= q < blocks@.len() ==> ssa_block_ok(#[trigger] blocks@[q], total, nv),
            fsize(blocks@) <= fsize(f0.blocks@.subrange(0, b as int)),
        decreases n - b,
    {
        if seen[b] {
            let ob = &f.blocks[b];
            assert(ssa_block_ok(*ob, n as nat, nv));
            let nt = match ob.term {
                Term::Jump(x) => {
                    assert(succ_seq(ob.term)[0] == x);
                    Term::Jump(new_id[x])
                },
                Term::Branch { cond, then, els } => {
                    assert(succ_seq(ob.term)[0] == then);
                    assert(succ_seq(ob.term)[1] == els);
                    Term::Branch { cond, then: new_id[then], els: new_id[els] }
                },
                r => r,
            };
            let mut phis: Vec<Phi> = Vec::new();
            let mut k: usize = 0;
            while k < ob.phis.len()
                invariant
                    k <= ob.phis@.len(), ssa_block_ok(*ob, n as nat, nv), seen@.len() == n, new_id@.len() == n,
                    forall|q: int| 0 <= q < n && seen@[q] ==> (#[trigger] new_id@[q]) < total,
                    forall|q: int| 0 <= q < phis@.len() ==> phi_ok(#[trigger] phis@[q], total, nv),
                    phis@.len() == k,
                decreases ob.phis@.len() - k,
            {
                let p = &ob.phis[k];
                assert(phi_ok(*p, n as nat, nv));
                let mut args: Vec<(usize, Val)> = Vec::new();
                let mut q: usize = 0;
                while q < p.args.len()
                    invariant
                        q <= p.args@.len(), phi_ok(*p, n as nat, nv), seen@.len() == n, new_id@.len() == n,
                        forall|w: int| 0 <= w < n && seen@[w] ==> (#[trigger] new_id@[w]) < total,
                        forall|w: int| 0 <= w < args@.len() ==> (#[trigger] args@[w]).0 < total && val_ok(args@[w].1, nv),
                    decreases p.args@.len() - q,
                {
                    let (pb, v) = p.args[q];
                    assert(pb < n && val_ok(v, nv));
                    if seen[pb] {
                        args.push((new_id[pb], v));
                    }
                    q += 1;
                }
                phis.push(Phi { dst: p.dst, var: p.var, args });
                k += 1;
            }
            let mut insts: Vec<Inst> = Vec::new();
            let mut i: usize = 0;
            while i < ob.insts.len()
                invariant
                    i <= ob.insts@.len(), ssa_block_ok(*ob, n as nat, nv),
                    forall|q: int| 0 <= q < insts@.len() ==> inst_ok(#[trigger] insts@[q], nv),
                    insts@.len() == i,
                decreases ob.insts@.len() - i,
            {
                let c = inst_clone(&ob.insts[i]);
                assert(inst_ok(ob.insts@[i as int], nv));
                insts.push(c);
                i += 1;
            }
            let nb = SsaBlock { phis, insts, term: nt };
            let ghost before = blocks@;
            assert(bsize(nb) == bsize(f0.blocks@[b as int]));
            blocks.push(nb);
            proof {
                assert(blocks@.drop_last() =~= before);
                assert(f0.blocks@.subrange(0, b + 1).drop_last() =~= f0.blocks@.subrange(0, b as int));
                assert forall|q: int| 0 <= q < blocks@.len() implies ssa_block_ok(#[trigger] blocks@[q], total, nv) by {
                    if q < before.len() { assert(blocks@[q] == before[q]); }
                }
            }
        } else {
            assert(f0.blocks@.subrange(0, b + 1).drop_last() =~= f0.blocks@.subrange(0, b as int));
        }
        b += 1;
    }
    assert(f0.blocks@.subrange(0, n as int) =~= f0.blocks@);
    f.blocks = blocks;
}

/// What simplification can still shrink in a block: its phis, its instructions, the block
/// itself, and one more for a branch (which may become a jump).
pub open spec fn bsize(bk: SsaBlock) -> nat {
    bk.phis@.len() + bk.insts@.len() + 1 + if bk.term is Branch { 1nat } else { 0nat }
}

/// The sum of `bsize` over the blocks.
pub open spec fn fsize(bl: Seq<SsaBlock>) -> nat
    decreases bl.len(),
{
    if bl.len() == 0 { 0 } else { fsize(bl.drop_last()) + bsize(bl.last()) }
}

/// Blocks no larger one for one give a total no larger, and a smaller total when one of them
/// is smaller.
proof fn lemma_fsize_le(a: Seq<SsaBlock>, b: Seq<SsaBlock>)
    requires a.len() == b.len(), forall|i: int| 0 <= i < a.len() ==> bsize(#[trigger] b[i]) <= bsize(a[i]),
    ensures
        fsize(b) <= fsize(a),
        (exists|i: int| 0 <= i < a.len() && #[trigger] bsize(b[i]) < bsize(a[i])) ==> fsize(b) < fsize(a),
    decreases a.len(),
{
    if a.len() > 0 {
        let a2 = a.drop_last();
        let b2 = b.drop_last();
        assert forall|i: int| 0 <= i < a2.len() implies bsize(#[trigger] b2[i]) <= bsize(a2[i]) by {
            assert(b2[i] == b[i] && a2[i] == a[i]);
        }
        lemma_fsize_le(a2, b2);
        assert(bsize(b[a.len() - 1]) <= bsize(a[a.len() - 1]));
        if exists|i: int| 0 <= i < a.len() && #[trigger] bsize(b[i]) < bsize(a[i]) {
            let i = choose|i: int| 0 <= i < a.len() && #[trigger] bsize(b[i]) < bsize(a[i]);
            if i < a.len() - 1 {
                assert(b2[i] == b[i] && a2[i] == a[i]);
                assert(exists|j: int| 0 <= j < a2.len() && #[trigger] bsize(b2[j]) < bsize(a2[j]));
            }
        }
    }
}

/// A filter keeps at most what it filters, and less when it drops something.
proof fn lemma_filter_le<A>(s: Seq<A>, p: spec_fn(A) -> bool)
    ensures
        s.filter(p).len() <= s.len(),
        (exists|i: int| 0 <= i < s.len() && !p(#[trigger] s[i])) ==> s.filter(p).len() < s.len(),
    decreases s.len(),
{
    if s.len() > 0 {
        let t = s.drop_last();
        assert(s =~= t.push(s.last()));
        lemma_filter_push(t, s.last(), p);
        lemma_filter_le(t, p);
        if exists|i: int| 0 <= i < s.len() && !p(#[trigger] s[i]) {
            let i = choose|i: int| 0 <= i < s.len() && !p(#[trigger] s[i]);
            if i < s.len() - 1 {
                assert(t[i] == s[i]);
                assert(exists|j: int| 0 <= j < t.len() && !p(#[trigger] t[j]));
            }
        }
    } else {
        reveal(Seq::filter);
    }
}

/// Instructions and phis, counting each terminator as one.
pub open spec fn count_of(blocks: Seq<SsaBlock>) -> nat
    decreases blocks.len(),
{
    if blocks.len() == 0 { 0 } else { count_of(blocks.drop_last()) + blocks.last().phis@.len() + blocks.last().insts@.len() + 1 }
}

/// The size of a function: phis, instructions and terminators (saturating at `usize::MAX`).
pub fn count(f: &SsaFn) -> (c: usize)
    ensures count_of(f.blocks@) <= usize::MAX ==> c == count_of(f.blocks@),
{
    let mut total: usize = 0;
    let mut sat = false;
    let mut b: usize = 0;
    while b < f.blocks.len()
        invariant
            b <= f.blocks@.len(),
            !sat ==> total == count_of(f.blocks@.subrange(0, b as int)),
            sat ==> count_of(f.blocks@.subrange(0, b as int)) > usize::MAX,
        decreases f.blocks@.len() - b,
    {
        let k = f.blocks[b].phis.len() as u128 + f.blocks[b].insts.len() as u128 + 1;
        assert(f.blocks@.subrange(0, (b + 1) as int).drop_last() =~= f.blocks@.subrange(0, b as int));
        if !sat {
            if (total as u128) + k <= usize::MAX as u128 {
                total = (total as u128 + k) as usize;
            } else {
                sat = true;
            }
        }
        b += 1;
    }
    assert(f.blocks@.subrange(0, f.blocks@.len() as int) =~= f.blocks@);
    if sat { usize::MAX } else { total }
}

// ---------------- helpers ----------------

/// The CFG shape of an SSA function, so the dominator code can be reused.
pub fn skeleton(f: &SsaFn) -> (g: FnIr)
    requires f.wf(),
    ensures
        cfg_ok(g.blocks@),
        g.blocks@.len() == f.blocks@.len(),
        forall|b: int| 0 <= b < g.blocks@.len() ==> #[trigger] term_of(g.blocks@[b]) == f.blocks@[b].term,
{
    let n = f.blocks.len();
    let ghost nv = f.names@.len();
    let mut blocks: Vec<BasicBlock> = Vec::new();
    let mut b: usize = 0;
    while b < n
        invariant
            b <= n, n == f.blocks@.len(), f.wf(), nv == f.names@.len(), blocks@.len() == b,
            forall|c: int| 0 <= c < b ==> (#[trigger] blocks@[c]).term == Some(f.blocks@[c].term),
        decreases n - b,
    {
        blocks.push(BasicBlock { insts: Vec::new(), term: Some(f.blocks[b].term) });
        b += 1;
    }
    let g = FnIr { name: String::new(), params: Vec::new(), vars: Vec::new(), blocks };
    assert forall|c: int, k: int| 0 <= c < g.blocks@.len() && 0 <= k < succ_seq(term_of(g.blocks@[c])).len()
        implies (#[trigger] succ_seq(term_of(g.blocks@[c]))[k]) < g.blocks@.len() by {
        assert(ssa_block_ok(f.blocks@[c], n as nat, nv));
    }
    assert forall|c: int| 0 <= c < g.blocks@.len() implies (#[trigger] g.blocks@[c]).term is Some by {}
    g
}

/// Whether an instruction defines `dst` and is one of the kinds `drop_defs` removes.
pub open spec fn dropped(i: Inst, dst: u32, copies_too: bool) -> bool {
    match i {
        Inst::Copy { dst: d, .. } => copies_too && d == dst,
        Inst::Bin { dst: d, .. } => d == dst,
        Inst::Un { dst: d, .. } => d == dst,
        Inst::Call { .. } => false,
    }
}

fn is_dropped(i: &Inst, dst: u32, copies_too: bool) -> (r: bool)
    ensures r == dropped(*i, dst, copies_too),
{
    match i {
        Inst::Copy { dst: d, .. } => copies_too && *d == dst,
        Inst::Bin { dst: d, .. } => *d == dst,
        Inst::Un { dst: d, .. } => *d == dst,
        Inst::Call { .. } => false,
    }
}

/// Two instruction lists that match one for one.
pub open spec fn same_insts(a: Seq<Inst>, b: Seq<Inst>) -> bool {
    a.len() == b.len() && forall|k: int| 0 <= k < a.len() ==> crate::ir::same_inst(#[trigger] a[k], b[k])
}

/// The instructions that `drop_defs` keeps, in order.
pub open spec fn kept_insts(s: Seq<Inst>, dst: u32, copies_too: bool) -> Seq<Inst> {
    s.filter(|i: Inst| !dropped(i, dst, copies_too))
}

/// The phis that `drop_defs` keeps, in order.
pub open spec fn kept_phis(s: Seq<Phi>, dst: u32, phis_too: bool) -> Seq<Phi> {
    if phis_too { s.filter(|p: Phi| p.dst != dst) } else { s }
}

proof fn lemma_filter_push<A>(s: Seq<A>, x: A, p: spec_fn(A) -> bool)
    ensures s.push(x).filter(p) == (if p(x) { s.filter(p).push(x) } else { s.filter(p) }),
{
    reveal(Seq::filter);
    assert(s.push(x).drop_last() =~= s);
}

/// Deletes the definitions of `dst`: its instructions other than calls (copies only when
/// asked) and, when asked, its phis. Terminators stay.
fn drop_defs(f: &mut SsaFn, dst: u32, phis_too: bool, copies_too: bool)
    requires old(f).wf(),
    ensures
        final(f).wf(),
        final(f).name == old(f).name,
        final(f).params@ == old(f).params@,
        final(f).names@ == old(f).names@,
        final(f).blocks@.len() == old(f).blocks@.len(),
        forall|b: int| 0 <= b < final(f).blocks@.len() ==> (#[trigger] final(f).blocks@[b]).term == old(f).blocks@[b].term,
        forall|b: int| 0 <= b < final(f).blocks@.len() ==>
            same_insts((#[trigger] final(f).blocks@[b]).insts@, kept_insts(old(f).blocks@[b].insts@, dst, copies_too))
            && final(f).blocks@[b].phis@ == kept_phis(old(f).blocks@[b].phis@, dst, phis_too),
{
    let n = f.blocks.len();
    let ghost nv = f.names@.len();
    let ghost f0 = *f;
    let mut b: usize = 0;
    while b < n
        invariant
            b <= n, n == f.blocks@.len(), nv == f.names@.len(), f.wf(),
            f.name == f0.name, f.params@ == f0.params@, f.names@ == f0.names@,
            f0.blocks@.len() == n,
            forall|c: int| 0 <= c < n ==> (#[trigger] f.blocks@[c]).term == f0.blocks@[c].term,
            forall|c: int| b <= c < n ==> #[trigger] f.blocks@[c] == f0.blocks@[c],
            forall|c: int| 0 <= c < b ==>
                same_insts((#[trigger] f.blocks@[c]).insts@, kept_insts(f0.blocks@[c].insts@, dst, copies_too))
                && f.blocks@[c].phis@ == kept_phis(f0.blocks@[c].phis@, dst, phis_too),
        decreases n - b,
    {
        let ghost at_b = f.blocks@[b as int];
        let mut blk = empty_block();
        std::mem::swap(&mut blk, &mut f.blocks[b]);
        assert(blk == at_b);
        assert(ssa_block_ok(blk, n as nat, nv));
        let mut phis: Vec<Phi> = Vec::new();
        let mut old_phis: Vec<Phi> = Vec::new();
        std::mem::swap(&mut old_phis, &mut blk.phis);
        let ghost op = old_phis@;
        let mut rev: Vec<Phi> = Vec::new();
        while old_phis.len() > 0
            invariant
                forall|q: int| 0 <= q < old_phis@.len() ==> #[trigger] old_phis@[q] == op[q],
                old_phis@.len() + rev@.len() == op.len(),
                forall|q: int| 0 <= q < rev@.len() ==> #[trigger] rev@[q] == op[op.len() - 1 - q],
            decreases old_phis@.len(),
        {
            let p = old_phis.pop().unwrap();
            rev.push(p);
        }
        while rev.len() > 0
            invariant
                forall|q: int| 0 <= q < op.len() ==> phi_ok(#[trigger] op[q], n as nat, nv),
                forall|q: int| 0 <= q < rev@.len() ==> #[trigger] rev@[q] == op[op.len() - 1 - q],
                rev@.len() <= op.len(),
                forall|q: int| 0 <= q < phis@.len() ==> phi_ok(#[trigger] phis@[q], n as nat, nv),
                phis@ == kept_phis(op.subrange(0, op.len() - rev@.len()), dst, phis_too),
            decreases rev@.len(),
        {
            let ghost pre = phis@;
            let p = rev.pop().unwrap();
            assert(p == op[op.len() - 1 - rev@.len()]);
            proof {
                let j = op.len() - 1 - rev@.len();
                assert(op.subrange(0, j + 1) =~= op.subrange(0, j).push(p));
                lemma_filter_push(op.subrange(0, j), p, |q: Phi| q.dst != dst);
            }
            if !(phis_too && p.dst == dst) {
                phis.push(p);
            }
        }
        assert(op.subrange(0, op.len() as int) =~= op);
        let mut insts: Vec<Inst> = Vec::new();
        let mut i: usize = 0;
        while i < blk.insts.len()
            invariant
                i <= blk.insts@.len(),
                forall|q: int| 0 <= q < blk.insts@.len() ==> inst_ok(#[trigger] blk.insts@[q], nv),
                forall|q: int| 0 <= q < insts@.len() ==> inst_ok(#[trigger] insts@[q], nv),
                same_insts(insts@, kept_insts(blk.insts@.subrange(0, i as int), dst, copies_too)),
            decreases blk.insts@.len() - i,
        {
            let ghost pre = insts@;
            let ghost x = blk.insts@[i as int];
            proof {
                assert(blk.insts@.subrange(0, i + 1) =~= blk.insts@.subrange(0, i as int).push(x));
                lemma_filter_push(blk.insts@.subrange(0, i as int), x, |j: Inst| !dropped(j, dst, copies_too));
            }
            if !is_dropped(&blk.insts[i], dst, copies_too) {
                let c = inst_clone(&blk.insts[i]);
                insts.push(c);
                proof {
                    let k2 = kept_insts(blk.insts@.subrange(0, i + 1), dst, copies_too);
                    assert forall|k: int| 0 <= k < insts@.len() implies crate::ir::same_inst(#[trigger] insts@[k], k2[k]) by {
                        if k < pre.len() { assert(insts@[k] == pre[k]); }
                    }
                }
            }
            i += 1;
        }
        assert(blk.insts@.subrange(0, blk.insts@.len() as int) =~= blk.insts@);
        let nb = SsaBlock { phis, insts, term: blk.term };
        let ghost before = f.blocks@;
        f.blocks.set(b, nb);
        proof {
            assert forall|c: int| 0 <= c < n implies ssa_block_ok(#[trigger] f.blocks@[c], f.blocks@.len(), f.names@.len()) by {
                if c != b as int { assert(f.blocks@[c] == before[c]); }
            }
            assert forall|c: int| 0 <= c < n implies (#[trigger] f.blocks@[c]).term == f0.blocks@[c].term by {
                if c != b as int { assert(f.blocks@[c] == before[c]); }
            }
            assert forall|c: int| b + 1 <= c < n implies #[trigger] f.blocks@[c] == f0.blocks@[c] by {
                assert(f.blocks@[c] == before[c]);
            }
            assert forall|c: int| 0 <= c < b + 1 implies
                same_insts((#[trigger] f.blocks@[c]).insts@, kept_insts(f0.blocks@[c].insts@, dst, copies_too))
                && f.blocks@[c].phis@ == kept_phis(f0.blocks@[c].phis@, dst, phis_too) by {
                if c != b as int { assert(f.blocks@[c] == before[c]); }
            }
        }
        b += 1;
    }
}

// ---------------- pass 1: simplification ----------------

/// What an instruction can be replaced by: a copy by its source; an operation on constants by
/// its value (unless it traps); `x + 0`, `0 + x`, `x * 1`, `1 * x`, `x - 0` by `x`; and a
/// product with a zero by 0.
pub open spec fn inst_rewrite(i: Inst) -> Option<(u32, Val)> {
    match i {
        Inst::Copy { dst, src } => Some((dst, src)),
        Inst::Un { dst, op, a } => match a {
            Val::Const(x) => Some((dst, Val::Const(un_value(op, x)))),
            _ => None,
        },
        Inst::Bin { dst, op, a, b } =>
            if a is Const && b is Const {
                match bin_value(op, a->Const_0, b->Const_0) {
                    Some(c) => Some((dst, Val::Const(c))),
                    None => None,
                }
            } else if op == BinOp::Add && b == Val::Const(0) {
                Some((dst, a))
            } else if op == BinOp::Add && a == Val::Const(0) {
                Some((dst, b))
            } else if op == BinOp::Mul && b == Val::Const(1) {
                Some((dst, a))
            } else if op == BinOp::Mul && a == Val::Const(1) {
                Some((dst, b))
            } else if op == BinOp::Sub && b == Val::Const(0) {
                Some((dst, a))
            } else if op == BinOp::Mul && (b == Val::Const(0) || a == Val::Const(0)) {
                Some((dst, Val::Const(0)))
            } else {
                None
            },
        Inst::Call { .. } => None,
    }
}

fn rewrite_of(i: &Inst) -> (r: Option<(u32, Val)>)
    ensures r == inst_rewrite(*i),
{
    match i {
        Inst::Copy { dst, src } => Some((*dst, *src)),
        Inst::Un { dst, op, a } => match a {
            Val::Const(x) => Some((*dst, Val::Const(unary(*op, *x)))),
            _ => None,
        },
        Inst::Bin { dst, op, a, b } => {
            let (dst, op, a, b) = (*dst, *op, *a, *b);
            match (a, b) {
                (Val::Const(x), Val::Const(y)) => match fold(op, x, y) {
                    Some(c) => Some((dst, Val::Const(c))),
                    None => None,
                },
                _ => {
                    if op == BinOp::Add && b == Val::Const(0) {
                        Some((dst, a))
                    } else if op == BinOp::Add && a == Val::Const(0) {
                        Some((dst, b))
                    } else if op == BinOp::Mul && b == Val::Const(1) {
                        Some((dst, a))
                    } else if op == BinOp::Mul && a == Val::Const(1) {
                        Some((dst, b))
                    } else if op == BinOp::Sub && b == Val::Const(0) {
                        Some((dst, a))
                    } else if op == BinOp::Mul && (b == Val::Const(0) || a == Val::Const(0)) {
                        Some((dst, Val::Const(0)))
                    } else {
                        None
                    }
                },
            }
        },
        Inst::Call { .. } => None,
    }
}

/// Every rewrite the simplifier makes keeps the value: whatever the variables hold, the
/// replacement has the value the instruction computes (for an operation, it computes one:
/// no rewrite removes a trap), and it replaces the instruction's own destination.
pub proof fn lemma_rewrite_keeps_value(i: Inst, vars: Seq<i64>)
    requires inst_rewrite(i) is Some,
    ensures
        inst_rewrite(i)->Some_0.0 == inst_dst(i),
        match i {
            Inst::Copy { src, .. } => val_of(vars, inst_rewrite(i)->Some_0.1) == val_of(vars, src),
            Inst::Un { op, a, .. } => val_of(vars, inst_rewrite(i)->Some_0.1) == un_value(op, val_of(vars, a)),
            Inst::Bin { op, a, b, .. } =>
                bin_value(op, val_of(vars, a), val_of(vars, b)) == Some(val_of(vars, inst_rewrite(i)->Some_0.1)),
            Inst::Call { .. } => false,
        },
{
    match i {
        Inst::Bin { op, a, b, .. } => {
            let x = val_of(vars, a);
            let y = val_of(vars, b);
            lemma_bin_value_meaning(x, y);
            if y == 0 {
                lemma_bin_value_meaning(x, 0);
                assert(x + 0 == x && x - 0 == x && x * 0 == 0) by (nonlinear_arith);
            }
            if x == 0 {
                assert(0 + y == y && 0 * y == 0) by (nonlinear_arith);
            }
            if y == 1 { assert(x * 1 == x) by (nonlinear_arith); }
            if x == 1 { assert(1 * y == y) by (nonlinear_arith); }
        },
        _ => {},
    }
}

fn val_in(v: &Vec<Val>, x: Val) -> (r: bool)
    ensures r == v@.contains(x),
{
    let mut i: usize = 0;
    while i < v.len()
        invariant i <= v@.len(), forall|k: int| 0 <= k < i ==> v@[k] != x,
        decreases v@.len() - i,
    {
        if v[i] == x {
            assert(v@[i as int] == x);
            return true;
        }
        i += 1;
    }
    false
}

/// The one value a phi merges besides itself, if there is exactly one: `phi(v, v, ...)` is `v`.
fn trivial_phi(p: &Phi) -> (r: Option<Val>)
    ensures
        r matches Some(v) ==> exists|q: int| 0 <= q < p.args@.len() && (#[trigger] p.args@[q]).1 == v,
        r matches Some(v) ==> v != Val::Var(p.dst)
            && forall|q: int| 0 <= q < p.args@.len() ==> (#[trigger] p.args@[q]).1 == v || p.args@[q].1 == Val::Var(p.dst),
        r is None ==> (forall|q: int| 0 <= q < p.args@.len() ==> (#[trigger] p.args@[q]).1 == Val::Var(p.dst))
            || exists|q1: int, q2: int| 0 <= q1 < p.args@.len() && 0 <= q2 < p.args@.len()
                && (#[trigger] p.args@[q1]).1 != Val::Var(p.dst) && (#[trigger] p.args@[q2]).1 != Val::Var(p.dst)
                && p.args@[q1].1 != p.args@[q2].1,
{
    let mut distinct: Vec<Val> = Vec::new();
    let mut q: usize = 0;
    while q < p.args.len()
        invariant
            q <= p.args@.len(),
            forall|k: int| 0 <= k < distinct@.len() ==> (#[trigger] distinct@[k]) != Val::Var(p.dst),
            forall|k1: int, k2: int| 0 <= k1 < k2 < distinct@.len() ==> (#[trigger] distinct@[k1]) != (#[trigger] distinct@[k2]),
            forall|w: int| 0 <= w < q ==> (#[trigger] p.args@[w]).1 == Val::Var(p.dst) || distinct@.contains(p.args@[w].1),
            forall|k: int| 0 <= k < distinct@.len() ==> exists|w: int| 0 <= w < p.args@.len() && (#[trigger] p.args@[w]).1 == #[trigger] distinct@[k],
        decreases p.args@.len() - q,
    {
        let v = p.args[q].1;
        let ghost d0 = distinct@;
        if v != Val::Var(p.dst) && !val_in(&distinct, v) {
            distinct.push(v);
            proof {
                assert forall|k: int| 0 <= k < distinct@.len() implies exists|w: int| 0 <= w < p.args@.len() && (#[trigger] p.args@[w]).1 == #[trigger] distinct@[k] by {
                    if k == distinct@.len() - 1 {
                        assert(p.args@[q as int].1 == distinct@[k]);
                    }
                }
            }
        }
        proof {
            assert forall|w: int| 0 <= w < q + 1 implies (#[trigger] p.args@[w]).1 == Val::Var(p.dst) || distinct@.contains(p.args@[w].1) by {
                if p.args@[w].1 != Val::Var(p.dst) {
                    if w < q {
                        let i = choose|i: int| 0 <= i < d0.len() && d0[i] == p.args@[w].1;
                        assert(distinct@[i] == d0[i]);
                    } else if distinct@.len() > d0.len() {
                        assert(distinct@[d0.len() as int] == v);
                    }
                }
            }
        }
        q += 1;
    }
    if distinct.len() == 1 {
        let d = distinct[0];
        assert(d == distinct@[0]);
        assert forall|w: int| 0 <= w < p.args@.len() implies (#[trigger] p.args@[w]).1 == d || p.args@[w].1 == Val::Var(p.dst) by {
            if p.args@[w].1 != Val::Var(p.dst) {
                assert(distinct@.contains(p.args@[w].1));
            }
        }
        Some(d)
    } else {
        proof {
            if distinct@.len() >= 2 {
                let d0v = distinct@[0];
                let d1v = distinct@[1];
                assert(exists|w: int| 0 <= w < p.args@.len() && (#[trigger] p.args@[w]).1 == d0v);
                assert(exists|w: int| 0 <= w < p.args@.len() && (#[trigger] p.args@[w]).1 == d1v);
                let w1 = choose|w: int| 0 <= w < p.args@.len() && (#[trigger] p.args@[w]).1 == d0v;
                let w2 = choose|w: int| 0 <= w < p.args@.len() && (#[trigger] p.args@[w]).1 == d1v;
                assert(distinct@[0] != distinct@[1]);
                assert(p.args@[w1].1 != Val::Var(p.dst) && p.args@[w2].1 != Val::Var(p.dst));
            } else {
                assert forall|w: int| 0 <= w < p.args@.len() implies (#[trigger] p.args@[w]).1 == Val::Var(p.dst) by {
                    if p.args@[w].1 != Val::Var(p.dst) {
                        assert(distinct@.contains(p.args@[w].1));
                    }
                }
            }
        }
        None
    }
}

/// The value the last rewrite of `x` in a batch names.
pub open spec fn batch_get(rw: Seq<(u32, Val)>, x: u32) -> Option<Val>
    decreases rw.len(),
{
    if rw.len() == 0 {
        None
    } else if rw.last().0 == x {
        Some(rw.last().1)
    } else {
        batch_get(rw.drop_last(), x)
    }
}

/// The value a rewrite batch maps `x` to (the last rewrite of `x` wins).
fn map_get(rw: &Vec<(u32, Val)>, x: u32) -> (r: Option<Val>)
    ensures
        r == batch_get(rw@, x),
        r matches Some(v) ==> exists|k: int| 0 <= k < rw@.len() && (#[trigger] rw@[k]).1 == v,
{
    let mut i = rw.len();
    assert(rw@.subrange(0, i as int) =~= rw@);
    while i > 0
        invariant i <= rw@.len(), batch_get(rw@.subrange(0, i as int), x) == batch_get(rw@, x),
        decreases i,
    {
        assert(rw@.subrange(0, i as int).drop_last() =~= rw@.subrange(0, i - 1));
        i -= 1;
        if rw[i].0 == x {
            return Some(rw[i].1);
        }
    }
    None
}

/// Some phi or non-call instruction of `bl` defines `d`.
pub open spec fn has_def(bl: Seq<SsaBlock>, d: u32) -> bool {
    ||| exists|b: int, k: int| 0 <= b < bl.len() && 0 <= k < bl[b].phis@.len() && (#[trigger] bl[b].phis@[k]).dst == d
    ||| exists|b: int, k: int| 0 <= b < bl.len() && 0 <= k < bl[b].insts@.len() && dropped(#[trigger] bl[b].insts@[k], d, true)
}

fn defines(f: &SsaFn, d: u32) -> (r: bool)
    ensures r == has_def(f.blocks@, d),
{
    let mut b: usize = 0;
    while b < f.blocks.len()
        invariant
            b <= f.blocks@.len(),
            forall|x: int, k: int| 0 <= x < b && 0 <= k < f.blocks@[x].phis@.len() ==> (#[trigger] f.blocks@[x].phis@[k]).dst != d,
            forall|x: int, k: int| 0 <= x < b && 0 <= k < f.blocks@[x].insts@.len() ==> !dropped(#[trigger] f.blocks@[x].insts@[k], d, true),
        decreases f.blocks@.len() - b,
    {
        let blk = &f.blocks[b];
        let mut k: usize = 0;
        while k < blk.phis.len()
            invariant k <= blk.phis@.len(), forall|q: int| 0 <= q < k ==> (#[trigger] blk.phis@[q]).dst != d,
                b < f.blocks@.len(), *blk == f.blocks@[b as int],
            decreases blk.phis@.len() - k,
        {
            if blk.phis[k].dst == d {
                assert(f.blocks@[b as int].phis@[k as int].dst == d);
                return true;
            }
            k += 1;
        }
        let mut i: usize = 0;
        while i < blk.insts.len()
            invariant i <= blk.insts@.len(), forall|q: int| 0 <= q < i ==> !dropped(#[trigger] blk.insts@[q], d, true),
                b < f.blocks@.len(), *blk == f.blocks@[b as int],
            decreases blk.insts@.len() - i,
        {
            if is_dropped(&blk.insts[i], d, true) {
                assert(dropped(f.blocks@[b as int].insts@[i as int], d, true));
                return true;
            }
            i += 1;
        }
        b += 1;
    }
    false
}

/// Replaces every use of `dst` by `v` and deletes the definitions of `dst`: the function
/// shrinks, since `dst` has a definition.
fn substitute(f: &mut SsaFn, dst: u32, v: Val)
    requires old(f).wf(), val_ok(v, old(f).names@.len()), has_def(old(f).blocks@, dst),
    ensures
        final(f).wf(),
        final(f).name == old(f).name,
        final(f).params@ == old(f).params@,
        final(f).names@ == old(f).names@,
        fsize(final(f).blocks@) < fsize(old(f).blocks@),
{
    let ghost b0 = f.blocks@;
    replace_uses(f, dst, v);
    let ghost b1 = f.blocks@;
    proof {
        assert forall|i: int| 0 <= i < b1.len() implies bsize(#[trigger] b1[i]) <= bsize(b0[i]) by {
            assert(block_subst(b0[i], b1[i], dst, v));
        }
        lemma_fsize_le(b0, b1);
        // the definition is still there
        if exists|b: int, k: int| 0 <= b < b0.len() && 0 <= k < b0[b].phis@.len() && (#[trigger] b0[b].phis@[k]).dst == dst {
            let (b, k) = choose|b: int, k: int| 0 <= b < b0.len() && 0 <= k < b0[b].phis@.len() && (#[trigger] b0[b].phis@[k]).dst == dst;
            assert(block_subst(b0[b], b1[b], dst, v));
            assert(b1[b].phis@[k].dst == dst);
        } else {
            let (b, k) = choose|b: int, k: int| 0 <= b < b0.len() && 0 <= k < b0[b].insts@.len() && dropped(#[trigger] b0[b].insts@[k], dst, true);
            assert(block_subst(b0[b], b1[b], dst, v));
            assert(subst_inst_ok(b0[b].insts@[k], b1[b].insts@[k], dst, v));
            assert(dropped(b1[b].insts@[k], dst, true));
        }
        assert(has_def(b1, dst));
    }
    drop_defs(f, dst, true, true);
    proof {
        let b2 = f.blocks@;
        assert forall|i: int| 0 <= i < b2.len() implies bsize(#[trigger] b2[i]) <= bsize(b1[i]) by {
            lemma_filter_le(b1[i].insts@, |x: Inst| !dropped(x, dst, true));
            lemma_filter_le(b1[i].phis@, |p: Phi| p.dst != dst);
        }
        if exists|b: int, k: int| 0 <= b < b1.len() && 0 <= k < b1[b].phis@.len() && (#[trigger] b1[b].phis@[k]).dst == dst {
            let (b, k) = choose|b: int, k: int| 0 <= b < b1.len() && 0 <= k < b1[b].phis@.len() && (#[trigger] b1[b].phis@[k]).dst == dst;
            lemma_filter_le(b1[b].insts@, |x: Inst| !dropped(x, dst, true));
            lemma_filter_le(b1[b].phis@, |p: Phi| p.dst != dst);
            assert(!(|p: Phi| p.dst != dst)(b1[b].phis@[k]));
            assert(bsize(b2[b]) < bsize(b1[b]));
        } else {
            let (b, k) = choose|b: int, k: int| 0 <= b < b1.len() && 0 <= k < b1[b].insts@.len() && dropped(#[trigger] b1[b].insts@[k], dst, true);
            lemma_filter_le(b1[b].insts@, |x: Inst| !dropped(x, dst, true));
            lemma_filter_le(b1[b].phis@, |p: Phi| p.dst != dst);
            assert(!(|x: Inst| !dropped(x, dst, true))(b1[b].insts@[k]));
            assert(bsize(b2[b]) < bsize(b1[b]));
        }
        lemma_fsize_le(b1, b2);
    }
}

/// Phi `p` merges exactly one value, `v`, besides itself.
pub open spec fn phi_trivial(p: Phi, v: Val) -> bool {
    &&& v != Val::Var(p.dst)
    &&& exists|q: int| 0 <= q < p.args@.len() && (#[trigger] p.args@[q]).1 == v
    &&& forall|q: int| 0 <= q < p.args@.len() ==> (#[trigger] p.args@[q]).1 == v || p.args@[q].1 == Val::Var(p.dst)
}

/// Within block `bk`, the simplifier would rewrite `d` to `v`: a trivial phi, or an
/// instruction it can replace.
pub open spec fn block_candidate(bk: SsaBlock, d: u32, v: Val) -> bool {
    ||| exists|k: int| 0 <= k < bk.phis@.len() && (#[trigger] bk.phis@[k]).dst == d && phi_trivial(bk.phis@[k], v)
    ||| exists|i: int| 0 <= i < bk.insts@.len() && inst_rewrite(#[trigger] bk.insts@[i]) == Some((d, v))
}

/// Somewhere in `bl` the simplifier would rewrite `d` to `v`.
pub open spec fn candidate(bl: Seq<SsaBlock>, d: u32, v: Val) -> bool {
    exists|b: int| 0 <= b < bl.len() && #[trigger] block_candidate(bl[b], d, v)
}

/// The simplifier is stuck on `bl` without changing anything: no branch on a constant, and
/// every rewrite it could make goes to a variable that is itself to be rewritten (a cycle,
/// on which it would go round forever).
pub open spec fn only_cycles(bl: Seq<SsaBlock>) -> bool {
    &&& forall|b: int| 0 <= b < bl.len() ==> !const_branch(#[trigger] bl[b].term)
    &&& forall|d: u32, v: Val| #[trigger] candidate(bl, d, v)
        ==> (v matches Val::Var(y) && exists|w: Val| #[trigger] candidate(bl, y, w))
}

/// A variable the batch rewrites has an entry in it.
proof fn lemma_batch_get_some(rw: Seq<(u32, Val)>, x: u32)
    requires batch_get(rw, x) is Some,
    ensures exists|j: int| 0 <= j < rw.len() && (#[trigger] rw[j]).0 == x,
    decreases rw.len(),
{
    if rw.last().0 == x {
        assert(rw[rw.len() - 1].0 == x);
    } else {
        lemma_batch_get_some(rw.drop_last(), x);
        let j = choose|j: int| 0 <= j < rw.drop_last().len() && (#[trigger] rw.drop_last()[j]).0 == x;
        assert(rw[j] == rw.drop_last()[j]);
    }
}

/// A phi that is not trivial: its arguments are all the phi itself, or they hold two
/// different values besides it.
pub open spec fn phi_settled(p: Phi) -> bool {
    ||| forall|q: int| 0 <= q < p.args@.len() ==> (#[trigger] p.args@[q]).1 == Val::Var(p.dst)
    ||| exists|q1: int, q2: int| 0 <= q1 < p.args@.len() && 0 <= q2 < p.args@.len()
            && (#[trigger] p.args@[q1]).1 != Val::Var(p.dst) && (#[trigger] p.args@[q2]).1 != Val::Var(p.dst)
            && p.args@[q1].1 != p.args@[q2].1
}

/// No phi of block `bk` is trivial and no instruction of it can be rewritten.
pub open spec fn block_quiet(bk: SsaBlock) -> bool {
    &&& forall|k: int| 0 <= k < bk.phis@.len() ==> phi_settled(#[trigger] bk.phis@[k])
    &&& forall|i: int| 0 <= i < bk.insts@.len() ==> inst_rewrite(#[trigger] bk.insts@[i]) is None
}

/// A branch on a constant.
pub open spec fn const_branch(t: Term) -> bool {
    t matches Term::Branch { cond: Val::Const(_), .. }
}

/// No rule of the simplifier applies anywhere in `bl`.
pub open spec fn simplified(bl: Seq<SsaBlock>) -> bool {
    forall|b: int| 0 <= b < bl.len() ==> block_quiet(#[trigger] bl[b]) && !const_branch(bl[b].term)
}

/// Pass 1: constant folding and propagation, copy propagation, trivial phis, branch folding,
/// repeated until nothing changes. Returns the number of rewrites (saturating). Each round
/// that changes something shrinks the function, so the rounds end: with nothing left to
/// rewrite, or (on input where the rewrites only go round cycles of variables, which a
/// round would leave as they are) with only such cycles left.
pub fn simplify(f: &mut SsaFn) -> (total: usize)
    requires old(f).wf(),
    ensures
        final(f).wf(),
        final(f).name == old(f).name,
        final(f).params@ == old(f).params@,
        final(f).names@ == old(f).names@,
        simplified(final(f).blocks@) || only_cycles(final(f).blocks@),
        total == 0 ==> final(f).blocks@ == old(f).blocks@,
{
    let ghost f0 = *f;
    let ghost nv = f.names@.len();
    let mut total: usize = 0;
    loop
        invariant
            f.wf(), f.name == f0.name, f.params@ == f0.params@, f.names@ == f0.names@, nv == f.names@.len(),
            total == 0 ==> f.blocks@ == f0.blocks@,
        ensures
            f.wf(), f.name == f0.name, f.params@ == f0.params@, f.names@ == f0.names@,
            total == 0 ==> f.blocks@ == f0.blocks@,
            simplified(f.blocks@) || only_cycles(f.blocks@),
        decreases fsize(f.blocks@),
    {
        let ghost f1 = *f;
        let n = f.blocks.len();
        let mut rewrites: Vec<(u32, Val)> = Vec::new();
        let mut b: usize = 0;
        while b < n
            invariant
                b <= n, n == f.blocks@.len(), f.wf(), nv == f.names@.len(), *f == f1,
                forall|k: int| 0 <= k < rewrites@.len() ==> val_ok(#[trigger] rewrites@[k].1, nv),
                rewrites@.len() == 0 ==> forall|x: int| 0 <= x < b ==> block_quiet(#[trigger] f.blocks@[x]),
                forall|k: int| 0 <= k < rewrites@.len() ==> candidate(f.blocks@, (#[trigger] rewrites@[k]).0, rewrites@[k].1),
                forall|x: int, d: u32, v: Val| 0 <= x < b && #[trigger] block_candidate(f.blocks@[x], d, v)
                    ==> rewrites@.contains((d, v)),
            decreases n - b,
        {
            let blk = &f.blocks[b];
            assert(ssa_block_ok(*blk, n as nat, nv));
            let ghost r0 = rewrites@;
            let mut k: usize = 0;
            while k < blk.phis.len()
                invariant
                    k <= blk.phis@.len(), ssa_block_ok(*blk, n as nat, nv), rewrites@.len() >= r0.len(),
                    b < n, n == f.blocks@.len(), *blk == f.blocks@[b as int],
                    rewrites@.subrange(0, r0.len() as int) == r0,
                    forall|q: int| 0 <= q < rewrites@.len() ==> val_ok(#[trigger] rewrites@[q].1, nv),
                    rewrites@.len() == 0 ==> forall|q: int| 0 <= q < k ==> phi_settled(#[trigger] blk.phis@[q]),
                    forall|q: int| 0 <= q < rewrites@.len() ==> candidate(f.blocks@, (#[trigger] rewrites@[q]).0, rewrites@[q].1),
                    forall|q: int, v: Val| 0 <= q < k && #[trigger] phi_trivial(blk.phis@[q], v)
                        ==> rewrites@.contains((blk.phis@[q].dst, v)),
                decreases blk.phis@.len() - k,
            {
                let ghost pre = rewrites@;
                match trivial_phi(&blk.phis[k]) {
                    Some(v) => {
                        assert(phi_ok(blk.phis@[k as int], n as nat, nv));
                        rewrites.push((blk.phis[k].dst, v));
                        proof {
                            let p = blk.phis@[k as int];
                            assert(phi_trivial(p, v));
                            assert(block_candidate(f.blocks@[b as int], p.dst, v));
                            assert(candidate(f.blocks@, p.dst, v));
                            assert forall|q: int| 0 <= q < rewrites@.len() implies candidate(f.blocks@, (#[trigger] rewrites@[q]).0, rewrites@[q].1) by {
                                if q < pre.len() { assert(rewrites@[q] == pre[q]); }
                            }
                            assert(rewrites@.subrange(0, r0.len() as int) =~= pre.subrange(0, r0.len() as int));
                            assert(rewrites@[pre.len() as int] == (p.dst, v));
                            assert forall|q: int, w: Val| 0 <= q < k + 1 && #[trigger] phi_trivial(blk.phis@[q], w)
                                implies rewrites@.contains((blk.phis@[q].dst, w)) by {
                                if q < k {
                                    let j = choose|j: int| 0 <= j < pre.len() && pre[j] == (blk.phis@[q].dst, w);
                                    assert(rewrites@[j] == pre[j]);
                                } else {
                                    // a trivial phi merges one value only
                                    let qa = choose|qa: int| 0 <= qa < p.args@.len() && (#[trigger] p.args@[qa]).1 == w;
                                    assert(p.args@[qa].1 == v || p.args@[qa].1 == Val::Var(p.dst));
                                }
                            }
                        }
                    },
                    None => {
                        proof {
                            let p = blk.phis@[k as int];
                            assert forall|w: Val| !phi_trivial(p, w) by {
                                if phi_trivial(p, w) {
                                    if forall|q: int| 0 <= q < p.args@.len() ==> (#[trigger] p.args@[q]).1 == Val::Var(p.dst) {
                                        let qa = choose|qa: int| 0 <= qa < p.args@.len() && (#[trigger] p.args@[qa]).1 == w;
                                    } else {
                                        let (q1, q2) = choose|q1: int, q2: int| 0 <= q1 < p.args@.len() && 0 <= q2 < p.args@.len()
                                            && (#[trigger] p.args@[q1]).1 != Val::Var(p.dst) && (#[trigger] p.args@[q2]).1 != Val::Var(p.dst)
                                            && p.args@[q1].1 != p.args@[q2].1;
                                        assert(p.args@[q1].1 == w);
                                        assert(p.args@[q2].1 == w);
                                    }
                                }
                            }
                        }
                    },
                }
                k += 1;
            }
            let mut i: usize = 0;
            while i < blk.insts.len()
                invariant
                    i <= blk.insts@.len(), ssa_block_ok(*blk, n as nat, nv), rewrites@.len() >= r0.len(),
                    b < n, n == f.blocks@.len(), *blk == f.blocks@[b as int],
                    rewrites@.subrange(0, r0.len() as int) == r0,
                    forall|q: int| 0 <= q < rewrites@.len() ==> val_ok(#[trigger] rewrites@[q].1, nv),
                    rewrites@.len() == 0 ==> forall|q: int| 0 <= q < blk.phis@.len() ==> phi_settled(#[trigger] blk.phis@[q]),
                    rewrites@.len() == 0 ==> forall|q: int| 0 <= q < i ==> inst_rewrite(#[trigger] blk.insts@[q]) is None,
                    forall|q: int| 0 <= q < rewrites@.len() ==> candidate(f.blocks@, (#[trigger] rewrites@[q]).0, rewrites@[q].1),
                    forall|q: int, v: Val| 0 <= q < blk.phis@.len() && #[trigger] phi_trivial(blk.phis@[q], v)
                        ==> rewrites@.contains((blk.phis@[q].dst, v)),
                    forall|q: int| 0 <= q < i && #[trigger] inst_rewrite(blk.insts@[q]) is Some
                        ==> rewrites@.contains(inst_rewrite(blk.insts@[q])->Some_0),
                decreases blk.insts@.len() - i,
            {
                let ghost pre = rewrites@;
                match rewrite_of(&blk.insts[i]) {
                    Some(rw) => {
                        let ghost ins = blk.insts@[i as int];
                        assert(inst_ok(ins, nv));
                        assert(val_ok(rw.1, nv)) by {
                            match ins {
                                Inst::Copy { src, .. } => { assert(inst_operands(ins)[0] == src); },
                                Inst::Bin { a, b, .. } => { assert(inst_operands(ins)[0] == a); assert(inst_operands(ins)[1] == b); },
                                _ => {},
                            }
                        }
                        rewrites.push(rw);
                        proof {
                            assert(block_candidate(f.blocks@[b as int], rw.0, rw.1));
                            assert(candidate(f.blocks@, rw.0, rw.1));
                            assert forall|q: int| 0 <= q < rewrites@.len() implies candidate(f.blocks@, (#[trigger] rewrites@[q]).0, rewrites@[q].1) by {
                                if q < pre.len() { assert(rewrites@[q] == pre[q]); }
                            }
                            assert(rewrites@.subrange(0, r0.len() as int) =~= pre.subrange(0, r0.len() as int));
                            assert(rewrites@[pre.len() as int] == rw);
                            assert forall|q: int, v: Val| 0 <= q < blk.phis@.len() && #[trigger] phi_trivial(blk.phis@[q], v)
                                implies rewrites@.contains((blk.phis@[q].dst, v)) by {
                                let j = choose|j: int| 0 <= j < pre.len() && pre[j] == (blk.phis@[q].dst, v);
                                assert(rewrites@[j] == pre[j]);
                            }
                            assert forall|q: int| 0 <= q < i + 1 && #[trigger] inst_rewrite(blk.insts@[q]) is Some
                                implies rewrites@.contains(inst_rewrite(blk.insts@[q])->Some_0) by {
                                if q < i {
                                    let j = choose|j: int| 0 <= j < pre.len() && pre[j] == inst_rewrite(blk.insts@[q])->Some_0;
                                    assert(rewrites@[j] == pre[j]);
                                }
                            }
                        }
                    },
                    None => {},
                }
                i += 1;
            }
            proof {
                assert(rewrites@.len() == 0 ==> block_quiet(f.blocks@[b as int]));
                assert forall|x: int, d: u32, v: Val| 0 <= x < b + 1 && #[trigger] block_candidate(f.blocks@[x], d, v)
                    implies rewrites@.contains((d, v)) by {
                    if x < b {
                        let j = choose|j: int| 0 <= j < r0.len() && r0[j] == (d, v);
                        assert(rewrites@.subrange(0, r0.len() as int)[j] == r0[j]);
                        assert(rewrites@[j] == (d, v));
                    } else {
                        let bk = f.blocks@[x];
                        if exists|q: int| 0 <= q < bk.phis@.len() && (#[trigger] bk.phis@[q]).dst == d && phi_trivial(bk.phis@[q], v) {
                            let q = choose|q: int| 0 <= q < bk.phis@.len() && (#[trigger] bk.phis@[q]).dst == d && phi_trivial(bk.phis@[q], v);
                            assert(phi_trivial(blk.phis@[q], v));
                        } else {
                            let q = choose|q: int| 0 <= q < bk.insts@.len() && inst_rewrite(#[trigger] bk.insts@[q]) == Some((d, v));
                            assert(inst_rewrite(blk.insts@[q]) is Some);
                        }
                    }
                }
            }
            b += 1;
        }
        // Branches on constants become jumps; the dropped successor loses this predecessor.
        let mut changed_branch = false;
        let mut b2: usize = 0;
        while b2 < n
            invariant
                b2 <= n, n == f.blocks@.len(), f.wf(), nv == f.names@.len(),
                f.name == f0.name, f.params@ == f0.params@, f.names@ == f0.names@,
                !changed_branch ==> f.blocks@ == f1.blocks@,
                !changed_branch ==> forall|x: int| 0 <= x < b2 ==> !const_branch(#[trigger] f.blocks@[x].term),
                fsize(f.blocks@) <= fsize(f1.blocks@),
                changed_branch ==> fsize(f.blocks@) < fsize(f1.blocks@),
            decreases n - b2,
        {
            match f.blocks[b2].term {
                Term::Branch { cond: Val::Const(c), then, els } => {
                    assert(ssa_block_ok(f.blocks@[b2 as int], n as nat, nv));
                    let (keep, drop) = if c != 0 { (then, els) } else { (els, then) };
                    let ghost before = f.blocks@;
                    f.blocks[b2].term = Term::Jump(keep);
                    proof {
                        assert forall|x: int| 0 <= x < n implies ssa_block_ok(#[trigger] f.blocks@[x], n as nat, nv) by {
                            if x != b2 as int { assert(f.blocks@[x] == before[x]); }
                            else { assert(ssa_block_ok(before[x], n as nat, nv)); }
                        }
                        assert forall|x: int| 0 <= x < n implies bsize(#[trigger] f.blocks@[x]) <= bsize(before[x]) by {
                            if x != b2 as int { assert(f.blocks@[x] == before[x]); }
                        }
                        assert(bsize(f.blocks@[b2 as int]) < bsize(before[b2 as int]));
                        lemma_fsize_le(before, f.blocks@);
                    }
                    if keep != drop {
                        let ghost mid = *f;
                        retain_args_not_from(f, drop, b2);
                        proof {
                            assert forall|x: int| 0 <= x < n implies bsize(#[trigger] f.blocks@[x]) <= bsize(mid.blocks@[x]) by {
                                if x != drop as int { assert(f.blocks@[x] == mid.blocks@[x]); }
                            }
                            lemma_fsize_le(mid.blocks@, f.blocks@);
                        }
                    }
                    changed_branch = true;
                },
                _ => {},
            }
            b2 += 1;
        }
        if rewrites.len() == 0 && !changed_branch {
            assert(simplified(f.blocks@)) by {
                assert forall|x: int| 0 <= x < n implies block_quiet(#[trigger] f.blocks@[x]) && !const_branch(f.blocks@[x].term) by {
                    assert(block_quiet(f1.blocks@[x]));
                }
            }
            break;
        }
        let nr = rewrites.len();
        let add = if changed_branch && nr < usize::MAX { nr + 1 } else { nr };
        total = if total <= usize::MAX - add { total + add } else { usize::MAX };
        // Resolve chains inside the batch (a -> b, b -> 3 means a -> 3) before applying anything.
        let mut keys: usize = 0;
        let mut q: usize = 0;
        while q < rewrites.len()
            invariant q <= rewrites@.len(), keys <= q,
            decreases rewrites@.len() - q,
        {
            let mut seen_before = false;
            let mut w: usize = 0;
            while w < q
                invariant w <= q, q < rewrites@.len(),
                decreases q - w,
            {
                if rewrites[w].0 == rewrites[q].0 { seen_before = true; }
                w += 1;
            }
            if !seen_before { keys += 1; }
            q += 1;
        }
        let ghost f2 = *f;
        let mut dropped_any = false;
        let mut r: usize = 0;
        while r < rewrites.len()
            invariant
                r <= rewrites@.len(), f.wf(), nv == f.names@.len(),
                f.name == f0.name, f.params@ == f0.params@, f.names@ == f0.names@,
                forall|k: int| 0 <= k < rewrites@.len() ==> val_ok(#[trigger] rewrites@[k].1, nv),
                forall|k: int| 0 <= k < rewrites@.len() ==> candidate(f1.blocks@, (#[trigger] rewrites@[k]).0, rewrites@[k].1),
                fsize(f2.blocks@) <= fsize(f1.blocks@),
                changed_branch ==> fsize(f2.blocks@) < fsize(f1.blocks@),
                !changed_branch ==> f2.blocks@ == f1.blocks@,
                fsize(f.blocks@) <= fsize(f2.blocks@),
                dropped_any ==> fsize(f.blocks@) < fsize(f2.blocks@),
                !dropped_any ==> f.blocks@ == f2.blocks@,
                !dropped_any && !changed_branch ==> forall|k: int| 0 <= k < r ==>
                    ((#[trigger] rewrites@[k]).1 matches Val::Var(y) && exists|j: int| 0 <= j < rewrites@.len() && (#[trigger] rewrites@[j]).0 == y),
            decreases rewrites@.len() - r,
        {
            let (dst, v0) = rewrites[r];
            let mut v = v0;
            let mut step: usize = 0;
            while step < keys
                invariant
                    val_ok(v, nv),
                    forall|k: int| 0 <= k < rewrites@.len() ==> val_ok(#[trigger] rewrites@[k].1, nv),
                    (v0 matches Val::Var(y) && batch_get(rewrites@, y) is Some) || v == v0,
                decreases keys - step,
            {
                match v {
                    Val::Var(x) => match map_get(&rewrites, x) {
                        Some(w) => { v = w; },
                        None => { break; },
                    },
                    _ => { break; },
                }
                step += 1;
            }
            let ghost pre_drop = dropped_any;
            if v != Val::Var(dst) && defines(f, dst) {
                substitute(f, dst, v);
                dropped_any = true;
            }
            proof {
                if !dropped_any && !changed_branch {
                    assert(f.blocks@ == f1.blocks@);
                    assert(v == Val::Var(dst) || !has_def(f1.blocks@, dst));
                    // every rewrite comes from a definition, so it is there
                    assert(candidate(f1.blocks@, dst, v0)) by { assert(rewrites@[r as int] == (dst, v0)); }
                    let bb = choose|bb: int| 0 <= bb < f1.blocks@.len() && #[trigger] block_candidate(f1.blocks@[bb], dst, v0);
                    let bk = f1.blocks@[bb];
                    if exists|k: int| 0 <= k < bk.phis@.len() && (#[trigger] bk.phis@[k]).dst == dst && phi_trivial(bk.phis@[k], v0) {
                        let k = choose|k: int| 0 <= k < bk.phis@.len() && (#[trigger] bk.phis@[k]).dst == dst && phi_trivial(bk.phis@[k], v0);
                        assert(f1.blocks@[bb].phis@[k].dst == dst);
                    } else {
                        let k = choose|k: int| 0 <= k < bk.insts@.len() && inst_rewrite(#[trigger] bk.insts@[k]) == Some((dst, v0));
                        assert(dropped(f1.blocks@[bb].insts@[k], dst, true));
                    }
                    assert(has_def(f1.blocks@, dst));
                    assert(v == Val::Var(dst));
                    match v0 {
                        Val::Var(y) => {
                            if batch_get(rewrites@, y) is Some {
                                lemma_batch_get_some(rewrites@, y);
                            } else {
                                assert(rewrites@[r as int].0 == dst);
                            }
                        },
                        _ => {},
                    }
                }
            }
            r += 1;
        }
        if !changed_branch && !dropped_any {
            proof {
                assert(f.blocks@ == f1.blocks@);
                let bl = f.blocks@;
                assert forall|d: u32, w: Val| #[trigger] candidate(bl, d, w)
                    implies (w matches Val::Var(y) && exists|w2: Val| #[trigger] candidate(bl, y, w2)) by {
                    let bb = choose|bb: int| 0 <= bb < bl.len() && #[trigger] block_candidate(bl[bb], d, w);
                    assert(rewrites@.contains((d, w)));
                    let k = choose|k: int| 0 <= k < rewrites@.len() && rewrites@[k] == (d, w);
                    assert(rewrites@[k].1 == w);
                    if let Val::Var(y) = w {
                        let j = choose|j: int| 0 <= j < rewrites@.len() && (#[trigger] rewrites@[j]).0 == y;
                        assert(candidate(bl, rewrites@[j].0, rewrites@[j].1));
                    }
                }
                assert(only_cycles(bl));
            }
            break;
        }
        remove_unreachable_ssa(f);
    }
    total
}

/// Drops the phi arguments of block `s` that come from block `p`.
/// The arguments of a phi without those from block `p`.
pub open spec fn drop_from(a: Seq<(usize, Val)>, p: usize) -> Seq<(usize, Val)>
    decreases a.len(),
{
    if a.len() == 0 {
        Seq::empty()
    } else {
        drop_from(a.drop_last(), p) + (if a.last().0 != p { seq![a.last()] } else { Seq::empty() })
    }
}

/// The arguments of a phi with block `from` renamed `to`.
pub open spec fn retarget_seq(a: Seq<(usize, Val)>, from: usize, to: usize) -> Seq<(usize, Val)> {
    a.map_values(|x: (usize, Val)| (if x.0 == from { to } else { x.0 }, x.1))
}

/// Block `s` of `g` is block `s` of `f` with each phi's arguments changed by `h`; every other
/// block is as it was.
pub open spec fn phis_changed(f: SsaFn, g: SsaFn, s: int, h: spec_fn(Seq<(usize, Val)>) -> Seq<(usize, Val)>) -> bool {
    &&& g.blocks@.len() == f.blocks@.len()
    &&& forall|b: int| 0 <= b < f.blocks@.len() && b != s ==> #[trigger] g.blocks@[b] == f.blocks@[b]
    &&& g.blocks@[s].insts@ == f.blocks@[s].insts@
    &&& g.blocks@[s].term == f.blocks@[s].term
    &&& g.blocks@[s].phis@.len() == f.blocks@[s].phis@.len()
    &&& forall|k: int| 0 <= k < f.blocks@[s].phis@.len() ==> {
        &&& (#[trigger] g.blocks@[s].phis@[k]).dst == f.blocks@[s].phis@[k].dst
        &&& g.blocks@[s].phis@[k].var == f.blocks@[s].phis@[k].var
        &&& g.blocks@[s].phis@[k].args@ == h(f.blocks@[s].phis@[k].args@)
    }
}

fn retain_args_not_from(f: &mut SsaFn, s: usize, p: usize)
    requires old(f).wf(), s < old(f).blocks@.len(),
    ensures
        final(f).wf(),
        final(f).name == old(f).name,
        final(f).params@ == old(f).params@,
        final(f).names@ == old(f).names@,
        final(f).blocks@.len() == old(f).blocks@.len(),
    phis_changed(*old(f), *final(f), s as int, |a: Seq<(usize, Val)>| drop_from(a, p)),
{
    let ghost n = f.blocks@.len();
    let ghost nv = f.names@.len();
    let ghost at_s = f.blocks@[s as int];
    let mut blk = empty_block();
    std::mem::swap(&mut blk, &mut f.blocks[s]);
    assert(blk == at_s);
    assert(ssa_block_ok(blk, n, nv));
    let mut k: usize = 0;
    while k < blk.phis.len()
        invariant k <= blk.phis@.len(), ssa_block_ok(blk, n, nv),
            blk.insts@ == at_s.insts@, blk.term == at_s.term, blk.phis@.len() == at_s.phis@.len(),
            forall|x: int| k <= x < blk.phis@.len() ==> #[trigger] blk.phis@[x] == at_s.phis@[x],
            forall|x: int| 0 <= x < k ==> (#[trigger] blk.phis@[x]).dst == at_s.phis@[x].dst
                && blk.phis@[x].var == at_s.phis@[x].var && blk.phis@[x].args@ == drop_from(at_s.phis@[x].args@, p),
        decreases blk.phis@.len() - k,
    {
        let ghost pk = blk.phis@[k as int];
        assert(phi_ok(pk, n, nv));
        let mut args: Vec<(usize, Val)> = Vec::new();
        let mut q: usize = 0;
        while q < blk.phis[k].args.len()
            invariant
                q <= pk.args@.len(), blk.phis@[k as int] == pk, phi_ok(pk, n, nv), k < blk.phis@.len(),
                forall|w: int| 0 <= w < args@.len() ==> (#[trigger] args@[w]).0 < n && val_ok(args@[w].1, nv),
                args@ == drop_from(pk.args@.subrange(0, q as int), p),
            decreases pk.args@.len() - q,
        {
            let a = blk.phis[k].args[q];
            assert(pk.args@.subrange(0, q + 1).drop_last() =~= pk.args@.subrange(0, q as int));
            if a.0 != p {
                args.push(a);
            }
            q += 1;
            assert(args@ =~= drop_from(pk.args@.subrange(0, q as int), p));
        }
        assert(pk.args@.subrange(0, pk.args@.len() as int) =~= pk.args@);
        let ghost before = blk.phis@;
        blk.phis[k].args = args;
        proof {
            assert forall|x: int| 0 <= x < blk.phis@.len() implies phi_ok(#[trigger] blk.phis@[x], n, nv) by {
                if x != k as int { assert(blk.phis@[x] == before[x]); }
            }
        }
        k += 1;
    }
    let ghost before2 = f.blocks@;
    f.blocks.set(s, blk);
    proof {
        assert forall|x: int| 0 <= x < n implies ssa_block_ok(#[trigger] f.blocks@[x], n, nv) by {
            if x != s as int { assert(f.blocks@[x] == before2[x]); }
        }
    }
}

// ---------------- pass 2: global value numbering ----------------

/// A number for each operator, distinct between binary and unary ones.
pub open spec fn op_code(op: BinOp) -> u8 {
    match op {
        BinOp::Add => 0, BinOp::Sub => 1, BinOp::Mul => 2, BinOp::Div => 3, BinOp::Rem => 4,
        BinOp::Eq => 5, BinOp::Ne => 6, BinOp::Lt => 7, BinOp::Le => 8, BinOp::Gt => 9,
        BinOp::Ge => 10, BinOp::And => 11, BinOp::Or => 12,
    }
}

fn binop_code(op: BinOp) -> (c: u8)
    ensures c == op_code(op),
{
    match op {
        BinOp::Add => 0, BinOp::Sub => 1, BinOp::Mul => 2, BinOp::Div => 3, BinOp::Rem => 4,
        BinOp::Eq => 5, BinOp::Ne => 6, BinOp::Lt => 7, BinOp::Le => 8, BinOp::Gt => 9,
        BinOp::Ge => 10, BinOp::And => 11, BinOp::Or => 12,
    }
}

/// Values ordered variables first (by id), then constants (by value).
pub open spec fn rank_less(a: Val, b: Val) -> bool {
    match (a, b) {
        (Val::Var(x), Val::Var(y)) => x < y,
        (Val::Var(_), Val::Const(_)) => true,
        (Val::Const(_), Val::Var(_)) => false,
        (Val::Const(c), Val::Const(d)) => c < d,
    }
}

fn rank_lt(a: Val, b: Val) -> (r: bool)
    ensures r == rank_less(a, b),
{
    match (a, b) {
        (Val::Var(x), Val::Var(y)) => x < y,
        (Val::Var(_), Val::Const(_)) => true,
        (Val::Const(_), Val::Var(_)) => false,
        (Val::Const(c), Val::Const(d)) => c < d,
    }
}

/// The value the last replacement of `x` in `merged` names, if any.
pub open spec fn merged_into(merged: Seq<(u32, u32)>, x: u32) -> Option<u32>
    decreases merged.len(),
{
    if merged.len() == 0 {
        None
    } else if merged.last().0 == x {
        Some(merged.last().1)
    } else {
        merged_into(merged.drop_last(), x)
    }
}

/// The value an earlier replacement merged `v` into.
fn canon(v: Val, merged: &Vec<(u32, u32)>, Ghost(nv): Ghost<nat>) -> (r: Val)
    requires val_ok(v, nv), forall|k: int| 0 <= k < merged@.len() ==> (#[trigger] merged@[k]).1 < nv,
    ensures
        val_ok(r, nv),
        r == (match v {
            Val::Var(x) => match merged_into(merged@, x) { Some(y) => Val::Var(y), None => v },
            c => c,
        }),
{
    match v {
        Val::Var(x) => {
            let mut i = merged.len();
            assert(merged@.subrange(0, i as int) =~= merged@);
            while i > 0
                invariant i <= merged@.len(), forall|k: int| 0 <= k < merged@.len() ==> (#[trigger] merged@[k]).1 < nv,
                    merged_into(merged@.subrange(0, i as int), x) == merged_into(merged@, x), v == Val::Var(x),
                decreases i,
            {
                assert(merged@.subrange(0, i as int).drop_last() =~= merged@.subrange(0, i - 1));
                i -= 1;
                if merged[i].0 == x {
                    return Val::Var(merged[i].1);
                }
            }
            v
        },
        c => c,
    }
}

pub type GvnKey = (u8, Val, Val);

/// The value recorded for the first entry of `table` from `i` on whose key is `key`.
pub open spec fn key_from(table: Seq<(GvnKey, u32)>, key: GvnKey, i: int) -> Option<u32>
    decreases table.len() - i,
{
    if i < 0 || i >= table.len() {
        None
    } else if table[i].0 == key {
        Some(table[i].1)
    } else {
        key_from(table, key, i + 1)
    }
}

fn find_key(table: &Vec<(GvnKey, u32)>, key: GvnKey) -> (r: Option<u32>)
    ensures
        r == key_from(table@, key, 0),
        r matches Some(id) ==> exists|k: int| 0 <= k < table@.len() && (#[trigger] table@[k]).1 == id,
{
    let mut i: usize = 0;
    while i < table.len()
        invariant i <= table@.len(), key_from(table@, key, i as int) == key_from(table@, key, 0),
        decreases table@.len() - i,
    {
        let (k, id) = table[i];
        if k.0 == key.0 && k.1 == key.1 && k.2 == key.2 {
            assert(table@[i as int].1 == id);
            return Some(id);
        }
        i += 1;
    }
    None
}

/// The walk state: the available expressions, and the replacements found so far.
pub open spec fn gvn_ok(table: Seq<(GvnKey, u32)>, rewrites: Seq<(u32, u32)>, merged: Seq<(u32, u32)>, nv: nat) -> bool {
    &&& forall|k: int| 0 <= k < table.len() ==> (#[trigger] table[k]).1 < nv
    &&& forall|k: int| 0 <= k < rewrites.len() ==> (#[trigger] rewrites[k]).0 < nv && rewrites[k].1 < nv
    &&& forall|k: int| 0 <= k < merged.len() ==> (#[trigger] merged[k]).1 < nv
}

/// Visits block `b` and then its dominator-tree children: an expression computed in a block is
/// available in every block it dominates, so a later identical computation reuses it.
fn walk(b: usize, f: &SsaFn, children: &Vec<Vec<usize>>, table: &mut Vec<(GvnKey, u32)>,
        rewrites: &mut Vec<(u32, u32)>, merged: &mut Vec<(u32, u32)>, fuel: usize)
    requires
        f.wf(), b < f.blocks@.len(), children@.len() == f.blocks@.len(),
        forall|x: int, k: int| 0 <= x < children@.len() && 0 <= k < children@[x]@.len() ==> #[trigger] children@[x]@[k] < children@.len(),
        gvn_ok(old(table)@, old(rewrites)@, old(merged)@, f.names@.len()),
    ensures
        gvn_ok(final(table)@, final(rewrites)@, final(merged)@, f.names@.len()),
    decreases fuel,
{
    let ghost nv = f.names@.len();
    let ghost n = f.blocks@.len();
    let mark = table.len();
    let blk = &f.blocks[b];
    assert(ssa_block_ok(*blk, n, nv));
    let mut i: usize = 0;
    while i < blk.insts.len()
        invariant
            i <= blk.insts@.len(), ssa_block_ok(*blk, n, nv), nv == f.names@.len(),
            gvn_ok(table@, rewrites@, merged@, nv),
        decreases blk.insts@.len() - i,
    {
        let inst = &blk.insts[i];
        assert(inst_ok(*inst, nv));
        let entry: Option<(u32, GvnKey)> = match inst {
            Inst::Bin { dst, op, a, b } => {
                if may_trap(inst) {
                    None
                } else {
                    assert(inst_operands(*inst)[0] == *a);
                    assert(inst_operands(*inst)[1] == *b);
                    let ca = canon(*a, merged, Ghost(nv));
                    let cb = canon(*b, merged, Ghost(nv));
                    let commutative = *op == BinOp::Add || *op == BinOp::Mul || *op == BinOp::Eq || *op == BinOp::Ne;
                    let (x, y) = if commutative && rank_lt(cb, ca) { (cb, ca) } else { (ca, cb) };
                    Some((*dst, (binop_code(*op), x, y)))
                }
            },
            Inst::Un { dst, op, a } => {
                assert(inst_operands(*inst)[0] == *a);
                let ca = canon(*a, merged, Ghost(nv));
                let code: u8 = if *op == UnOp::Neg { 100 } else { 101 };
                Some((*dst, (code, ca, ca)))
            },
            _ => None,
        };
        match entry {
            Some((dst, key)) => {
                assert(dst < nv);
                match find_key(table, key) {
                    Some(existing) => {
                        rewrites.push((dst, existing));
                        merged.push((dst, existing));
                        proof {
                            assert forall|k: int| 0 <= k < rewrites@.len() implies (#[trigger] rewrites@[k]).0 < nv && rewrites@[k].1 < nv by {
                                if k == rewrites@.len() - 1 {
                                    let w = choose|w: int| 0 <= w < table@.len() && (#[trigger] table@[w]).1 == existing;
                                }
                            }
                            assert forall|k: int| 0 <= k < merged@.len() implies (#[trigger] merged@[k]).1 < nv by {
                                if k == merged@.len() - 1 {
                                    let w = choose|w: int| 0 <= w < table@.len() && (#[trigger] table@[w]).1 == existing;
                                }
                            }
                        }
                    },
                    None => {
                        table.push((key, dst));
                    },
                }
            },
            None => {},
        }
        i += 1;
    }
    if fuel > 0 {
        let mut c: usize = 0;
        while c < children[b].len()
            invariant
                fuel > 0, f.wf(), b < f.blocks@.len(), children@.len() == f.blocks@.len(), nv == f.names@.len(),
                forall|x: int, k: int| 0 <= x < children@.len() && 0 <= k < children@[x]@.len() ==> #[trigger] children@[x]@[k] < children@.len(),
                gvn_ok(table@, rewrites@, merged@, nv),
            decreases children@[b as int]@.len() - c,
        {
            walk(children[b][c], f, children, table, rewrites, merged, fuel - 1);
            c += 1;
        }
    }
    if mark <= table.len() {
        table.truncate(mark);
    }
}

/// Pass 2: global value numbering over the dominator tree; a later computation of an
/// expression already available is replaced by the earlier result. Returns the number of
/// replacements.
pub fn gvn(f: &mut SsaFn) -> (r: usize)
    requires old(f).wf(),
    ensures
        final(f).wf(),
        final(f).name == old(f).name,
        final(f).params@ == old(f).params@,
        final(f).names@ == old(f).names@,
        final(f).blocks@.len() == old(f).blocks@.len(),
        forall|b: int| 0 <= b < final(f).blocks@.len()
            ==> succ_seq((#[trigger] final(f).blocks@[b]).term) == succ_seq(old(f).blocks@[b].term),
        r == 0 ==> final(f).blocks@ == old(f).blocks@,
{
    let ghost f0 = *f;
    let ghost nv = f.names@.len();
    let n = f.blocks.len();
    let sk = skeleton(f);
    let idom = dominators(&sk);
    let mut children: Vec<Vec<usize>> = Vec::new();
    let mut c: usize = 0;
    while c < n
        invariant c <= n, children@.len() == c, forall|x: int| 0 <= x < c ==> (#[trigger] children@[x])@.len() == 0,
        decreases n - c,
    {
        children.push(Vec::new());
        c += 1;
    }
    let mut b: usize = 1;
    while b < n
        invariant
            1 <= b, idom_ok(idom@, n as nat), children@.len() == n,
            forall|x: int, k: int| 0 <= x < n && 0 <= k < children@[x]@.len() ==> #[trigger] children@[x]@[k] < n,
        decreases n - b,
    {
        let d = idom[b];
        if d < n {
            let ghost before = children@;
            children[d].push(b);
            proof {
                assert forall|x: int, k: int| 0 <= x < n && 0 <= k < children@[x]@.len() implies #[trigger] children@[x]@[k] < n by {
                    if x != d as int { assert(children@[x] == before[x]); }
                    else if k < before[x]@.len() { assert(children@[x]@[k] == before[x]@[k]); }
                }
            }
        }
        b += 1;
    }
    let mut table: Vec<(GvnKey, u32)> = Vec::new();
    let mut rewrites: Vec<(u32, u32)> = Vec::new();
    let mut merged: Vec<(u32, u32)> = Vec::new();
    walk(0, f, &children, &mut table, &mut rewrites, &mut merged, n);
    let mut k: usize = 0;
    while k < rewrites.len()
        invariant
            f.wf(), nv == f.names@.len(), f.name == f0.name, f.params@ == f0.params@, f.names@ == f0.names@,
            gvn_ok(table@, rewrites@, merged@, nv),
            f.blocks@.len() == f0.blocks@.len(),
            forall|b: int| 0 <= b < f.blocks@.len() ==> succ_seq((#[trigger] f.blocks@[b]).term) == succ_seq(f0.blocks@[b].term),
            k == 0 ==> f.blocks@ == f0.blocks@,
            k <= rewrites@.len(),
        decreases rewrites@.len() - k,
    {
        let ghost fb = f.blocks@;
        let (dst, existing) = rewrites[k];
        assert(rewrites@[k as int].1 < nv);
        replace_uses(f, dst, Val::Var(existing));
        let ghost fm = f.blocks@;
        drop_defs(f, dst, false, false);
        proof {
            assert forall|b: int| 0 <= b < f.blocks@.len() implies
                succ_seq((#[trigger] f.blocks@[b]).term) == succ_seq(f0.blocks@[b].term) by {
                assert(block_subst(fb[b], fm[b], dst, Val::Var(existing)));
                assert(f.blocks@[b].term == fm[b].term);
            }
        }
        k += 1;
    }
    rewrites.len()
}

// ---------------- pass 3: dead-code elimination ----------------

/// A terminator reads variable `x`.
pub open spec fn term_reads(t: Term, x: u32) -> bool {
    match t {
        Term::Branch { cond, .. } => cond == Val::Var(x),
        Term::Return(v) => v == Val::Var(x),
        Term::Jump(_) => false,
    }
}

/// A phi reads variable `x`.
pub open spec fn phi_reads(p: Phi, x: u32) -> bool {
    exists|w: int| 0 <= w < p.args@.len() && (#[trigger] p.args@[w]).1 == Val::Var(x)
}

/// `x` is read where it must stay: by a terminator, or by an instruction that may trap or
/// has an effect.
pub open spec fn root_use(bl: Seq<SsaBlock>, x: u32) -> bool {
    ||| exists|b: int| 0 <= b < bl.len() && #[trigger] term_reads(bl[b].term, x)
    ||| exists|b: int, k: int| #![trigger bl[b].insts@[k]]
        0 <= b < bl.len() && 0 <= k < bl[b].insts@.len() && traps(bl[b].insts@[k])
            && inst_operands(bl[b].insts@[k]).contains(Val::Var(x))
}

/// A definition of `y` (a phi or an instruction) reads `x`.
pub open spec fn def_reads(bl: Seq<SsaBlock>, y: u32, x: u32) -> bool {
    ||| exists|b: int, k: int| #![trigger bl[b].phis@[k]]
        0 <= b < bl.len() && 0 <= k < bl[b].phis@.len() && bl[b].phis@[k].dst == y && phi_reads(bl[b].phis@[k], x)
    ||| exists|b: int, k: int| #![trigger bl[b].insts@[k]]
        0 <= b < bl.len() && 0 <= k < bl[b].insts@.len() && inst_dst(bl[b].insts@[k]) == y
            && inst_operands(bl[b].insts@[k]).contains(Val::Var(x))
}

/// Why `x` is live: a root reads it, or a definition of a live variable does.
pub open spec fn needed(bl: Seq<SsaBlock>, live: Seq<bool>, x: u32) -> bool {
    root_use(bl, x) || exists|y: u32| (y as int) < live.len() && #[trigger] live[y as int] && def_reads(bl, y, x)
}

/// An instruction dead-code elimination keeps: one that may trap or has an effect, or one
/// whose result is live.
pub open spec fn kept_inst(i: Inst, live: Seq<bool>) -> bool {
    traps(i) || live[inst_dst(i) as int]
}

/// The blocks after sweeping with the live set: phis of live variables and kept
/// instructions stay, in order; terminators stay.
pub open spec fn swept(old_bl: Seq<SsaBlock>, new_bl: Seq<SsaBlock>, live: Seq<bool>) -> bool {
    &&& new_bl.len() == old_bl.len()
    &&& forall|b: int| 0 <= b < new_bl.len() ==> {
        &&& (#[trigger] new_bl[b]).phis@ == old_bl[b].phis@.filter(|p: Phi| live[p.dst as int])
        &&& same_insts(new_bl[b].insts@, old_bl[b].insts@.filter(|i: Inst| kept_inst(i, live)))
    }
}

proof fn lemma_needed_grow(bl: Seq<SsaBlock>, a: Seq<bool>, b: Seq<bool>)
    requires a.len() == b.len(), forall|x: int| 0 <= x < a.len() && #[trigger] a[x] ==> b[x],
    ensures forall|x: u32| needed(bl, a, x) ==> #[trigger] needed(bl, b, x),
{
    assert forall|x: u32| needed(bl, a, x) implies #[trigger] needed(bl, b, x) by {
        if !root_use(bl, x) {
            let y = choose|y: u32| (y as int) < a.len() && #[trigger] a[y as int] && def_reads(bl, y, x);
            assert(b[y as int]);
        }
    }
}

/// Pass 3: dead-code elimination (mark and sweep). Roots are terminators' values and the
/// operands of instructions that may trap or have effects; everything they transitively use is
/// live, and the rest is deleted. Returns how many phis and instructions went.
pub fn dce(f: &mut SsaFn) -> (removed: usize)
    requires old(f).wf(),
    ensures
        final(f).wf(),
        final(f).name == old(f).name,
        final(f).params@ == old(f).params@,
        final(f).names@ == old(f).names@,
        final(f).blocks@.len() == old(f).blocks@.len(),
        forall|b: int| 0 <= b < final(f).blocks@.len() ==> (#[trigger] final(f).blocks@[b]).term == old(f).blocks@[b].term,
        count_of(old(f).blocks@) <= usize::MAX ==> count_of(final(f).blocks@) + removed == count_of(old(f).blocks@),
        exists|live: Seq<bool>| #![trigger swept(old(f).blocks@, final(f).blocks@, live)]
            live.len() == old(f).names@.len() && swept(old(f).blocks@, final(f).blocks@, live)
            && forall|x: int| 0 <= x < live.len() && #[trigger] live[x] ==> needed(old(f).blocks@, live, x as u32),
{
    let ghost f0 = *f;
    let n = f.blocks.len();
    let nv = f.names.len();
    let mut live: Vec<bool> = Vec::new();
    let mut def_uses: Vec<Vec<Val>> = Vec::new();
    let mut i: usize = 0;
    while i < nv
        invariant
            i <= nv, live@.len() == i, def_uses@.len() == i,
            forall|x: int| 0 <= x < i ==> (#[trigger] def_uses@[x])@.len() == 0,
            forall|x: int| 0 <= x < i ==> !(#[trigger] live@[x]),
            forall|x: int, k: int| 0 <= x < i && 0 <= k < def_uses@[x]@.len() ==> val_ok(#[trigger] def_uses@[x]@[k], nv as nat),
        decreases nv - i,
    {
        live.push(false);
        def_uses.push(Vec::new());
        i += 1;
    }
    let mut work: Vec<Val> = Vec::new();
    let mut b: usize = 0;
    while b < n
        invariant
            b <= n, n == f.blocks@.len(), nv == f.names@.len(), f.wf(), def_uses@.len() == nv, live@.len() == nv,
            *f == f0,
            forall|k: int| 0 <= k < work@.len() ==> val_ok(#[trigger] work@[k], nv as nat),
            forall|x: int, k: int| 0 <= x < nv && 0 <= k < def_uses@[x]@.len() ==> val_ok(#[trigger] def_uses@[x]@[k], nv as nat),
            forall|k: int| 0 <= k < work@.len() ==> (#[trigger] work@[k] matches Val::Var(x) ==> root_use(f0.blocks@, x)),
            forall|y: int, k: int| 0 <= y < nv && 0 <= k < def_uses@[y]@.len()
                ==> (#[trigger] def_uses@[y]@[k] matches Val::Var(x) ==> def_reads(f0.blocks@, y as u32, x)),
            forall|x: int| 0 <= x < nv ==> !(#[trigger] live@[x]),
        decreases n - b,
    {
        let blk = &f.blocks[b];
        assert(ssa_block_ok(*blk, n as nat, nv as nat));
        let ghost w0 = work@;
        match blk.term {
            Term::Branch { cond, .. } => work.push(cond),
            Term::Return(v) => work.push(v),
            Term::Jump(_) => {},
        }
        proof {
            assert forall|k: int| 0 <= k < work@.len() implies (#[trigger] work@[k] matches Val::Var(x) ==> root_use(f0.blocks@, x)) by {
                if k < w0.len() {
                    assert(work@[k] == w0[k]);
                } else {
                    if let Val::Var(x) = work@[k] {
                        assert(term_reads(f0.blocks@[b as int].term, x));
                    }
                }
            }
        }
        let mut k: usize = 0;
        while k < blk.phis.len()
            invariant
                k <= blk.phis@.len(), ssa_block_ok(*blk, n as nat, nv as nat), def_uses@.len() == nv,
                forall|x: int, q: int| 0 <= x < nv && 0 <= q < def_uses@[x]@.len() ==> val_ok(#[trigger] def_uses@[x]@[q], nv as nat),
                b < n, *blk == f0.blocks@[b as int], n == f0.blocks@.len(),
                forall|y: int, k: int| 0 <= y < nv && 0 <= k < def_uses@[y]@.len()
                    ==> (#[trigger] def_uses@[y]@[k] matches Val::Var(x) ==> def_reads(f0.blocks@, y as u32, x)),
            decreases blk.phis@.len() - k,
        {
            let p = &blk.phis[k];
            assert(phi_ok(*p, n as nat, nv as nat));
            let mut vals: Vec<Val> = Vec::new();
            let mut q: usize = 0;
            while q < p.args.len()
                invariant
                    q <= p.args@.len(), phi_ok(*p, n as nat, nv as nat),
                    forall|w: int| 0 <= w < vals@.len() ==> val_ok(#[trigger] vals@[w], nv as nat),
                    vals@.len() == q, forall|w: int| 0 <= w < q ==> #[trigger] vals@[w] == p.args@[w].1,
                decreases p.args@.len() - q,
            {
                vals.push(p.args[q].1);
                q += 1;
            }
            let ghost before = def_uses@;
            def_uses.set(p.dst as usize, vals);
            proof {
                assert forall|x: int, w: int| 0 <= x < nv && 0 <= w < def_uses@[x]@.len() implies val_ok(#[trigger] def_uses@[x]@[w], nv as nat) by {
                    if x != p.dst as int { assert(def_uses@[x] == before[x]); }
                }
                assert forall|y: int, w: int| 0 <= y < nv && 0 <= w < def_uses@[y]@.len()
                    implies (#[trigger] def_uses@[y]@[w] matches Val::Var(x) ==> def_reads(f0.blocks@, y as u32, x)) by {
                    if y != p.dst as int {
                        assert(def_uses@[y] == before[y]);
                    } else {
                        if let Val::Var(x) = def_uses@[y]@[w] {
                            assert(p.args@[w].1 == Val::Var(x));
                            assert(phi_reads(*p, x));
                            assert(f0.blocks@[b as int].phis@[k as int] == *p);
                        }
                    }
                }
            }
            k += 1;
        }
        let mut j: usize = 0;
        while j < blk.insts.len()
            invariant
                j <= blk.insts@.len(), ssa_block_ok(*blk, n as nat, nv as nat), def_uses@.len() == nv,
                forall|q: int| 0 <= q < work@.len() ==> val_ok(#[trigger] work@[q], nv as nat),
                forall|x: int, q: int| 0 <= x < nv && 0 <= q < def_uses@[x]@.len() ==> val_ok(#[trigger] def_uses@[x]@[q], nv as nat),
                b < n, *blk == f0.blocks@[b as int], n == f0.blocks@.len(),
                forall|k: int| 0 <= k < work@.len() ==> (#[trigger] work@[k] matches Val::Var(x) ==> root_use(f0.blocks@, x)),
                forall|y: int, k: int| 0 <= y < nv && 0 <= k < def_uses@[y]@.len()
                    ==> (#[trigger] def_uses@[y]@[k] matches Val::Var(x) ==> def_reads(f0.blocks@, y as u32, x)),
            decreases blk.insts@.len() - j,
        {
            let inst = &blk.insts[j];
            assert(inst_ok(*inst, nv as nat));
            let ops = operands(inst);
            if may_trap(inst) {
                let mut q: usize = 0;
                while q < ops.len()
                    invariant
                        q <= ops@.len(), ops@ == inst_operands(*inst), inst_ok(*inst, nv as nat),
                        forall|w: int| 0 <= w < work@.len() ==> val_ok(#[trigger] work@[w], nv as nat),
                        traps(*inst), *inst == f0.blocks@[b as int].insts@[j as int], b < n, n == f0.blocks@.len(),
                        j < f0.blocks@[b as int].insts@.len(),
                        forall|k: int| 0 <= k < work@.len() ==> (#[trigger] work@[k] matches Val::Var(x) ==> root_use(f0.blocks@, x)),
                    decreases ops@.len() - q,
                {
                    let ghost w0 = work@;
                    work.push(ops[q]);
                    proof {
                        assert forall|k: int| 0 <= k < work@.len() implies (#[trigger] work@[k] matches Val::Var(x) ==> root_use(f0.blocks@, x)) by {
                            if k < w0.len() {
                                assert(work@[k] == w0[k]);
                            } else {
                                if let Val::Var(x) = work@[k] {
                                    assert(inst_operands(f0.blocks@[b as int].insts@[j as int])[q as int] == Val::Var(x));
                                    assert(inst_operands(f0.blocks@[b as int].insts@[j as int]).contains(Val::Var(x)));
                                }
                            }
                        }
                    }
                    q += 1;
                }
            }
            let d = def_of(inst);
            let ghost before = def_uses@;
            def_uses.set(d as usize, ops);
            proof {
                assert forall|x: int, w: int| 0 <= x < nv && 0 <= w < def_uses@[x]@.len() implies val_ok(#[trigger] def_uses@[x]@[w], nv as nat) by {
                    if x != d as int { assert(def_uses@[x] == before[x]); }
                    else { assert(def_uses@[x]@ == inst_operands(*inst)); }
                }
                assert forall|y: int, w: int| 0 <= y < nv && 0 <= w < def_uses@[y]@.len()
                    implies (#[trigger] def_uses@[y]@[w] matches Val::Var(x) ==> def_reads(f0.blocks@, y as u32, x)) by {
                    if y != d as int {
                        assert(def_uses@[y] == before[y]);
                    } else {
                        if let Val::Var(x) = def_uses@[y]@[w] {
                            assert(def_uses@[y]@ == inst_operands(*inst));
                            assert(inst_operands(*inst)[w] == Val::Var(x));
                            assert(inst_operands(*inst).contains(Val::Var(x)));
                            assert(f0.blocks@[b as int].insts@[j as int] == *inst);
                        }
                    }
                }
            }
            j += 1;
        }
        b += 1;
    }
    // Mark.
    loop
        invariant
            live@.len() == nv, def_uses@.len() == nv,
            forall|k: int| 0 <= k < work@.len() ==> val_ok(#[trigger] work@[k], nv as nat),
            forall|x: int, q: int| 0 <= x < nv && 0 <= q < def_uses@[x]@.len() ==> val_ok(#[trigger] def_uses@[x]@[q], nv as nat),
            forall|y: int, k: int| 0 <= y < nv && 0 <= k < def_uses@[y]@.len()
                ==> (#[trigger] def_uses@[y]@[k] matches Val::Var(x) ==> def_reads(f0.blocks@, y as u32, x)),
            forall|k: int| 0 <= k < work@.len() ==> (#[trigger] work@[k] matches Val::Var(x) ==> needed(f0.blocks@, live@, x)),
            forall|x: int| 0 <= x < nv && #[trigger] live@[x] ==> needed(f0.blocks@, live@, x as u32),
        decreases crate::ir::unseen(live@), work@.len(),
    {
        let v = match work.pop() {
            Some(v) => v,
            None => break,
        };
        match v {
            Val::Var(x) => {
                let xi = x as usize;
                if !live[xi] {
                    let ghost lb = live@;
                    live.set(xi, true);
                    proof {
                        crate::ir::lemma_unseen_mark_pub(lb, xi as int);
                        lemma_needed_grow(f0.blocks@, lb, live@);
                    }
                    let mut q: usize = 0;
                    while q < def_uses[xi].len()
                        invariant
                            xi < nv, def_uses@.len() == nv, live@.len() == nv, live@[xi as int], xi == x as usize,
                            forall|k: int| 0 <= k < work@.len() ==> val_ok(#[trigger] work@[k], nv as nat),
                            forall|y: int, w: int| 0 <= y < nv && 0 <= w < def_uses@[y]@.len() ==> val_ok(#[trigger] def_uses@[y]@[w], nv as nat),
                            forall|y: int, k: int| 0 <= y < nv && 0 <= k < def_uses@[y]@.len()
                                ==> (#[trigger] def_uses@[y]@[k] matches Val::Var(x) ==> def_reads(f0.blocks@, y as u32, x)),
                            forall|k: int| 0 <= k < work@.len() ==> (#[trigger] work@[k] matches Val::Var(x) ==> needed(f0.blocks@, live@, x)),
                        decreases def_uses@[xi as int]@.len() - q,
                    {
                        let ghost w0 = work@;
                        work.push(def_uses[xi][q]);
                        proof {
                            assert forall|k: int| 0 <= k < work@.len() implies (#[trigger] work@[k] matches Val::Var(x) ==> needed(f0.blocks@, live@, x)) by {
                                if k < w0.len() {
                                    assert(work@[k] == w0[k]);
                                } else {
                                    if let Val::Var(z) = work@[k] {
                                        assert(def_uses@[xi as int]@[q as int] == Val::Var(z));
                                        assert(def_reads(f0.blocks@, xi as u32, z));
                                        assert(xi as u32 == x);
                                        assert(live@[x as int]);
                                    }
                                }
                            }
                        }
                        q += 1;
                    }
                }
            },
            Val::Const(_) => {},
        }
    }
    // Sweep.
    let ghost lv = live@;
    assert(f.blocks@ == f0.blocks@);
    let mut removed: usize = 0;
    let mut sat = false;
    let mut b2: usize = 0;
    while b2 < n
        invariant
            b2 <= n, n == f.blocks@.len(), n == f0.blocks@.len(), nv == f.names@.len(), f.wf(), live@.len() == nv,
            f.name == f0.name, f.params@ == f0.params@, f.names@ == f0.names@,
            forall|c: int| b2 <= c < n ==> #[trigger] f.blocks@[c] == f0.blocks@[c],
            forall|c: int| 0 <= c < n ==> (#[trigger] f.blocks@[c]).term == f0.blocks@[c].term,
            !sat ==> count_of(f.blocks@.subrange(0, b2 as int)) + removed == count_of(f0.blocks@.subrange(0, b2 as int)),
            sat ==> count_of(f0.blocks@.subrange(0, b2 as int)) > usize::MAX,
            live@ == lv,
            forall|c: int| 0 <= c < b2 ==> {
                &&& (#[trigger] f.blocks@[c]).phis@ == f0.blocks@[c].phis@.filter(|p: Phi| lv[p.dst as int])
                &&& same_insts(f.blocks@[c].insts@, f0.blocks@[c].insts@.filter(|i: Inst| kept_inst(i, lv)))
            },
        decreases n - b2,
    {
        let ghost at_b = f.blocks@[b2 as int];
        let ghost top = f.blocks@;
        let mut blk = empty_block();
        std::mem::swap(&mut blk, &mut f.blocks[b2]);
        assert(blk == at_b);
        assert(ssa_block_ok(blk, n as nat, nv as nat));
        assert(f.blocks@.subrange(0, b2 as int) =~= top.subrange(0, b2 as int));
        let phis_before = blk.phis.len();
        let insts_before = blk.insts.len();
        let mut old_phis: Vec<Phi> = Vec::new();
        std::mem::swap(&mut old_phis, &mut blk.phis);
        let ghost op = old_phis@;
        let mut rev: Vec<Phi> = Vec::new();
        while old_phis.len() > 0
            invariant
                forall|q: int| 0 <= q < old_phis@.len() ==> #[trigger] old_phis@[q] == op[q],
                old_phis@.len() + rev@.len() == op.len(),
                forall|q: int| 0 <= q < rev@.len() ==> #[trigger] rev@[q] == op[op.len() - 1 - q],
            decreases old_phis@.len(),
        {
            let p = old_phis.pop().unwrap();
            rev.push(p);
        }
        let mut phis: Vec<Phi> = Vec::new();
        while rev.len() > 0
            invariant
                forall|q: int| 0 <= q < op.len() ==> phi_ok(#[trigger] op[q], n as nat, nv as nat),
                forall|q: int| 0 <= q < rev@.len() ==> #[trigger] rev@[q] == op[op.len() - 1 - q],
                rev@.len() <= op.len(),
                phis@.len() <= op.len() - rev@.len(),
                live@.len() == nv, live@ == lv,
                forall|q: int| 0 <= q < phis@.len() ==> phi_ok(#[trigger] phis@[q], n as nat, nv as nat),
                phis@ == op.subrange(0, op.len() - rev@.len()).filter(|p: Phi| lv[p.dst as int]),
            decreases rev@.len(),
        {
            let p = rev.pop().unwrap();
            assert(p == op[op.len() - 1 - rev@.len()]);
            assert(phi_ok(p, n as nat, nv as nat));
            proof {
                let j = op.len() - 1 - rev@.len();
                assert(op.subrange(0, j + 1) =~= op.subrange(0, j).push(p));
                lemma_filter_push(op.subrange(0, j), p, |q: Phi| lv[q.dst as int]);
            }
            if live[p.dst as usize] {
                phis.push(p);
            }
        }
        assert(op.subrange(0, op.len() as int) =~= op);
        let mut insts: Vec<Inst> = Vec::new();
        let mut i2: usize = 0;
        while i2 < blk.insts.len()
            invariant
                i2 <= blk.insts@.len(), insts@.len() <= i2, live@.len() == nv, live@ == lv,
                forall|q: int| 0 <= q < blk.insts@.len() ==> inst_ok(#[trigger] blk.insts@[q], nv as nat),
                forall|q: int| 0 <= q < insts@.len() ==> inst_ok(#[trigger] insts@[q], nv as nat),
                same_insts(insts@, blk.insts@.subrange(0, i2 as int).filter(|i: Inst| kept_inst(i, lv))),
            decreases blk.insts@.len() - i2,
        {
            assert(inst_ok(blk.insts@[i2 as int], nv as nat));
            let ghost pre = insts@;
            let ghost x = blk.insts@[i2 as int];
            proof {
                assert(blk.insts@.subrange(0, i2 + 1) =~= blk.insts@.subrange(0, i2 as int).push(x));
                lemma_filter_push(blk.insts@.subrange(0, i2 as int), x, |j: Inst| kept_inst(j, lv));
            }
            if may_trap(&blk.insts[i2]) || live[def_of(&blk.insts[i2]) as usize] {
                let c = inst_clone(&blk.insts[i2]);
                insts.push(c);
                proof {
                    let k2 = blk.insts@.subrange(0, i2 + 1).filter(|i: Inst| kept_inst(i, lv));
                    assert forall|k: int| 0 <= k < insts@.len() implies crate::ir::same_inst(#[trigger] insts@[k], k2[k]) by {
                        if k < pre.len() { assert(insts@[k] == pre[k]); }
                    }
                }
            }
            i2 += 1;
        }
        assert(blk.insts@.subrange(0, blk.insts@.len() as int) =~= blk.insts@);
        let gone_p = phis_before - phis.len();
        let gone_i = insts_before - insts.len();
        let nb = SsaBlock { phis, insts, term: blk.term };
        let ghost gnb = nb;
        assert(gnb.phis@.len() + gone_p == at_b.phis@.len());
        assert(gnb.insts@.len() + gone_i == at_b.insts@.len());
        let ghost before = f.blocks@;
        f.blocks.set(b2, nb);
        proof {
            assert(f.blocks@.subrange(0, (b2 + 1) as int).last() == gnb);
            assert(f0.blocks@.subrange(0, (b2 + 1) as int).last() == at_b);
            assert forall|c: int| 0 <= c < n implies ssa_block_ok(#[trigger] f.blocks@[c], f.blocks@.len(), f.names@.len()) by {
                if c != b2 as int { assert(f.blocks@[c] == before[c]); }
            }
            assert forall|c: int| 0 <= c < n implies (#[trigger] f.blocks@[c]).term == f0.blocks@[c].term by {
                if c != b2 as int { assert(f.blocks@[c] == before[c]); }
            }
            assert forall|c: int| b2 + 1 <= c < n implies #[trigger] f.blocks@[c] == f0.blocks@[c] by {
                assert(f.blocks@[c] == before[c]);
            }
            assert forall|c: int| 0 <= c < b2 + 1 implies {
                &&& (#[trigger] f.blocks@[c]).phis@ == f0.blocks@[c].phis@.filter(|p: Phi| lv[p.dst as int])
                &&& same_insts(f.blocks@[c].insts@, f0.blocks@[c].insts@.filter(|i: Inst| kept_inst(i, lv)))
            } by {
                if c != b2 as int { assert(f.blocks@[c] == before[c]); }
            }
            assert(f.blocks@.subrange(0, (b2 + 1) as int).drop_last() =~= f.blocks@.subrange(0, b2 as int));
            assert(f0.blocks@.subrange(0, (b2 + 1) as int).drop_last() =~= f0.blocks@.subrange(0, b2 as int));
            assert(f.blocks@.subrange(0, b2 as int) =~= before.subrange(0, b2 as int));
        }
        if !sat {
            if removed <= usize::MAX - gone_p && removed + gone_p <= usize::MAX - gone_i {
                removed = removed + gone_p + gone_i;
            } else {
                sat = true;
            }
        }
        b2 += 1;
    }
    assert(f.blocks@.subrange(0, n as int) =~= f.blocks@);
    assert(f0.blocks@.subrange(0, n as int) =~= f0.blocks@);
    assert(swept(f0.blocks@, f.blocks@, lv));
    removed
}

// ---------------- pass 4: merging blocks ----------------

/// In block `s`, phi arguments said to come from `from` now come from `to`.
fn retarget_args(f: &mut SsaFn, s: usize, from: usize, to: usize)
    requires old(f).wf(), s < old(f).blocks@.len(), to < old(f).blocks@.len(),
    ensures
        final(f).wf(),
        final(f).name == old(f).name,
        final(f).params@ == old(f).params@,
        final(f).names@ == old(f).names@,
        final(f).blocks@.len() == old(f).blocks@.len(),
    phis_changed(*old(f), *final(f), s as int, |a: Seq<(usize, Val)>| retarget_seq(a, from, to)),
{
    let ghost n = f.blocks@.len();
    let ghost nv = f.names@.len();
    let ghost at_s = f.blocks@[s as int];
    let mut blk = empty_block();
    std::mem::swap(&mut blk, &mut f.blocks[s]);
    assert(blk == at_s);
    assert(ssa_block_ok(blk, n, nv));
    let mut k: usize = 0;
    while k < blk.phis.len()
        invariant k <= blk.phis@.len(), ssa_block_ok(blk, n, nv), (to as int) < n,
            blk.insts@ == at_s.insts@, blk.term == at_s.term, blk.phis@.len() == at_s.phis@.len(),
            forall|x: int| k <= x < blk.phis@.len() ==> #[trigger] blk.phis@[x] == at_s.phis@[x],
            forall|x: int| 0 <= x < k ==> (#[trigger] blk.phis@[x]).dst == at_s.phis@[x].dst
                && blk.phis@[x].var == at_s.phis@[x].var && blk.phis@[x].args@ == retarget_seq(at_s.phis@[x].args@, from, to),
        decreases blk.phis@.len() - k,
    {
        let ghost pk = blk.phis@[k as int];
        assert(phi_ok(pk, n, nv));
        let mut args: Vec<(usize, Val)> = Vec::new();
        let mut q: usize = 0;
        while q < blk.phis[k].args.len()
            invariant
                q <= pk.args@.len(), blk.phis@[k as int] == pk, phi_ok(pk, n, nv), k < blk.phis@.len(), (to as int) < n,
                forall|w: int| 0 <= w < args@.len() ==> (#[trigger] args@[w]).0 < n && val_ok(args@[w].1, nv),
                args@ == retarget_seq(pk.args@.subrange(0, q as int), from, to),
            decreases pk.args@.len() - q,
        {
            let (p, v) = blk.phis[k].args[q];
            args.push((if p == from { to } else { p }, v));
            q += 1;
            assert(args@ =~= retarget_seq(pk.args@.subrange(0, q as int), from, to));
        }
        assert(pk.args@.subrange(0, pk.args@.len() as int) =~= pk.args@);
        let ghost before = blk.phis@;
        blk.phis[k].args = args;
        proof {
            assert forall|x: int| 0 <= x < blk.phis@.len() implies phi_ok(#[trigger] blk.phis@[x], n, nv) by {
                if x != k as int { assert(blk.phis@[x] == before[x]); }
            }
        }
        k += 1;
    }
    let ghost before2 = f.blocks@;
    f.blocks.set(s, blk);
    proof {
        assert forall|x: int| 0 <= x < n implies ssa_block_ok(#[trigger] f.blocks@[x], n, nv) by {
            if x != s as int { assert(f.blocks@[x] == before2[x]); }
        }
    }
}

/// Block `a` ends in a jump to block `b`, which is not the entry, has no phis, and is reached
/// from no other block: the two can be merged.
pub open spec fn mergeable(bl: Seq<SsaBlock>, a: int, b: int) -> bool {
    &&& 0 <= a < bl.len() && 0 <= b < bl.len()
    &&& bl[a].term == Term::Jump(b as usize)
    &&& b != 0 && b != a
    &&& bl[b].phis@.len() == 0
    &&& forall|x: int| 0 <= x < bl.len() && x != a ==> hits(#[trigger] bl[x].term, b as usize) == 0
}

proof fn lemma_preds_sole(sk: Seq<BasicBlock>, bl: Seq<SsaBlock>, a: int, b: int, m: int)
    requires
        mergeable(bl, a, b), sk.len() == bl.len(), 0 <= m <= sk.len(),
        forall|x: int| 0 <= x < sk.len() ==> #[trigger] term_of(sk[x]) == bl[x].term,
    ensures preds_upto(sk, b as usize, m) == (if m > a { seq![a as usize] } else { Seq::<usize>::empty() }),
    decreases m,
{
    if m > 0 {
        lemma_preds_sole(sk, bl, a, b, m - 1);
        assert(term_of(sk[m - 1]) == bl[m - 1].term);
        let c = Seq::new(hits(term_of(sk[m - 1]), b as usize), |_i: int| (m - 1) as usize);
        if m - 1 == a {
            assert(c =~= seq![a as usize]);
            assert(Seq::<usize>::empty() + c =~= seq![a as usize]);
        } else {
            assert(c =~= Seq::<usize>::empty());
            if m > a {
                assert(seq![a as usize] + c =~= seq![a as usize]);
            } else {
                assert(Seq::<usize>::empty() + c =~= Seq::<usize>::empty());
            }
        }
    }
}

proof fn lemma_preds_contains(sk: Seq<BasicBlock>, s: usize, m: int, x: int)
    requires 0 <= x < m <= sk.len(), hits(term_of(sk[x]), s) > 0,
    ensures preds_upto(sk, s, m).contains(x as usize),
    decreases m,
{
    let c = Seq::new(hits(term_of(sk[m - 1]), s), |_i: int| (m - 1) as usize);
    let pre = preds_upto(sk, s, m - 1);
    assert(preds_upto(sk, s, m) == pre + c);
    if x == m - 1 {
        assert((pre + c)[pre.len() as int] == x as usize);
    } else {
        lemma_preds_contains(sk, s, m - 1, x);
        let k = choose|k: int| 0 <= k < pre.len() && pre[k] == x as usize;
        assert((pre + c)[k] == x as usize);
    }
}

proof fn lemma_no_hits(t: Term, s: usize)
    requires hits(t, s) == 0,
    ensures forall|j: int| 0 <= j < succ_seq(t).len() ==> succ_seq(t)[j] != s,
{
}

proof fn lemma_unreached(bl: Seq<SsaBlock>, b: int)
    requires
        0 < b < bl.len(),
        forall|x: int| 0 <= x < bl.len() ==> hits(#[trigger] bl[x].term, b as usize) == 0,
    ensures !reaches(bl, b),
{
    if reaches(bl, b) {
        let p = choose|p: Seq<int>| #[trigger] entry_path(bl, p) && p.last() == b;
        assert(p.len() >= 2);
        let i = p.len() - 2;
        assert(is_succ(bl, p[i], p[i + 1]));
        let x = p[i];
        let j = choose|j: int| 0 <= j < succ_seq(bl[x].term).len() && #[trigger] succ_seq(bl[x].term)[j] == b;
        lemma_no_hits(bl[x].term, b as usize);
    }
}

proof fn lemma_reach_count_le(bl: Seq<SsaBlock>, m: int, b: int)
    requires 0 <= m, 0 <= b < m, !reaches(bl, b),
    ensures reach_count(bl, m) < m,
    decreases m,
{
    lemma_reach_count_bound(bl, m - 1);
    if m - 1 != b {
        lemma_reach_count_le(bl, m - 1, b);
    }
}

proof fn lemma_reach_count_bound(bl: Seq<SsaBlock>, m: int)
    requires 0 <= m,
    ensures reach_count(bl, m) <= m,
    decreases m,
{
    if m > 0 { lemma_reach_count_bound(bl, m - 1); }
}

/// Pass 4: merges a block into its predecessor when it is the only successor of a block that
/// is its only predecessor (straight-line code split by a `jump`). Returns how many merges.
pub fn merge_blocks(f: &mut SsaFn) -> (merged: usize)
    requires old(f).wf(),
    ensures
        final(f).wf(),
        final(f).name == old(f).name,
        final(f).params@ == old(f).params@,
        final(f).names@ == old(f).names@,
        final(f).blocks@.len() + merged <= old(f).blocks@.len(),
        forall|a: int, b: int| !mergeable(final(f).blocks@, a, b),
{
    let ghost f0 = *f;
    let ghost nv = f.names@.len();
    let mut merged: usize = 0;
    // Each merge leaves the merged block unreachable, so there are fewer merges than blocks.
    let mut fuel: usize = f.blocks.len();
    while fuel > 0
        invariant_except_break
            f.blocks@.len() <= fuel,
        invariant
            f.wf(), nv == f.names@.len(), f.name == f0.name, f.params@ == f0.params@, f.names@ == f0.names@,
            merged <= f0.blocks@.len() - fuel,
            fuel <= f0.blocks@.len(),
            f0.blocks@.len() <= usize::MAX,
            f.blocks@.len() + merged <= f0.blocks@.len(),
        ensures forall|a: int, b: int| !mergeable(f.blocks@, a, b),
        decreases fuel,
    {
        fuel -= 1;
        let ghost fm = f.blocks@;
        let n = f.blocks.len();
        let sk = skeleton(f);
        let ps = preds(&sk);
        let mut cand: Option<(usize, usize)> = None;
        let mut a: usize = 0;
        while a < n
            invariant
                a <= n, n == f.blocks@.len(), f.wf(), ps@.len() == n, nv == f.names@.len(),
                cand matches Some((x, y)) ==> x < n && y < n && x != y && y != 0
                    && f.blocks@[x as int].term == Term::Jump(y) && ps@[y as int]@ == seq![x],
                cand is None ==> forall|x: int, y: int| 0 <= x < a ==> !mergeable(f.blocks@, x, y),
                sk.blocks@.len() == n,
                forall|x: int| 0 <= x < n ==> #[trigger] term_of(sk.blocks@[x]) == f.blocks@[x].term,
                forall|y: int| 0 <= y < n ==> (#[trigger] ps@[y])@ == preds_upto(sk.blocks@, y as usize, n as int),
            ensures cand is None ==> forall|x: int, y: int| 0 <= x < n ==> !mergeable(f.blocks@, x, y),
            decreases n - a,
        {
            proof {
                assert forall|y: int| !mergeable(f.blocks@, a as int, y) || (f.blocks@[a as int].term == Term::Jump(y as usize)) by {}
                assert forall|y: int| #[trigger] mergeable(f.blocks@, a as int, y) implies ps@[y]@ == seq![a] by {
                    lemma_preds_sole(sk.blocks@, f.blocks@, a as int, y, n as int);
                }
            }
            match f.blocks[a].term {
                Term::Jump(b) => {
                    assert(ssa_block_ok(f.blocks@[a as int], n as nat, nv));
                    if b != 0 && b != a && ps[b].len() == 1 && ps[b][0] == a && f.blocks[b].phis.len() == 0 {
                        cand = Some((a, b));
                        break;
                    }
                },
                _ => {},
            }
            a += 1;
        }
        let (a, b) = match cand {
            Some(x) => x,
            None => {
                assert forall|x: int, y: int| !mergeable(f.blocks@, x, y) by {
                    if 0 <= x < n { } 
                }
                break;
            },
        };
        proof {
            assert forall|x: int| 0 <= x < n && x != a implies hits(#[trigger] fm[x].term, b) == 0 by {
                if hits(fm[x].term, b) > 0 {
                    assert(term_of(sk.blocks@[x]) == fm[x].term);
                    lemma_preds_contains(sk.blocks@, b, n as int, x);
                    let k = choose|k: int| 0 <= k < ps@[b as int]@.len() && ps@[b as int]@[k] == x as usize;
                    assert(ps@[b as int]@ == seq![a]);
                }
            }
        }
        // Move b's instructions and terminator into a; b is left unreachable.
        let ghost at_b = f.blocks@[b as int];
        let mut blk_b = empty_block();
        std::mem::swap(&mut blk_b, &mut f.blocks[b]);
        assert(blk_b == at_b);
        assert(ssa_block_ok(blk_b, n as nat, nv));
        let ghost at_a = f.blocks@[a as int];
        let mut blk_a = empty_block();
        std::mem::swap(&mut blk_a, &mut f.blocks[a]);
        assert(blk_a == at_a);
        assert(ssa_block_ok(blk_a, n as nat, nv));
        let mut i: usize = 0;
        while i < blk_b.insts.len()
            invariant
                i <= blk_b.insts@.len(), ssa_block_ok(blk_b, n as nat, nv),
                forall|q: int| 0 <= q < blk_a.insts@.len() ==> inst_ok(#[trigger] blk_a.insts@[q], nv),
                forall|q: int| 0 <= q < blk_a.phis@.len() ==> phi_ok(#[trigger] blk_a.phis@[q], n as nat, nv),
            decreases blk_b.insts@.len() - i,
        {
            let c = inst_clone(&blk_b.insts[i]);
            assert(inst_ok(blk_b.insts@[i as int], nv));
            blk_a.insts.push(c);
            i += 1;
        }
        blk_a.term = blk_b.term;
        let new_term = blk_a.term;
        let ghost before = f.blocks@;
        f.blocks.set(a, blk_a);
        f.blocks.set(b, empty_block());
        proof {
            assert forall|x: int| 0 <= x < n implies ssa_block_ok(#[trigger] f.blocks@[x], n as nat, nv) by {
                if x != a as int && x != b as int { assert(f.blocks@[x] == before[x]); }
            }
        }
        let ghost g0 = f.blocks@;
        proof {
            assert forall|x: int| 0 <= x < n implies hits(#[trigger] g0[x].term, b) == 0 by {
                if x == a as int {
                    assert(g0[x].term == at_b.term);
                    assert(hits(fm[b as int].term, b) == 0);
                } else if x != b as int {
                    assert(g0[x] == before[x]);
                }
            }
        }
        let ss = new_term.succs();
        let mut k: usize = 0;
        while k < ss.len()
            invariant
                k <= ss@.len(), ss@ == succ_seq(new_term), term_ok(new_term, n as nat, nv),
                f.wf(), n == f.blocks@.len(), nv == f.names@.len(), a < n,
                f.name == f0.name, f.params@ == f0.params@, f.names@ == f0.names@,
                forall|x: int| 0 <= x < n ==> (#[trigger] f.blocks@[x]).term == g0[x].term,
                g0.len() == n,
            decreases ss@.len() - k,
        {
            let s2 = ss[k];
            assert(s2 < n) by {
                match new_term {
                    Term::Jump(x) => {},
                    Term::Branch { then, els, .. } => {},
                    Term::Return(_) => {},
                }
            }
            let ghost fb = f.blocks@;
            retarget_args(f, s2, b, a);
            proof {
                assert forall|x: int| 0 <= x < n implies (#[trigger] f.blocks@[x]).term == g0[x].term by {
                    if x != s2 as int { assert(f.blocks@[x] == fb[x]); }
                }
            }
            k += 1;
        }
        proof {
            assert forall|x: int| 0 <= x < f.blocks@.len() implies hits(#[trigger] f.blocks@[x].term, b) == 0 by {
                assert(f.blocks@[x].term == g0[x].term);
            }
            lemma_unreached(f.blocks@, b as int);
            lemma_reach_count_le(f.blocks@, n as int, b as int);
        }
        remove_unreachable_ssa(f);
        merged += 1;
    }
    merged
}

/// The passes in their usual order (simplify, value numbering, dead code, simplify again,
/// block merging), with the count each reports, in that order.
pub fn optimize(f: &mut SsaFn) -> (counts: (usize, usize, usize, usize, usize))
    requires old(f).wf(),
    ensures
        final(f).wf(),
        final(f).name == old(f).name,
        final(f).params@ == old(f).params@,
        final(f).names@ == old(f).names@,
        forall|a: int, b: int| !mergeable(final(f).blocks@, a, b),
{
    let s = simplify(f);
    let g = gvn(f);
    let d = dce(f);
    let s2 = simplify(f);
    let m = merge_blocks(f);
    (s, g, d, s2, m)
}

} // verus!
