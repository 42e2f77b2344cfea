//! SSA construction (Cytron et al.): phi nodes at the iterated dominance frontier of each
//! variable's definitions, then renaming over the dominator tree with a stack of current
//! versions per variable.

use vstd::prelude::*;
use vstd::string::StringExecFns;
use crate::ir::{
    FnIr, Inst, Term, Val, val_ok, inst_ok, term_ok, block_ok, inst_operands, inst_dst, succ_seq,
    term_of, cfg_ok, lemma_wf_cfg, dominators, dominance_frontiers, preds, idom_ok, contains_usize,
    inst_clone, def_of, same_inst,
};
use crate::text::decimal_string;

verus! {

/// `dst = phi(args)`: on entry from predecessor `p`, `dst` takes the value paired with `p`.
#[derive(Debug)]
pub struct Phi {
    pub dst: u32,
    pub var: u32,
    pub args: Vec<(usize, Val)>,
}

#[derive(Debug)]
pub struct SsaBlock {
    pub phis: Vec<Phi>,
    pub insts: Vec<Inst>,
    pub term: Term,
}

pub struct SsaFn {
    pub name: String,
    pub params: Vec<u32>,
    pub names: Vec<String>,
    pub blocks: Vec<SsaBlock>,
}

pub open spec fn phi_ok(p: Phi, nblocks: nat, nvars: nat) -> bool {
    &&& p.dst < nvars
    &&& p.var < nvars
    &&& forall|k: int| 0 <= k < p.args@.len() ==> (#[trigger] p.args@[k]).0 < nblocks && val_ok(p.args@[k].1, nvars)
}

pub open spec fn ssa_block_ok(b: SsaBlock, nblocks: nat, nvars: nat) -> bool {
    &&& forall|k: int| 0 <= k < b.phis@.len() ==> phi_ok(#[trigger] b.phis@[k], nblocks, nvars)
    &&& forall|k: int| 0 <= k < b.insts@.len() ==> inst_ok(#[trigger] b.insts@[k], nvars)
    &&& term_ok(b.term, nblocks, nvars)
}

impl SsaFn {
    /// Every block index and value id is in range.
    pub open spec fn wf(&self) -> bool {
        &&& self.blocks@.len() >= 1
        &&& self.names@.len() <= u32::MAX
        &&& forall|k: int| 0 <= k < self.params@.len() ==> (#[trigger] self.params@[k]) < self.names@.len()
        &&& forall|b: int| 0 <= b < self.blocks@.len()
            ==> ssa_block_ok(#[trigger] self.blocks@[b], self.blocks@.len(), self.names@.len())
    }
}

/// The text of a value in an SSA function.
pub fn sval(f: &SsaFn, v: Val) -> (s: String)
    requires val_ok(v, f.names@.len()),
    ensures v matches Val::Var(x) ==> s@ == f.names@[x as int]@,
{
    match v {
        Val::Var(x) => f.names[x as usize].clone(),
        Val::Const(c) => crate::text::int_to_string(c),
    }
}

/// How many of the first `upto` phi lists lack `v`.
pub open spec fn lacking(phi_vars: Seq<Vec<u32>>, v: u32, upto: int) -> nat
    decreases upto,
{
    if upto <= 0 { 0 } else { lacking(phi_vars, v, upto - 1) + if phi_vars[upto - 1]@.contains(v) { 0nat } else { 1nat } }
}

proof fn lemma_lacking_add(a: Seq<Vec<u32>>, b: Seq<Vec<u32>>, v: u32, d: int, upto: int)
    requires
        a.len() == b.len(), 0 <= d < a.len(), 0 <= upto <= a.len(),
        !a[d]@.contains(v), b[d]@.contains(v),
        forall|i: int| 0 <= i < a.len() && i != d ==> #[trigger] b[i]@.contains(v) == a[i]@.contains(v),
    ensures
        upto > d ==> lacking(b, v, upto) + 1 == lacking(a, v, upto),
        upto <= d ==> lacking(b, v, upto) == lacking(a, v, upto),
    decreases upto,
{
    if upto > 0 {
        lemma_lacking_add(a, b, v, d, upto - 1);
    }
}

fn contains_u32(v: &Vec<u32>, x: u32) -> (r: bool)
    ensures r == v@.contains(x),
{
    let mut i: usize = 0;
    while i < v.len()
        invariant i <= v@.len(), forall|k: int| 0 <= k < i ==> v@[k] != x,
        decreases v@.len() - i,
    {
        if v[i] == x {
            assert(v@[i as int] == x);
            return true;
        }
        i += 1;
    }
    false
}

fn usize_vec_clone(v: &Vec<usize>) -> (r: Vec<usize>)
    ensures r@ == v@,
{
    let mut out: Vec<usize> = Vec::new();
    let mut i: usize = 0;
    while i < v.len()
        invariant i <= v@.len(), out@ == v@.subrange(0, i as int),
        decreases v@.len() - i,
    {
        out.push(v[i]);
        i += 1;
        assert(out@ =~= v@.subrange(0, i as int));
    }
    assert(v@.subrange(0, v@.len() as int) =~= v@);
    out
}

/// Phi placement: for each variable defined in two or more blocks, the blocks of the iterated
/// dominance frontier of its definitions, each listing the variables it merges.
fn place_phis(defs: &Vec<Vec<usize>>, df: &Vec<Vec<usize>>, n: usize, nvars: usize) -> (phi_vars: Vec<Vec<u32>>)
    requires
        df@.len() == n, defs@.len() == nvars, nvars <= u32::MAX,
        forall|x: int, k: int| 0 <= x < n && 0 <= k < df@[x]@.len() ==> #[trigger] df@[x]@[k] < n,
        forall|v: int, k: int| 0 <= v < nvars && 0 <= k < defs@[v]@.len() ==> #[trigger] defs@[v]@[k] < n,
    ensures
        phi_vars@.len() == n,
        forall|b: int, k: int| 0 <= b < n && 0 <= k < phi_vars@[b]@.len() ==> #[trigger] phi_vars@[b]@[k] < nvars,
{
    let mut phi_vars: Vec<Vec<u32>> = Vec::new();
    let mut i: usize = 0;
    while i < n
        invariant i <= n, phi_vars@.len() == i, forall|b: int| 0 <= b < i ==> (#[trigger] phi_vars@[b])@.len() == 0,
        decreases n - i,
    {
        phi_vars.push(Vec::new());
        i += 1;
    }
    let mut v: usize = 0;
    while v < nvars
        invariant
            v <= nvars, phi_vars@.len() == n, df@.len() == n, defs@.len() == nvars, nvars <= u32::MAX,
            forall|x: int, k: int| 0 <= x < n && 0 <= k < df@[x]@.len() ==> #[trigger] df@[x]@[k] < n,
            forall|w: int, k: int| 0 <= w < nvars && 0 <= k < defs@[w]@.len() ==> #[trigger] defs@[w]@[k] < n,
            forall|b: int, k: int| 0 <= b < n && 0 <= k < phi_vars@[b]@.len() ==> #[trigger] phi_vars@[b]@[k] < nvars,
        decreases nvars - v,
    {
        if defs[v].len() >= 2 {
            let vv = v as u32;
            let mut work = usize_vec_clone(&defs[v]);
            let mut has_def = usize_vec_clone(&defs[v]);
            loop
                invariant
                    phi_vars@.len() == n, df@.len() == n, v < nvars, vv == v,
                    forall|x: int, k: int| 0 <= x < n && 0 <= k < df@[x]@.len() ==> #[trigger] df@[x]@[k] < n,
                    forall|k: int| 0 <= k < work@.len() ==> #[trigger] work@[k] < n,
                    forall|b: int, k: int| 0 <= b < n && 0 <= k < phi_vars@[b]@.len() ==> #[trigger] phi_vars@[b]@[k] < nvars,
                decreases lacking(phi_vars@, vv, n as int), work@.len(),
            {
                let b = match work.pop() {
                    Some(b) => b,
                    None => break,
                };
                let ghost lack0 = lacking(phi_vars@, vv, n as int);
                let ghost w0 = work@.len();
                let mut k: usize = 0;
                while k < df[b].len()
                    invariant
                        b < n, phi_vars@.len() == n, df@.len() == n, v < nvars, vv == v,
                        forall|x: int, q: int| 0 <= x < n && 0 <= q < df@[x]@.len() ==> #[trigger] df@[x]@[q] < n,
                        forall|q: int| 0 <= q < work@.len() ==> #[trigger] work@[q] < n,
                        forall|c: int, q: int| 0 <= c < n && 0 <= q < phi_vars@[c]@.len() ==> #[trigger] phi_vars@[c]@[q] < nvars,
                        lacking(phi_vars@, vv, n as int) < lack0 || (lacking(phi_vars@, vv, n as int) == lack0 && work@.len() == w0),
                    decreases df@[b as int]@.len() - k,
                {
                    let d = df[b][k];
                    if !contains_u32(&phi_vars[d], vv) {
                        let ghost before = phi_vars@;
                        phi_vars[d].push(vv);
                        proof {
                            assert(phi_vars@[d as int]@.contains(vv)) by {
                                assert(phi_vars@[d as int]@[phi_vars@[d as int]@.len() - 1] == vv);
                            }
                            assert forall|c: int| 0 <= c < n && c != d as int
                                implies #[trigger] phi_vars@[c]@.contains(vv) == before[c]@.contains(vv) by {
                                assert(phi_vars@[c] == before[c]);
                            }
                            lemma_lacking_add(before, phi_vars@, vv, d as int, n as int);
                            assert forall|c: int, q: int| 0 <= c < n && 0 <= q < phi_vars@[c]@.len()
                                implies #[trigger] phi_vars@[c]@[q] < nvars by {
                                if c != d as int {
                                    assert(phi_vars@[c] == before[c]);
                                } else if q < before[c]@.len() {
                                    assert(phi_vars@[c]@[q] == before[c]@[q]);
                                }
                            }
                        }
                        if !contains_usize(&has_def, d) {
                            has_def.push(d);
                            work.push(d);
                        }
                    }
                    k += 1;
                }
            }
        }
        v += 1;
    }
    phi_vars
}

pub open spec fn blocks_ok(blocks: Seq<SsaBlock>, nvars: nat) -> bool {
    forall|b: int| 0 <= b < blocks.len() ==> ssa_block_ok(#[trigger] blocks[b], blocks.len(), nvars)
}

pub proof fn lemma_val_grow(v: Val, a: nat, b: nat)
    requires val_ok(v, a), a <= b,
    ensures val_ok(v, b),
{
}

pub proof fn lemma_inst_grow(i: Inst, a: nat, b: nat)
    requires inst_ok(i, a), a <= b,
    ensures inst_ok(i, b),
{
    assert forall|k: int| 0 <= k < inst_operands(i).len() implies val_ok(#[trigger] inst_operands(i)[k], b) by {
        assert(val_ok(inst_operands(i)[k], a));
    }
}

pub proof fn lemma_block_grow(blk: SsaBlock, nb: nat, a: nat, b: nat)
    requires ssa_block_ok(blk, nb, a), a <= b,
    ensures ssa_block_ok(blk, nb, b),
{
    assert forall|k: int| 0 <= k < blk.phis@.len() implies phi_ok(#[trigger] blk.phis@[k], nb, b) by {
        let p = blk.phis@[k];
        assert(phi_ok(p, nb, a));
        assert forall|q: int| 0 <= q < p.args@.len() implies (#[trigger] p.args@[q]).0 < nb && val_ok(p.args@[q].1, b) by {
            assert(p.args@[q].0 < nb && val_ok(p.args@[q].1, a));
        }
    }
    assert forall|k: int| 0 <= k < blk.insts@.len() implies inst_ok(#[trigger] blk.insts@[k], b) by {
        lemma_inst_grow(blk.insts@[k], a, b);
    }
}

pub proof fn lemma_blocks_grow(blocks: Seq<SsaBlock>, a: nat, b: nat)
    requires blocks_ok(blocks, a), a <= b,
    ensures blocks_ok(blocks, b),
{
    assert forall|x: int| 0 <= x < blocks.len() implies ssa_block_ok(#[trigger] blocks[x], blocks.len(), b) by {
        lemma_block_grow(blocks[x], blocks.len(), a, b);
    }
}

/// The renaming state: for each original variable, a stack of its current versions.
struct Renamer {
    stacks: Vec<Vec<u32>>,
    names: Vec<String>,
    counter: Vec<u32>,
    multi: Vec<bool>,
}

impl Renamer {
    spec fn inv(&self, nv0: nat) -> bool {
        &&& self.stacks@.len() == nv0
        &&& self.counter@.len() == nv0
        &&& self.multi@.len() == nv0
        &&& nv0 <= self.names@.len() <= u32::MAX
        &&& forall|x: int, k: int| 0 <= x < nv0 && 0 <= k < self.stacks@[x]@.len()
            ==> #[trigger] self.stacks@[x]@[k] < self.names@.len()
    }

    /// A new version of `v` (the variable itself when it has a single definition), now the
    /// current one.
    fn new_version(&mut self, v: u32, Ghost(nv0): Ghost<nat>) -> (id: u32)
        requires old(self).inv(nv0), (v as nat) < old(self).names@.len(),
        ensures
            final(self).inv(nv0),
            id < final(self).names@.len(),
            old(self).names@.len() <= final(self).names@.len(),
            final(self).multi@ == old(self).multi@,
            final(self).stacks@.len() == old(self).stacks@.len(),
            forall|x: int| 0 <= x < old(self).stacks@.len() && x != v ==> #[trigger] final(self).stacks@[x] == old(self).stacks@[x],
            (v as int) < old(self).stacks@.len() ==> final(self).stacks@[v as int]@ == old(self).stacks@[v as int]@.push(id),
            (v as int) < old(self).stacks@.len() && !old(self).multi@[v as int] ==> id == v,
            names_kept(old(self).names@, final(self).names@),
            id == v ==> final(self).names@ == old(self).names@,
            id != v ==> id == old(self).names@.len() && final(self).names@.len() == old(self).names@.len() + 1
                && final(self).names@[id as int]@ == old(self).names@[v as int]@ + "#"@
                    + crate::text::ascii_chars(crate::text::decimal(final(self).counter@[v as int] as nat)),
    {
        let vi = v as usize;
        if vi >= self.stacks.len() {
            return v;
        }
        if !self.multi[vi] || self.names.len() >= 4294967295 || self.counter[vi] == u32::MAX {
            let ghost before = self.stacks@;
            self.stacks[vi].push(v);
            proof { self.lemma_stack_push(before, vi as int, nv0); }
            return v;
        }
        self.counter[vi] = self.counter[vi] + 1;
        let mut name = self.names[vi].clone();
        proof { reveal_strlit("#"); }
        name.append("#");
        let d = decimal_string(self.counter[vi] as u64);
        name.append(d.as_str());
        self.names.push(name);
        let id = (self.names.len() - 1) as u32;
        let ghost before = self.stacks@;
        self.stacks[vi].push(id);
        proof { self.lemma_stack_push(before, vi as int, nv0); }
        id
    }

    proof fn lemma_stack_push(&self, before: Seq<Vec<u32>>, vi: int, nv0: nat)
        requires
            before.len() == nv0, self.stacks@.len() == nv0, 0 <= vi < nv0,
            forall|x: int, k: int| 0 <= x < nv0 && 0 <= k < before[x]@.len() ==> #[trigger] before[x]@[k] < self.names@.len(),
            forall|x: int| 0 <= x < nv0 && x != vi ==> #[trigger] self.stacks@[x] == before[x],
            self.stacks@[vi]@.len() == before[vi]@.len() + 1,
            forall|k: int| 0 <= k < before[vi]@.len() ==> #[trigger] self.stacks@[vi]@[k] == before[vi]@[k],
            self.stacks@[vi]@.last() < self.names@.len(),
        ensures
            forall|x: int, k: int| 0 <= x < nv0 && 0 <= k < self.stacks@[x]@.len()
                ==> #[trigger] self.stacks@[x]@[k] < self.names@.len(),
    {
        assert forall|x: int, k: int| 0 <= x < nv0 && 0 <= k < self.stacks@[x]@.len()
            implies #[trigger] self.stacks@[x]@[k] < self.names@.len() by {
            if x != vi {
                assert(self.stacks@[x] == before[x]);
            } else if k < before[vi]@.len() {
                assert(self.stacks@[vi]@[k] == before[vi]@[k]);
            }
        }
    }

    /// The current version of a value: constants and variables never defined stay as they are.
    fn use_of(&self, v: Val, Ghost(nv0): Ghost<nat>) -> (r: Val)
        requires self.inv(nv0), val_ok(v, self.names@.len()),
        ensures
            val_ok(r, self.names@.len()),
            r == (match v {
                Val::Var(x) => if (x as int) < self.stacks@.len() && self.stacks@[x as int]@.len() > 0 {
                    Val::Var(self.stacks@[x as int]@.last())
                } else {
                    v
                },
                c => c,
            }),
    {
        match v {
            Val::Var(x) => {
                if x as usize >= self.stacks.len() {
                    return v;
                }
                let st = &self.stacks[x as usize];
                if st.len() > 0 { Val::Var(st[st.len() - 1]) } else { Val::Var(x) }
            },
            c => c,
        }
    }

    fn pop_version(&mut self, v: u32, Ghost(nv0): Ghost<nat>)
        requires old(self).inv(nv0),
        ensures
            final(self).inv(nv0), final(self).names@ == old(self).names@, final(self).multi@ == old(self).multi@,
            final(self).stacks@.len() == old(self).stacks@.len(),
            forall|x: int| 0 <= x < old(self).stacks@.len() && x != v ==> #[trigger] final(self).stacks@[x] == old(self).stacks@[x],
            (v as int) < old(self).stacks@.len() && old(self).stacks@[v as int]@.len() > 0
                ==> final(self).stacks@[v as int]@ == old(self).stacks@[v as int]@.drop_last(),
            (v as int) < old(self).stacks@.len() && old(self).stacks@[v as int]@.len() == 0
                ==> final(self).stacks@[v as int]@.len() == 0,
    {
        let vi = v as usize;
        if vi >= self.stacks.len() {
            return;
        }
        let ghost before = self.stacks@;
        self.stacks[vi].pop();
        proof {
            assert forall|x: int, k: int| 0 <= x < nv0 && 0 <= k < self.stacks@[x]@.len()
                implies #[trigger] self.stacks@[x]@[k] < self.names@.len() by {
                if x != vi as int {
                    assert(self.stacks@[x] == before[x]);
                } else {
                    assert(self.stacks@[x]@[k] == before[x]@[k]);
                }
            }
        }
    }
}

/// The names `b` starts with the names `a`.
pub open spec fn names_kept(a: Seq<String>, b: Seq<String>) -> bool {
    a.len() <= b.len() && forall|i: int| 0 <= i < a.len() ==> #[trigger] b[i] == a[i]
}

/// The phi nodes of every block merge original variables.
pub open spec fn phi_vars_ok(blocks: Seq<SsaBlock>, nv0: nat) -> bool {
    forall|b: int, k: int| 0 <= b < blocks.len() && 0 <= k < blocks[b].phis@.len()
        ==> (#[trigger] blocks[b].phis@[k]).var < nv0
}

fn dummy_block() -> (b: SsaBlock)
    ensures b.phis@.len() == 0, b.insts@.len() == 0, b.term == Term::Return(Val::Const(0)),
{
    SsaBlock { phis: Vec::new(), insts: Vec::new(), term: Term::Return(Val::Const(0)) }
}

/// Renames the definitions and uses of one block: each phi and instruction defines a new
/// version, each use reads the current one. Returns the variables whose stacks grew.
fn rename_block(blk: &mut SsaBlock, r: &mut Renamer, Ghost(nb): Ghost<nat>, Ghost(nv0): Ghost<nat>) -> (pushed: Vec<u32>)
    requires
        old(r).inv(nv0),
        ssa_block_ok(*old(blk), nb, old(r).names@.len()),
        forall|k: int| 0 <= k < old(blk).phis@.len() ==> (#[trigger] old(blk).phis@[k]).var < nv0,
    ensures
        final(r).inv(nv0),
        old(r).names@.len() <= final(r).names@.len(),
        final(r).multi@ == old(r).multi@,
        ssa_block_ok(*final(blk), nb, final(r).names@.len()),
        final(blk).phis@.len() == old(blk).phis@.len(),
        forall|k: int| 0 <= k < final(blk).phis@.len() ==> (#[trigger] final(blk).phis@[k]).var == old(blk).phis@[k].var,
        final(blk).term == term_with(old(blk).term, final(blk).term),
        succ_seq(final(blk).term) == succ_seq(old(blk).term),
        final(blk).insts@.len() == old(blk).insts@.len(),
        names_kept(old(r).names@, final(r).names@),
        pushed@ == old(blk).phis@.map_values(|p: Phi| p.var) + old(blk).insts@.map_values(|i: Inst| inst_dst(i)),
{
    let mut pushed: Vec<u32> = Vec::new();
    let mut k: usize = 0;
    while k < blk.phis.len()
        invariant
            k <= blk.phis@.len(),
            r.inv(nv0),
            old(r).names@.len() <= r.names@.len(), names_kept(old(r).names@, r.names@),
            r.multi@ == old(r).multi@,
            ssa_block_ok(*blk, nb, r.names@.len()),
            blk.phis@.len() == old(blk).phis@.len(),
            blk.insts@ == old(blk).insts@,
            blk.term == old(blk).term,
            forall|q: int| 0 <= q < blk.phis@.len() ==> (#[trigger] blk.phis@[q]).var == old(blk).phis@[q].var,
            pushed@ == old(blk).phis@.subrange(0, k as int).map_values(|p: Phi| p.var),
        decreases blk.phis@.len() - k,
    {
        let var = blk.phis[k].var;
        assert(phi_ok(blk.phis@[k as int], nb, r.names@.len()));
        let ghost n0 = r.names@.len();
        let dst = r.new_version(var, Ghost(nv0));
        proof { lemma_block_grow(*blk, nb, n0, r.names@.len()); }
        let ghost before = blk.phis@;
        blk.phis[k].dst = dst;
        proof {
            assert forall|q: int| 0 <= q < blk.phis@.len() implies phi_ok(#[trigger] blk.phis@[q], nb, r.names@.len()) by {
                if q != k as int { assert(blk.phis@[q] == before[q]); }
                else { assert(blk.phis@[q].args == before[q].args); }
            }
            assert forall|q: int| 0 <= q < blk.phis@.len() implies (#[trigger] blk.phis@[q]).var == old(blk).phis@[q].var by {
                if q != k as int { assert(blk.phis@[q] == before[q]); }
            }
        }
        pushed.push(var);
        proof {
            assert(old(blk).phis@.subrange(0, k + 1).map_values(|p: Phi| p.var)
                =~= old(blk).phis@.subrange(0, k as int).map_values(|p: Phi| p.var).push(var));
        }
        k += 1;
    }
    assert(old(blk).phis@.subrange(0, k as int) =~= old(blk).phis@);
    let ghost pv = old(blk).phis@.map_values(|p: Phi| p.var);
    let mut i: usize = 0;
    while i < blk.insts.len()
        invariant
            i <= blk.insts@.len(),
            r.inv(nv0),
            old(r).names@.len() <= r.names@.len(), names_kept(old(r).names@, r.names@),
            r.multi@ == old(r).multi@,
            ssa_block_ok(*blk, nb, r.names@.len()),
            blk.phis@.len() == old(blk).phis@.len(),
            blk.term == old(blk).term,
            forall|q: int| 0 <= q < blk.phis@.len() ==> (#[trigger] blk.phis@[q]).var == old(blk).phis@[q].var,
            blk.insts@.len() == old(blk).insts@.len(),
            forall|q: int| i <= q < blk.insts@.len() ==> #[trigger] blk.insts@[q] == old(blk).insts@[q],
            pushed@ == pv + old(blk).insts@.subrange(0, i as int).map_values(|x: Inst| inst_dst(x)),
        decreases blk.insts@.len() - i,
    {
        let inst = inst_clone(&blk.insts[i]);
        assert(inst_ok(inst, r.names@.len())) by { assert(inst_ok(blk.insts@[i as int], r.names@.len())); }
        let ghost n0 = r.names@.len();
        let v0 = def_of(&inst);
        let renamed = match inst {
            Inst::Copy { dst, src } => {
                assert(inst_operands(inst)[0] == src);
                let src2 = r.use_of(src, Ghost(nv0));
                let d = r.new_version(dst, Ghost(nv0));
                proof { lemma_val_grow(src2, n0, r.names@.len()); }
                Inst::Copy { dst: d, src: src2 }
            },
            Inst::Bin { dst, op, a, b } => {
                assert(inst_operands(inst)[0] == a);
                assert(inst_operands(inst)[1] == b);
                let a2 = r.use_of(a, Ghost(nv0));
                let b2 = r.use_of(b, Ghost(nv0));
                let d = r.new_version(dst, Ghost(nv0));
                proof { lemma_val_grow(a2, n0, r.names@.len()); lemma_val_grow(b2, n0, r.names@.len()); }
                Inst::Bin { dst: d, op, a: a2, b: b2 }
            },
            Inst::Un { dst, op, a } => {
                assert(inst_operands(inst)[0] == a);
                let a2 = r.use_of(a, Ghost(nv0));
                let d = r.new_version(dst, Ghost(nv0));
                proof { lemma_val_grow(a2, n0, r.names@.len()); }
                Inst::Un { dst: d, op, a: a2 }
            },
            Inst::Call { dst, func, args } => {
                let mut args2: Vec<Val> = Vec::new();
                let mut q: usize = 0;
                while q < args.len()
                    invariant
                        q <= args@.len(), args2@.len() == q, r.inv(nv0), r.names@.len() == n0,
                        args@ == inst_operands(inst), inst_ok(inst, n0),
                        forall|w: int| 0 <= w < q ==> val_ok(#[trigger] args2@[w], n0),
                    decreases args@.len() - q,
                {
                    assert(val_ok(inst_operands(inst)[q as int], n0));
                    let v2 = r.use_of(args[q], Ghost(nv0));
                    args2.push(v2);
                    q += 1;
                }
                let d = r.new_version(dst, Ghost(nv0));
                proof {
                    assert forall|w: int| 0 <= w < args2@.len() implies val_ok(#[trigger] args2@[w], r.names@.len()) by {
                        lemma_val_grow(args2@[w], n0, r.names@.len());
                    }
                }
                Inst::Call { dst: d, func, args: args2 }
            },
        };
        proof { lemma_block_grow(*blk, nb, n0, r.names@.len()); }
        pushed.push(v0);
        proof {
            assert(old(blk).insts@.subrange(0, i + 1).map_values(|x: Inst| inst_dst(x))
                =~= old(blk).insts@.subrange(0, i as int).map_values(|x: Inst| inst_dst(x)).push(v0));
            assert(pv + old(blk).insts@.subrange(0, i + 1).map_values(|x: Inst| inst_dst(x))
                =~= (pv + old(blk).insts@.subrange(0, i as int).map_values(|x: Inst| inst_dst(x))).push(v0));
        }
        let ghost before = blk.insts@;
        blk.insts.set(i, renamed);
        proof {
            assert forall|q: int| 0 <= q < blk.insts@.len() implies inst_ok(#[trigger] blk.insts@[q], r.names@.len()) by {
                if q != i as int { assert(blk.insts@[q] == before[q]); }
            }
            assert forall|q: int| i + 1 <= q < blk.insts@.len() implies #[trigger] blk.insts@[q] == old(blk).insts@[q] by {
                assert(blk.insts@[q] == before[q]);
            }
        }
        i += 1;
    }
    assert(old(blk).insts@.subrange(0, i as int) =~= old(blk).insts@);
    let t = blk.term;
    let nt = match t {
        Term::Branch { cond, then, els } => Term::Branch { cond: r.use_of(cond, Ghost(nv0)), then, els },
        Term::Return(v) => Term::Return(r.use_of(v, Ghost(nv0))),
        j => j,
    };
    blk.term = nt;
    pushed
}

/// A terminator with its values renamed keeps its targets.
pub open spec fn term_with(old_t: Term, new_t: Term) -> Term {
    match (old_t, new_t) {
        (Term::Branch { then, els, .. }, Term::Branch { cond, .. }) => Term::Branch { cond, then, els },
        (Term::Return(_), Term::Return(v)) => Term::Return(v),
        (Term::Jump(t), _) => Term::Jump(t),
        _ => new_t,
    }
}

/// Walks the dominator tree from `b`, renaming each block and filling its successors' phi
/// arguments for the edge from `b`; `fuel` bounds the depth of the walk.
fn rename(b: usize, blocks: &mut Vec<SsaBlock>, children: &Vec<Vec<usize>>, r: &mut Renamer, Ghost(nv0): Ghost<nat>, fuel: usize)
    requires
        old(r).inv(nv0),
        blocks_ok(old(blocks)@, old(r).names@.len()),
        phi_vars_ok(old(blocks)@, nv0),
        b < old(blocks)@.len(),
        children@.len() == old(blocks)@.len(),
        forall|x: int, k: int| 0 <= x < children@.len() && 0 <= k < children@[x]@.len() ==> #[trigger] children@[x]@[k] < children@.len(),
    ensures
        final(r).inv(nv0),
        old(r).names@.len() <= final(r).names@.len(),
        final(r).multi@ == old(r).multi@,
        final(blocks)@.len() == old(blocks)@.len(),
        blocks_ok(final(blocks)@, final(r).names@.len()),
        phi_vars_ok(final(blocks)@, nv0),
        forall|x: int| 0 <= x < old(blocks)@.len() ==> succ_seq(#[trigger] final(blocks)@[x].term) == succ_seq(old(blocks)@[x].term),
        forall|x: int| 0 <= x < old(blocks)@.len() ==> (#[trigger] final(blocks)@[x]).insts@.len() == old(blocks)@[x].insts@.len(),
        names_kept(old(r).names@, final(r).names@),
    decreases fuel,
{
    let ghost nb = blocks@.len();
    let ghost n0 = r.names@.len();
    let ghost ob = blocks@;
    let mut blk = dummy_block();
    std::mem::swap(&mut blk, &mut blocks[b]);
    assert(ssa_block_ok(blk, nb, n0));
    let pushed = rename_block(&mut blk, r, Ghost(nb), Ghost(nv0));
    let t = blk.term;
    let ghost before = blocks@;
    blocks.set(b, blk);
    proof {
        assert forall|x: int| 0 <= x < blocks@.len() implies ssa_block_ok(#[trigger] blocks@[x], blocks@.len(), r.names@.len()) by {
            if x != b as int {
                assert(blocks@[x] == before[x]);
                lemma_block_grow(blocks@[x], nb, n0, r.names@.len());
            }
        }
        assert forall|x: int, k: int| 0 <= x < blocks@.len() && 0 <= k < blocks@[x].phis@.len()
            implies (#[trigger] blocks@[x].phis@[k]).var < nv0 by {
            if x != b as int { assert(blocks@[x] == before[x]); }
        }
        assert forall|x: int| 0 <= x < nb implies succ_seq(#[trigger] blocks@[x].term) == succ_seq(ob[x].term) by {
            if x != b as int { assert(blocks@[x] == before[x]); }
        }
        assert forall|x: int| 0 <= x < nb implies (#[trigger] blocks@[x]).insts@.len() == ob[x].insts@.len() by {
            if x != b as int { assert(blocks@[x] == before[x]); }
        }
    }
    assert(term_ok(t, nb, r.names@.len()));
    let ss = t.succs();
    let mut q: usize = 0;
    while q < ss.len()
        invariant
            q <= ss@.len(), ss@ == succ_seq(t), term_ok(t, nb, r.names@.len()), b < nb,
            blocks@.len() == nb, r.inv(nv0), n0 <= r.names@.len(), names_kept(old(r).names@, r.names@), r.multi@ == old(r).multi@,
            blocks_ok(blocks@, r.names@.len()),
            phi_vars_ok(blocks@, nv0),
            forall|x: int| 0 <= x < nb ==> succ_seq(#[trigger] blocks@[x].term) == succ_seq(ob[x].term),
                forall|x: int| 0 <= x < nb ==> (#[trigger] blocks@[x]).insts@.len() == ob[x].insts@.len(),
        decreases ss@.len() - q,
    {
        let s = ss[q];
        assert(s < nb) by {
            match t {
                Term::Jump(x) => { assert(ss@[q as int] == x); },
                Term::Branch { then, els, .. } => { assert(ss@[q as int] == then || ss@[q as int] == els); },
                Term::Return(_) => {},
            }
        }
        let ghost pre_swap = blocks@;
        let mut sb = dummy_block();
        std::mem::swap(&mut sb, &mut blocks[s]);
        let ghost sb0 = sb;
        assert(ssa_block_ok(sb, nb, r.names@.len()));
        let mut j: usize = 0;
        while j < sb.phis.len()
            invariant
                j <= sb.phis@.len(), b < nb, r.inv(nv0),
                ssa_block_ok(sb, nb, r.names@.len()),
                forall|k: int| 0 <= k < sb.phis@.len() ==> (#[trigger] sb.phis@[k]).var < nv0,
                sb.phis@.len() == sb0.phis@.len(),
                sb.term == sb0.term, sb.insts@ == sb0.insts@,
            decreases sb.phis@.len() - j,
        {
            let var = sb.phis[j].var;
            assert(phi_ok(sb.phis@[j as int], nb, r.names@.len()));
            let v = r.use_of(Val::Var(var), Ghost(nv0));
            let v = if v == Val::Var(var) && r.multi[var as usize] { Val::Const(0) } else { v };
            let ghost bp = sb.phis@;
            sb.phis[j].args.push((b, v));
            proof {
                assert forall|k: int| 0 <= k < sb.phis@.len() implies phi_ok(#[trigger] sb.phis@[k], nb, r.names@.len()) by {
                    if k != j as int {
                        assert(sb.phis@[k] == bp[k]);
                    } else {
                        let pa = sb.phis@[k].args@;
                        assert forall|w: int| 0 <= w < pa.len() implies (#[trigger] pa[w]).0 < nb && val_ok(pa[w].1, r.names@.len()) by {
                            if w < bp[k].args@.len() { assert(pa[w] == bp[k].args@[w]); }
                        }
                    }
                }
                assert forall|k: int| 0 <= k < sb.phis@.len() implies (#[trigger] sb.phis@[k]).var < nv0 by {
                    if k != j as int { assert(sb.phis@[k] == bp[k]); }
                }
            }
            j += 1;
        }
        let ghost before2 = blocks@;
        blocks.set(s, sb);
        proof {
            assert forall|x: int| 0 <= x < blocks@.len() implies ssa_block_ok(#[trigger] blocks@[x], blocks@.len(), r.names@.len()) by {
                if x != s as int { assert(blocks@[x] == before2[x]); }
            }
            assert forall|x: int, k: int| 0 <= x < blocks@.len() && 0 <= k < blocks@[x].phis@.len()
                implies (#[trigger] blocks@[x].phis@[k]).var < nv0 by {
                if x != s as int { assert(blocks@[x] == before2[x]); }
            }
            assert forall|x: int| 0 <= x < nb implies succ_seq(#[trigger] blocks@[x].term) == succ_seq(ob[x].term) by {
                if x != s as int { assert(blocks@[x] == before2[x]); } else { assert(blocks@[x] == sb); assert(sb0 == pre_swap[x]); }
            }
            assert forall|x: int| 0 <= x < nb implies (#[trigger] blocks@[x]).insts@.len() == ob[x].insts@.len() by {
                if x != s as int { assert(blocks@[x] == before2[x]); } else { assert(blocks@[x] == sb); assert(sb0 == pre_swap[x]); }
            }
        }
        q += 1;
    }
    if fuel > 0 {
        let mut c: usize = 0;
        while c < children[b].len()
            invariant
                fuel > 0,
                b < nb, blocks@.len() == nb, children@.len() == nb, r.inv(nv0), n0 <= r.names@.len(), names_kept(old(r).names@, r.names@),
                r.multi@ == old(r).multi@,
                blocks_ok(blocks@, r.names@.len()),
                phi_vars_ok(blocks@, nv0),
                forall|x: int| 0 <= x < nb ==> succ_seq(#[trigger] blocks@[x].term) == succ_seq(ob[x].term),
                forall|x: int| 0 <= x < nb ==> (#[trigger] blocks@[x]).insts@.len() == ob[x].insts@.len(),
                forall|x: int, k: int| 0 <= x < children@.len() && 0 <= k < children@[x]@.len() ==> #[trigger] children@[x]@[k] < children@.len(),
            decreases children@[b as int]@.len() - c,
        {
            rename(children[b][c], blocks, children, r, Ghost(nv0), fuel - 1);
            c += 1;
        }
    }
    let mut k: usize = 0;
    while k < pushed.len()
        invariant
            r.inv(nv0), n0 <= r.names@.len(), names_kept(old(r).names@, r.names@), r.multi@ == old(r).multi@,
            blocks@.len() == nb, blocks_ok(blocks@, r.names@.len()), phi_vars_ok(blocks@, nv0),
            forall|x: int| 0 <= x < nb ==> succ_seq(#[trigger] blocks@[x].term) == succ_seq(ob[x].term),
                forall|x: int| 0 <= x < nb ==> (#[trigger] blocks@[x]).insts@.len() == ob[x].insts@.len(),
        decreases pushed@.len() - k,
    {
        r.pop_version(pushed[k], Ghost(nv0));
        k += 1;
    }
}

/// Converts a function to SSA form: each variable assigned more than once gets numbered
/// versions (`x#1`, `x#2`, ...), merged by phi nodes where control flow joins.
pub fn to_ssa(f: &FnIr) -> (s: SsaFn)
    requires f.wf(),
    ensures
        s.wf(),
        s.name@ == f.name@,
        s.params@ == f.params@,
        s.blocks@.len() == f.blocks@.len(),
        f.vars@.len() <= s.names@.len(),
        forall|b: int| 0 <= b < s.blocks@.len() ==> succ_seq(#[trigger] s.blocks@[b].term) == succ_seq(term_of(f.blocks@[b])),
        forall|b: int| 0 <= b < s.blocks@.len() ==> (#[trigger] s.blocks@[b]).insts@.len() == f.blocks@[b].insts@.len(),
        forall|i: int| 0 <= i < f.vars@.len() ==> #[trigger] s.names@[i]@ == f.vars@[i]@,
{
    proof { lemma_wf_cfg(f); }
    let n = f.blocks.len();
    let nv = f.vars.len();
    let idom = dominators(f);
    let df = dominance_frontiers(f, idom.as_slice());
    // Which blocks define each variable (parameters are defined on entry), and how often.
    let mut defs: Vec<Vec<usize>> = Vec::new();
    let mut def_count: Vec<usize> = Vec::new();
    let mut i: usize = 0;
    while i < nv
        invariant
            i <= nv, defs@.len() == i, def_count@.len() == i,
            forall|v: int| 0 <= v < i ==> (#[trigger] defs@[v])@.len() == 0,
        decreases nv - i,
    {
        defs.push(Vec::new());
        def_count.push(0);
        i += 1;
    }
    let mut k: usize = 0;
    while k < f.params.len()
        invariant
            f.wf(), nv == f.vars@.len(), n == f.blocks@.len(),
            defs@.len() == nv, def_count@.len() == nv,
            forall|v: int, q: int| 0 <= v < nv && 0 <= q < defs@[v]@.len() ==> #[trigger] defs@[v]@[q] < n,
        decreases f.params@.len() - k,
    {
        let p = f.params[k] as usize;
        defs[p].push(0);
        let c = def_count[p];
        def_count.set(p, if c < usize::MAX { c + 1 } else { c });
        k += 1;
    }
    let mut b: usize = 0;
    while b < n
        invariant
            f.wf(), nv == f.vars@.len(), n == f.blocks@.len(), b <= n,
            defs@.len() == nv, def_count@.len() == nv,
            forall|v: int, q: int| 0 <= v < nv && 0 <= q < defs@[v]@.len() ==> #[trigger] defs@[v]@[q] < n,
        decreases n - b,
    {
        let mut q: usize = 0;
        while q < f.blocks[b].insts.len()
            invariant
                f.wf(), nv == f.vars@.len(), n == f.blocks@.len(), b < n,
                defs@.len() == nv, def_count@.len() == nv,
                forall|v: int, q: int| 0 <= v < nv && 0 <= q < defs@[v]@.len() ==> #[trigger] defs@[v]@[q] < n,
            decreases f.blocks@[b as int].insts@.len() - q,
        {
            assert(block_ok(f.blocks@[b as int], n as nat, nv as nat));
            assert(inst_ok(f.blocks@[b as int].insts@[q as int], nv as nat));
            let d = def_of(&f.blocks[b].insts[q]) as usize;
            let c = def_count[d];
            def_count.set(d, if c < usize::MAX { c + 1 } else { c });
            if !contains_usize(&defs[d], b) {
                defs[d].push(b);
                    }
            q += 1;
        }
        b += 1;
    }
    // A variable assigned more than once gets numbered versions; a single definition keeps its name.
    let mut multi: Vec<bool> = Vec::new();
    let mut v: usize = 0;
    while v < nv
        invariant v <= nv, multi@.len() == v, def_count@.len() == nv,
        decreases nv - v,
    {
        multi.push(def_count[v] > 1);
        v += 1;
    }
    let phi_vars = place_phis(&defs, &df, n, nv);
    let mut names: Vec<String> = Vec::new();
    let mut counter: Vec<u32> = Vec::new();
    let mut stacks: Vec<Vec<u32>> = Vec::new();
    let mut w: usize = 0;
    while w < nv
        invariant
            w <= nv, nv == f.vars@.len(), names@.len() == w, counter@.len() == w, stacks@.len() == w,
            forall|x: int| 0 <= x < w ==> (#[trigger] stacks@[x])@.len() == 0,
            forall|x: int| 0 <= x < w ==> #[trigger] names@[x] == f.vars@[x],
        decreases nv - w,
    {
        names.push(f.vars[w].clone());
        counter.push(0);
        stacks.push(Vec::new());
        w += 1;
    }
    // The blocks, with an empty phi for each variable merged there.
    let mut blocks: Vec<SsaBlock> = Vec::new();
    let mut b2: usize = 0;
    while b2 < n
        invariant
            f.wf(), nv == f.vars@.len(), n == f.blocks@.len(), b2 <= n, blocks@.len() == b2,
            phi_vars@.len() == n,
            forall|c: int, q: int| 0 <= c < n && 0 <= q < phi_vars@[c]@.len() ==> #[trigger] phi_vars@[c]@[q] < nv,
            forall|c: int| 0 <= c < b2 ==> ssa_block_ok(#[trigger] blocks@[c], n as nat, nv as nat),
            forall|c: int, k: int| 0 <= c < b2 && 0 <= k < blocks@[c].phis@.len() ==> (#[trigger] blocks@[c].phis@[k]).var < nv,
            forall|c: int| 0 <= c < b2 ==> (#[trigger] blocks@[c]).term == term_of(f.blocks@[c]),
            forall|c: int| 0 <= c < b2 ==> (#[trigger] blocks@[c]).insts@.len() == f.blocks@[c].insts@.len(),
        decreases n - b2,
    {
        let mut phis: Vec<Phi> = Vec::new();
        let mut q: usize = 0;
        while q < phi_vars[b2].len()
            invariant
                q <= phi_vars@[b2 as int]@.len(), b2 < n, phi_vars@.len() == n,
                forall|c: int, q: int| 0 <= c < n && 0 <= q < phi_vars@[c]@.len() ==> #[trigger] phi_vars@[c]@[q] < nv,
                forall|k: int| 0 <= k < phis@.len() ==> phi_ok(#[trigger] phis@[k], n as nat, nv as nat) && phis@[k].var < nv,
            decreases phi_vars@[b2 as int]@.len() - q,
        {
            let var = phi_vars[b2][q];
            phis.push(Phi { dst: var, var, args: Vec::new() });
            q += 1;
        }
        let mut insts: Vec<Inst> = Vec::new();
        let mut q2: usize = 0;
        assert(block_ok(f.blocks@[b2 as int], n as nat, nv as nat));
        while q2 < f.blocks[b2].insts.len()
            invariant
                f.wf(), nv == f.vars@.len(), n == f.blocks@.len(), b2 < n,
                block_ok(f.blocks@[b2 as int], n as nat, nv as nat),
                forall|k: int| 0 <= k < insts@.len() ==> inst_ok(#[trigger] insts@[k], nv as nat),
                insts@.len() == q2, q2 <= f.blocks@[b2 as int].insts@.len(),
            decreases f.blocks@[b2 as int].insts@.len() - q2,
        {
            let c = inst_clone(&f.blocks[b2].insts[q2]);
            assert(inst_ok(f.blocks@[b2 as int].insts@[q2 as int], nv as nat));
            insts.push(c);
            q2 += 1;
        }
        let term = match f.blocks[b2].term {
            Some(t) => t,
            None => Term::Return(Val::Const(0)),
        };
        let nbk = SsaBlock { phis, insts, term };
        let ghost before = blocks@;
        blocks.push(nbk);
        proof {
            assert forall|c: int| 0 <= c < b2 + 1 implies ssa_block_ok(#[trigger] blocks@[c], n as nat, nv as nat) by {
                if c < b2 { assert(blocks@[c] == before[c]); }
            }
            assert forall|c: int, k: int| 0 <= c < b2 + 1 && 0 <= k < blocks@[c].phis@.len()
                implies (#[trigger] blocks@[c].phis@[k]).var < nv by {
                if c < b2 { assert(blocks@[c] == before[c]); }
            }
            assert forall|c: int| 0 <= c < b2 + 1 implies (#[trigger] blocks@[c]).term == term_of(f.blocks@[c]) by {
                if c < b2 { assert(blocks@[c] == before[c]); }
            }
            assert forall|c: int| 0 <= c < b2 + 1 implies (#[trigger] blocks@[c]).insts@.len() == f.blocks@[c].insts@.len() by {
                if c < b2 { assert(blocks@[c] == before[c]); }
            }
        }
        b2 += 1;
    }
    // The dominator tree, as child lists.
    let mut children: Vec<Vec<usize>> = Vec::new();
    let mut c: usize = 0;
    while c < n
        invariant c <= n, children@.len() == c, forall|x: int| 0 <= x < c ==> (#[trigger] children@[x])@.len() == 0,
        decreases n - c,
    {
        children.push(Vec::new());
        c += 1;
    }
    let mut b3: usize = 1;
    while b3 < n
        invariant
            1 <= b3, idom_ok(idom@, n as nat), children@.len() == n,
            forall|x: int, k: int| 0 <= x < n && 0 <= k < children@[x]@.len() ==> #[trigger] children@[x]@[k] < n,
        decreases n - b3,
    {
        let d = idom[b3];
        if d < n {
            let ghost before = children@;
            children[d].push(b3);
            proof {
                assert forall|x: int, k: int| 0 <= x < n && 0 <= k < children@[x]@.len() implies #[trigger] children@[x]@[k] < n by {
                    if x != d as int { assert(children@[x] == before[x]); }
                    else if k < before[x]@.len() { assert(children@[x]@[k] == before[x]@[k]); }
                }
            }
        }
        b3 += 1;
    }
    let ghost names0 = names@;
    let mut r = Renamer { stacks, names, counter, multi };
    let mut k2: usize = 0;
    while k2 < f.params.len()
        invariant f.wf(), nv == f.vars@.len(), r.inv(nv as nat), r.names@ == names0,
        decreases f.params@.len() - k2,
    {
        let p = f.params[k2];
        let ghost before = r.stacks@;
        r.stacks[p as usize].push(p);
        proof { r.lemma_stack_push(before, p as int, nv as nat); }
        k2 += 1;
    }
    let ghost bs0 = blocks@;
    rename(0, &mut blocks, &children, &mut r, Ghost(nv as nat), n);
    assert forall|b: int| 0 <= b < n implies (#[trigger] blocks@[b]).insts@.len() == f.blocks@[b].insts@.len() by {
        assert(bs0[b].insts@.len() == f.blocks@[b].insts@.len());
    }
    assert forall|i: int| 0 <= i < nv implies #[trigger] r.names@[i]@ == f.vars@[i]@ by {
        assert(names0[i] == f.vars@[i]);
    }
    assert forall|b: int| 0 <= b < n implies succ_seq(#[trigger] blocks@[b].term) == succ_seq(term_of(f.blocks@[b])) by {
        assert(bs0[b].term == term_of(f.blocks@[b]));
    }
    let mut params: Vec<u32> = Vec::new();
    let mut k3: usize = 0;
    while k3 < f.params.len()
        invariant k3 <= f.params@.len(), params@ == f.params@.subrange(0, k3 as int),
        decreases f.params@.len() - k3,
    {
        params.push(f.params[k3]);
        k3 += 1;
        assert(params@ =~= f.params@.subrange(0, k3 as int));
    }
    assert(f.params@.subrange(0, f.params@.len() as int) =~= f.params@);
    let s = SsaFn { name: f.name.clone(), params, names: r.names, blocks };
    s
}


} // verus!
