//! Two classic dataflow analyses on a control-flow graph, solved by iterating to a fixpoint:
//! definite assignment (forward, "must", meet is intersection) and liveness (backward, "may",
//! meet is union). Variables are bits of a `u64`; each block is a list of definition and use
//! events plus its successors.

use vstd::prelude::*;
use vstd::string::StringExecFns;

verus! {

#[derive(Clone, Copy, PartialEq, Eq, Structural)]
pub enum Ev {
    Def(u8),
    Use(u8),
}

pub struct Cfg {
    pub names: Vec<&'static str>,
    pub blocks: Vec<(Vec<Ev>, Vec<usize>)>,
}

/// Fewer than 64 variables, every event names one of them, and every successor is a block.
pub open spec fn cfg_ok(cfg: &Cfg) -> bool {
    &&& cfg.names@.len() < 64
    &&& forall|b: int, k: int| 0 <= b < cfg.blocks@.len() && 0 <= k < cfg.blocks@[b].0@.len() ==>
            match #[trigger] cfg.blocks@[b].0@[k] { Ev::Def(v) => v < cfg.names@.len(), Ev::Use(v) => v < cfg.names@.len() }
    &&& forall|b: int, k: int| 0 <= b < cfg.blocks@.len() && 0 <= k < cfg.blocks@[b].1@.len() ==>
            #[trigger] cfg.blocks@[b].1@[k] < cfg.blocks@.len()
}

pub open spec fn bit(v: u8) -> u64 {
    1u64 << v
}

// ---------------- printing a set ----------------

/// The names of the variables in the set, comma-separated, in braces.
pub open spec fn names_in(names: Seq<&'static str>, s: u64, k: int) -> Seq<Seq<char>>
    decreases k,
{
    if k <= 0 {
        Seq::empty()
    } else {
        let rest = names_in(names, s, k - 1);
        if s & (1u64 << ((k - 1) as u64)) != 0 { rest.push(names[k - 1]@) } else { rest }
    }
}

pub open spec fn join_commas(v: Seq<Seq<char>>) -> Seq<char>
    decreases v.len(),
{
    if v.len() == 0 { Seq::empty() } else if v.len() == 1 { v[0] } else { join_commas(v.drop_last()) + ","@ + v.last() }
}

pub fn set_str(cfg: &Cfg, s: u64) -> (r: String)
    requires cfg.names@.len() < 64,
    ensures r@ == "{"@ + join_commas(names_in(cfg.names@, s, cfg.names@.len() as int)) + "}"@,
{
    let mut body = String::new();
    let ghost mut parts: Seq<Seq<char>> = Seq::empty();
    let mut first = true;
    let mut i: usize = 0;
    while i < cfg.names.len()
        invariant
            i <= cfg.names@.len(), cfg.names@.len() < 64,
            parts == names_in(cfg.names@, s, i as int), first == (parts.len() == 0),
            body@ == join_commas(parts),
        decreases cfg.names@.len() - i,
    {
        if s & (1u64 << (i as u64)) != 0 {
            if !first {
                body.append(",");
            }
            body.append(cfg.names[i]);
            first = false;
            proof {
                let p2 = parts.push(cfg.names@[i as int]@);
                assert(p2.drop_last() == parts);
                if parts.len() == 0 {
                    assert(join_commas(p2) == p2[0]);
                }
                parts = p2;
            }
        }
        i += 1;
    }
    let mut r = String::from_str("{");
    r.append(body.as_str());
    r.append("}");
    r
}

// ---------------- predecessors ----------------

/// How many times `s` occurs in `v`.
pub open spec fn count_of(v: Seq<usize>, s: usize) -> nat
    decreases v.len(),
{
    if v.len() == 0 { 0 } else { count_of(v.drop_last(), s) + if v.last() == s { 1nat } else { 0nat } }
}

/// The predecessors of block `s` among the first `n` blocks: each block once per edge to
/// `s`, in block order.
pub open spec fn preds_upto(blocks: Seq<(Vec<Ev>, Vec<usize>)>, s: usize, n: int) -> Seq<usize>
    decreases n,
{
    if n <= 0 {
        Seq::empty()
    } else {
        preds_upto(blocks, s, n - 1) + Seq::new(count_of(blocks[n - 1].1@, s), |_i: int| (n - 1) as usize)
    }
}

pub fn preds(cfg: &Cfg) -> (p: Vec<Vec<usize>>)
    requires cfg_ok(cfg),
    ensures
        p@.len() == cfg.blocks@.len(),
        forall|s: int| 0 <= s < p@.len() ==> (#[trigger] p@[s])@ == preds_upto(cfg.blocks@, s as usize, cfg.blocks@.len() as int),
{
    let n = cfg.blocks.len();
    let mut p: Vec<Vec<usize>> = Vec::new();
    let mut k: usize = 0;
    while k < n
        invariant k <= n, n == cfg.blocks@.len(), p@.len() == k, forall|s: int| 0 <= s < k ==> (#[trigger] p@[s])@ == Seq::<usize>::empty(),
        decreases n - k,
    {
        p.push(Vec::new());
        k += 1;
    }
    let mut b: usize = 0;
    while b < n
        invariant
            b <= n, n == cfg.blocks@.len(), p@.len() == n, cfg_ok(cfg),
            forall|s: int| 0 <= s < n ==> (#[trigger] p@[s])@ == preds_upto(cfg.blocks@, s as usize, b as int),
        decreases n - b,
    {
        let succs = &cfg.blocks[b].1;
        let mut j: usize = 0;
        while j < succs.len()
            invariant
                j <= succs@.len(), b < n, n == cfg.blocks@.len(), p@.len() == n, cfg_ok(cfg),
                succs@ == cfg.blocks@[b as int].1@,
                forall|s: int| 0 <= s < n ==> (#[trigger] p@[s])@ == preds_upto(cfg.blocks@, s as usize, b as int)
                    + Seq::new(count_of(succs@.subrange(0, j as int), s as usize), |_i: int| b),
            decreases succs@.len() - j,
        {
            let t = succs[j];
            assert(t < n) by { assert(cfg.blocks@[b as int].1@[j as int] < cfg.blocks@.len()); }
            let ghost p0 = p@;
            p[t].push(b);
            proof {
                assert(succs@.subrange(0, j + 1).drop_last() =~= succs@.subrange(0, j as int));
                assert forall|s: int| 0 <= s < n implies (#[trigger] p@[s])@ == preds_upto(cfg.blocks@, s as usize, b as int)
                    + Seq::new(count_of(succs@.subrange(0, j + 1), s as usize), |_i: int| b) by {
                    if s == t {
                        assert(p@[s]@ =~= p0[s]@.push(b));
                        assert(preds_upto(cfg.blocks@, s as usize, b as int) + Seq::new(count_of(succs@.subrange(0, j + 1), s as usize), |_i: int| b)
                            =~= (preds_upto(cfg.blocks@, s as usize, b as int) + Seq::new(count_of(succs@.subrange(0, j as int), s as usize), |_i: int| b)).push(b));
                    } else {
                        assert(p@[s] == p0[s]);
                        assert(Seq::new(count_of(succs@.subrange(0, j + 1), s as usize), |_i: int| b)
                            =~= Seq::new(count_of(succs@.subrange(0, j as int), s as usize), |_i: int| b));
                    }
                }
            }
            j += 1;
        }
        proof {
            assert(succs@.subrange(0, succs@.len() as int) =~= succs@);
            assert forall|s: int| 0 <= s < n implies (#[trigger] p@[s])@ == preds_upto(cfg.blocks@, s as usize, b + 1) by {
                assert(preds_upto(cfg.blocks@, s as usize, b + 1) == preds_upto(cfg.blocks@, s as usize, b as int)
                    + Seq::new(count_of(cfg.blocks@[b as int].1@, s as usize), |_i: int| b));
                assert(Seq::new(count_of(cfg.blocks@[b as int].1@, s as usize), |_i: int| ((b + 1) - 1) as usize)
                    =~= Seq::new(count_of(succs@.subrange(0, succs@.len() as int), s as usize), |_i: int| b));
            }
        }
        b += 1;
    }
    p
}

// ---------------- definite assignment ----------------

/// The variables a block defines.
pub open spec fn defs_of(evs: Seq<Ev>) -> u64
    decreases evs.len(),
{
    if evs.len() == 0 {
        0
    } else {
        defs_of(evs.drop_last()) | match evs.last() { Ev::Def(v) => bit(v), Ev::Use(_) => 0u64 }
    }
}

/// `acc` intersected with the sets of the listed blocks, in order.
pub open spec fn and_over(ps: Seq<usize>, out: Seq<u64>, acc: u64) -> u64
    decreases ps.len(),
{
    if ps.len() == 0 { acc } else { and_over(ps.drop_last(), out, acc) & out[ps.last() as int] }
}

/// The set of all variables.
pub open spec fn all_vars(cfg: &Cfg) -> u64 {
    ((1u64 << (cfg.names@.len() as u64)) - 1) as u64
}

/// What is definitely assigned on entry to block `b`, given what is on exit from every block:
/// the parameters at the entry block, otherwise what every predecessor assigns.
pub open spec fn da_in(cfg: &Cfg, out: Seq<u64>, params: u64, b: int) -> u64 {
    if b == 0 { params } else { and_over(preds_upto(cfg.blocks@, b as usize, cfg.blocks@.len() as int), out, all_vars(cfg)) }
}

/// The uses of a block that are not definitely assigned, given what is assigned on entry.
pub open spec fn unassigned_uses(evs: Seq<Ev>, cur: u64, b: usize) -> Seq<(u8, usize)>
    decreases evs.len(),
{
    if evs.len() == 0 {
        Seq::empty()
    } else {
        let rest = evs.subrange(1, evs.len() as int);
        match evs[0] {
            Ev::Def(v) => unassigned_uses(rest, cur | bit(v), b),
            Ev::Use(v) => if cur & bit(v) == 0 { seq![(v, b)] + unassigned_uses(rest, cur, b) } else { unassigned_uses(rest, cur, b) },
        }
    }
}

pub open spec fn all_unassigned(cfg: &Cfg, ins: Seq<u64>, n: int) -> Seq<(u8, usize)>
    decreases n,
{
    if n <= 0 { Seq::empty() } else { all_unassigned(cfg, ins, n - 1) + unassigned_uses(cfg.blocks@[n - 1].0@, ins[n - 1], (n - 1) as usize) }
}

fn block_defs(evs: &Vec<Ev>, nv: usize) -> (d: u64)
    requires nv < 64, forall|k: int| 0 <= k < evs@.len() ==> match #[trigger] evs@[k] { Ev::Def(v) => v < nv, Ev::Use(v) => v < nv },
    ensures d == defs_of(evs@),
{
    let mut d: u64 = 0;
    let mut k: usize = 0;
    while k < evs.len()
        invariant k <= evs@.len(), nv < 64,
            forall|q: int| 0 <= q < evs@.len() ==> match #[trigger] evs@[q] { Ev::Def(v) => v < nv, Ev::Use(v) => v < nv },
            d == defs_of(evs@.subrange(0, k as int)),
        decreases evs@.len() - k,
    {
        assert(evs@.subrange(0, k + 1).drop_last() =~= evs@.subrange(0, k as int));
        match evs[k] {
            Ev::Def(v) => { assert(v < 64); d = d | (1u64 << v); },
            Ev::Use(_) => { d = d | 0; },
        }
        k += 1;
    }
    assert(evs@.subrange(0, evs@.len() as int) =~= evs@);
    d
}

fn meet_in(preds: &Vec<usize>, out: &Vec<u64>, all: u64) -> (r: u64)
    requires forall|k: int| 0 <= k < preds@.len() ==> (#[trigger] preds@[k]) < out@.len(),
    ensures r == and_over(preds@, out@, all),
{
    let mut acc = all;
    let mut k: usize = 0;
    while k < preds.len()
        invariant k <= preds@.len(), forall|q: int| 0 <= q < preds@.len() ==> (#[trigger] preds@[q]) < out@.len(),
            acc == and_over(preds@.subrange(0, k as int), out@, all),
        decreases preds@.len() - k,
    {
        assert(preds@.subrange(0, k + 1).drop_last() =~= preds@.subrange(0, k as int));
        acc = acc & out[preds[k]];
        k += 1;
    }
    assert(preds@.subrange(0, preds@.len() as int) =~= preds@);
    acc
}

proof fn lemma_preds_in_range(cfg: &Cfg, s: usize, n: int)
    requires cfg_ok(cfg), 0 <= n <= cfg.blocks@.len(),
    ensures forall|k: int| 0 <= k < preds_upto(cfg.blocks@, s, n).len() ==> (#[trigger] preds_upto(cfg.blocks@, s, n)[k]) < n,
    decreases n,
{
    if n > 0 {
        lemma_preds_in_range(cfg, s, n - 1);
        let a = preds_upto(cfg.blocks@, s, n - 1);
        let c = Seq::new(count_of(cfg.blocks@[n - 1].1@, s), |_i: int| (n - 1) as usize);
        assert forall|k: int| 0 <= k < (a + c).len() implies #[trigger] (a + c)[k] < n by {
            if k < a.len() { assert((a + c)[k] == a[k]); } else { assert((a + c)[k] == c[k - a.len()]); }
        }
    }
}

/// One sweep over the first `b` blocks in order, each block's exit set recomputed from the
/// sets as they stand when it is reached.
pub open spec fn da_sweep(cfg: &Cfg, params: u64, out: Seq<u64>, b: int) -> Seq<u64>
    decreases b,
{
    if b <= 0 {
        out
    } else {
        let o = da_sweep(cfg, params, out, b - 1);
        o.update(b - 1, da_in(cfg, o, params, b - 1) | defs_of(cfg.blocks@[b - 1].0@))
    }
}

/// The exit sets after `k` rounds, from "everything assigned".
pub open spec fn da_iter(cfg: &Cfg, params: u64, k: nat) -> Seq<u64>
    decreases k,
{
    if k == 0 {
        Seq::new(cfg.blocks@.len(), |_q: int| all_vars(cfg))
    } else {
        da_sweep(cfg, params, da_iter(cfg, params, (k - 1) as nat), cfg.blocks@.len() as int)
    }
}

/// The number of rounds the analysis takes: the first round that changes nothing.
pub open spec fn da_rounds_ok(cfg: &Cfg, params: u64, r: nat) -> bool {
    &&& r >= 1
    &&& da_iter(cfg, params, r) == da_iter(cfg, params, (r - 1) as nat)
    &&& forall|j: nat| j + 1 < r ==> #[trigger] da_iter(cfg, params, j + 1) != da_iter(cfg, params, j)
}

/// Forward must-analysis, iterated to a fixpoint from "everything assigned": what is
/// definitely assigned on entry to each block, the number of rounds, and the uses that are
/// possibly unassigned, as (variable, block). When the rounds did not run out, the sets are
/// a fixpoint: each block's entry set is the parameters (entry block) or the intersection of
/// its predecessors' exit sets, an exit set being the entry set plus the block's definitions.
pub fn definite_assignment(cfg: &Cfg, params: u64) -> (r: (Vec<u64>, usize, Vec<(u8, usize)>))
    requires cfg_ok(cfg),
    ensures
        r.0@.len() == cfg.blocks@.len(),
        r.1 < usize::MAX ==> forall|b: int| 0 <= b < r.0@.len() ==> #[trigger] r.0@[b] == da_in(cfg,
            Seq::new(cfg.blocks@.len(), |q: int| r.0@[q] | defs_of(cfg.blocks@[q].0@)), params, b),
        r.2@ == all_unassigned(cfg, r.0@, cfg.blocks@.len() as int),
        r.1 < usize::MAX ==> da_rounds_ok(cfg, params, r.1 as nat),
{
    let n = cfg.blocks.len();
    let p = preds(cfg);
    let nv = cfg.names.len();
    let sh = nv as u64;
    assert(1u64 << sh >= 1) by (bit_vector) requires sh < 64;
    let all: u64 = (1u64 << sh) - 1;
    proof {
        assert forall|b: int| 0 <= b < n implies forall|k: int| 0 <= k < (#[trigger] p@[b])@.len() ==> (#[trigger] p@[b]@[k]) < n by {
            lemma_preds_in_range(cfg, b as usize, n as int);
        }
    }
    let mut out: Vec<u64> = Vec::new();
    let mut k: usize = 0;
    while k < n
        invariant k <= n, out@.len() == k, forall|q: int| 0 <= q < k ==> #[trigger] out@[q] == all,
        decreases n - k,
    {
        out.push(all);
        k += 1;
    }
    let mut rounds: usize = 0;
    let mut converged = false;
    assert(all == all_vars(cfg));
    assert(out@ =~= da_iter(cfg, params, 0));
    while !converged && rounds < usize::MAX
        invariant
            n == cfg.blocks@.len(), p@.len() == n, out@.len() == n, cfg_ok(cfg), nv == cfg.names@.len(), all == all_vars(cfg),
            forall|s: int| 0 <= s < n ==> (#[trigger] p@[s])@ == preds_upto(cfg.blocks@, s as usize, n as int),
            forall|b: int| 0 <= b < n ==> forall|k: int| 0 <= k < (#[trigger] p@[b])@.len() ==> (#[trigger] p@[b]@[k]) < n,
            converged ==> forall|b: int| 0 <= b < n ==> #[trigger] out@[b] == da_in(cfg, out@, params, b) | defs_of(cfg.blocks@[b].0@),
            out@ == da_iter(cfg, params, rounds as nat),
            converged ==> rounds >= 1 && da_iter(cfg, params, rounds as nat) == da_iter(cfg, params, (rounds - 1) as nat),
            forall|j: nat| j < rounds && (j + 1 < rounds || !converged) ==> #[trigger] da_iter(cfg, params, j + 1) != da_iter(cfg, params, j),
        decreases usize::MAX - rounds, if converged { 0int } else { 1int },
    {
        rounds += 1;
        let mut changed = false;
        let ghost out0 = out@;
        let mut b: usize = 0;
        while b < n
            invariant
                b <= n, n == cfg.blocks@.len(), p@.len() == n, out@.len() == n, cfg_ok(cfg), nv == cfg.names@.len(),
                all == all_vars(cfg),
                forall|s: int| 0 <= s < n ==> (#[trigger] p@[s])@ == preds_upto(cfg.blocks@, s as usize, n as int),
                forall|b: int| 0 <= b < n ==> forall|k: int| 0 <= k < (#[trigger] p@[b])@.len() ==> (#[trigger] p@[b]@[k]) < n,
                !changed ==> out@ == out0,
                !changed ==> forall|q: int| 0 <= q < b ==> #[trigger] out@[q] == da_in(cfg, out@, params, q) | defs_of(cfg.blocks@[q].0@),
                out@ == da_sweep(cfg, params, out0, b as int),
                out0.len() == n,
                forall|q: int| b <= q < n ==> #[trigger] out@[q] == out0[q],
                changed ==> exists|q: int| 0 <= q < b && #[trigger] out@[q] != out0[q],
            decreases n - b,
        {
            let inn = if b == 0 { params } else { meet_in(&p[b], &out, all) };
            let defs = block_defs(&cfg.blocks[b].0, nv);
            let new = inn | defs;
            let ghost o = out@;
            if new != out[b] {
                out.set(b, new);
                changed = true;
                assert(out@[b as int] != out0[b as int]);
            }
            proof {
                assert(out@ =~= o.update(b as int, da_in(cfg, o, params, b as int) | defs_of(cfg.blocks@[b as int].0@)));
                if changed {
                    let q = choose|q: int| 0 <= q < b + 1 && #[trigger] out@[q] != out0[q];
                }
            }
            b += 1;
        }
        proof {
            if changed {
                let q = choose|q: int| 0 <= q < n && #[trigger] out@[q] != out0[q];
                assert(out@ != out0);
            }
            assert(da_iter(cfg, params, rounds as nat) == da_sweep(cfg, params, da_iter(cfg, params, (rounds - 1) as nat), n as int));
        }
        if !changed {
            converged = true;
        }
    }
    // entry sets, and the uses that are not definitely assigned
    let mut ins: Vec<u64> = Vec::new();
    let mut errs: Vec<(u8, usize)> = Vec::new();
    let mut b: usize = 0;
    while b < n
        invariant
            b <= n, n == cfg.blocks@.len(), p@.len() == n, out@.len() == n, cfg_ok(cfg), nv == cfg.names@.len(),
            all == all_vars(cfg), ins@.len() == b,
            forall|s: int| 0 <= s < n ==> (#[trigger] p@[s])@ == preds_upto(cfg.blocks@, s as usize, n as int),
            forall|b: int| 0 <= b < n ==> forall|k: int| 0 <= k < (#[trigger] p@[b])@.len() ==> (#[trigger] p@[b]@[k]) < n,
            forall|q: int| 0 <= q < b ==> #[trigger] ins@[q] == da_in(cfg, out@, params, q),
            errs@ == all_unassigned(cfg, ins@, b as int),
        decreases n - b,
    {
        let start = if b == 0 { params } else { meet_in(&p[b], &out, all) };
        let mut cur = start;
        let ghost ins_old = ins@;
        ins.push(start);
        let evs = &cfg.blocks[b].0;
        let ghost e0 = errs@;
        let mut k: usize = 0;
        assert(evs@.subrange(0, evs@.len() as int) =~= evs@);
        while k < evs.len()
            invariant
                k <= evs@.len(), evs@ == cfg.blocks@[b as int].0@, b < n, n == cfg.blocks@.len(), cfg_ok(cfg),
                nv == cfg.names@.len(),
                errs@ + unassigned_uses(evs@.subrange(k as int, evs@.len() as int), cur, b)
                    == e0 + unassigned_uses(evs@, start, b),
            decreases evs@.len() - k,
        {
            let ghost rest = evs@.subrange(k as int, evs@.len() as int);
            assert(rest.subrange(1, rest.len() as int) =~= evs@.subrange(k + 1, evs@.len() as int));
            assert(rest[0] == evs@[k as int]);
            match evs[k] {
                Ev::Def(v) => {
                    assert(v < 64) by { assert(match cfg.blocks@[b as int].0@[k as int] { Ev::Def(v) => v < nv, Ev::Use(v) => v < nv }); }
                    cur = cur | (1u64 << v);
                },
                Ev::Use(v) => {
                    assert(v < 64) by { assert(match cfg.blocks@[b as int].0@[k as int] { Ev::Def(v) => v < nv, Ev::Use(v) => v < nv }); }
                    if cur & (1u64 << v) == 0 {
                        let ghost before = errs@;
                        errs.push((v, b));
                        assert(errs@ + unassigned_uses(evs@.subrange(k + 1, evs@.len() as int), cur, b)
                            =~= before + (seq![(v, b)] + unassigned_uses(evs@.subrange(k + 1, evs@.len() as int), cur, b)));
                    }
                },
            }
            k += 1;
        }
        proof {
            assert(evs@.subrange(evs@.len() as int, evs@.len() as int) =~= Seq::<Ev>::empty());
            assert(errs@ =~= e0 + unassigned_uses(evs@, start, b));
            assert(all_unassigned(cfg, ins@, b + 1) == all_unassigned(cfg, ins@, b as int)
                + unassigned_uses(cfg.blocks@[b as int].0@, ins@[b as int], b));
            lemma_unassigned_same(cfg, ins@, ins_old, b as int);
        }
        b += 1;
    }
    proof {
        if rounds < usize::MAX {
            let outs = Seq::new(n as nat, |q: int| ins@[q] | defs_of(cfg.blocks@[q].0@));
            assert(outs =~= out@);
        }
    }
    (ins, rounds, errs)
}

/// The reports for the first `m` blocks depend only on their entry sets.
proof fn lemma_unassigned_same(cfg: &Cfg, a: Seq<u64>, b: Seq<u64>, m: int)
    requires 0 <= m <= a.len(), m <= b.len(), forall|q: int| 0 <= q < m ==> a[q] == b[q],
    ensures all_unassigned(cfg, a, m) == all_unassigned(cfg, b, m),
    decreases m,
{
    if m > 0 {
        lemma_unassigned_same(cfg, a, b, m - 1);
    }
}

// ---------------- liveness ----------------

/// The union of the sets of the listed blocks, in order.
pub open spec fn or_over(ss: Seq<usize>, live: Seq<u64>) -> u64
    decreases ss.len(),
{
    if ss.len() == 0 { 0 } else { or_over(ss.drop_last(), live) | live[ss.last() as int] }
}

/// Walking a block backward from what is live at its end: a definition kills its variable,
/// a use makes it live.
pub open spec fn back_transfer(evs: Seq<Ev>, live: u64) -> u64
    decreases evs.len(),
{
    if evs.len() == 0 {
        live
    } else {
        let x = match evs.last() { Ev::Def(v) => live & !bit(v), Ev::Use(v) => live | bit(v) };
        back_transfer(evs.drop_last(), x)
    }
}

/// What is live on entry to block `b`, given what is live on entry to every block.
pub open spec fn live_in_of(cfg: &Cfg, live: Seq<u64>, b: int) -> u64 {
    back_transfer(cfg.blocks@[b].0@, or_over(cfg.blocks@[b].1@, live))
}

/// One backward sweep over the blocks from the last down to `b`, each block's set
/// recomputed from the sets as they stand when it is reached.
pub open spec fn lv_sweep(cfg: &Cfg, live: Seq<u64>, b: int) -> Seq<u64>
    decreases cfg.blocks@.len() - b,
{
    if b < 0 || b >= cfg.blocks@.len() {
        live
    } else {
        let o = lv_sweep(cfg, live, b + 1);
        o.update(b, live_in_of(cfg, o, b))
    }
}

/// The sets after `k` rounds, from "nothing live".
pub open spec fn lv_iter(cfg: &Cfg, k: nat) -> Seq<u64>
    decreases k,
{
    if k == 0 {
        Seq::new(cfg.blocks@.len(), |_q: int| 0u64)
    } else {
        lv_sweep(cfg, lv_iter(cfg, (k - 1) as nat), 0)
    }
}

/// The number of rounds the analysis takes: the first round that changes nothing.
pub open spec fn lv_rounds_ok(cfg: &Cfg, r: nat) -> bool {
    &&& r >= 1
    &&& lv_iter(cfg, r) == lv_iter(cfg, (r - 1) as nat)
    &&& forall|j: nat| j + 1 < r ==> #[trigger] lv_iter(cfg, j + 1) != lv_iter(cfg, j)
}

/// Backward may-analysis, iterated to a fixpoint from "nothing live": what is live on entry
/// to each block, and the number of rounds. When the rounds did not run out, each block's
/// set is what its events make of the union of its successors' sets.
pub fn liveness(cfg: &Cfg) -> (r: (Vec<u64>, usize))
    requires cfg_ok(cfg),
    ensures
        r.0@.len() == cfg.blocks@.len(),
        r.1 < usize::MAX ==> forall|b: int| 0 <= b < r.0@.len() ==> #[trigger] r.0@[b] == live_in_of(cfg, r.0@, b),
        r.1 < usize::MAX ==> lv_rounds_ok(cfg, r.1 as nat),
{
    let n = cfg.blocks.len();
    let mut live_in: Vec<u64> = Vec::new();
    let mut k: usize = 0;
    while k < n
        invariant k <= n, live_in@.len() == k, forall|q: int| 0 <= q < k ==> #[trigger] live_in@[q] == 0,
        decreases n - k,
    {
        live_in.push(0);
        k += 1;
    }
    let mut rounds: usize = 0;
    let mut converged = false;
    assert(live_in@ =~= lv_iter(cfg, 0));
    while !converged && rounds < usize::MAX
        invariant
            n == cfg.blocks@.len(), live_in@.len() == n, cfg_ok(cfg),
            converged ==> forall|b: int| 0 <= b < n ==> #[trigger] live_in@[b] == live_in_of(cfg, live_in@, b),
            live_in@ == lv_iter(cfg, rounds as nat),
            converged ==> rounds >= 1 && lv_iter(cfg, rounds as nat) == lv_iter(cfg, (rounds - 1) as nat),
            forall|j: nat| j < rounds && (j + 1 < rounds || !converged) ==> #[trigger] lv_iter(cfg, j + 1) != lv_iter(cfg, j),
        decreases usize::MAX - rounds, if converged { 0int } else { 1int },
    {
        rounds += 1;
        let mut changed = false;
        let ghost l0 = live_in@;
        let mut b: usize = n;
        while b > 0
            invariant
                b <= n, n == cfg.blocks@.len(), live_in@.len() == n, cfg_ok(cfg),
                !changed ==> live_in@ == l0,
                !changed ==> forall|q: int| b <= q < n ==> #[trigger] live_in@[q] == live_in_of(cfg, live_in@, q),
                live_in@ == lv_sweep(cfg, l0, b as int),
                l0.len() == n,
                forall|q: int| 0 <= q < b ==> #[trigger] live_in@[q] == l0[q],
                changed ==> exists|q: int| b <= q < n && #[trigger] live_in@[q] != l0[q],
            decreases b,
        {
            b -= 1;
            let ghost o = live_in@;
            let succs = &cfg.blocks[b].1;
            let mut live: u64 = 0;
            let mut j: usize = 0;
            while j < succs.len()
                invariant
                    j <= succs@.len(), succs@ == cfg.blocks@[b as int].1@, b < n, n == cfg.blocks@.len(),
                    live_in@.len() == n, cfg_ok(cfg),
                    live == or_over(succs@.subrange(0, j as int), live_in@),
                decreases succs@.len() - j,
            {
                assert(succs@.subrange(0, j + 1).drop_last() =~= succs@.subrange(0, j as int));
                let t = succs[j];
                assert(t < n) by { assert(cfg.blocks@[b as int].1@[j as int] < cfg.blocks@.len()); }
                live = live | live_in[t];
                j += 1;
            }
            assert(succs@.subrange(0, succs@.len() as int) =~= succs@);
            let evs = &cfg.blocks[b].0;
            let mut k: usize = evs.len();
            let ghost start = live;
            assert(evs@.subrange(0, evs@.len() as int) =~= evs@);
            while k > 0
                invariant
                    k <= evs@.len(), evs@ == cfg.blocks@[b as int].0@, b < n, n == cfg.blocks@.len(), cfg_ok(cfg),
                    back_transfer(evs@, start) == back_transfer(evs@.subrange(0, k as int), live),
                decreases k,
            {
                let ghost pre = evs@.subrange(0, k as int);
                assert(pre.drop_last() =~= evs@.subrange(0, k - 1));
                k -= 1;
                match evs[k] {
                    Ev::Def(v) => {
                        assert(v < 64) by { assert(match cfg.blocks@[b as int].0@[k as int] { Ev::Def(v) => v < cfg.names@.len(), Ev::Use(v) => v < cfg.names@.len() }); }
                        live = live & !(1u64 << v);
                    },
                    Ev::Use(v) => {
                        assert(v < 64) by { assert(match cfg.blocks@[b as int].0@[k as int] { Ev::Def(v) => v < cfg.names@.len(), Ev::Use(v) => v < cfg.names@.len() }); }
                        live = live | (1u64 << v);
                    },
                }
            }
            assert(evs@.subrange(0, 0) =~= Seq::<Ev>::empty());
            if live != live_in[b] {
                live_in.set(b, live);
                changed = true;
                assert(live_in@[b as int] != l0[b as int]);
            }
            proof {
                assert(live_in@ =~= o.update(b as int, live_in_of(cfg, o, b as int)));
                if changed {
                    let q = choose|q: int| b + 1 <= q < n && #[trigger] live_in@[q] != l0[q];
                }
            }
        }
        proof {
            if changed {
                let q = choose|q: int| 0 <= q < n && #[trigger] live_in@[q] != l0[q];
                assert(live_in@ != l0);
            }
            assert(lv_iter(cfg, rounds as nat) == lv_sweep(cfg, lv_iter(cfg, (rounds - 1) as nat), 0));
        }
        if !changed {
            converged = true;
        }
    }
    (live_in, rounds)
}

} // verus!
