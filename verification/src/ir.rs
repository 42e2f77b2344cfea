//! Three-address code in basic blocks, with the CFG analyses built on it: predecessors,
//! reverse postorder, dominators (Cooper, Harvey & Kennedy) and dominance frontiers.

use vstd::prelude::*;
use vstd::string::StringExecFns;
use crate::ore::{BinOp, UnOp};
use crate::text::{ascii_chars, int_text, int_to_string};
use crate::wrap::{b2i, wadd, wdiv, wmul, wneg, wrem, wsub, wrapping_div, wrapping_rem, wrapping_neg, bool_to_i64};
use crate::wrap::{lemma_wadd_exact, lemma_wsub_exact, lemma_wmul_exact, lemma_wdiv_wrem_meaning};

verus! {

#[derive(Debug, Clone, Copy, PartialEq, Eq, Structural)]
pub enum Val {
    Var(u32),
    Const(i64),
}

#[derive(Debug)]
pub enum Inst {
    Copy { dst: u32, src: Val },
    /// Never `And`/`Or`: those are control flow.
    Bin { dst: u32, op: BinOp, a: Val, b: Val },
    Un { dst: u32, op: UnOp, a: Val },
    Call { dst: u32, func: String, args: Vec<Val> },
}

#[derive(Debug, Clone, Copy, PartialEq, Eq, Structural)]
pub enum Term {
    Jump(usize),
    Branch { cond: Val, then: usize, els: usize },
    Return(Val),
}

#[derive(Debug)]
pub struct BasicBlock {
    pub insts: Vec<Inst>,
    pub term: Option<Term>,
}

#[derive(Debug)]
pub struct FnIr {
    pub name: String,
    pub params: Vec<u32>,
    pub vars: Vec<String>,
    pub blocks: Vec<BasicBlock>,
}

/// The successors a terminator names, in order.
pub open spec fn succ_seq(t: Term) -> Seq<usize> {
    match t {
        Term::Jump(t) => seq![t],
        Term::Branch { then, els, .. } => seq![then, els],
        Term::Return(_) => Seq::empty(),
    }
}

impl Term {
    pub fn succs(&self) -> (r: Vec<usize>)
        ensures r@ == succ_seq(*self),
    {
        match self {
            Term::Jump(t) => {
                let mut v = Vec::new();
                v.push(*t);
                assert(v@ =~= seq![*t]);
                v
            },
            Term::Branch { then, els, .. } => {
                let mut v = Vec::new();
                v.push(*then);
                v.push(*els);
                assert(v@ =~= seq![*then, *els]);
                v
            },
            Term::Return(_) => Vec::new(),
        }
    }
}

// ---------------- well-formedness ----------------

pub open spec fn val_ok(v: Val, nvars: nat) -> bool {
    v matches Val::Var(x) ==> x < nvars
}

/// The values an instruction reads, in order.
pub open spec fn inst_operands(i: Inst) -> Seq<Val> {
    match i {
        Inst::Copy { src, .. } => seq![src],
        Inst::Bin { a, b, .. } => seq![a, b],
        Inst::Un { a, .. } => seq![a],
        Inst::Call { args, .. } => args@,
    }
}

/// The variable an instruction defines.
pub open spec fn inst_dst(i: Inst) -> u32 {
    match i {
        Inst::Copy { dst, .. } => dst,
        Inst::Bin { dst, .. } => dst,
        Inst::Un { dst, .. } => dst,
        Inst::Call { dst, .. } => dst,
    }
}

/// An instruction's variables are in range, and it is no `&&`/`||` (those are control flow).
pub open spec fn inst_ok(i: Inst, nvars: nat) -> bool {
    &&& inst_dst(i) < nvars
    &&& forall|k: int| 0 <= k < inst_operands(i).len() ==> val_ok(#[trigger] inst_operands(i)[k], nvars)
    &&& i matches Inst::Bin { op, .. } ==> op != BinOp::And && op != BinOp::Or
}

pub open spec fn term_ok(t: Term, nblocks: nat, nvars: nat) -> bool {
    match t {
        Term::Jump(t) => t < nblocks,
        Term::Branch { cond, then, els } => val_ok(cond, nvars) && then < nblocks && els < nblocks,
        Term::Return(v) => val_ok(v, nvars),
    }
}

pub open spec fn block_ok(b: BasicBlock, nblocks: nat, nvars: nat) -> bool {
    &&& forall|k: int| 0 <= k < b.insts@.len() ==> inst_ok(#[trigger] b.insts@[k], nvars)
    &&& b.term matches Some(t) && term_ok(t, nblocks, nvars)
}

/// The terminator of a block of a well-formed function.
pub open spec fn term_of(b: BasicBlock) -> Term {
    match b.term {
        Some(t) => t,
        None => Term::Return(Val::Const(0)),
    }
}

/// Every block is terminated, and every edge leads to a block (an empty CFG qualifies).
pub open spec fn edges_ok(blocks: Seq<BasicBlock>) -> bool {
    &&& forall|b: int| 0 <= b < blocks.len() ==> (#[trigger] blocks[b]).term is Some
    &&& forall|b: int, k: int| 0 <= b < blocks.len() && 0 <= k < succ_seq(term_of(blocks[b])).len()
        ==> (#[trigger] succ_seq(term_of(blocks[b]))[k]) < blocks.len()
}

/// Blocks whose terminators all exist and name blocks in range.
pub open spec fn cfg_ok(blocks: Seq<BasicBlock>) -> bool {
    &&& blocks.len() >= 1
    &&& forall|b: int| 0 <= b < blocks.len() ==> (#[trigger] blocks[b]).term is Some
    &&& forall|b: int, k: int| 0 <= b < blocks.len() && 0 <= k < succ_seq(term_of(blocks[b])).len()
        ==> (#[trigger] succ_seq(term_of(blocks[b]))[k]) < blocks.len()
}

impl FnIr {
    /// Every block is terminated, and every block index and variable id is in range.
    pub open spec fn wf(&self) -> bool {
        &&& self.blocks@.len() >= 1
        &&& self.vars@.len() <= u32::MAX
        &&& forall|k: int| 0 <= k < self.params@.len() ==> (#[trigger] self.params@[k]) < self.vars@.len()
        &&& forall|b: int| 0 <= b < self.blocks@.len()
            ==> block_ok(#[trigger] self.blocks@[b], self.blocks@.len(), self.vars@.len())
    }
}

pub proof fn lemma_wf_cfg(f: &FnIr)
    requires f.wf(),
    ensures cfg_ok(f.blocks@),
{
    assert forall|b: int| 0 <= b < f.blocks@.len() implies (#[trigger] f.blocks@[b]).term is Some by {
        assert(block_ok(f.blocks@[b], f.blocks@.len(), f.vars@.len()));
    }
    assert forall|b: int, k: int| 0 <= b < f.blocks@.len() && 0 <= k < succ_seq(term_of(f.blocks@[b])).len()
        implies (#[trigger] succ_seq(term_of(f.blocks@[b]))[k]) < f.blocks@.len() by {
        assert(block_ok(f.blocks@[b], f.blocks@.len(), f.vars@.len()));
    }
}

// ---------------- small helpers ----------------

pub fn val_clone_vec(v: &Vec<Val>) -> (r: Vec<Val>)
    ensures r@ == v@,
{
    let mut out: Vec<Val> = Vec::new();
    let mut i: usize = 0;
    while i < v.len()
        invariant i <= v@.len(), out@ == v@.subrange(0, i as int),
        decreases v@.len() - i,
    {
        out.push(v[i]);
        i += 1;
        assert(out@ =~= v@.subrange(0, i as int));
    }
    assert(v@.subrange(0, v@.len() as int) =~= v@);
    out
}

/// Two instructions that do the same thing: equal but for where a call's name and arguments
/// are stored.
pub open spec fn same_inst(a: Inst, b: Inst) -> bool {
    match (a, b) {
        (Inst::Call { dst: d1, func: f1, args: a1 }, Inst::Call { dst: d2, func: f2, args: a2 }) =>
            d1 == d2 && f1@ == f2@ && a1@ == a2@,
        (Inst::Call { .. }, _) => false,
        (_, Inst::Call { .. }) => false,
        _ => a == b,
    }
}

/// A copy of an instruction.
pub fn inst_clone(i: &Inst) -> (r: Inst)
    ensures same_inst(r, *i), inst_dst(r) == inst_dst(*i), inst_operands(r) == inst_operands(*i),
{
    match i {
        Inst::Copy { dst, src } => Inst::Copy { dst: *dst, src: *src },
        Inst::Bin { dst, op, a, b } => Inst::Bin { dst: *dst, op: *op, a: *a, b: *b },
        Inst::Un { dst, op, a } => Inst::Un { dst: *dst, op: *op, a: *a },
        Inst::Call { dst, func, args } => {
            let args2 = val_clone_vec(args);
            Inst::Call { dst: *dst, func: func.clone(), args: args2 }
        },
    }
}

/// The variable an instruction defines.
pub fn def_of(i: &Inst) -> (d: u32)
    ensures d == inst_dst(*i),
{
    match i {
        Inst::Copy { dst, .. } | Inst::Bin { dst, .. } | Inst::Un { dst, .. } | Inst::Call { dst, .. } => *dst,
    }
}

/// The values an instruction reads.
pub fn operands(i: &Inst) -> (r: Vec<Val>)
    ensures r@ == inst_operands(*i),
{
    match i {
        Inst::Copy { src, .. } => {
            let mut v = Vec::new();
            v.push(*src);
            assert(v@ =~= seq![*src]);
            v
        },
        Inst::Bin { a, b, .. } => {
            let mut v = Vec::new();
            v.push(*a);
            v.push(*b);
            assert(v@ =~= seq![*a, *b]);
            v
        },
        Inst::Un { a, .. } => {
            let mut v = Vec::new();
            v.push(*a);
            assert(v@ =~= seq![*a]);
            v
        },
        Inst::Call { args, .. } => val_clone_vec(args),
    }
}

// ---------------- the meaning of an operation ----------------

/// What a binary operator computes on two values, `None` where it traps (division or
/// remainder by zero) or is not an instruction at all (`&&`, `||`).
pub open spec fn bin_value(op: BinOp, x: i64, y: i64) -> Option<i64> {
    match op {
        BinOp::Add => Some(wadd(x, y)),
        BinOp::Sub => Some(wsub(x, y)),
        BinOp::Mul => Some(wmul(x, y)),
        BinOp::Div => if y == 0 { None } else { Some(wdiv(x, y)) },
        BinOp::Rem => if y == 0 { None } else { Some(wrem(x, y)) },
        BinOp::Eq => Some(b2i(x == y)),
        BinOp::Ne => Some(b2i(x != y)),
        BinOp::Lt => Some(b2i(x < y)),
        BinOp::Le => Some(b2i(x <= y)),
        BinOp::Gt => Some(b2i(x > y)),
        BinOp::Ge => Some(b2i(x >= y)),
        BinOp::And | BinOp::Or => None,
    }
}

/// What the interpreters' binary operators mean: a comparison gives 1 exactly when the relation holds between the
/// integers and 0 otherwise; a sum, difference or product that fits is exact; division and
/// remainder by zero have no value, and otherwise (but for `i64::MIN / -1`) the dividend is
/// quotient times divisor plus a remainder smaller than the divisor and of the dividend's
/// sign; `&&` and `||` are not arithmetic.
pub proof fn lemma_bin_value_meaning(x: i64, y: i64)
    ensures
        bin_value(BinOp::Lt, x, y) == Some(if x < y { 1i64 } else { 0i64 }),
        bin_value(BinOp::Le, x, y) == Some(if x <= y { 1i64 } else { 0i64 }),
        bin_value(BinOp::Gt, x, y) == Some(if x > y { 1i64 } else { 0i64 }),
        bin_value(BinOp::Ge, x, y) == Some(if x >= y { 1i64 } else { 0i64 }),
        bin_value(BinOp::Eq, x, y) == Some(if x == y { 1i64 } else { 0i64 }),
        bin_value(BinOp::Ne, x, y) == Some(if x != y { 1i64 } else { 0i64 }),
        i64::MIN <= x + y <= i64::MAX ==> bin_value(BinOp::Add, x, y) == Some((x + y) as i64),
        i64::MIN <= x - y <= i64::MAX ==> bin_value(BinOp::Sub, x, y) == Some((x - y) as i64),
        i64::MIN <= x * y <= i64::MAX ==> bin_value(BinOp::Mul, x, y) == Some((x * y) as i64),
        y == 0 ==> bin_value(BinOp::Div, x, y) is None && bin_value(BinOp::Rem, x, y) is None,
        y != 0 && !(x == i64::MIN && y == -1) ==> (bin_value(BinOp::Div, x, y) matches Some(q)
            && bin_value(BinOp::Rem, x, y) matches Some(r) && x == q * y + r
            && (if r < 0 { -r } else { r as int }) < (if y < 0 { -y } else { y as int })
            && (r == 0 || ((r < 0) == (x < 0)))),
        bin_value(BinOp::And, x, y) is None && bin_value(BinOp::Or, x, y) is None,
{
    if i64::MIN <= x + y <= i64::MAX { lemma_wadd_exact(x, y); }
    if i64::MIN <= x - y <= i64::MAX { lemma_wsub_exact(x, y); }
    if i64::MIN <= x * y <= i64::MAX { lemma_wmul_exact(x, y); }
    if y != 0 && !(x == i64::MIN && y == -1) { lemma_wdiv_wrem_meaning(x, y); }
}

/// What a unary operator computes: wrapping negation, or logical not of "nonzero".
pub open spec fn un_value(op: UnOp, x: i64) -> i64 {
    if op == UnOp::Neg { wneg(x) } else { b2i(x == 0) }
}

/// What the interpreters' unary operators mean: negation is exact for every value but
/// `i64::MIN`, and `!` gives 1 for 0 and 0 for anything else.
pub proof fn lemma_un_value_meaning(x: i64)
    ensures
        x != i64::MIN ==> un_value(UnOp::Neg, x) == -x,
        un_value(UnOp::Not, x) == (if x == 0 { 1i64 } else { 0i64 }),
{
}

/// Constant folding: the value of `x op y`, or `None` where the operation must stay to trap
/// at run time.
pub fn fold(op: BinOp, x: i64, y: i64) -> (r: Option<i64>)
    ensures r == bin_value(op, x, y),
{
    match op {
        BinOp::Add => Some(x.wrapping_add(y)),
        BinOp::Sub => Some(x.wrapping_sub(y)),
        BinOp::Mul => Some(x.wrapping_mul(y)),
        BinOp::Div => if y == 0 { None } else { Some(wrapping_div(x, y)) },
        BinOp::Rem => if y == 0 { None } else { Some(wrapping_rem(x, y)) },
        BinOp::Eq => Some(bool_to_i64(x == y)),
        BinOp::Ne => Some(bool_to_i64(x != y)),
        BinOp::Lt => Some(bool_to_i64(x < y)),
        BinOp::Le => Some(bool_to_i64(x <= y)),
        BinOp::Gt => Some(bool_to_i64(x > y)),
        BinOp::Ge => Some(bool_to_i64(x >= y)),
        BinOp::And | BinOp::Or => None,
    }
}

pub fn unary(op: UnOp, x: i64) -> (r: i64)
    ensures r == un_value(op, x),
{
    if op == UnOp::Neg { wrapping_neg(x) } else { bool_to_i64(x == 0) }
}

/// Whether executing an instruction can fail: division by a value that might be zero, and
/// calls (which may trap or not return).
pub open spec fn traps(i: Inst) -> bool {
    match i {
        Inst::Bin { op, b, .. } => (op == BinOp::Div || op == BinOp::Rem) && !(b matches Val::Const(c) && c != 0),
        Inst::Call { .. } => true,
        _ => false,
    }
}

pub fn may_trap(i: &Inst) -> (r: bool)
    ensures r == traps(*i),
{
    match i {
        Inst::Bin { op, b, .. } => match op {
            BinOp::Div | BinOp::Rem => match b {
                Val::Const(c) => *c == 0,
                Val::Var(_) => true,
            },
            _ => false,
        },
        Inst::Call { .. } => true,
        _ => false,
    }
}

/// The text of a value: a variable's name, or a constant's numeral.
pub fn val(f: &FnIr, v: Val) -> (s: String)
    requires val_ok(v, f.vars@.len()),
    ensures
        v matches Val::Var(x) ==> s@ == f.vars@[x as int]@,
        v matches Val::Const(c) ==> s@ == ascii_chars(int_text(c as int)),
{
    match v {
        Val::Var(x) => f.vars[x as usize].clone(),
        Val::Const(c) => int_to_string(c),
    }
}

// ---------------- predecessors ----------------

/// How many times a terminator names block `s` as a successor.
pub open spec fn hits(t: Term, s: usize) -> nat {
    match t {
        Term::Jump(x) => if x == s { 1nat } else { 0nat },
        Term::Branch { then, els, .. } => (if then == s { 1nat } else { 0nat }) + (if els == s { 1nat } else { 0nat }),
        Term::Return(_) => 0nat,
    }
}

/// The predecessors of `s` among the first `upto` blocks, in block order, a block listed once
/// per edge.
pub open spec fn preds_upto(blocks: Seq<BasicBlock>, s: usize, upto: int) -> Seq<usize>
    decreases upto,
{
    if upto <= 0 {
        Seq::empty()
    } else {
        preds_upto(blocks, s, upto - 1) + Seq::new(hits(term_of(blocks[upto - 1]), s), |_i: int| (upto - 1) as usize)
    }
}

/// For each block, the blocks that jump or branch to it.
pub fn preds(f: &FnIr) -> (p: Vec<Vec<usize>>)
    requires edges_ok(f.blocks@),
    ensures
        p@.len() == f.blocks@.len(),
        forall|s: int| 0 <= s < p@.len() ==> (#[trigger] p@[s])@ == preds_upto(f.blocks@, s as usize, f.blocks@.len() as int),
        forall|s: int, k: int| 0 <= s < p@.len() && 0 <= k < p@[s]@.len() ==> #[trigger] p@[s]@[k] < f.blocks@.len(),
{
    let n = f.blocks.len();
    let mut p: Vec<Vec<usize>> = Vec::new();
    let mut i: usize = 0;
    while i < n
        invariant i <= n, p@.len() == i, forall|s: int| 0 <= s < i ==> (#[trigger] p@[s])@.len() == 0,
        decreases n - i,
    {
        p.push(Vec::new());
        i += 1;
    }
    let mut b: usize = 0;
    while b < n
        invariant
            n == f.blocks@.len(), edges_ok(f.blocks@), b <= n, p@.len() == n,
            forall|s: int| 0 <= s < n ==> (#[trigger] p@[s])@ == preds_upto(f.blocks@, s as usize, b as int),
            forall|s: int, k: int| 0 <= s < n && 0 <= k < p@[s]@.len() ==> #[trigger] p@[s]@[k] < n,
        decreases n - b,
    {
        assert(f.blocks@[b as int].term is Some);
        let t = match f.blocks[b].term { Some(t) => t, None => Term::Return(Val::Const(0)) };
        assert(t == term_of(f.blocks@[b as int]));
        let ghost before = p@;
        match t {
            Term::Jump(x) => {
                assert(succ_seq(t)[0] == x);
                p[x].push(b);
            },
            Term::Branch { then, els, .. } => {
                assert(succ_seq(t)[0] == then);
                assert(succ_seq(t)[1] == els);
                p[then].push(b);
                p[els].push(b);
            },
            Term::Return(_) => {},
        }
        assert forall|s: int| 0 <= s < n implies (#[trigger] p@[s])@ == preds_upto(f.blocks@, s as usize, (b + 1) as int) by {
            let c = Seq::new(hits(t, s as usize), |_i: int| b);
            assert(preds_upto(f.blocks@, s as usize, (b + 1) as int) == before[s]@ + c);
            assert(p@[s]@ =~= before[s]@ + c);
        }
        b += 1;
    }
    p
}

// ---------------- reverse postorder ----------------

/// How many blocks are not yet visited.
pub open spec fn unseen(s: Seq<bool>) -> nat
    decreases s.len(),
{
    if s.len() == 0 { 0 } else { unseen(s.drop_last()) + if s.last() { 0nat } else { 1nat } }
}

proof fn lemma_unseen_mono(a: Seq<bool>, b: Seq<bool>)
    requires a.len() == b.len(), forall|i: int| 0 <= i < a.len() && a[i] ==> b[i],
    ensures unseen(b) <= unseen(a),
    decreases a.len(),
{
    if a.len() > 0 {
        lemma_unseen_mono(a.drop_last(), b.drop_last());
    }
}

proof fn lemma_unseen_mark(a: Seq<bool>, i: int)
    requires 0 <= i < a.len(), !a[i],
    ensures unseen(a.update(i, true)) < unseen(a),
    decreases a.len(),
{
    if i < a.len() - 1 {
        lemma_unseen_mark(a.drop_last(), i);
        assert(a.update(i, true).drop_last() =~= a.drop_last().update(i, true));
    } else {
        assert(a.update(i, true).drop_last() =~= a.drop_last());
    }
}

/// Block `b` is a successor of block `a`.
pub open spec fn cfg_succ(bl: Seq<BasicBlock>, a: int, b: int) -> bool {
    0 <= a < bl.len() && exists|j: int| 0 <= j < succ_seq(term_of(bl[a])).len() && #[trigger] succ_seq(term_of(bl[a]))[j] == b
}

/// A path of blocks from the entry, each a successor of the one before.
pub open spec fn cfg_path(bl: Seq<BasicBlock>, p: Seq<int>) -> bool {
    &&& p.len() >= 1
    &&& p[0] == 0
    &&& forall|i: int| 0 <= i < p.len() - 1 ==> cfg_succ(bl, #[trigger] p[i], p[i + 1])
}

/// Block `b` can be reached from the entry.
pub open spec fn cfg_reaches(bl: Seq<BasicBlock>, b: int) -> bool {
    exists|p: Seq<int>| #[trigger] cfg_path(bl, p) && p.last() == b
}

proof fn lemma_cfg_entry(bl: Seq<BasicBlock>)
    ensures cfg_reaches(bl, 0),
{
    assert(cfg_path(bl, seq![0int]));
}

proof fn lemma_cfg_step(bl: Seq<BasicBlock>, x: int, j: int)
    requires 0 <= x < bl.len(), cfg_reaches(bl, x), 0 <= j < succ_seq(term_of(bl[x])).len(),
    ensures cfg_reaches(bl, succ_seq(term_of(bl[x]))[j] as int),
{
    let p = choose|p: Seq<int>| #[trigger] cfg_path(bl, p) && p.last() == x;
    let s = succ_seq(term_of(bl[x]))[j] as int;
    let q = p.push(s);
    assert(cfg_succ(bl, x, s));
    assert forall|i: int| 0 <= i < q.len() - 1 implies cfg_succ(bl, #[trigger] q[i], q[i + 1]) by {
        if i < p.len() - 1 {
            assert(q[i] == p[i] && q[i + 1] == p[i + 1]);
        } else {
            assert(q[i] == x && q[i + 1] == s);
        }
    }
    assert(cfg_path(bl, q) && q.last() == s);
}

proof fn lemma_cfg_path_in(bl: Seq<BasicBlock>, inset: Seq<bool>, p: Seq<int>, i: int)
    requires
        inset.len() == bl.len(), bl.len() >= 1, inset[0],
        forall|x: int, j: int| 0 <= x < inset.len() && inset[x] && 0 <= j < succ_seq(term_of(bl[x])).len()
            ==> inset[#[trigger] succ_seq(term_of(bl[x]))[j] as int],
        cfg_path(bl, p), 0 <= i < p.len(),
    ensures inset[p[i]],
    decreases i,
{
    if i > 0 {
        lemma_cfg_path_in(bl, inset, p, i - 1);
        assert(cfg_succ(bl, p[i - 1], p[i]));
        let j = choose|j: int| 0 <= j < succ_seq(term_of(bl[p[i - 1]])).len() && #[trigger] succ_seq(term_of(bl[p[i - 1]]))[j] == p[i];
        assert(inset[succ_seq(term_of(bl[p[i - 1]]))[j] as int]);
    }
}

/// Depth-first search from `b`: each block is appended after all the blocks reached from it
/// that were not already seen.
fn dfs(f: &FnIr, b: usize, seen: &mut Vec<bool>, out: &mut Vec<usize>)
    requires
        cfg_ok(f.blocks@),
        old(seen)@.len() == f.blocks@.len(),
        b < f.blocks@.len(),
        !old(seen)@[b as int],
        forall|k: int| 0 <= k < old(out)@.len() ==> (#[trigger] old(out)@[k]) < f.blocks@.len() && old(seen)@[old(out)@[k] as int],
        forall|j: int, k: int| 0 <= j < k < old(out)@.len() ==> old(out)@[j] != old(out)@[k],
        cfg_reaches(f.blocks@, b as int),
    ensures
        final(seen)@.len() == old(seen)@.len(),
        final(seen)@[b as int],
        forall|i: int| 0 <= i < old(seen)@.len() && old(seen)@[i] ==> final(seen)@[i],
        old(out)@.len() < final(out)@.len(),
        final(out)@.subrange(0, old(out)@.len() as int) == old(out)@,
        final(out)@.last() == b,
        forall|k: int| 0 <= k < final(out)@.len() ==> (#[trigger] final(out)@[k]) < f.blocks@.len() && final(seen)@[final(out)@[k] as int],
        forall|j: int, k: int| 0 <= j < k < final(out)@.len() ==> final(out)@[j] != final(out)@[k],
        forall|k: int| old(out)@.len() <= k < final(out)@.len() ==> !old(seen)@[#[trigger] final(out)@[k] as int],
        forall|k: int| old(out)@.len() <= k < final(out)@.len() ==> cfg_reaches(f.blocks@, #[trigger] final(out)@[k] as int),
        forall|k: int, j: int| old(out)@.len() <= k < final(out)@.len() && 0 <= j < succ_seq(term_of(f.blocks@[final(out)@[k] as int])).len()
            ==> final(seen)@[#[trigger] succ_seq(term_of(f.blocks@[final(out)@[k] as int]))[j] as int],
        forall|i: int| 0 <= i < final(seen)@.len() && #[trigger] final(seen)@[i] && !old(seen)@[i]
            ==> exists|k: int| old(out)@.len() <= k < final(out)@.len() && final(out)@[k] == i,
    decreases unseen(old(seen)@),
{
    let ghost seen0 = seen@;
    let ghost out0 = out@;
    seen.set(b, true);
    proof { lemma_unseen_mark(seen0, b as int); }
    let t = match f.blocks[b].term { Some(t) => t, None => Term::Return(Val::Const(0)) };
    assert(t == term_of(f.blocks@[b as int]));
    let ss = t.succs();
    let mut k: usize = 0;
    while k < ss.len()
        invariant
            cfg_ok(f.blocks@), b < f.blocks@.len(), t == term_of(f.blocks@[b as int]), ss@ == succ_seq(t),
            k <= ss@.len(),
            seen@.len() == seen0.len(), seen0.len() == f.blocks@.len(), (b as int) < seen0.len(),
            seen0 == old(seen)@,
            seen@[b as int],
            forall|i: int| 0 <= i < seen0.len() && seen0[i] ==> seen@[i],
            unseen(seen@) < unseen(seen0),
            out0.len() <= out@.len(),
            out@.subrange(0, out0.len() as int) == out0,
            forall|q: int| 0 <= q < out@.len() ==> (#[trigger] out@[q]) < f.blocks@.len() && seen@[out@[q] as int],
            forall|j: int, q: int| 0 <= j < q < out@.len() ==> out@[j] != out@[q],
            forall|q: int| out0.len() <= q < out@.len() ==> !seen0[#[trigger] out@[q] as int] && out@[q] != b,
            cfg_reaches(f.blocks@, b as int),
            forall|q: int| out0.len() <= q < out@.len() ==> cfg_reaches(f.blocks@, #[trigger] out@[q] as int),
            forall|q: int, j: int| out0.len() <= q < out@.len() && 0 <= j < succ_seq(term_of(f.blocks@[out@[q] as int])).len()
                ==> seen@[#[trigger] succ_seq(term_of(f.blocks@[out@[q] as int]))[j] as int],
            forall|j: int| 0 <= j < k ==> seen@[#[trigger] ss@[j] as int],
            forall|i: int| 0 <= i < seen@.len() && #[trigger] seen@[i] && !seen0[i]
                ==> i == b || exists|q: int| out0.len() <= q < out@.len() && out@[q] == i,
        decreases ss@.len() - k,
    {
        let s = ss[k];
        assert(s < f.blocks@.len());
        if !seen[s] {
            let ghost seen1 = seen@;
            let ghost out1 = out@;
            proof {
                lemma_unseen_mono(seen0.update(b as int, true), seen@);
                lemma_cfg_step(f.blocks@, b as int, k as int);
            }
            dfs(f, s, seen, out);
            proof {
                assert forall|q: int| out0.len() <= q < out@.len() implies cfg_reaches(f.blocks@, #[trigger] out@[q] as int) by {
                    if q < out1.len() { assert(out@[q] == out1[q]); }
                }
                assert forall|q: int, j: int| out0.len() <= q < out@.len() && 0 <= j < succ_seq(term_of(f.blocks@[out@[q] as int])).len()
                    implies seen@[#[trigger] succ_seq(term_of(f.blocks@[out@[q] as int]))[j] as int] by {
                    if q < out1.len() {
                        assert(out@[q] == out1[q]);
                        assert(seen1[succ_seq(term_of(f.blocks@[out1[q] as int]))[j] as int]);
                    }
                }
                assert forall|j: int| 0 <= j < k + 1 implies seen@[#[trigger] ss@[j] as int] by {
                    if j < k { assert(seen1[ss@[j] as int]); }
                }
                assert forall|i: int| 0 <= i < seen@.len() && #[trigger] seen@[i] && !seen0[i]
                    implies i == b || exists|q: int| out0.len() <= q < out@.len() && out@[q] == i by {
                    if !seen1[i] {
                        let q = choose|q: int| out1.len() <= q < out@.len() && out@[q] == i;
                    } else if i != b {
                        let q = choose|q: int| out0.len() <= q < out1.len() && out1[q] == i;
                        assert(out@[q] == out1[q]);
                    }
                }
                assert forall|q: int| out0.len() <= q < out@.len() implies !seen0[#[trigger] out@[q] as int] && out@[q] != b by {
                    if q < out1.len() {
                        assert(out@[q] == out1[q]);
                    }
                }
                assert(out@.subrange(0, out0.len() as int) =~= out1.subrange(0, out0.len() as int));
                lemma_unseen_mono(seen1, seen@);
            }
        }
        k += 1;
    }
    let ghost out2 = out@;
    out.push(b);
    proof {
        assert(out@.subrange(0, out0.len() as int) =~= out2.subrange(0, out0.len() as int));
        assert forall|j: int, q: int| 0 <= j < q < out@.len() implies out@[j] != out@[q] by {
            if q == out@.len() - 1 && j >= out0.len() {
                assert(out@[j] == out2[j]);
            } else if q == out@.len() - 1 {
                assert(out@[j] == out0[j]);
                assert(seen0[out0[j] as int]);
            }
        }
        let last = out@.len() - 1;
        assert(out@[last] == b);
        assert forall|q: int| out0.len() <= q < out@.len() implies cfg_reaches(f.blocks@, #[trigger] out@[q] as int) by {
            if q < last { assert(out@[q] == out2[q]); }
        }
        assert forall|q: int, j: int| out0.len() <= q < out@.len() && 0 <= j < succ_seq(term_of(f.blocks@[out@[q] as int])).len()
            implies seen@[#[trigger] succ_seq(term_of(f.blocks@[out@[q] as int]))[j] as int] by {
            if q < last {
                assert(out@[q] == out2[q]);
            } else {
                assert(ss@[j] == succ_seq(term_of(f.blocks@[b as int]))[j]);
            }
        }
        assert forall|i: int| 0 <= i < seen@.len() && #[trigger] seen@[i] && !seen0[i]
            implies exists|q: int| out0.len() <= q < out@.len() && out@[q] == i by {
            if i == b as int {
                assert(out@[last] == i);
            } else {
                let q = choose|q: int| out0.len() <= q < out2.len() && out2[q] == i;
                assert(out@[q] == out2[q]);
            }
        }
    }
}

/// After a search from the entry that started with nothing seen, every reachable block was
/// output.
proof fn lemma_dfs_complete(bl: Seq<BasicBlock>, seen0: Seq<bool>, seen: Seq<bool>, out: Seq<usize>)
    requires
        seen.len() == bl.len(), seen0.len() == bl.len(), bl.len() >= 1, seen[0],
        forall|i: int| 0 <= i < seen0.len() ==> !(#[trigger] seen0[i]),
        forall|i: int| 0 <= i < seen.len() && #[trigger] seen[i] && !seen0[i]
            ==> exists|k: int| 0 <= k < out.len() && out[k] == i,
        forall|k: int, j: int| 0 <= k < out.len() && 0 <= j < succ_seq(term_of(bl[out[k] as int])).len()
            ==> seen[#[trigger] succ_seq(term_of(bl[out[k] as int]))[j] as int],
    ensures forall|b: int| 0 <= b < bl.len() && cfg_reaches(bl, b) ==> exists|k: int| 0 <= k < out.len() && out[k] == b,
{
    assert forall|x: int, j: int| 0 <= x < seen.len() && seen[x] && 0 <= j < succ_seq(term_of(bl[x])).len()
        implies seen[#[trigger] succ_seq(term_of(bl[x]))[j] as int] by {
        assert(!seen0[x]);
        let k = choose|k: int| 0 <= k < out.len() && out[k] == x;
        assert(succ_seq(term_of(bl[out[k] as int]))[j] == succ_seq(term_of(bl[x]))[j]);
    }
    assert forall|b: int| 0 <= b < bl.len() && cfg_reaches(bl, b) implies exists|k: int| 0 <= k < out.len() && out[k] == b by {
        let p = choose|p: Seq<int>| #[trigger] cfg_path(bl, p) && p.last() == b;
        lemma_cfg_path_in(bl, seen, p, p.len() - 1);
        assert(!seen0[b]);
    }
}

/// The blocks reachable from the entry, in reverse postorder: the entry first.
pub fn reverse_postorder(f: &FnIr) -> (r: Vec<usize>)
    requires cfg_ok(f.blocks@),
    ensures
        r@.len() >= 1,
        r@[0] == 0,
        forall|k: int| 0 <= k < r@.len() ==> (#[trigger] r@[k]) < f.blocks@.len(),
        forall|j: int, k: int| 0 <= j < k < r@.len() ==> r@[j] != r@[k],
        forall|b: int| 0 <= b < f.blocks@.len() ==> (r@.contains(b as usize) <==> cfg_reaches(f.blocks@, b)),
{
    let n = f.blocks.len();
    let mut seen: Vec<bool> = Vec::new();
    let mut i: usize = 0;
    while i < n
        invariant i <= n, seen@.len() == i, forall|k: int| 0 <= k < i ==> !(#[trigger] seen@[k]),
        decreases n - i,
    {
        seen.push(false);
        i += 1;
    }
    let mut out: Vec<usize> = Vec::new();
    proof { lemma_cfg_entry(f.blocks@); }
    let ghost seen_start = seen@;
    dfs(f, 0, &mut seen, &mut out);
    let m = out.len();
    proof { lemma_dfs_complete(f.blocks@, seen_start, seen@, out@); }
    let mut r: Vec<usize> = Vec::new();
    let mut j: usize = 0;
    while j < m
        invariant
            m == out@.len(), j <= m, r@.len() == j,
            forall|q: int| 0 <= q < j ==> #[trigger] r@[q] == out@[m - 1 - q],
        decreases m - j,
    {
        r.push(out[m - 1 - j]);
        j += 1;
    }
    assert forall|a: int, c: int| 0 <= a < c < r@.len() implies r@[a] != r@[c] by {
        assert(r@[a] == out@[m - 1 - a]);
        assert(r@[c] == out@[m - 1 - c]);
    }
    assert forall|b: int| 0 <= b < f.blocks@.len() implies (r@.contains(b as usize) <==> cfg_reaches(f.blocks@, b)) by {
        if cfg_reaches(f.blocks@, b) {
            let k = choose|k: int| 0 <= k < out@.len() && out@[k] == b;
            assert(r@[m - 1 - k] == out@[k]);
        }
        if r@.contains(b as usize) {
            let q = choose|q: int| 0 <= q < r@.len() && r@[q] == b as usize;
            assert(r@[q] == out@[m - 1 - q]);
        }
    }
    r
}

pub proof fn lemma_unseen_mark_pub(a: Seq<bool>, i: int)
    requires 0 <= i < a.len(), !a[i],
    ensures unseen(a.update(i, true)) < unseen(a),
{
    lemma_unseen_mark(a, i);
}

// ---------------- dominators ----------------

/// A table of immediate dominators over `n` blocks: the entry is its own, a block not yet
/// reached has `usize::MAX`, and every other entry names a block whose own entry is set.
pub open spec fn idom_ok(idom: Seq<usize>, n: nat) -> bool {
    &&& idom.len() == n
    &&& n >= 1 && idom[0] == 0
    &&& forall|b: int| 0 <= b < n && idom[b] != usize::MAX ==> (#[trigger] idom[b]) < n && idom[idom[b] as int] != usize::MAX
}

/// The nearest common ancestor of `x` and `y` in the dominator tree built so far, walking up
/// from whichever is later in reverse postorder. The walk is bounded by the number of blocks.
fn intersect(idom: &Vec<usize>, order: &Vec<usize>, x0: usize, y0: usize) -> (r: usize)
    requires
        idom_ok(idom@, idom@.len()),
        order@.len() == idom@.len(),
        x0 < idom@.len(), y0 < idom@.len(),
        idom@[x0 as int] != usize::MAX, idom@[y0 as int] != usize::MAX,
    ensures
        r < idom@.len(), idom@[r as int] != usize::MAX,
        exists|k: nat| idom_up(idom@, x0, k) == r,
{
    let n = idom.len();
    let mut x = x0;
    let mut y = y0;
    let mut fuel: usize = n;
    let ghost mut kx: nat = 0;
    while x != y && fuel > 0
        invariant
            idom_ok(idom@, n as nat), n == idom@.len(), order@.len() == n,
            x < n, y < n, idom@[x as int] != usize::MAX, idom@[y as int] != usize::MAX,
            x == idom_up(idom@, x0, kx),
        decreases fuel,
    {
        let mut inner: usize = n;
        while order[x] > order[y] && inner > 0
            invariant
                idom_ok(idom@, n as nat), n == idom@.len(), order@.len() == n,
                x < n, y < n, idom@[x as int] != usize::MAX,
                x == idom_up(idom@, x0, kx),
            decreases inner,
        {
            proof { lemma_idom_up_step(idom@, x0, kx); kx = kx + 1; }
            x = idom[x];
            inner -= 1;
        }
        let mut inner2: usize = n;
        while order[y] > order[x] && inner2 > 0
            invariant
                idom_ok(idom@, n as nat), n == idom@.len(), order@.len() == n,
                x < n, y < n, idom@[y as int] != usize::MAX,
            decreases inner2,
        {
            y = idom[y];
            inner2 -= 1;
        }
        fuel -= 1;
    }
    assert(idom_up(idom@, x0, kx) == x);
    x
}

/// Immediate dominators by the Cooper–Harvey–Kennedy iteration over reverse postorder: the
/// entry dominates itself; a block unreachable from the entry keeps `usize::MAX`.
#[verifier::spinoff_prover]
#[verifier::rlimit(30)]
pub fn dominators(f: &FnIr) -> (idom: Vec<usize>)
    requires cfg_ok(f.blocks@),
    ensures
        idom_ok(idom@, f.blocks@.len()),
        forall|b: int| 0 <= b < idom@.len() && #[trigger] idom@[b] != usize::MAX ==> cfg_reaches(f.blocks@, b),
{
    let n = f.blocks.len();
    let rpo = reverse_postorder(f);
    let ghost bl = f.blocks@;
    let mut order: Vec<usize> = Vec::new();
    let mut i: usize = 0;
    while i < n
        invariant i <= n, order@.len() == i,
        decreases n - i,
    {
        order.push(0);
        i += 1;
    }
    let mut k: usize = 0;
    while k < rpo.len()
        invariant order@.len() == n, n == f.blocks@.len(), forall|q: int| 0 <= q < rpo@.len() ==> (#[trigger] rpo@[q]) < n,
        decreases rpo@.len() - k,
    {
        order.set(rpo[k], k);
        k += 1;
    }
    let preds = preds(f);
    let mut idom: Vec<usize> = Vec::new();
    let mut j: usize = 0;
    while j < n
        invariant j <= n, idom@.len() == j, forall|q: int| 0 <= q < j ==> #[trigger] idom@[q] == usize::MAX,
        decreases n - j,
    {
        idom.push(usize::MAX);
        j += 1;
    }
    idom.set(0, 0);
    proof { lemma_cfg_entry(bl); }
    let mut changed = true;
    // The iteration settles within (loop nesting depth + 3) passes, never more than n + 3.
    let mut passes: usize = 0;
    let limit: usize = if n < usize::MAX - 3 { n + 3 } else { n };
    while changed && passes < limit
        invariant
            rpo@.len() >= 1, rpo@[0] == 0,
            forall|a: int, c: int| 0 <= a < c < rpo@.len() ==> rpo@[a] != rpo@[c],
            n == f.blocks@.len(), idom_ok(idom@, n as nat), order@.len() == n, preds@.len() == n,
            forall|s: int, q: int| 0 <= s < n && 0 <= q < preds@[s]@.len() ==> #[trigger] preds@[s]@[q] < n,
            forall|q: int| 0 <= q < rpo@.len() ==> (#[trigger] rpo@[q]) < n,
            bl == f.blocks@,
            forall|b: int| 0 <= b < n && #[trigger] idom@[b] != usize::MAX ==> cfg_reaches(bl, b),
            forall|b: int| 0 <= b < n ==> (rpo@.contains(b as usize) <==> #[trigger] cfg_reaches(bl, b)),
        decreases limit - passes,
    {
        changed = false;
        let mut r: usize = 1;
        while r < rpo.len()
            invariant
                1 <= r,
                rpo@.len() >= 1, rpo@[0] == 0,
                forall|a: int, c: int| 0 <= a < c < rpo@.len() ==> rpo@[a] != rpo@[c],
                n == f.blocks@.len(), idom_ok(idom@, n as nat), order@.len() == n, preds@.len() == n,
                forall|s: int, q: int| 0 <= s < n && 0 <= q < preds@[s]@.len() ==> #[trigger] preds@[s]@[q] < n,
                forall|q: int| 0 <= q < rpo@.len() ==> (#[trigger] rpo@[q]) < n,
                bl == f.blocks@,
                forall|b: int| 0 <= b < n && #[trigger] idom@[b] != usize::MAX ==> cfg_reaches(bl, b),
                forall|b: int| 0 <= b < n ==> (rpo@.contains(b as usize) <==> #[trigger] cfg_reaches(bl, b)),
            decreases rpo@.len() - r,
        {
            let b = rpo[r];
            assert(b != 0) by { assert(rpo@[0] != rpo@[r as int]); }
            let mut new = usize::MAX;
            let ps = &preds[b];
            let mut q: usize = 0;
            while q < ps.len()
                invariant
                    n == f.blocks@.len(), idom_ok(idom@, n as nat), order@.len() == n,
                    *ps == preds@[b as int], b < n,
                    forall|s: int, q: int| 0 <= s < n && 0 <= q < preds@[s]@.len() ==> #[trigger] preds@[s]@[q] < n,
                    new == usize::MAX || (new < n && idom@[new as int] != usize::MAX),
                decreases ps@.len() - q,
            {
                let p = ps[q];
                assert(p == preds@[b as int]@[q as int]);
                if idom[p] != usize::MAX {
                    new = if new == usize::MAX { p } else { intersect(&idom, &order, p, new) };
                }
                q += 1;
            }
            if new != usize::MAX && idom[b] != new {
                let ghost before = idom@;
                idom.set(b, new);
                assert forall|c: int| 0 <= c < n && idom@[c] != usize::MAX implies
                    (#[trigger] idom@[c]) < n && idom@[idom@[c] as int] != usize::MAX by {
                    if c != b as int {
                        assert(idom@[c] == before[c]);
                    }
                }
                assert(rpo@.contains(b)) by { assert(rpo@[r as int] == b); }
                assert(cfg_reaches(bl, b as int)) by { assert(rpo@.contains((b as int) as usize)); }
                assert forall|c: int| 0 <= c < n && #[trigger] idom@[c] != usize::MAX implies cfg_reaches(bl, c) by {
                    if c != b as int {
                        assert(idom@[c] == before[c]);
                    }
                }
                changed = true;
            }
            r += 1;
        }
        passes += 1;
    }
    idom
}

/// The walk up the tree `idom` from `r` visits `a` before it meets `stop`, leaves the
/// blocks, or has taken `fuel` steps.
pub open spec fn walk_has(idom: Seq<usize>, r: usize, stop: usize, fuel: nat, a: int) -> bool
    decreases fuel,
{
    if fuel == 0 || r == stop || r >= idom.len() {
        false
    } else {
        r as int == a || walk_has(idom, idom[r as int], stop, (fuel - 1) as nat, a)
    }
}

/// One of the first `upto` entries of `ps` starts a walk up to `stop` that visits `a`.
pub open spec fn walks_from(idom: Seq<usize>, ps: Seq<usize>, upto: int, stop: usize, fuel: nat, a: int) -> bool {
    exists|q: int| 0 <= q < upto && q < ps.len() && #[trigger] walk_has(idom, ps[q], stop, fuel, a)
}

/// Block `b` is in the dominance frontier of block `a`: `b` has two or more incoming
/// edges, and the walk up the tree `idom` from one of its predecessors to `idom[b]` (at most
/// one step per block) passes `a`.
pub open spec fn in_frontier(bl: Seq<BasicBlock>, idom: Seq<usize>, a: int, b: int) -> bool {
    let ps = preds_upto(bl, b as usize, bl.len() as int);
    ps.len() >= 2 && walks_from(idom, ps, ps.len() as int, idom[b], bl.len() as nat, a)
}

/// For each block, the blocks where its dominance ends: the join points it reaches without
/// dominating them. The walk up from each predecessor is bounded by the number of blocks.
pub fn dominance_frontiers(f: &FnIr, idom: &[usize]) -> (df: Vec<Vec<usize>>)
    requires cfg_ok(f.blocks@), idom@.len() == f.blocks@.len(),
    ensures
        df@.len() == f.blocks@.len(),
        forall|x: int, k: int| 0 <= x < df@.len() && 0 <= k < df@[x]@.len() ==> #[trigger] df@[x]@[k] < f.blocks@.len(),
        forall|x: int, j: int, k: int| 0 <= x < df@.len() && 0 <= j < k < df@[x]@.len() ==> df@[x]@[j] != df@[x]@[k],
        forall|a: int, b: int| 0 <= a < df@.len() && 0 <= b < df@.len()
            ==> (#[trigger] df@[a]@.contains(b as usize) <==> in_frontier(f.blocks@, idom@, a, b)),
{
    let n = f.blocks.len();
    let preds = preds(f);
    let ghost bl = f.blocks@;
    let mut df: Vec<Vec<usize>> = Vec::new();
    let mut i: usize = 0;
    while i < n
        invariant i <= n, df@.len() == i, forall|x: int| 0 <= x < i ==> (#[trigger] df@[x])@.len() == 0,
        decreases n - i,
    {
        df.push(Vec::new());
        i += 1;
    }
    let mut b: usize = 0;
    while b < n
        invariant
            b <= n, bl == f.blocks@,
            n == f.blocks@.len(), idom@.len() == n, df@.len() == n, preds@.len() == n,
            forall|s: int| 0 <= s < n ==> (#[trigger] preds@[s])@ == preds_upto(bl, s as usize, n as int),
            forall|s: int, q: int| 0 <= s < n && 0 <= q < preds@[s]@.len() ==> #[trigger] preds@[s]@[q] < n,
            forall|x: int, k: int| 0 <= x < n && 0 <= k < df@[x]@.len() ==> #[trigger] df@[x]@[k] < n,
            forall|x: int, j: int, k: int| 0 <= x < n && 0 <= j < k < df@[x]@.len() ==> df@[x]@[j] != df@[x]@[k],
            forall|a: int, c: int| 0 <= a < n && 0 <= c < n ==> (#[trigger] df@[a]@.contains(c as usize)
                <==> (c < b && in_frontier(bl, idom@, a, c))),
        decreases n - b,
    {
        let ghost d0 = df@;
        let ghost ps = preds@[b as int]@;
        let ghost stop = idom@[b as int];
        if preds[b].len() >= 2 {
            let mut q: usize = 0;
            while q < preds[b].len()
                invariant
                    n == f.blocks@.len(), idom@.len() == n, df@.len() == n, preds@.len() == n, b < n,
                    ps == preds@[b as int]@, stop == idom@[b as int], q <= ps.len(),
                    forall|s: int, q: int| 0 <= s < n && 0 <= q < preds@[s]@.len() ==> #[trigger] preds@[s]@[q] < n,
                    forall|x: int, k: int| 0 <= x < n && 0 <= k < df@[x]@.len() ==> #[trigger] df@[x]@[k] < n,
                    forall|x: int, j: int, k: int| 0 <= x < n && 0 <= j < k < df@[x]@.len() ==> df@[x]@[j] != df@[x]@[k],
                    forall|a: int, c: int| 0 <= a < n && 0 <= c < n && c != b ==>
                        (#[trigger] df@[a]@.contains(c as usize) <==> d0[a]@.contains(c as usize)),
                    forall|a: int| 0 <= a < n ==> (#[trigger] df@[a]@.contains(b) <==> walks_from(idom@, ps, q as int, stop, n as nat, a)),
                decreases preds@[b as int]@.len() - q,
            {
                let mut runner = preds[b][q];
                let ghost r0 = runner;
                let mut fuel: usize = n;
                let ghost mut vis: Set<int> = Set::empty();
                let ghost dq = df@;
                while runner != idom[b] && runner < n && fuel > 0
                    invariant
                        n == f.blocks@.len(), idom@.len() == n, df@.len() == n, dq.len() == n, b < n, stop == idom@[b as int],
                        forall|x: int, k: int| 0 <= x < n && 0 <= k < df@[x]@.len() ==> #[trigger] df@[x]@[k] < n,
                        forall|x: int, j: int, k: int| 0 <= x < n && 0 <= j < k < df@[x]@.len() ==> df@[x]@[j] != df@[x]@[k],
                        forall|a: int, c: int| 0 <= a < n && 0 <= c < n && c != b ==>
                            (#[trigger] df@[a]@.contains(c as usize) <==> dq[a]@.contains(c as usize)),
                        forall|a: int| 0 <= a < n ==> (#[trigger] df@[a]@.contains(b) <==> (dq[a]@.contains(b) || vis.contains(a))),
                        forall|a: int| #[trigger] walk_has(idom@, r0, stop, n as nat, a) <==> (vis.contains(a) || walk_has(idom@, runner, stop, fuel as nat, a)),
                        forall|a: int| vis.contains(a) ==> 0 <= a < n,
                    decreases fuel,
                {
                    proof {
                        assert forall|a: int| walk_has(idom@, runner, stop, fuel as nat, a)
                            == (runner as int == a || walk_has(idom@, idom@[runner as int], stop, (fuel - 1) as nat, a)) by {}
                    }
                    let ghost before = df@;
                    if !contains_usize(&df[runner], b) {
                        df[runner].push(b);
                        proof {
                            assert forall|x: int, j: int, k: int| 0 <= x < n && 0 <= j < k < df@[x]@.len()
                                implies df@[x]@[j] != df@[x]@[k] by {
                                if x != runner as int {
                                    assert(df@[x] == before[x]);
                                } else if k == df@[x]@.len() - 1 {
                                    assert(df@[x]@[j] == before[x]@[j]);
                                } else {
                                    assert(df@[x]@[j] == before[x]@[j]);
                                    assert(df@[x]@[k] == before[x]@[k]);
                                }
                            }
                            assert forall|x: int, k: int| 0 <= x < n && 0 <= k < df@[x]@.len() implies #[trigger] df@[x]@[k] < n by {
                                if x != runner as int {
                                    assert(df@[x] == before[x]);
                                } else if k < before[x]@.len() {
                                    assert(df@[x]@[k] == before[x]@[k]);
                                }
                            }
                        }
                    }
                    proof {
                        assert forall|a: int, c: int| 0 <= a < n && 0 <= c < n implies
                            (#[trigger] df@[a]@.contains(c as usize) <==> (before[a]@.contains(c as usize) || (a == runner as int && c == b as int))) by {
                            if a != runner as int {
                                assert(df@[a] == before[a]);
                            } else if before[a]@.contains(b) {
                                assert(df@[a] == before[a]);
                            } else {
                                let nw = df@[a]@;
                                let od = before[a]@;
                                assert(nw == od.push(b));
                                if od.contains(c as usize) {
                                    let k = choose|k: int| 0 <= k < od.len() && od[k] == c as usize;
                                    assert(nw[k] == c as usize);
                                }
                                if c == b as int {
                                    assert(nw[od.len() as int] == b);
                                }
                                if nw.contains(c as usize) && c != b as int {
                                    let k = choose|k: int| 0 <= k < nw.len() && nw[k] == c as usize;
                                    assert(k < od.len());
                                    assert(od[k] == c as usize);
                                }
                            }
                        }
                        let ghost vis0 = vis;
                        vis = vis.insert(runner as int);
                        assert forall|a: int| 0 <= a < n implies (#[trigger] df@[a]@.contains(b) <==> (dq[a]@.contains(b) || vis.contains(a))) by {
                            assert(df@[a]@.contains((b as int) as usize) <==> (before[a]@.contains((b as int) as usize) || (a == runner as int && b as int == b as int)));
                            assert(before[a]@.contains(b) <==> (dq[a]@.contains(b) || vis0.contains(a)));
                        }
                    }
                    runner = idom[runner];
                    fuel -= 1;
                }
                proof {
                    assert forall|a: int| !walk_has(idom@, runner, stop, fuel as nat, a) by {}
                    assert forall|a: int| 0 <= a < n implies
                        (#[trigger] df@[a]@.contains(b) <==> walks_from(idom@, ps, q + 1, stop, n as nat, a)) by {
                        if walk_has(idom@, ps[q as int], stop, n as nat, a) {
                            assert(walks_from(idom@, ps, q + 1, stop, n as nat, a));
                        }
                        if walks_from(idom@, ps, q + 1, stop, n as nat, a) && !walks_from(idom@, ps, q as int, stop, n as nat, a) {
                            let w = choose|w: int| 0 <= w < q + 1 && w < ps.len() && #[trigger] walk_has(idom@, ps[w], stop, n as nat, a);
                            assert(w == q);
                        }
                    }
                }
                q += 1;
            }
            proof {
                assert forall|a: int, c: int| 0 <= a < n && 0 <= c < n implies (#[trigger] df@[a]@.contains(c as usize)
                    <==> (c < b + 1 && in_frontier(bl, idom@, a, c))) by {
                    if c != b as int {
                        assert(d0[a]@.contains(c as usize) == df@[a]@.contains(c as usize));
                    }
                }
            }
        } else {
            proof {
                assert forall|a: int, c: int| 0 <= a < n && 0 <= c < n implies (#[trigger] df@[a]@.contains(c as usize)
                    <==> (c < b + 1 && in_frontier(bl, idom@, a, c))) by {
                    if c == b as int {
                        assert(!in_frontier(bl, idom@, a, c));
                    }
                }
            }
        }
        b += 1;
    }
    df
}

pub fn contains_usize(v: &Vec<usize>, x: usize) -> (r: bool)
    ensures r == v@.contains(x),
{
    let mut i: usize = 0;
    while i < v.len()
        invariant i <= v@.len(), forall|k: int| 0 <= k < i ==> v@[k] != x,
        decreases v@.len() - i,
    {
        if v[i] == x {
            assert(v@[i as int] == x);
            return true;
        }
        i += 1;
    }
    false
}

/// The idom chain from `b`, `steps` links up.
pub open spec fn idom_up(idom: Seq<usize>, b: usize, steps: nat) -> usize
    decreases steps,
{
    if steps == 0 { b } else if (b as int) < idom.len() { idom_up(idom, idom[b as int], (steps - 1) as nat) } else { b }
}

/// The walk up the idom chain from `cur` looking for `a`, for at most `fuel` steps: it stops
/// at the entry, at a block without an entry in `idom`, or when the fuel runs out.
pub open spec fn dom_walk(idom: Seq<usize>, cur: usize, a: usize, fuel: nat) -> bool
    decreases fuel,
{
    if a == cur {
        true
    } else if cur == 0 || cur >= idom.len() || fuel == 0 {
        false
    } else {
        dom_walk(idom, idom[cur as int], a, (fuel - 1) as nat)
    }
}

/// Whether `a` dominates `b`: `a` is on the idom chain from `b` up to the entry.
pub fn dominates(idom: &[usize], a: usize, b: usize) -> (r: bool)
    ensures
        r == dom_walk(idom@, b, a, idom@.len()),
        r ==> exists|k: nat| idom_up(idom@, b, k) == a,
{
    let n = idom.len();
    let mut cur = b;
    let ghost mut k: nat = 0;
    let mut fuel: usize = n;
    loop
        invariant n == idom@.len(), cur == idom_up(idom@, b, k),
            dom_walk(idom@, cur, a, fuel as nat) == dom_walk(idom@, b, a, n as nat),
        decreases fuel,
    {
        if a == cur {
            assert(idom_up(idom@, b, k) == a);
            return true;
        }
        if cur == 0 || cur >= n || fuel == 0 {
            return false;
        }
        proof { lemma_idom_up_step(idom@, b, k); }
        cur = idom[cur];
        proof { k = k + 1; }
        fuel -= 1;
    }
}

proof fn lemma_idom_up_step(idom: Seq<usize>, b: usize, k: nat)
    requires (idom_up(idom, b, k) as int) < idom.len(),
    ensures idom_up(idom, b, k + 1) == idom[idom_up(idom, b, k) as int],
    decreases k,
{
    if k > 0 {
        if (b as int) < idom.len() {
            lemma_idom_up_step(idom, idom[b as int], (k - 1) as nat);
            assert(idom_up(idom, b, k) == idom_up(idom, idom[b as int], (k - 1) as nat));
            assert(idom_up(idom, b, k + 1) == idom_up(idom, idom[b as int], k));
        }
    } else {
        assert(idom_up(idom, b, 1) == idom_up(idom, idom[b as int], 0));
    }
}

} // verus!
