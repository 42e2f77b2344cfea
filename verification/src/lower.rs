//! Lowering the Ore AST to a control-flow graph of three-address code. Short-circuit `&&`
//! and `||` become branches; code after `return` lands in a block nothing reaches, which is
//! removed at the end.

use vstd::prelude::*;
use vstd::string::{StringExecFns, StringSliceAdditionalSpecFns};
use crate::ore::{BinOp, Block, Expr, ExprKind, FnDecl, Param, Stmt};
use crate::checker::binding;
use crate::ir::{BasicBlock, FnIr, Inst, Term, Val, val_ok, inst_ok, term_ok, inst_operands, inst_dst, succ_seq, term_of, block_ok};
use crate::text::decimal_string;
use vstd::utf8::encode_utf8;

verus! {

// ---------------- what lowering needs of its input ----------------

/// The names bound by the `let`s of some statements.
pub open spec fn let_names(s: Seq<Stmt>) -> Set<Seq<char>>
    decreases s.len(),
{
    if s.len() == 0 {
        Set::empty()
    } else {
        let rest = let_names(s.drop_last());
        match s.last() {
            Stmt::Let { name, .. } => rest.insert(name@),
            Stmt::Expr(_) => rest,
        }
    }
}

/// Every variable the expression reads or assigns is bound in `env` (or by a `let` before
/// it), assignments are to variables, and calls are to named functions.
pub open spec fn lowerable(env: Set<Seq<char>>, e: Expr) -> bool
    decreases e,
{
    match e.kind {
        ExprKind::Var(n) => env.contains(n@),
        ExprKind::Unary(_, x) => lowerable(env, *x),
        ExprKind::Binary(_, a, b) => lowerable(env, *a) && lowerable(env, *b),
        ExprKind::Assign(l, r) => (l.kind matches ExprKind::Var(n) && env.contains(n@)) && lowerable(env, *r),
        ExprKind::Call(f, args) => f.kind is Var && args_lowerable(env, args@),
        ExprKind::If(c, t, els) => lowerable(env, *c) && block_lowerable(env, t) && match els {
            Some(x) => lowerable(env, *x),
            None => true,
        },
        ExprKind::While(c, b) => lowerable(env, *c) && block_lowerable(env, b),
        ExprKind::Block(b) => block_lowerable(env, b),
        ExprKind::Return(v) => match v {
            Some(x) => lowerable(env, *x),
            None => true,
        },
        _ => true,
    }
}

pub open spec fn args_lowerable(env: Set<Seq<char>>, args: Seq<Expr>) -> bool
    decreases args,
{
    if args.len() == 0 { true } else { args_lowerable(env, args.drop_last()) && lowerable(env, args.last()) }
}

pub open spec fn block_lowerable(env: Set<Seq<char>>, b: Block) -> bool
    decreases b,
{
    stmts_lowerable(env, b.stmts@) && match b.tail {
        Some(t) => lowerable(env.union(let_names(b.stmts@)), *t),
        None => true,
    }
}

pub open spec fn stmts_lowerable(env: Set<Seq<char>>, s: Seq<Stmt>) -> bool
    decreases s,
{
    if s.len() == 0 {
        true
    } else {
        stmts_lowerable(env, s.drop_last()) && stmt_lowerable(env.union(let_names(s.drop_last())), s.last())
    }
}

pub open spec fn stmt_lowerable(env: Set<Seq<char>>, st: Stmt) -> bool
    decreases st,
{
    match st {
        Stmt::Let { init, .. } => lowerable(env, init),
        Stmt::Expr(x) => lowerable(env, x),
    }
}

/// A bound on the variables lowering creates: one per node at most.
pub open spec fn expr_size(e: Expr) -> nat
    decreases e,
{
    1 + match e.kind {
        ExprKind::Unary(_, x) => expr_size(*x),
        ExprKind::Binary(_, a, b) => expr_size(*a) + expr_size(*b),
        ExprKind::Assign(a, b) => expr_size(*a) + expr_size(*b),
        ExprKind::Call(_, args) => args_size(args@),
        ExprKind::If(c, t, els) => expr_size(*c) + block_size(t) + match els {
            Some(x) => expr_size(*x),
            None => 0nat,
        },
        ExprKind::While(c, b) => expr_size(*c) + block_size(b),
        ExprKind::Block(b) => block_size(b),
        ExprKind::Return(v) => match v {
            Some(x) => expr_size(*x),
            None => 0nat,
        },
        _ => 0nat,
    }
}

pub open spec fn args_size(args: Seq<Expr>) -> nat
    decreases args,
{
    if args.len() == 0 { 0 } else { args_size(args.drop_last()) + expr_size(args.last()) }
}

pub open spec fn block_size(b: Block) -> nat
    decreases b,
{
    stmts_size(b.stmts@) + match b.tail {
        Some(t) => expr_size(*t),
        None => 0nat,
    }
}

pub open spec fn stmts_size(s: Seq<Stmt>) -> nat
    decreases s,
{
    if s.len() == 0 { 0 } else { stmts_size(s.drop_last()) + stmt_size(s.last()) }
}

pub open spec fn stmt_size(st: Stmt) -> nat
    decreases st,
{
    match st {
        Stmt::Let { init, .. } => 1 + expr_size(init),
        Stmt::Expr(x) => expr_size(x),
    }
}

/// The names of some parameters.
pub open spec fn param_names(ps: Seq<crate::ore::Param>) -> Set<Seq<char>>
    decreases ps.len(),
{
    if ps.len() == 0 { Set::empty() } else { param_names(ps.drop_last()).insert(ps.last().name@) }
}

/// A function lowering accepts: its body reads only its parameters and its own `let`s, and
/// it creates fewer variables than a `u32` can number.
pub open spec fn fn_lowerable(fd: FnDecl) -> bool {
    &&& block_lowerable(param_names(fd.params@), fd.body)
    &&& fd.params@.len() + block_size(fd.body) < u32::MAX
}

// ---------------- the lowering state ----------------

/// The names bound in nested scopes.
pub open spec fn scope_names(scopes: Seq<Vec<(String, u32)>>) -> Set<Seq<char>> {
    Set::new(|n: Seq<char>| exists|i: int, j: int| 0 <= i < scopes.len() && 0 <= j < scopes[i]@.len()
        && (#[trigger] scopes[i]@[j]).0@ == n)
}

/// The variable `name` denotes: the innermost binding.
pub open spec fn scoped_var(scopes: Seq<Vec<(String, u32)>>, name: Seq<char>) -> Option<u32>
    decreases scopes.len(),
{
    if scopes.len() == 0 {
        None
    } else {
        match binding(scopes.last()@, name) {
            Some(v) => Some(v),
            None => scoped_var(scopes.drop_last(), name),
        }
    }
}

/// A `&&` or `||` as an instruction (lowering makes those branches instead).
pub open spec fn logic_inst(i: Inst) -> bool {
    i matches Inst::Bin { op, .. } && (op == BinOp::And || op == BinOp::Or)
}

/// No instruction of the block is a `&&` or `||`.
pub open spec fn no_logic(b: BasicBlock) -> bool {
    forall|k: int| 0 <= k < b.insts@.len() ==> !logic_inst(#[trigger] b.insts@[k])
}

/// No edge of the terminator goes back to the entry block.
pub open spec fn no_entry_edge(t: Term) -> bool {
    match t {
        Term::Jump(x) => x != 0,
        Term::Branch { then, els, .. } => then != 0 && els != 0,
        Term::Return(_) => true,
    }
}

/// A block being built: its instructions are in range and none is a `&&` or `||`; its
/// terminator, once set, is in range and does not go back to the entry.
pub open spec fn partial_ok(b: BasicBlock, nblocks: nat, nvars: nat) -> bool {
    &&& forall|k: int| 0 <= k < b.insts@.len() ==> inst_ok(#[trigger] b.insts@[k], nvars)
    &&& no_logic(b)
    &&& b.term matches Some(t) ==> term_ok(t, nblocks, nvars) && no_entry_edge(t)
}

pub struct Lower {
    f: FnIr,
    cur: usize,
    scopes: Vec<Vec<(String, u32)>>,
    temps: u32,
}

impl Lower {
    pub closed spec fn inv(&self) -> bool {
        &&& self.f.blocks@.len() >= 1
        &&& self.cur < self.f.blocks@.len()
        &&& self.f.vars@.len() <= u32::MAX
        &&& self.temps <= self.f.vars@.len()
        &&& forall|k: int| 0 <= k < self.f.params@.len() ==> (#[trigger] self.f.params@[k]) < self.f.vars@.len()
        &&& forall|b: int| 0 <= b < self.f.blocks@.len()
            ==> partial_ok(#[trigger] self.f.blocks@[b], self.f.blocks@.len(), self.f.vars@.len())
        &&& forall|i: int, j: int| 0 <= i < self.scopes@.len() && 0 <= j < self.scopes@[i]@.len()
            ==> (#[trigger] self.scopes@[i]@[j]).1 < self.f.vars@.len()
    }

    pub closed spec fn env(&self) -> Set<Seq<char>> {
        scope_names(self.scopes@)
    }

    /// The last instruction of the block being filled, if it has one.
    pub closed spec fn cur_last(&self) -> Option<Inst> {
        let insts = self.f.blocks@[self.cur as int].insts@;
        if insts.len() > 0 { Some(insts.last()) } else { None }
    }

    pub closed spec fn nvars(&self) -> nat {
        self.f.vars@.len()
    }

    /// What lowering an expression keeps: the scopes, the function's name and parameters,
    /// and the variables named so far.
    pub closed spec fn keeps(&self, old: &Lower) -> bool {
        &&& self.scopes@ == old.scopes@
        &&& self.f.name == old.f.name
        &&& self.f.params@ == old.f.params@
        &&& old.f.vars@.len() <= self.f.vars@.len()
        &&& forall|q: int| 0 <= q < old.f.vars@.len() ==> #[trigger] self.f.vars@[q] == old.f.vars@[q]
        &&& old.f.blocks@.len() <= self.f.blocks@.len()
    }

    proof fn lemma_grow(&self, old: &Lower)
        requires
            old.inv(),
            old.f.blocks@.len() <= self.f.blocks@.len(),
            old.f.vars@.len() <= self.f.vars@.len(),
            self.f.vars@.len() <= u32::MAX,
            self.temps <= self.f.vars@.len(),
            self.cur < self.f.blocks@.len(),
            self.f.params@ == old.f.params@,
            self.scopes@ == old.scopes@,
            forall|b: int| 0 <= b < old.f.blocks@.len() ==> #[trigger] self.f.blocks@[b] == old.f.blocks@[b],
            forall|b: int| old.f.blocks@.len() <= b < self.f.blocks@.len()
                ==> partial_ok(#[trigger] self.f.blocks@[b], self.f.blocks@.len(), self.f.vars@.len()),
        ensures self.inv(),
    {
        assert forall|b: int| 0 <= b < self.f.blocks@.len()
            implies partial_ok(#[trigger] self.f.blocks@[b], self.f.blocks@.len(), self.f.vars@.len()) by {
            if b < old.f.blocks@.len() {
                assert(partial_ok(old.f.blocks@[b], old.f.blocks@.len(), old.f.vars@.len()));
                let bb = self.f.blocks@[b];
                assert forall|k: int| 0 <= k < bb.insts@.len() implies inst_ok(#[trigger] bb.insts@[k], self.f.vars@.len()) by {
                    assert(inst_ok(bb.insts@[k], old.f.vars@.len()));
                    let i = bb.insts@[k];
                    assert forall|q: int| 0 <= q < inst_operands(i).len() implies val_ok(#[trigger] inst_operands(i)[q], self.f.vars@.len()) by {
                        assert(val_ok(inst_operands(i)[q], old.f.vars@.len()));
                    }
                }
            }
        }
    }

    fn new_block(&mut self) -> (b: usize)
        requires old(self).inv(),
        ensures
            final(self).inv(),
            final(self).keeps(old(self)),
            b == old(self).f.blocks@.len(),
            b >= 1,
            final(self).f.blocks@.len() == old(self).f.blocks@.len() + 1,
            final(self).f.vars@.len() == old(self).f.vars@.len(),
            final(self).cur == old(self).cur,
            final(self).temps == old(self).temps,
    {
        let ghost old_self = *self;
        self.f.blocks.push(BasicBlock { insts: Vec::new(), term: None });
        proof { self.lemma_grow(&old_self); }
        self.f.blocks.len() - 1
    }

    /// A fresh variable for a source name: the name itself the first time, then `name.1`,
    /// `name.2`, ... for each later binding of the same name.
    fn new_var(&mut self, name: &str) -> (v: u32)
        requires old(self).inv(), old(self).f.vars@.len() < u32::MAX,
        ensures
            final(self).inv(),
            final(self).keeps(old(self)),
            v == old(self).f.vars@.len(),
            final(self).f.vars@.len() == old(self).f.vars@.len() + 1,
            final(self).f.blocks@.len() == old(self).f.blocks@.len(),
            final(self).cur == old(self).cur,
            (forall|q: int| 0 <= q < old(self).f.vars@.len() ==> base_of(#[trigger] old(self).f.vars@[q]@) != encode_utf8(name@))
                ==> final(self).f.vars@[v as int]@ == name@,
    {
        let ghost old_self = *self;
        let nb = name.as_bytes();
        let mut uses: u64 = 0;
        let mut i: usize = 0;
        while i < self.f.vars.len()
            invariant i <= self.f.vars@.len(), uses <= i, self.f.vars@.len() <= u32::MAX,
                nb@ == encode_utf8(name@),
                (forall|q: int| 0 <= q < i ==> base_of(#[trigger] self.f.vars@[q]@) != encode_utf8(name@)) ==> uses == 0,
            decreases self.f.vars@.len() - i,
        {
            if base_is(self.f.vars[i].as_str().as_bytes(), nb) {
                uses += 1;
            }
            i += 1;
        }
        let mut s = String::from_str(name);
        if uses != 0 {
            s.append(".");
            let d = decimal_string(uses);
            s.append(d.as_str());
        }
        self.f.vars.push(s);
        proof { self.lemma_grow(&old_self); }
        (self.f.vars.len() - 1) as u32
    }

    /// A fresh temporary, `%0`, `%1`, ...
    fn temp(&mut self) -> (v: u32)
        requires old(self).inv(), old(self).f.vars@.len() < u32::MAX,
        ensures
            final(self).inv(),
            final(self).keeps(old(self)),
            v == old(self).f.vars@.len(),
            final(self).f.vars@.len() == old(self).f.vars@.len() + 1,
            final(self).f.blocks@.len() == old(self).f.blocks@.len(),
            final(self).cur == old(self).cur,
    {
        let ghost old_self = *self;
        let mut s = String::from_str("%");
        let d = decimal_string(self.temps as u64);
        s.append(d.as_str());
        self.f.vars.push(s);
        self.temps = self.temps + 1;
        proof { self.lemma_grow(&old_self); }
        (self.f.vars.len() - 1) as u32
    }

    /// Appends an instruction to the current block.
    fn emit(&mut self, i: Inst)
        requires old(self).inv(), inst_ok(i, old(self).f.vars@.len()), !logic_inst(i),
        ensures
            final(self).inv(),
            final(self).keeps(old(self)),
            final(self).f.vars@.len() == old(self).f.vars@.len(),
            final(self).f.blocks@.len() == old(self).f.blocks@.len(),
            final(self).cur == old(self).cur,
            final(self).f.blocks@[old(self).cur as int].insts@ == old(self).f.blocks@[old(self).cur as int].insts@.push(i),
            final(self).f.blocks@[old(self).cur as int].term == old(self).f.blocks@[old(self).cur as int].term,
            forall|b: int| 0 <= b < old(self).f.blocks@.len() && b != old(self).cur ==>
                #[trigger] final(self).f.blocks@[b] == old(self).f.blocks@[b],
    {
        let ghost old_self = *self;
        let cur = self.cur;
        let ghost ib = i;
        self.f.blocks[cur].insts.push(i);
        proof {
            assert forall|b: int| 0 <= b < self.f.blocks@.len()
                implies partial_ok(#[trigger] self.f.blocks@[b], self.f.blocks@.len(), self.f.vars@.len()) by {
                if b != cur as int {
                    assert(self.f.blocks@[b] == old_self.f.blocks@[b]);
                } else {
                    let bb = self.f.blocks@[b];
                    assert(bb.insts@ == old_self.f.blocks@[b].insts@.push(ib));
                    assert forall|k: int| 0 <= k < bb.insts@.len() implies inst_ok(#[trigger] bb.insts@[k], self.f.vars@.len()) by {
                        if k < old_self.f.blocks@[b].insts@.len() {
                            assert(bb.insts@[k] == old_self.f.blocks@[b].insts@[k]);
                        }
                    }
                    assert forall|k: int| 0 <= k < bb.insts@.len() implies !logic_inst(#[trigger] bb.insts@[k]) by {
                        if k < old_self.f.blocks@[b].insts@.len() {
                            assert(bb.insts@[k] == old_self.f.blocks@[b].insts@[k]);
                        }
                    }
                }
            }
        }
    }

    /// Ends the current block with `t`, unless it already ended (after a `return`).
    fn terminate(&mut self, t: Term)
        requires old(self).inv(), term_ok(t, old(self).f.blocks@.len(), old(self).f.vars@.len()), no_entry_edge(t),
        ensures
            final(self).inv(),
            final(self).keeps(old(self)),
            final(self).f.vars@.len() == old(self).f.vars@.len(),
            final(self).f.blocks@.len() == old(self).f.blocks@.len(),
            final(self).cur == old(self).cur,
            final(self).f.blocks@[final(self).cur as int].term is Some,
    {
        let ghost old_self = *self;
        let cur = self.cur;
        if self.f.blocks[cur].term.is_none() {
            self.f.blocks[cur].term = Some(t);
            proof {
                assert forall|b: int| 0 <= b < self.f.blocks@.len()
                    implies partial_ok(#[trigger] self.f.blocks@[b], self.f.blocks@.len(), self.f.vars@.len()) by {
                    if b != cur as int {
                        assert(self.f.blocks@[b] == old_self.f.blocks@[b]);
                    } else {
                        assert(self.f.blocks@[b].insts@ == old_self.f.blocks@[b].insts@);
                        assert(partial_ok(old_self.f.blocks@[b], old_self.f.blocks@.len(), old_self.f.vars@.len()));
                    }
                }
            }
        }
    }
}

/// Where the first `.` of `v` at or after `i` is, or the end.
pub open spec fn dot_from(v: Seq<u8>, i: int) -> int
    decreases v.len() - i,
{
    if i < 0 || i >= v.len() || v[i] == 46 { i } else { dot_from(v, i + 1) }
}

/// The bytes of a name before its first `.`.
pub open spec fn base_of(s: Seq<char>) -> Seq<u8> {
    encode_utf8(s).subrange(0, dot_from(encode_utf8(s), 0))
}

/// Whether the part of `v` before its first `.` is exactly `name`.
fn base_is(v: &[u8], name: &[u8]) -> (r: bool)
    ensures r == (v@.subrange(0, dot_from(v@, 0)) == name@),
{
    let mut end: usize = 0;
    while end < v.len() && v[end] != 46
        invariant end <= v@.len(), dot_from(v@, end as int) == dot_from(v@, 0),
        decreases v@.len() - end,
    {
        end += 1;
    }
    assert(dot_from(v@, end as int) == end);
    if end != name.len() {
        return false;
    }
    let mut i: usize = 0;
    while i < end
        invariant end <= v@.len(), end == name@.len(), i <= end, end == dot_from(v@, 0),
            forall|q: int| 0 <= q < i ==> v@[q] == name@[q],
        decreases end - i,
    {
        if v[i] != name[i] {
            assert(v@.subrange(0, end as int)[i as int] != name@[i as int]);
            return false;
        }
        i += 1;
    }
    assert(v@.subrange(0, end as int) =~= name@);
    true
}

proof fn lemma_binding_at(s: Seq<(String, u32)>, name: Seq<char>, j: int)
    requires 0 <= j < s.len(), s[j].0@ == name, forall|q: int| j < q < s.len() ==> (#[trigger] s[q]).0@ != name,
    ensures binding(s, name) == Some(s[j].1),
    decreases s.len(),
{
    if j < s.len() - 1 {
        lemma_binding_at(s.drop_last(), name, j);
    }
}

proof fn lemma_scoped_prefix(sc: Seq<Vec<(String, u32)>>, name: Seq<char>, i: int)
    requires 0 <= i <= sc.len(),
        forall|a: int, j: int| i <= a < sc.len() && 0 <= j < sc[a]@.len() ==> (#[trigger] sc[a]@[j]).0@ != name,
    ensures scoped_var(sc, name) == scoped_var(sc.subrange(0, i), name),
    decreases sc.len() - i,
{
    if i < sc.len() {
        let last = sc.last()@;
        assert(binding(last, name) is None) by {
            lemma_binding_none(last, name);
        }
        assert(sc.drop_last() =~= sc.subrange(0, sc.len() - 1));
        lemma_scoped_prefix(sc.drop_last(), name, i);
        assert(sc.drop_last().subrange(0, i) =~= sc.subrange(0, i));
    } else {
        assert(sc.subrange(0, i) =~= sc);
    }
}

proof fn lemma_binding_none(s: Seq<(String, u32)>, name: Seq<char>)
    requires forall|q: int| 0 <= q < s.len() ==> (#[trigger] s[q]).0@ != name,
    ensures binding(s, name) is None,
    decreases s.len(),
{
    if s.len() > 0 {
        lemma_binding_none(s.drop_last(), name);
    }
}

impl Lower {
    /// The variable `name` is bound to in the innermost scope that binds it.
    #[verifier::loop_isolation(false)]
    fn lookup(&self, name: &String) -> (v: u32)
        requires self.inv(), self.env().contains(name@),
        ensures v < self.nvars(), scoped_var(self.scopes@, name@) == Some(v),
    {
        let ghost sc = self.scopes@;
        let mut i = self.scopes.len();
        while i > 0
            invariant
                i <= sc.len(), sc == self.scopes@,
                forall|a: int, j: int| i <= a < sc.len() && 0 <= j < sc[a]@.len() ==> (#[trigger] sc[a]@[j]).0@ != name@,
            decreases i,
        {
            i -= 1;
            let scope = &self.scopes[i];
            let mut j = scope.len();
            while j > 0
                invariant
                    j <= scope@.len(), *scope == sc[i as int], i < sc.len(), sc == self.scopes@,
                    forall|q: int| j <= q < scope@.len() ==> (#[trigger] scope@[q]).0@ != name@,
                decreases j,
            {
                j -= 1;
                if scope[j].0 == *name {
                    assert(sc[i as int]@[j as int].1 < self.f.vars@.len());
                    proof {
                        lemma_scoped_prefix(sc, name@, i + 1);
                        lemma_binding_at(sc[i as int]@, name@, j as int);
                        assert(sc.subrange(0, i + 1).last() == sc[i as int]);
                    }
                    return scope[j].1;
                }
            }
        }
        assert(false) by {
            let (a, j) = choose|a: int, j: int| 0 <= a < sc.len() && 0 <= j < sc[a]@.len() && (#[trigger] sc[a]@[j]).0@ == name@;
        }
        0
    }

    /// Binds `name` to `v` in the innermost scope.
    fn bind(&mut self, name: String, v: u32)
        requires old(self).inv(), old(self).scopes@.len() >= 1, v < old(self).nvars(),
        ensures
            final(self).inv(),
            final(self).env() == old(self).env().insert(name@),
            final(self).scopes@.len() == old(self).scopes@.len(),
            final(self).scopes@.drop_last() == old(self).scopes@.drop_last(),
            final(self).f == old(self).f,
            final(self).cur == old(self).cur,
            final(self).temps == old(self).temps,
    {
        let ghost old_sc = self.scopes@;
        let ghost nm = name@;
        let mut last = self.scopes.pop().unwrap();
        last.push((name, v));
        self.scopes.push(last);
        proof {
            let sc = self.scopes@;
            let k = sc.len() - 1;
            assert(sc.drop_last() =~= old_sc.drop_last());
            assert forall|i: int, j: int| 0 <= i < sc.len() && 0 <= j < sc[i]@.len()
                implies (#[trigger] sc[i]@[j]).1 < self.f.vars@.len() by {
                if i < k {
                    assert(sc[i] == old_sc[i]);
                } else if j < old_sc[k]@.len() {
                    assert(sc[i]@[j] == old_sc[k]@[j]);
                }
            }
            assert forall|n: Seq<char>| scope_names(sc).contains(n) <==> scope_names(old_sc).insert(nm).contains(n) by {
                if scope_names(sc).contains(n) {
                    let (i, j) = choose|i: int, j: int| 0 <= i < sc.len() && 0 <= j < sc[i]@.len() && (#[trigger] sc[i]@[j]).0@ == n;
                    if i < k {
                        assert(sc[i] == old_sc[i]);
                        assert(old_sc[i]@[j].0@ == n);
                    } else if j < old_sc[k]@.len() {
                        assert(old_sc[k]@[j].0@ == n);
                    }
                }
                if scope_names(old_sc).contains(n) {
                    let (i, j) = choose|i: int, j: int| 0 <= i < old_sc.len() && 0 <= j < old_sc[i]@.len() && (#[trigger] old_sc[i]@[j]).0@ == n;
                    if i < k {
                        assert(sc[i] == old_sc[i]);
                        assert(sc[i]@[j].0@ == n);
                    } else {
                        assert(sc[k]@[j] == old_sc[k]@[j]);
                    }
                }
                if n == nm {
                    assert(sc[k]@[old_sc[k]@.len() as int].0@ == n);
                }
            }
            assert(scope_names(sc) =~= scope_names(old_sc).insert(nm));
        }
    }

    proof fn lemma_push_empty_scope(old_sc: Seq<Vec<(String, u32)>>, sc: Seq<Vec<(String, u32)>>)
        requires sc.len() == old_sc.len() + 1, sc.drop_last() == old_sc, sc.last()@.len() == 0,
        ensures scope_names(sc) == scope_names(old_sc),
    {
        assert forall|n: Seq<char>| scope_names(sc).contains(n) <==> scope_names(old_sc).contains(n) by {
            if scope_names(sc).contains(n) {
                let (i, j) = choose|i: int, j: int| 0 <= i < sc.len() && 0 <= j < sc[i]@.len() && (#[trigger] sc[i]@[j]).0@ == n;
                assert(i < old_sc.len());
                assert(sc[i] == old_sc[i]);
                assert(old_sc[i]@[j].0@ == n);
            }
            if scope_names(old_sc).contains(n) {
                let (i, j) = choose|i: int, j: int| 0 <= i < old_sc.len() && 0 <= j < old_sc[i]@.len() && (#[trigger] old_sc[i]@[j]).0@ == n;
                assert(sc[i] == old_sc[i]);
                assert(sc[i]@[j].0@ == n);
            }
        }
        assert(scope_names(sc) =~= scope_names(old_sc));
    }
}

proof fn lemma_stmts_at(env: Set<Seq<char>>, s: Seq<Stmt>, i: int)
    requires stmts_lowerable(env, s), 0 <= i < s.len(),
    ensures
        stmt_lowerable(env.union(let_names(s.subrange(0, i))), s[i]),
        stmts_size(s.subrange(0, i)) + stmt_size(s[i]) <= stmts_size(s),
    decreases s.len(),
{
    if i < s.len() - 1 {
        lemma_stmts_at(env, s.drop_last(), i);
        assert(s.drop_last().subrange(0, i) =~= s.subrange(0, i));
    } else {
        assert(s.drop_last() =~= s.subrange(0, i));
    }
}

proof fn lemma_args_at(env: Set<Seq<char>>, s: Seq<Expr>, i: int)
    requires args_lowerable(env, s), 0 <= i < s.len(),
    ensures
        lowerable(env, s[i]),
        args_size(s.subrange(0, i)) + expr_size(s[i]) <= args_size(s),
    decreases s.len(),
{
    if i < s.len() - 1 {
        lemma_args_at(env, s.drop_last(), i);
        assert(s.drop_last().subrange(0, i) =~= s.subrange(0, i));
    } else {
        assert(s.drop_last() =~= s.subrange(0, i));
    }
}

impl Lower {
    /// Lowers a block in a scope of its own; its value is the tail's, or 0.
    #[verifier::loop_isolation(false)]
    fn block(&mut self, b: &Block) -> (v: Val)
        requires
            old(self).inv(),
            block_lowerable(old(self).env(), *b),
            old(self).nvars() + block_size(*b) <= u32::MAX,
        ensures
            final(self).inv(),
            final(self).keeps(old(self)),
            val_ok(v, final(self).nvars()),
            final(self).nvars() <= old(self).nvars() + block_size(*b),
        decreases b, 1int,
    {
        let ghost s0 = *self;
        let ghost env0 = self.env();
        self.scopes.push(Vec::new());
        proof {
            Lower::lemma_push_empty_scope(s0.scopes@, self.scopes@);
            assert(self.scopes@.drop_last() =~= s0.scopes@);
            assert forall|i: int, j: int| 0 <= i < self.scopes@.len() && 0 <= j < self.scopes@[i]@.len()
                implies (#[trigger] self.scopes@[i]@[j]).1 < self.f.vars@.len() by {
                assert(self.scopes@[i] == s0.scopes@[i]);
            }
        }
        let mut i: usize = 0;
        while i < b.stmts.len()
            invariant
                i <= b.stmts@.len(),
                self.inv(),
                self.scopes@.len() == s0.scopes@.len() + 1,
                self.scopes@.drop_last() == s0.scopes@,
                self.env() == env0.union(let_names(b.stmts@.subrange(0, i as int))),
                self.f.name == s0.f.name,
                self.f.params@ == s0.f.params@,
                s0.f.vars@.len() <= self.f.vars@.len(),
                forall|q: int| 0 <= q < s0.f.vars@.len() ==> #[trigger] self.f.vars@[q] == s0.f.vars@[q],
                s0.f.blocks@.len() <= self.f.blocks@.len(),
                self.nvars() <= s0.nvars() + stmts_size(b.stmts@.subrange(0, i as int)),
            decreases b.stmts@.len() - i,
        {
            proof {
                assert(decreases_to!(b => b.stmts));
                assert(decreases_to!(b.stmts => b.stmts@));
                assert(decreases_to!(b.stmts@ => b.stmts@[i as int]));
                lemma_stmts_at(env0, b.stmts@, i as int);
                assert(b.stmts@.subrange(0, (i + 1) as int).drop_last() =~= b.stmts@.subrange(0, i as int));
                assert(b.stmts@.subrange(0, (i + 1) as int).last() == b.stmts@[i as int]);
            }
            match &b.stmts[i] {
                Stmt::Let { name, init, .. } => {
                    proof { assert(decreases_to!(b.stmts@[i as int] => *init)); }
                    let v = self.expr(init);
                    let var = self.new_var(name.as_str());
                    self.emit(Inst::Copy { dst: var, src: v });
                    self.bind(name.clone(), var);
                    proof {
                        assert(let_names(b.stmts@.subrange(0, (i + 1) as int))
                            == let_names(b.stmts@.subrange(0, i as int)).insert(name@));
                        assert(self.env() =~= env0.union(let_names(b.stmts@.subrange(0, (i + 1) as int))));
                        assert(self.scopes@.drop_last() =~= s0.scopes@);
                    }
                },
                Stmt::Expr(e) => {
                    self.expr(e);
                    proof {
                        assert(let_names(b.stmts@.subrange(0, (i + 1) as int))
                            == let_names(b.stmts@.subrange(0, i as int)));
                    }
                },
            }
            i += 1;
        }
        assert(b.stmts@.subrange(0, b.stmts@.len() as int) =~= b.stmts@);
        let v = match &b.tail {
            Some(t) => self.expr(t),
            None => Val::Const(0),
        };
        let ghost before_pop = *self;
        self.scopes.pop();
        proof {
            assert(self.scopes@ =~= s0.scopes@);
        }
        v
    }

    /// Lowers an expression into the current block (and new ones for control flow); the
    /// value it computes is a constant or the variable that holds it.
    #[verifier::loop_isolation(false)]
    fn expr(&mut self, e: &Expr) -> (v: Val)
        requires
            old(self).inv(),
            lowerable(old(self).env(), *e),
            old(self).nvars() + expr_size(*e) <= u32::MAX,
        ensures
            final(self).inv(),
            final(self).keeps(old(self)),
            val_ok(v, final(self).nvars()),
            final(self).nvars() <= old(self).nvars() + expr_size(*e),
            e.kind matches ExprKind::Int(n) ==> v == Val::Const(n) && *final(self) == *old(self),
            e.kind matches ExprKind::Bool(x) ==> v == Val::Const(if x { 1 } else { 0 }) && *final(self) == *old(self),
            e.kind matches ExprKind::Var(name) ==> v matches Val::Var(x)
                && scoped_var(old(self).scopes@, name@) == Some(x) && *final(self) == *old(self),
            e.kind matches ExprKind::Unary(op, _) ==> (v matches Val::Var(d) && old(self).nvars() <= d
                && (final(self).cur_last() matches Some(Inst::Un { dst, op: op2, .. }) && dst == d && op2 == op)),
            e.kind matches ExprKind::Binary(op, _, _) ==> (v matches Val::Var(d) && old(self).nvars() <= d
                && (op != BinOp::And && op != BinOp::Or ==>
                    (final(self).cur_last() matches Some(Inst::Bin { dst, op: op2, .. }) && dst == d && op2 == op))),
            e.kind is Call ==> (v matches Val::Var(d) && old(self).nvars() <= d
                && (final(self).cur_last() matches Some(Inst::Call { dst, .. }) && dst == d)),
            e.kind is If ==> (v matches Val::Var(d) && old(self).nvars() <= d),
            (e.kind is Assign || e.kind is While || e.kind is Return) ==> v == Val::Const(0),
        decreases e, 0int,
    {
        let ghost s0 = *self;
        match &e.kind {
            ExprKind::Int(n) => Val::Const(*n),
            ExprKind::Bool(b) => Val::Const(if *b { 1 } else { 0 }),
            ExprKind::Var(name) => Val::Var(self.lookup(name)),
            ExprKind::Unary(op, x) => {
                let a = self.expr(x);
                let dst = self.temp();
                self.emit(Inst::Un { dst, op: *op, a });
                Val::Var(dst)
            },
            ExprKind::Binary(op, a, b) => {
                if *op == BinOp::And || *op == BinOp::Or {
                    // Short-circuit operators become control flow: the right operand runs only when needed.
                    let r = self.temp();
                    let va = self.expr(a);
                    let rhs = self.new_block();
                    let short = self.new_block();
                    let join = self.new_block();
                    let (then, els) = if *op == BinOp::And { (rhs, short) } else { (short, rhs) };
                    self.terminate(Term::Branch { cond: va, then, els });
                    self.cur = rhs;
                    let vb = self.expr(b);
                    self.emit(Inst::Copy { dst: r, src: vb });
                    self.terminate(Term::Jump(join));
                    self.cur = short;
                    self.emit(Inst::Copy { dst: r, src: Val::Const(if *op == BinOp::Or { 1 } else { 0 }) });
                    self.terminate(Term::Jump(join));
                    self.cur = join;
                    Val::Var(r)
                } else {
                    let va = self.expr(a);
                    let vb = self.expr(b);
                    let dst = self.temp();
                    self.emit(Inst::Bin { dst, op: *op, a: va, b: vb });
                    Val::Var(dst)
                }
            },
            ExprKind::Assign(lhs, rhs) => {
                let v = self.expr(rhs);
                match &lhs.kind {
                    ExprKind::Var(name) => {
                        let dst = self.lookup(name);
                        self.emit(Inst::Copy { dst, src: v });
                    },
                    _ => {},
                }
                Val::Const(0)
            },
            ExprKind::Call(callee, args) => {
                let mut vals: Vec<Val> = Vec::new();
                let mut i: usize = 0;
                while i < args.len()
                    invariant
                        i <= args@.len(),
                        self.inv(),
                        self.keeps(&s0),
                        self.nvars() <= s0.nvars() + args_size(args@.subrange(0, i as int)),
                        forall|k: int| 0 <= k < vals@.len() ==> val_ok(#[trigger] vals@[k], self.nvars()),
                    decreases args@.len() - i,
                {
                    proof {
                        assert(decreases_to!(e => e.kind));
                        assert(decreases_to!(e.kind => e.kind->Call_1));
                        assert(e.kind->Call_1 == *args);
                        assert(decreases_to!(*args => args@));
                        assert(decreases_to!(args@ => args@[i as int]));
                        lemma_args_at(s0.env(), args@, i as int);
                        assert(args@.subrange(0, (i + 1) as int).drop_last() =~= args@.subrange(0, i as int));
                        assert(args@.subrange(0, (i + 1) as int).last() == args@[i as int]);
                    }
                    let v = self.expr(&args[i]);
                    vals.push(v);
                    i += 1;
                }
                assert(args@.subrange(0, args@.len() as int) =~= args@);
                let dst = self.temp();
                let func = match &callee.kind {
                    ExprKind::Var(name) => name.clone(),
                    _ => String::new(),
                };
                let ghost vs = vals@;
                let inst = Inst::Call { dst, func, args: vals };
                assert(inst_operands(inst) == vs);
                self.emit(inst);
                Val::Var(dst)
            },
            ExprKind::If(c, then_b, els) => {
                let vc = self.expr(c);
                let r = self.temp();
                let tb = self.new_block();
                let join = self.new_block();
                let eb = if els.is_some() { self.new_block() } else { join };
                self.terminate(Term::Branch { cond: vc, then: tb, els: eb });
                self.cur = tb;
                let v = self.block(then_b);
                self.emit(Inst::Copy { dst: r, src: v });
                self.terminate(Term::Jump(join));
                match els {
                    Some(x) => {
                        self.cur = eb;
                        let v2 = self.expr(x);
                        self.emit(Inst::Copy { dst: r, src: v2 });
                        self.terminate(Term::Jump(join));
                    },
                    None => {},
                }
                self.cur = join;
                Val::Var(r)
            },
            ExprKind::While(c, body) => {
                let header = self.new_block();
                self.terminate(Term::Jump(header));
                self.cur = header;
                let vc = self.expr(c);
                let body_b = self.new_block();
                let exit = self.new_block();
                self.terminate(Term::Branch { cond: vc, then: body_b, els: exit });
                self.cur = body_b;
                self.block(body);
                self.terminate(Term::Jump(header));
                self.cur = exit;
                Val::Const(0)
            },
            ExprKind::Block(b) => self.block(b),
            ExprKind::Return(v) => {
                let r = match v {
                    Some(x) => self.expr(x),
                    None => Val::Const(0),
                };
                self.terminate(Term::Return(r));
                // Code after `return` goes into a block nothing reaches.
                let nb = self.new_block();
                self.cur = nb;
                Val::Const(0)
            },
        }
    }
}

/// How many of the first `upto` blocks are marked.
pub open spec fn marked(seen: Seq<bool>, upto: int) -> nat
    decreases upto,
{
    if upto <= 0 { 0 } else { marked(seen, upto - 1) + if seen[upto - 1] { 1nat } else { 0nat } }
}

proof fn lemma_marked_mono(seen: Seq<bool>, a: int, b: int)
    requires 0 <= a <= b,
    ensures marked(seen, a) <= marked(seen, b),
    decreases b - a,
{
    if a < b { lemma_marked_mono(seen, a, b - 1); }
}

proof fn lemma_marked_le(seen: Seq<bool>, a: int)
    requires 0 <= a,
    ensures marked(seen, a) <= a,
    decreases a,
{
    if a > 0 { lemma_marked_le(seen, a - 1); }
}

/// The successors of a block, if it is terminated.
pub open spec fn opt_succs(t: Option<Term>) -> Seq<usize> {
    match t {
        Some(t) => succ_seq(t),
        None => Seq::empty(),
    }
}

/// Removes the blocks unreachable from the entry, renumbering the rest in order; a block left
/// unterminated returns 0.
pub fn remove_unreachable(f: &mut FnIr)
    requires
        old(f).blocks@.len() >= 1,
        old(f).vars@.len() <= u32::MAX,
        forall|k: int| 0 <= k < old(f).params@.len() ==> (#[trigger] old(f).params@[k]) < old(f).vars@.len(),
        forall|b: int| 0 <= b < old(f).blocks@.len()
            ==> partial_ok(#[trigger] old(f).blocks@[b], old(f).blocks@.len(), old(f).vars@.len()),
    ensures
        final(f).wf(),
        final(f).name == old(f).name,
        final(f).params@ == old(f).params@,
        final(f).vars@ == old(f).vars@,
        final(f).blocks@.len() <= old(f).blocks@.len(),
        forall|b: int| 0 <= b < final(f).blocks@.len() ==> no_logic(#[trigger] final(f).blocks@[b]),
        forall|b: int| 0 <= b < final(f).blocks@.len() ==> no_entry_edge((#[trigger] final(f).blocks@[b]).term.unwrap()),
{
    let n = f.blocks.len();
    let ghost nv = f.vars@.len();
    let ghost blocks0 = f.blocks@;
    let ghost f0 = *f;
    let mut seen: Vec<bool> = Vec::new();
    let mut i: usize = 0;
    while i < n
        invariant i <= n, seen@.len() == i, forall|k: int| 0 <= k < i ==> !(#[trigger] seen@[k]),
        decreases n - i,
    {
        seen.push(false);
        i += 1;
    }
    let mut stack: Vec<usize> = Vec::new();
    stack.push(0);
    assert(stack@[0] == 0);
    loop
        invariant
            n >= 1, n == f.blocks@.len(), f.blocks@ == blocks0, seen@.len() == n, nv == f.vars@.len(),
            forall|b: int| 0 <= b < n ==> partial_ok(#[trigger] blocks0[b], n as nat, nv),
            forall|k: int| 0 <= k < stack@.len() ==> (#[trigger] stack@[k]) < n,
            seen@[0] || stack@.contains(0),
            forall|x: int, k: int| 0 <= x < n && seen@[x] && 0 <= k < opt_succs(blocks0[x].term).len()
                ==> seen@[#[trigger] opt_succs(blocks0[x].term)[k] as int] || stack@.contains(opt_succs(blocks0[x].term)[k]),
        ensures
            stack@.len() == 0, seen@.len() == n, seen@[0],
            forall|x: int, k: int| 0 <= x < n && seen@[x] && 0 <= k < opt_succs(blocks0[x].term).len()
                ==> seen@[#[trigger] opt_succs(blocks0[x].term)[k] as int],
        decreases crate::ir::unseen(seen@), stack@.len(),
    {
        let ghost st0 = stack@;
        match stack.pop() {
            None => {
                assert(stack@.len() == 0);
                assert(!stack@.contains(0));
                break;
            },
            Some(b) => {
                let ghost st = stack@;
                assert(st0 =~= st.push(b));
                if seen[b] {
                    proof {
                        assert forall|x: int, k: int| 0 <= x < n && seen@[x] && 0 <= k < opt_succs(blocks0[x].term).len()
                            implies seen@[#[trigger] opt_succs(blocks0[x].term)[k] as int] || stack@.contains(opt_succs(blocks0[x].term)[k]) by {
                            let s = opt_succs(blocks0[x].term)[k];
                            if !seen@[s as int] {
                                assert(st0.contains(s));
                                let q = choose|q: int| 0 <= q < st0.len() && st0[q] == s;
                                if q < st.len() { assert(stack@[q] == s); } else { assert(s == b); }
                            }
                        }
                        if !seen@[0] {
                            let q = choose|q: int| 0 <= q < st0.len() && st0[q] == 0;
                            if q < st.len() { assert(stack@[q] == 0); }
                        }
                    }
                    continue;
                }
                let ghost seen_before = seen@;
                seen.set(b, true);
                proof { crate::ir::lemma_unseen_mark_pub(seen_before, b as int); }
                match f.blocks[b].term {
                    Some(t) => {
                        assert(partial_ok(blocks0[b as int], n as nat, nv));
                        assert(term_ok(t, n as nat, nv));
                        let ss = t.succs();
                        let mut k: usize = 0;
                        while k < ss.len()
                            invariant
                                k <= ss@.len(), ss@ == succ_seq(t), n == f.blocks@.len(),
                                forall|q: int| 0 <= q < ss@.len() ==> ss@[q] < n,
                                forall|q: int| 0 <= q < stack@.len() ==> (#[trigger] stack@[q]) < n,
                                forall|q: int| 0 <= q < st.len() ==> stack@.contains(#[trigger] st[q]),
                                forall|q: int| 0 <= q < k ==> stack@.contains(#[trigger] ss@[q]),
                            decreases ss@.len() - k,
                        {
                            let ghost before = stack@;
                            stack.push(ss[k]);
                            proof {
                                assert forall|q: int| 0 <= q < st.len() implies stack@.contains(#[trigger] st[q]) by {
                                    let w = choose|w: int| 0 <= w < before.len() && before[w] == st[q];
                                    assert(stack@[w] == st[q]);
                                }
                                assert forall|q: int| 0 <= q < k + 1 implies stack@.contains(#[trigger] ss@[q]) by {
                                    if q < k {
                                        let w = choose|w: int| 0 <= w < before.len() && before[w] == ss@[q];
                                        assert(stack@[w] == ss@[q]);
                                    } else {
                                        assert(stack@[before.len() as int] == ss@[q]);
                                    }
                                }
                            }
                            k += 1;
                        }
                        proof {
                            assert forall|k2: int| 0 <= k2 < opt_succs(blocks0[b as int].term).len()
                                implies stack@.contains(#[trigger] opt_succs(blocks0[b as int].term)[k2]) by {
                                assert(opt_succs(blocks0[b as int].term)[k2] == ss@[k2]);
                            }
                        }
                    },
                    None => {},
                }
                proof {
                    assert forall|x: int, k: int| 0 <= x < n && seen@[x] && 0 <= k < opt_succs(blocks0[x].term).len()
                        implies seen@[#[trigger] opt_succs(blocks0[x].term)[k] as int] || stack@.contains(opt_succs(blocks0[x].term)[k]) by {
                        let s = opt_succs(blocks0[x].term)[k];
                        if x != b as int && !seen@[s as int] {
                            assert(seen_before[x]);
                            assert(st0.contains(s));
                            let q = choose|q: int| 0 <= q < st0.len() && st0[q] == s;
                            if q < st.len() { assert(st[q] == s); } else { assert(s == b); }
                        }
                    }
                    if !seen@[0] {
                        let q = choose|q: int| 0 <= q < st0.len() && st0[q] == 0;
                        if q < st.len() { assert(st[q] == 0); }
                    }
                }
            },
        }
    }
    // New numbers for the blocks that stay, in order.
    let mut new_id: Vec<usize> = Vec::new();
    let mut cnt: usize = 0;
    let mut j: usize = 0;
    while j < n
        invariant
            j <= n, seen@.len() == n, new_id@.len() == j, cnt == marked(seen@, j as int),
            forall|q: int| 0 <= q < j && seen@[q] ==> #[trigger] new_id@[q] == marked(seen@, q),
        decreases n - j,
    {
        proof { lemma_marked_le(seen@, j as int); }
        if seen[j] {
            new_id.push(cnt);
            cnt += 1;
        } else {
            new_id.push(usize::MAX);
        }
        j += 1;
    }
    let ghost total = marked(seen@, n as int);
    assert forall|q: int| 0 <= q < n && seen@[q] implies (#[trigger] new_id@[q]) < total by {
        lemma_marked_mono(seen@, q + 1, n as int);
    }
    proof {
        lemma_marked_mono(seen@, 1, n as int);
        lemma_marked_le(seen@, n as int);
        reveal_with_fuel(marked, 2);
        assert(marked(seen@, 1) == 1);
    }
    // Move the blocks out, keeping the order.
    let mut old: Vec<BasicBlock> = Vec::new();
    std::mem::swap(&mut old, &mut f.blocks);
    let mut rev: Vec<BasicBlock> = Vec::new();
    while old.len() > 0
        invariant
            old@.len() + rev@.len() == n, blocks0.len() == n,
            forall|q: int| 0 <= q < old@.len() ==> #[trigger] old@[q] == blocks0[q],
            forall|q: int| 0 <= q < rev@.len() ==> #[trigger] rev@[q] == blocks0[n - 1 - q],
        decreases old@.len(),
    {
        let bb = old.pop().unwrap();
        rev.push(bb);
    }
    let mut b: usize = 0;
    while b < n
        invariant
            b <= n, rev@.len() == n - b, blocks0.len() == n, seen@.len() == n, new_id@.len() == n,
            nv == f.vars@.len(), f.params@ == f0.params@, f.vars@ == f0.vars@, f.name == f0.name,
            forall|q: int| 0 <= q < n && seen@[q] ==> (#[trigger] new_id@[q]) < total,
            forall|q: int| 0 <= q < n && seen@[q] ==> #[trigger] new_id@[q] == marked(seen@, q),
            marked(seen@, 1) == 1,
            forall|x: int, k: int| 0 <= x < n && seen@[x] && 0 <= k < opt_succs(blocks0[x].term).len()
                ==> seen@[#[trigger] opt_succs(blocks0[x].term)[k] as int],
            forall|q: int| 0 <= q < n ==> partial_ok(#[trigger] blocks0[q], n as nat, nv),
            forall|q: int| 0 <= q < rev@.len() ==> #[trigger] rev@[q] == blocks0[n - 1 - q],
            f.blocks@.len() == marked(seen@, b as int),
            forall|q: int| 0 <= q < f.blocks@.len() ==> block_ok(#[trigger] f.blocks@[q], total, nv),
            forall|q: int| 0 <= q < f.blocks@.len() ==> no_logic(#[trigger] f.blocks@[q]),
            forall|q: int| 0 <= q < f.blocks@.len() ==> no_entry_edge((#[trigger] f.blocks@[q]).term.unwrap()),
            seen@[0],
        decreases n - b,
    {
        let bb = rev.pop().unwrap();
        assert(bb == blocks0[b as int]);
        if seen[b] {
            assert(partial_ok(bb, n as nat, nv));
            let t = match bb.term {
                Some(t) => t,
                None => Term::Return(Val::Const(0)),
            };
            let nt = match t {
                Term::Jump(x) => {
                    assert(opt_succs(bb.term)[0] == x);
                    proof { lemma_marked_mono(seen@, 1, x as int); }
                    Term::Jump(new_id[x])
                },
                Term::Branch { cond, then, els } => {
                    assert(opt_succs(bb.term)[0] == then);
                    assert(opt_succs(bb.term)[1] == els);
                    proof {
                        lemma_marked_mono(seen@, 1, then as int);
                        lemma_marked_mono(seen@, 1, els as int);
                    }
                    Term::Branch { cond, then: new_id[then], els: new_id[els] }
                },
                r => r,
            };
            let nb = BasicBlock { insts: bb.insts, term: Some(nt) };
            assert(block_ok(nb, total, nv)) by {
                assert forall|k: int| 0 <= k < nb.insts@.len() implies inst_ok(#[trigger] nb.insts@[k], nv) by {
                    assert(nb.insts@[k] == bb.insts@[k]);
                }
            }
            let ghost before = f.blocks@;
            f.blocks.push(nb);
            assert forall|q: int| 0 <= q < f.blocks@.len() implies block_ok(#[trigger] f.blocks@[q], total, nv) by {
                if q < before.len() { assert(f.blocks@[q] == before[q]); }
            }
            assert forall|q: int| 0 <= q < f.blocks@.len() implies no_logic(#[trigger] f.blocks@[q]) by {
                if q < before.len() { assert(f.blocks@[q] == before[q]); }
            }
            assert forall|q: int| 0 <= q < f.blocks@.len() implies no_entry_edge((#[trigger] f.blocks@[q]).term.unwrap()) by {
                if q < before.len() { assert(f.blocks@[q] == before[q]); }
            }
        }
        b += 1;
    }
    assert(f.blocks@.len() == total);
}

// ---------------- checking what lowering needs ----------------

/// The names in a list.
pub open spec fn name_set(v: Seq<String>) -> Set<Seq<char>> {
    Set::new(|n: Seq<char>| exists|i: int| 0 <= i < v.len() && (#[trigger] v[i])@ == n)
}

proof fn lemma_name_set_push(v: Seq<String>, s: String)
    ensures name_set(v.push(s)) == name_set(v).insert(s@),
{
    assert forall|n: Seq<char>| name_set(v.push(s)).contains(n) <==> name_set(v).insert(s@).contains(n) by {
        if name_set(v.push(s)).contains(n) {
            let i = choose|i: int| 0 <= i < v.push(s).len() && (#[trigger] v.push(s)[i])@ == n;
            if i < v.len() { assert(v[i] == v.push(s)[i]); }
        }
        if name_set(v).contains(n) {
            let i = choose|i: int| 0 <= i < v.len() && (#[trigger] v[i])@ == n;
            assert(v.push(s)[i] == v[i]);
        }
        if n == s@ {
            assert(v.push(s)[v.len() as int] == s);
        }
    }
    assert(name_set(v.push(s)) =~= name_set(v).insert(s@));
}

fn has_name(env: &Vec<String>, n: &String) -> (r: bool)
    ensures r == name_set(env@).contains(n@),
{
    let mut i: usize = 0;
    while i < env.len()
        invariant i <= env@.len(), forall|j: int| 0 <= j < i ==> (#[trigger] env@[j])@ != n@,
        decreases env@.len() - i,
    {
        if env[i] == *n {
            assert(env@[i as int]@ == n@);
            return true;
        }
        i += 1;
    }
    false
}

/// Whether an expression reads and assigns only names of `env`, and calls only by name.
#[verifier::loop_isolation(false)]
fn expr_lowerable(env: &mut Vec<String>, e: &Expr) -> (r: bool)
    ensures final(env)@ == old(env)@, r == lowerable(name_set(old(env)@), *e),
    decreases e, 1int,
{
    match &e.kind {
        ExprKind::Var(n) => has_name(env, n),
        ExprKind::Unary(_, x) => expr_lowerable(env, x),
        ExprKind::Binary(_, a, b) => expr_lowerable(env, a) && expr_lowerable(env, b),
        ExprKind::Assign(l, r) => match &l.kind {
            ExprKind::Var(n) => has_name(env, n) && expr_lowerable(env, r),
            _ => false,
        },
        ExprKind::Call(f, args) => {
            if !matches!(f.kind, ExprKind::Var(_)) {
                return false;
            }
            let ghost base = name_set(env@);
            let mut i: usize = 0;
            while i < args.len()
                invariant
                    i <= args@.len(), env@ == old(env)@, base == name_set(env@),
                    args_lowerable(base, args@.subrange(0, i as int)),
                decreases args@.len() - i,
            {
                proof {
                    assert(decreases_to!(e => e.kind));
                    assert(decreases_to!(e.kind => e.kind->Call_1));
                    assert(e.kind->Call_1 == *args);
                    assert(decreases_to!(*args => args@));
                    assert(decreases_to!(args@ => args@[i as int]));
                    assert(args@.subrange(0, i + 1).drop_last() =~= args@.subrange(0, i as int));
                }
                if !expr_lowerable(env, &args[i]) {
                    proof { lemma_args_prefix_fails(base, args@, i as int); }
                    return false;
                }
                i += 1;
            }
            assert(args@.subrange(0, args@.len() as int) =~= args@);
            true
        },
        ExprKind::If(c, t, els) => {
            expr_lowerable(env, c) && block_ok_names(env, t) && match els {
                Some(x) => expr_lowerable(env, x),
                None => true,
            }
        },
        ExprKind::While(c, b) => expr_lowerable(env, c) && block_ok_names(env, b),
        ExprKind::Block(b) => block_ok_names(env, b),
        ExprKind::Return(v) => match v {
            Some(x) => expr_lowerable(env, x),
            None => true,
        },
        _ => true,
    }
}

/// A failing argument makes every longer list of arguments fail.
proof fn lemma_args_prefix_fails(env: Set<Seq<char>>, args: Seq<Expr>, i: int)
    requires 0 <= i < args.len(), !lowerable(env, args[i]),
    ensures !args_lowerable(env, args),
    decreases args.len(),
{
    if i < args.len() - 1 {
        lemma_args_prefix_fails(env, args.drop_last(), i);
    }
}

/// A failing statement makes every longer list of statements fail.
proof fn lemma_stmts_prefix_fails(env: Set<Seq<char>>, s: Seq<Stmt>, i: int)
    requires 0 <= i <= s.len(), !stmts_lowerable(env, s.subrange(0, i)),
    ensures !stmts_lowerable(env, s),
    decreases s.len() - i,
{
    if i < s.len() {
        assert(s.subrange(0, i + 1).drop_last() =~= s.subrange(0, i));
        lemma_stmts_prefix_fails(env, s, i + 1);
    } else {
        assert(s.subrange(0, i) =~= s);
    }
}

/// Whether a block reads and assigns only names of `env` and of its own earlier `let`s.
#[verifier::loop_isolation(false)]
fn block_ok_names(env: &mut Vec<String>, b: &Block) -> (r: bool)
    ensures final(env)@ == old(env)@, r == block_lowerable(name_set(old(env)@), *b),
    decreases b, 0int,
{
    let ghost base = name_set(env@);
    let ghost e0 = env@;
    let start = env.len();
    let mut ok = true;
    let mut i: usize = 0;
    while i < b.stmts.len()
        invariant
            i <= b.stmts@.len(), start == e0.len(), env@.len() >= start,
            env@.subrange(0, start as int) == e0, base == name_set(e0),
            name_set(env@) == base.union(let_names(b.stmts@.subrange(0, i as int))),
            ok == stmts_lowerable(base, b.stmts@.subrange(0, i as int)),
        decreases b.stmts@.len() - i,
    {
        proof {
            assert(decreases_to!(b => b.stmts));
            assert(decreases_to!(b.stmts => b.stmts@));
            assert(decreases_to!(b.stmts@ => b.stmts@[i as int]));
            assert(b.stmts@.subrange(0, i + 1).drop_last() =~= b.stmts@.subrange(0, i as int));
            assert(b.stmts@.subrange(0, i + 1).last() == b.stmts@[i as int]);
        }
        let ghost pre = env@;
        match &b.stmts[i] {
            Stmt::Let { name, init, .. } => {
                let x = expr_lowerable(env, init);
                assert(x == stmt_lowerable(name_set(pre), b.stmts@[i as int]));
                ok = ok && x;
                env.push(name.clone());
                proof {
                    lemma_name_set_push(pre, *name);
                    assert(let_names(b.stmts@.subrange(0, i + 1)) == let_names(b.stmts@.subrange(0, i as int)).insert(name@));
                    assert(name_set(env@) =~= base.union(let_names(b.stmts@.subrange(0, i + 1))));
                    assert(env@.subrange(0, start as int) =~= pre.subrange(0, start as int));
                }
            },
            Stmt::Expr(x) => {
                let y = expr_lowerable(env, x);
                assert(y == stmt_lowerable(name_set(pre), b.stmts@[i as int]));
                ok = ok && y;
                assert(let_names(b.stmts@.subrange(0, i + 1)) == let_names(b.stmts@.subrange(0, i as int)));
            },
        }
        i += 1;
    }
    assert(b.stmts@.subrange(0, b.stmts@.len() as int) =~= b.stmts@);
    let t = match &b.tail {
        Some(t) => expr_lowerable(env, t),
        None => true,
    };
    env.truncate(start);
    assert(env@ =~= e0);
    ok && t
}

/// Whether `lower_fn` may lower `fd`: the body reads only parameters and its own `let`s, and
/// the function stays within the numbering of variables.
pub fn lowerable_fn(fd: &FnDecl) -> (r: bool)
    ensures r == fn_lowerable(*fd),
{
    let mut env: Vec<String> = Vec::new();
    let mut k: usize = 0;
    assert(name_set(env@) =~= param_names(fd.params@.subrange(0, 0)));
    while k < fd.params.len()
        invariant k <= fd.params@.len(), name_set(env@) == param_names(fd.params@.subrange(0, k as int)),
        decreases fd.params@.len() - k,
    {
        let ghost pre = env@;
        env.push(fd.params[k].name.clone());
        proof {
            lemma_name_set_push(pre, fd.params@[k as int].name);
            assert(fd.params@.subrange(0, k + 1).drop_last() =~= fd.params@.subrange(0, k as int));
        }
        k += 1;
    }
    assert(fd.params@.subrange(0, fd.params@.len() as int) =~= fd.params@);
    if !block_ok_names(&mut env, &fd.body) {
        return false;
    }
    if fd.params.len() >= u32::MAX as usize {
        return false;
    }
    let cap: u64 = (u32::MAX as u64) - (fd.params.len() as u64);
    let sz = block_size_capped(&fd.body, cap);
    sz < cap
}

/// `x`, but no more than `cap`.
pub open spec fn capped(x: int, cap: int) -> int {
    if x < cap { x } else { cap }
}

fn add_cap(a: u64, b: u64, cap: u64) -> (r: u64)
    requires a <= cap, b <= cap,
    ensures r == capped(a + b, cap as int),
{
    if a >= cap - b { cap } else { a + b }
}

/// The size of an expression, or `cap` when it is at least that.
#[verifier::loop_isolation(false)]
fn expr_size_capped(e: &Expr, cap: u64) -> (r: u64)
    ensures r == capped(expr_size(*e) as int, cap as int),
    decreases e, 1int,
{
    let one: u64 = if cap >= 1 { 1 } else { 0 };
    let inner: u64 = match &e.kind {
        ExprKind::Unary(_, x) => expr_size_capped(x, cap),
        ExprKind::Return(v) => match v {
            Some(x) => expr_size_capped(x, cap),
            None => 0,
        },
        ExprKind::Binary(_, a, b) => {
            let x = expr_size_capped(a, cap);
            let y = expr_size_capped(b, cap);
            add_cap(x, y, cap)
        },
        ExprKind::Assign(a, b) => {
            let x = expr_size_capped(a, cap);
            let y = expr_size_capped(b, cap);
            add_cap(x, y, cap)
        },
        ExprKind::Call(_, args) => {
            let ghost es = expr_size(*e);
            assert(es == 1 + args_size(args@));
            let mut acc: u64 = 0;
            let mut i: usize = 0;
            while i < args.len()
                invariant i <= args@.len(), acc == capped(args_size(args@.subrange(0, i as int)) as int, cap as int),
                    acc <= cap, es == 1 + args_size(args@), es == expr_size(*e),
                decreases args@.len() - i,
            {
                proof {
                    assert(decreases_to!(e => e.kind));
                    assert(decreases_to!(e.kind => e.kind->Call_1));
                    assert(e.kind->Call_1 == *args);
                    assert(decreases_to!(*args => args@));
                    assert(decreases_to!(args@ => args@[i as int]));
                    assert(args@.subrange(0, i + 1).drop_last() =~= args@.subrange(0, i as int));
                    assert(args@.subrange(0, i + 1).last() == args@[i as int]);
                }
                let y = expr_size_capped(&args[i], cap);
                acc = add_cap(acc, y, cap);
                i += 1;
            }
            assert(args@.subrange(0, args@.len() as int) =~= args@);
            let rr = acc;
            assert(rr as int == capped(expr_size(*e) as int - 1, cap as int));
            rr
        },
        ExprKind::If(c, t, els) => {
            let x = expr_size_capped(c, cap);
            let y = block_size_capped(t, cap);
            let z = match els {
                Some(w) => expr_size_capped(w, cap),
                None => 0,
            };
            let ghost zs: int = match els { Some(w) => expr_size(**w) as int, None => 0 };
            assert(z as int == capped(zs, cap as int));
            let rr = add_cap(add_cap(x, y, cap), z, cap);
            assert(rr as int == capped(expr_size(*e) as int - 1, cap as int));
            rr
        },
        ExprKind::While(c, b) => {
            let x = expr_size_capped(c, cap);
            let y = block_size_capped(b, cap);
            add_cap(x, y, cap)
        },
        ExprKind::Block(b) => block_size_capped(b, cap),
        _ => 0,
    };
    assert(inner as int == capped(expr_size(*e) as int - 1, cap as int));
    add_cap(one, inner, cap)
}

/// The size of a block, or `cap` when it is at least that.
#[verifier::loop_isolation(false)]
fn block_size_capped(b: &Block, cap: u64) -> (r: u64)
    ensures r == capped(block_size(*b) as int, cap as int),
    decreases b, 0int,
{
    let mut acc: u64 = 0;
    let mut i: usize = 0;
    while i < b.stmts.len()
        invariant i <= b.stmts@.len(), acc == capped(stmts_size(b.stmts@.subrange(0, i as int)) as int, cap as int),
        decreases b.stmts@.len() - i,
    {
        proof {
            assert(decreases_to!(b => b.stmts));
            assert(decreases_to!(b.stmts => b.stmts@));
            assert(decreases_to!(b.stmts@ => b.stmts@[i as int]));
            assert(b.stmts@.subrange(0, i + 1).drop_last() =~= b.stmts@.subrange(0, i as int));
            assert(b.stmts@.subrange(0, i + 1).last() == b.stmts@[i as int]);
        }
        let s = match &b.stmts[i] {
            Stmt::Let { init, .. } => {
                let one: u64 = if cap >= 1 { 1 } else { 0 };
                let x = expr_size_capped(init, cap);
                add_cap(one, x, cap)
            },
            Stmt::Expr(x) => expr_size_capped(x, cap),
        };
        assert(s as int == capped(stmt_size(b.stmts@[i as int]) as int, cap as int));
        assert(stmts_size(b.stmts@.subrange(0, i + 1)) == stmts_size(b.stmts@.subrange(0, i as int)) + stmt_size(b.stmts@[i as int]));
        acc = add_cap(acc, s, cap);
        i += 1;
    }
    assert(b.stmts@.subrange(0, b.stmts@.len() as int) =~= b.stmts@);
    let t = match &b.tail {
        Some(t) => expr_size_capped(t, cap),
        None => 0,
    };
    add_cap(acc, t, cap)
}

/// No parameter name is the part before the first `.` of an earlier one, as with distinct
/// plain names.
pub open spec fn fresh_params(ps: Seq<Param>) -> bool {
    forall|i: int, j: int| 0 <= i < j < ps.len() ==> base_of(#[trigger] ps[i].name@) != encode_utf8(#[trigger] ps[j].name@)
}

/// Lowers a function to a control-flow graph: block 0 is the entry and nothing jumps back
/// to it, the parameters are the first variables, and `&&` / `||` become branches.
pub fn lower_fn(fd: &FnDecl) -> (f: FnIr)
    requires fn_lowerable(*fd),
    ensures
        f.wf(),
        f.name@ == fd.name@,
        f.params@.len() == fd.params@.len(),
        forall|k: int| 0 <= k < f.params@.len() ==> #[trigger] f.params@[k] == k,
        forall|b: int| 0 <= b < f.blocks@.len() ==> no_logic(#[trigger] f.blocks@[b]),
        forall|b: int| 0 <= b < f.blocks@.len() ==> no_entry_edge((#[trigger] f.blocks@[b]).term.unwrap()),
        f.vars@.len() >= fd.params@.len(),
        fresh_params(fd.params@) ==> forall|k: int| 0 <= k < fd.params@.len() ==> (#[trigger] f.vars@[k])@ == fd.params@[k].name@,
{
    let mut l = Lower {
        f: FnIr { name: fd.name.clone(), params: Vec::new(), vars: Vec::new(), blocks: Vec::new() },
        cur: 0,
        scopes: Vec::new(),
        temps: 0,
    };
    l.f.blocks.push(BasicBlock { insts: Vec::new(), term: None });
    l.scopes.push(Vec::new());
    proof {
        assert(l.env() =~= Set::<Seq<char>>::empty());
    }
    let mut i: usize = 0;
    while i < fd.params.len()
        invariant
            i <= fd.params@.len(),
            l.inv(),
            l.scopes@.len() == 1,
            l.env() == param_names(fd.params@.subrange(0, i as int)),
            l.f.params@.len() == i,
            l.f.name@ == fd.name@,
            l.nvars() == i,
            forall|k: int| 0 <= k < i ==> #[trigger] l.f.params@[k] == k,
            fn_lowerable(*fd),
            fresh_params(fd.params@) ==> forall|k: int| 0 <= k < i ==> (#[trigger] l.f.vars@[k])@ == fd.params@[k].name@,
        decreases fd.params@.len() - i,
    {
        proof {
            if fresh_params(fd.params@) {
                assert forall|q: int| 0 <= q < l.f.vars@.len() implies
                    base_of(#[trigger] l.f.vars@[q]@) != encode_utf8(fd.params@[i as int].name@) by {
                    assert(l.f.vars@[q]@ == fd.params@[q].name@);
                }
            }
        }
        let v = l.new_var(fd.params[i].name.as_str());
        let ghost before = l;
        l.f.params.push(v);
        proof {
            assert forall|k: int| 0 <= k < l.f.params@.len() implies (#[trigger] l.f.params@[k]) < l.f.vars@.len() by {
                if k < before.f.params@.len() { assert(l.f.params@[k] == before.f.params@[k]); }
            }
        }
        l.bind(fd.params[i].name.clone(), v);
        proof {
            assert(fd.params@.subrange(0, (i + 1) as int).drop_last() =~= fd.params@.subrange(0, i as int));
            assert(l.env() =~= param_names(fd.params@.subrange(0, (i + 1) as int)));
        }
        i += 1;
    }
    assert(fd.params@.subrange(0, fd.params@.len() as int) =~= fd.params@);
    let v = l.block(&fd.body);
    l.terminate(Term::Return(v));
    let mut f = l.f;
    remove_unreachable(&mut f);
    f
}

} // verus!
