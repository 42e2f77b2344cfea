//! Walking the Ore AST. `Visitor` is the rustc-style interface an analysis implements, with
//! `walk_*` doing the traversal into children; `CallGraph` and `Census` are the two analyses
//! of this module, each a pre-order walk whose result is stated over the tree.

use vstd::prelude::*;
use crate::ore::{Block, Expr, ExprKind, FnDecl, Stmt};

verus! {

/// An analysis over the AST. An implementation that wants the whole tree calls the matching
/// `walk_*` function from each method after doing its own work. Each method's effect on the
/// analysis state is what the implementation's `*_visited` relation allows, so a walk's effect
/// can be stated as the visits it makes, in order.
pub trait Visitor<'ast>: Sized {
    /// Visiting function `f` may take the analysis from `self` to `after`.
    spec fn fn_visited(&self, f: FnDecl, after: Self) -> bool;

    /// Visiting block `b` may take the analysis from `self` to `after`.
    spec fn block_visited(&self, b: Block, after: Self) -> bool;

    /// Visiting expression `e` may take the analysis from `self` to `after`.
    spec fn expr_visited(&self, e: Expr, after: Self) -> bool;

    fn visit_fn(&mut self, f: &'ast FnDecl)
        ensures old(self).fn_visited(*f, *final(self));

    fn visit_block(&mut self, b: &'ast Block)
        ensures old(self).block_visited(*b, *final(self));

    fn visit_expr(&mut self, e: &'ast Expr)
        ensures old(self).expr_visited(*e, *final(self));
}

/// A node a walk visits: an expression or a block.
pub enum Child {
    Expr(Expr),
    Block(Block),
}

/// Visiting `c` takes the analysis from `a` to `b`.
pub open spec fn child_visited<'ast, V: Visitor<'ast>>(a: V, c: Child, b: V) -> bool {
    match c {
        Child::Expr(e) => a.expr_visited(e, b),
        Child::Block(x) => a.block_visited(x, b),
    }
}

/// The analysis states `st` are those before and after visiting `cs` in order.
pub open spec fn visits_in_order<'ast, V: Visitor<'ast>>(st: Seq<V>, cs: Seq<Child>) -> bool {
    &&& st.len() == cs.len() + 1
    &&& forall|i: int| 0 <= i < cs.len() ==> child_visited(st[i], #[trigger] cs[i], st[i + 1])
}

/// Some sequence of states leads from `a` to `b` by visiting `cs` in order.
pub open spec fn walked<'ast, V: Visitor<'ast>>(a: V, cs: Seq<Child>, b: V) -> bool {
    exists|st: Seq<V>| #[trigger] visits_in_order(st, cs) && st[0] == a && st.last() == b
}

/// The expressions of a block's statements, in order.
pub open spec fn stmt_children(s: Seq<Stmt>) -> Seq<Child> {
    s.map_values(|st: Stmt| match st {
        Stmt::Let { init, .. } => Child::Expr(init),
        Stmt::Expr(x) => Child::Expr(x),
    })
}

/// What `walk_block` visits: each statement's expression, then the tail.
pub open spec fn block_children(b: Block) -> Seq<Child> {
    stmt_children(b.stmts@) + match b.tail {
        Some(t) => seq![Child::Expr(*t)],
        None => Seq::empty(),
    }
}

/// What `walk_expr` visits: the direct children, left to right.
pub open spec fn expr_children(e: Expr) -> Seq<Child> {
    match e.kind {
        ExprKind::Unary(_, x) => seq![Child::Expr(*x)],
        ExprKind::Return(Some(x)) => seq![Child::Expr(*x)],
        ExprKind::Binary(_, a, b) => seq![Child::Expr(*a), Child::Expr(*b)],
        ExprKind::Assign(a, b) => seq![Child::Expr(*a), Child::Expr(*b)],
        ExprKind::Call(f, args) => seq![Child::Expr(*f)] + args@.map_values(|a: Expr| Child::Expr(a)),
        ExprKind::If(c, t, els) => seq![Child::Expr(*c), Child::Block(t)] + match els {
            Some(x) => seq![Child::Expr(*x)],
            None => Seq::empty(),
        },
        ExprKind::While(c, b) => seq![Child::Expr(*c), Child::Block(b)],
        ExprKind::Block(b) => seq![Child::Block(b)],
        _ => Seq::empty(),
    }
}

/// One more visit extends a walk.
proof fn lemma_walk_step<'ast, V: Visitor<'ast>>(st: Seq<V>, cs: Seq<Child>, c: Child, b: V)
    requires visits_in_order(st, cs), child_visited(st.last(), c, b),
    ensures visits_in_order(st.push(b), cs.push(c)), st.push(b)[0] == st[0], st.push(b).last() == b,
{
    let s2 = st.push(b);
    let c2 = cs.push(c);
    assert forall|i: int| 0 <= i < c2.len() implies child_visited(s2[i], #[trigger] c2[i], s2[i + 1]) by {
        if i < cs.len() {
            assert(c2[i] == cs[i]);
            assert(s2[i] == st[i]);
            assert(s2[i + 1] == st[i + 1]);
        } else {
            assert(s2[i] == st.last());
        }
    }
}

/// Visits the body of a function.
pub fn walk_fn<'ast, V: Visitor<'ast>>(v: &mut V, f: &'ast FnDecl)
    ensures walked(*old(v), seq![Child::Block(f.body)], *final(v)),
{
    let ghost a = *v;
    v.visit_block(&f.body);
    proof {
        let st = seq![a, *v];
        assert(visits_in_order(st, seq![Child::Block(f.body)]));
    }
}

/// Visits each statement's expression in order, then the tail expression.
pub fn walk_block<'ast, V: Visitor<'ast>>(v: &mut V, b: &'ast Block)
    ensures walked(*old(v), block_children(*b), *final(v)),
{
    let ghost mut st: Seq<V> = seq![*v];
    let ghost cs = stmt_children(b.stmts@);
    let mut i: usize = 0;
    while i < b.stmts.len()
        invariant
            i <= b.stmts@.len(), cs == stmt_children(b.stmts@),
            visits_in_order(st, cs.subrange(0, i as int)), st[0] == *old(v), st.last() == *v,
        decreases b.stmts@.len() - i,
    {
        let ghost before = *v;
        match &b.stmts[i] {
            Stmt::Let { init, .. } => v.visit_expr(init),
            Stmt::Expr(e) => v.visit_expr(e),
        }
        proof {
            assert(child_visited(before, cs[i as int], *v));
            lemma_walk_step(st, cs.subrange(0, i as int), cs[i as int], *v);
            assert(cs.subrange(0, i as int).push(cs[i as int]) =~= cs.subrange(0, i + 1));
            st = st.push(*v);
        }
        i += 1;
    }
    assert(cs.subrange(0, cs.len() as int) =~= cs);
    match &b.tail {
        Some(t) => {
            let ghost before = *v;
            v.visit_expr(t);
            proof {
                lemma_walk_step(st, cs, Child::Expr(**t), *v);
                assert(cs.push(Child::Expr(**t)) =~= block_children(*b));
                st = st.push(*v);
            }
        },
        None => {
            assert(cs + Seq::<Child>::empty() =~= block_children(*b));
        },
    }
    assert(visits_in_order(st, block_children(*b)));
}

/// Visits the direct children of an expression, left to right.
pub fn walk_expr<'ast, V: Visitor<'ast>>(v: &mut V, e: &'ast Expr)
    ensures walked(*old(v), expr_children(*e), *final(v)),
{
    let ghost mut st: Seq<V> = seq![*v];
    let ghost mut cs: Seq<Child> = Seq::empty();
    match &e.kind {
        ExprKind::Int(_) | ExprKind::Bool(_) | ExprKind::Var(_) => {},
        ExprKind::Return(None) => {},
        ExprKind::Unary(_, x) => {
            v.visit_expr(x);
            proof { lemma_walk_step(st, cs, Child::Expr(**x), *v); st = st.push(*v); cs = cs.push(Child::Expr(**x)); }
        },
        ExprKind::Return(Some(x)) => {
            v.visit_expr(x);
            proof { lemma_walk_step(st, cs, Child::Expr(**x), *v); st = st.push(*v); cs = cs.push(Child::Expr(**x)); }
        },
        ExprKind::Binary(_, a, b) | ExprKind::Assign(a, b) => {
            v.visit_expr(a);
            proof { lemma_walk_step(st, cs, Child::Expr(**a), *v); st = st.push(*v); cs = cs.push(Child::Expr(**a)); }
            v.visit_expr(b);
            proof { lemma_walk_step(st, cs, Child::Expr(**b), *v); st = st.push(*v); cs = cs.push(Child::Expr(**b)); }
        },
        ExprKind::Call(f, args) => {
            v.visit_expr(f);
            proof { lemma_walk_step(st, cs, Child::Expr(**f), *v); st = st.push(*v); cs = cs.push(Child::Expr(**f)); }
            let ghost ac = args@.map_values(|a: Expr| Child::Expr(a));
            let mut i: usize = 0;
            while i < args.len()
                invariant
                    i <= args@.len(), ac == args@.map_values(|a: Expr| Child::Expr(a)),
                    cs == seq![Child::Expr(**f)] + ac.subrange(0, i as int),
                    visits_in_order(st, cs), st[0] == *old(v), st.last() == *v,
                decreases args@.len() - i,
            {
                v.visit_expr(&args[i]);
                proof {
                    assert(ac[i as int] == Child::Expr(args@[i as int]));
                    lemma_walk_step(st, cs, ac[i as int], *v);
                    st = st.push(*v);
                    cs = cs.push(ac[i as int]);
                    assert(cs =~= seq![Child::Expr(**f)] + ac.subrange(0, i + 1));
                }
                i += 1;
            }
            assert(ac.subrange(0, ac.len() as int) =~= ac);
        },
        ExprKind::If(c, t, els) => {
            v.visit_expr(c);
            proof { lemma_walk_step(st, cs, Child::Expr(**c), *v); st = st.push(*v); cs = cs.push(Child::Expr(**c)); }
            v.visit_block(t);
            proof { lemma_walk_step(st, cs, Child::Block(*t), *v); st = st.push(*v); cs = cs.push(Child::Block(*t)); }
            match els {
                Some(x) => {
                    v.visit_expr(x);
                    proof { lemma_walk_step(st, cs, Child::Expr(**x), *v); st = st.push(*v); cs = cs.push(Child::Expr(**x)); }
                },
                None => {},
            }
        },
        ExprKind::While(c, b) => {
            v.visit_expr(c);
            proof { lemma_walk_step(st, cs, Child::Expr(**c), *v); st = st.push(*v); cs = cs.push(Child::Expr(**c)); }
            v.visit_block(b);
            proof { lemma_walk_step(st, cs, Child::Block(*b), *v); st = st.push(*v); cs = cs.push(Child::Block(*b)); }
        },
        ExprKind::Block(b) => {
            v.visit_block(b);
            proof { lemma_walk_step(st, cs, Child::Block(*b), *v); st = st.push(*v); cs = cs.push(Child::Block(*b)); }
        },
    }
    assert(cs =~= expr_children(*e));
    assert(visits_in_order(st, expr_children(*e)));
}

// ---------------------------------------------------------------- call graph

/// The names called directly by name (`f(..)` with `f` a variable), in pre-order.
pub open spec fn expr_calls(e: Expr) -> Seq<Seq<char>>
    decreases e,
{
    let own: Seq<Seq<char>> = match e.kind {
        ExprKind::Call(f, _) => match f.kind {
            ExprKind::Var(name) => seq![name@],
            _ => Seq::empty(),
        },
        _ => Seq::empty(),
    };
    own + match e.kind {
        ExprKind::Unary(_, x) => expr_calls(*x),
        ExprKind::Return(Some(x)) => expr_calls(*x),
        ExprKind::Binary(_, a, b) => expr_calls(*a) + expr_calls(*b),
        ExprKind::Assign(a, b) => expr_calls(*a) + expr_calls(*b),
        ExprKind::Call(f, args) => expr_calls(*f) + args_calls(args@),
        ExprKind::If(c, t, els) => expr_calls(*c) + block_calls(t) + match els {
            Some(x) => expr_calls(*x),
            None => Seq::empty(),
        },
        ExprKind::While(c, b) => expr_calls(*c) + block_calls(b),
        ExprKind::Block(b) => block_calls(b),
        _ => Seq::empty(),
    }
}

pub open spec fn args_calls(args: Seq<Expr>) -> Seq<Seq<char>>
    decreases args,
{
    if args.len() == 0 { Seq::empty() } else { args_calls(args.drop_last()) + expr_calls(args.last()) }
}

pub open spec fn block_calls(b: Block) -> Seq<Seq<char>>
    decreases b,
{
    stmts_calls(b.stmts@) + match b.tail {
        Some(t) => expr_calls(*t),
        None => Seq::empty(),
    }
}

pub open spec fn stmts_calls(s: Seq<Stmt>) -> Seq<Seq<char>>
    decreases s,
{
    if s.len() == 0 { Seq::empty() } else { stmts_calls(s.drop_last()) + stmt_calls(s.last()) }
}

pub open spec fn stmt_calls(st: Stmt) -> Seq<Seq<char>>
    decreases st,
{
    match st {
        Stmt::Let { init, .. } => expr_calls(init),
        Stmt::Expr(x) => expr_calls(x),
    }
}

/// What the call graph of a function lists: each callee name of its body, in order.
pub open spec fn fn_calls(f: FnDecl) -> Seq<Seq<char>> {
    block_calls(f.body)
}

/// The call graph: the names each visited call expression calls, in visit order.
pub struct CallGraph<'ast> {
    pub calls: Vec<&'ast String>,
}

impl<'ast> CallGraph<'ast> {
    pub open spec fn names(&self) -> Seq<Seq<char>> {
        self.calls@.map_values(|s: &String| s@)
    }

    pub fn new() -> (g: Self)
        ensures g.names() == Seq::<Seq<char>>::empty(),
    {
        CallGraph { calls: Vec::new() }
    }

    pub fn visit_fn(&mut self, f: &'ast FnDecl)
        ensures final(self).names() == old(self).names() + fn_calls(*f),
    {
        self.visit_block(&f.body);
    }

    #[verifier::loop_isolation(false)]
    pub fn visit_block(&mut self, b: &'ast Block)
        ensures final(self).names() == old(self).names() + block_calls(*b),
        decreases b,
    {
        let ghost start = self.names();
        let mut i: usize = 0;
        while i < b.stmts.len()
            invariant
                i <= b.stmts@.len(),
                self.names() == start + stmts_calls(b.stmts@.subrange(0, i as int)),
            decreases b.stmts@.len() - i,
        {
            proof {
                assert(decreases_to!(b => b.stmts));
                assert(decreases_to!(b.stmts => b.stmts@));
                assert(decreases_to!(b.stmts@ => b.stmts@[i as int]));
            }
            let ghost before = self.names();
            match &b.stmts[i] {
                Stmt::Let { init, .. } => self.visit_expr(init),
                Stmt::Expr(e) => self.visit_expr(e),
            }
            assert(self.names() == before + stmt_calls(b.stmts@[i as int]));
            assert(b.stmts@.subrange(0, (i + 1) as int).drop_last() =~= b.stmts@.subrange(0, i as int));
            assert(b.stmts@.subrange(0, (i + 1) as int).last() == b.stmts@[i as int]);
            i += 1;
        }
        assert(b.stmts@.subrange(0, b.stmts@.len() as int) =~= b.stmts@);
        match &b.tail {
            Some(t) => self.visit_expr(t),
            None => {},
        }
        assert(self.names() =~= start + block_calls(*b));
    }

    #[verifier::loop_isolation(false)]
    pub fn visit_expr(&mut self, e: &'ast Expr)
        ensures final(self).names() == old(self).names() + expr_calls(*e),
        decreases e,
    {
        let ghost start = self.names();
        match &e.kind {
            ExprKind::Call(callee, _) => match &callee.kind {
                ExprKind::Var(name) => {
                    self.calls.push(name);
                    assert(self.names() =~= start + seq![name@]);
                },
                _ => {},
            },
            _ => {},
        }
        let ghost mid = self.names();
        match &e.kind {
            ExprKind::Int(_) | ExprKind::Bool(_) | ExprKind::Var(_) => {},
            ExprKind::Return(None) => {},
            ExprKind::Unary(_, x) => self.visit_expr(x),
            ExprKind::Return(Some(x)) => self.visit_expr(x),
            ExprKind::Binary(_, a, b) | ExprKind::Assign(a, b) => {
                self.visit_expr(a);
                self.visit_expr(b);
            },
            ExprKind::Call(f, args) => {
                self.visit_expr(f);
                let ghost after_f = self.names();
                let mut i: usize = 0;
                while i < args.len()
                    invariant
                        i <= args@.len(),
                        self.names() == after_f + args_calls(args@.subrange(0, i as int)),
                    decreases args@.len() - i,
                {
                    proof {
                        assert(decreases_to!(e => e.kind));
                        assert(decreases_to!(e.kind => e.kind->Call_1));
                        assert(e.kind->Call_1 == *args);
                        assert(decreases_to!(*args => args@));
                        assert(decreases_to!(args@ => args@[i as int]));
                    }
                    self.visit_expr(&args[i]);
                    assert(args@.subrange(0, (i + 1) as int).drop_last() =~= args@.subrange(0, i as int));
                    i += 1;
                }
                assert(args@.subrange(0, args@.len() as int) =~= args@);
            },
            ExprKind::If(c, t, els) => {
                self.visit_expr(c);
                self.visit_block(t);
                match els {
                    Some(x) => self.visit_expr(x),
                    None => {},
                }
            },
            ExprKind::While(c, b) => {
                self.visit_expr(c);
                self.visit_block(b);
            },
            ExprKind::Block(b) => self.visit_block(b),
        }
        assert(self.names() =~= start + expr_calls(*e));
    }

    /// Whether `name` is among the callees seen so far (a function that calls itself is
    /// directly recursive).
    pub fn calls_name(&self, name: &String) -> (r: bool)
        ensures r == self.names().contains(name@),
    {
        let mut i: usize = 0;
        while i < self.calls.len()
            invariant
                i <= self.calls@.len(),
                forall|j: int| 0 <= j < i ==> self.calls@[j]@ != name@,
            decreases self.calls@.len() - i,
        {
            if *self.calls[i] == *name {
                assert(self.names()[i as int] == name@);
                return true;
            }
            i += 1;
        }
        assert(!self.names().contains(name@)) by {
            if self.names().contains(name@) {
                let k = choose|k: int| 0 <= k < self.names().len() && self.names()[k] == name@;
                assert(self.calls@[k]@ == name@);
            }
        }
        false
    }
}

/// The call graph as a visitor: each visit adds the callees of what it visits, in order.
impl<'ast> Visitor<'ast> for CallGraph<'ast> {
    open spec fn fn_visited(&self, f: FnDecl, after: Self) -> bool {
        after.names() == self.names() + fn_calls(f)
    }

    open spec fn block_visited(&self, b: Block, after: Self) -> bool {
        after.names() == self.names() + block_calls(b)
    }

    open spec fn expr_visited(&self, e: Expr, after: Self) -> bool {
        after.names() == self.names() + expr_calls(e)
    }

    fn visit_fn(&mut self, f: &'ast FnDecl) {
        CallGraph::visit_fn(self, f)
    }

    fn visit_block(&mut self, b: &'ast Block) {
        CallGraph::visit_block(self, b)
    }

    fn visit_expr(&mut self, e: &'ast Expr) {
        CallGraph::visit_expr(self, e)
    }
}

// ---------------------------------------------------------------- census

/// Node counts: (expressions, blocks, while loops).
pub type Tally = (nat, nat, nat);

pub open spec fn plus(a: Tally, b: Tally) -> Tally {
    (a.0 + b.0, a.1 + b.1, a.2 + b.2)
}

pub open spec fn none() -> Tally {
    (0nat, 0nat, 0nat)
}

/// The counts of an expression and everything under it.
pub open spec fn expr_census(e: Expr) -> Tally
    decreases e,
{
    let own: Tally = (1nat, 0nat, if e.kind is While { 1nat } else { 0nat });
    plus(own, match e.kind {
        ExprKind::Unary(_, x) => expr_census(*x),
        ExprKind::Return(Some(x)) => expr_census(*x),
        ExprKind::Binary(_, a, b) => plus(expr_census(*a), expr_census(*b)),
        ExprKind::Assign(a, b) => plus(expr_census(*a), expr_census(*b)),
        ExprKind::Call(f, args) => plus(expr_census(*f), args_census(args@)),
        ExprKind::If(c, t, els) => plus(plus(expr_census(*c), block_census(t)), match els {
            Some(x) => expr_census(*x),
            None => none(),
        }),
        ExprKind::While(c, b) => plus(expr_census(*c), block_census(b)),
        ExprKind::Block(b) => block_census(b),
        _ => none(),
    })
}

pub open spec fn args_census(args: Seq<Expr>) -> Tally
    decreases args,
{
    if args.len() == 0 { none() } else { plus(args_census(args.drop_last()), expr_census(args.last())) }
}

/// A block counts itself once, then its statements and tail.
pub open spec fn block_census(b: Block) -> Tally
    decreases b,
{
    plus((0nat, 1nat, 0nat), plus(stmts_census(b.stmts@), match b.tail {
        Some(t) => expr_census(*t),
        None => none(),
    }))
}

pub open spec fn stmts_census(s: Seq<Stmt>) -> Tally
    decreases s,
{
    if s.len() == 0 { none() } else { plus(stmts_census(s.drop_last()), stmt_census(s.last())) }
}

pub open spec fn stmt_census(st: Stmt) -> Tally
    decreases st,
{
    match st {
        Stmt::Let { init, .. } => expr_census(init),
        Stmt::Expr(x) => expr_census(x),
    }
}

pub open spec fn fn_census(f: FnDecl) -> Tally {
    block_census(f.body)
}

/// Node counts per kind over everything visited.
pub struct Census {
    pub exprs: usize,
    pub blocks: usize,
    pub loops: usize,
}

impl Census {
    pub open spec fn tally(&self) -> Tally {
        (self.exprs as nat, self.blocks as nat, self.loops as nat)
    }

    /// Whether adding `t` to the counts stays within `usize`.
    pub open spec fn room_for(&self, t: Tally) -> bool {
        &&& self.exprs + t.0 <= usize::MAX
        &&& self.blocks + t.1 <= usize::MAX
        &&& self.loops + t.2 <= usize::MAX
    }

    pub fn new() -> (c: Self)
        ensures c.tally() == none(),
    {
        Census { exprs: 0, blocks: 0, loops: 0 }
    }

    pub fn visit_fn(&mut self, f: &FnDecl)
        requires old(self).room_for(fn_census(*f)),
        ensures final(self).tally() == plus(old(self).tally(), fn_census(*f)),
    {
        self.visit_block(&f.body);
    }

    #[verifier::loop_isolation(false)]
    pub fn visit_block(&mut self, b: &Block)
        requires old(self).room_for(block_census(*b)),
        ensures final(self).tally() == plus(old(self).tally(), block_census(*b)),
        decreases b,
    {
        let ghost start = self.tally();
        self.blocks += 1;
        let ghost after_own = self.tally();
        let mut i: usize = 0;
        while i < b.stmts.len()
            invariant
                i <= b.stmts@.len(),
                self.tally() == plus(after_own, stmts_census(b.stmts@.subrange(0, i as int))),
            decreases b.stmts@.len() - i,
        {
            proof {
                assert(decreases_to!(b => b.stmts));
                assert(decreases_to!(b.stmts => b.stmts@));
                assert(decreases_to!(b.stmts@ => b.stmts@[i as int]));
                lemma_stmts_census_prefix(b.stmts@, i as int);
            }
            let ghost before = self.tally();
            match &b.stmts[i] {
                Stmt::Let { init, .. } => self.visit_expr(init),
                Stmt::Expr(e) => self.visit_expr(e),
            }
            assert(self.tally() == plus(before, stmt_census(b.stmts@[i as int])));
            assert(b.stmts@.subrange(0, (i + 1) as int).drop_last() =~= b.stmts@.subrange(0, i as int));
            assert(b.stmts@.subrange(0, (i + 1) as int).last() == b.stmts@[i as int]);
            i += 1;
        }
        assert(b.stmts@.subrange(0, b.stmts@.len() as int) =~= b.stmts@);
        match &b.tail {
            Some(t) => self.visit_expr(t),
            None => {},
        }
    }

    #[verifier::loop_isolation(false)]
    pub fn visit_expr(&mut self, e: &Expr)
        requires old(self).room_for(expr_census(*e)),
        ensures final(self).tally() == plus(old(self).tally(), expr_census(*e)),
        decreases e,
    {
        self.exprs += 1;
        if matches!(e.kind, ExprKind::While(..)) {
            self.loops += 1;
        }
        match &e.kind {
            ExprKind::Int(_) | ExprKind::Bool(_) | ExprKind::Var(_) => {},
            ExprKind::Return(None) => {},
            ExprKind::Unary(_, x) => self.visit_expr(x),
            ExprKind::Return(Some(x)) => self.visit_expr(x),
            ExprKind::Binary(_, a, b) | ExprKind::Assign(a, b) => {
                self.visit_expr(a);
                self.visit_expr(b);
            },
            ExprKind::Call(f, args) => {
                self.visit_expr(f);
                let ghost after_f = self.tally();
                let mut i: usize = 0;
                while i < args.len()
                    invariant
                        i <= args@.len(),
                        self.tally() == plus(after_f, args_census(args@.subrange(0, i as int))),
                    decreases args@.len() - i,
                {
                    proof {
                        assert(decreases_to!(e => e.kind));
                        assert(decreases_to!(e.kind => e.kind->Call_1));
                        assert(e.kind->Call_1 == *args);
                        assert(decreases_to!(*args => args@));
                        assert(decreases_to!(args@ => args@[i as int]));
                        lemma_args_census_prefix(args@, i as int);
                    }
                    self.visit_expr(&args[i]);
                    assert(args@.subrange(0, (i + 1) as int).drop_last() =~= args@.subrange(0, i as int));
                    i += 1;
                }
                assert(args@.subrange(0, args@.len() as int) =~= args@);
            },
            ExprKind::If(c, t, els) => {
                self.visit_expr(c);
                self.visit_block(t);
                match els {
                    Some(x) => self.visit_expr(x),
                    None => {},
                }
            },
            ExprKind::While(c, b) => {
                self.visit_expr(c);
                self.visit_block(b);
            },
            ExprKind::Block(b) => self.visit_block(b),
        }
    }
}

/// The counts of a prefix of statements and of the next statement stay within the whole.
proof fn lemma_stmts_census_prefix(s: Seq<Stmt>, i: int)
    requires 0 <= i < s.len(),
    ensures ({
        let p = plus(stmts_census(s.subrange(0, i)), stmt_census(s[i]));
        &&& p.0 <= stmts_census(s).0
        &&& p.1 <= stmts_census(s).1
        &&& p.2 <= stmts_census(s).2
    }),
    decreases s.len(),
{
    if i < s.len() - 1 {
        lemma_stmts_census_prefix(s.drop_last(), i);
        assert(s.drop_last().subrange(0, i) =~= s.subrange(0, i));
    } else {
        assert(s.drop_last() =~= s.subrange(0, i));
    }
}

proof fn lemma_args_census_prefix(s: Seq<Expr>, i: int)
    requires 0 <= i < s.len(),
    ensures ({
        let p = plus(args_census(s.subrange(0, i)), expr_census(s[i]));
        &&& p.0 <= args_census(s).0
        &&& p.1 <= args_census(s).1
        &&& p.2 <= args_census(s).2
    }),
    decreases s.len(),
{
    if i < s.len() - 1 {
        lemma_args_census_prefix(s.drop_last(), i);
        assert(s.drop_last().subrange(0, i) =~= s.subrange(0, i));
    } else {
        assert(s.drop_last() =~= s.subrange(0, i));
    }
}

} // verus!
