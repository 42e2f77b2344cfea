//! A bidirectional type checker for Ore. `infer` computes a type bottom-up; `check` pushes an
//! expected type down into `if` branches and block tails, so a mismatch is reported at the
//! innermost wrong expression. An `{error}` type stops one mistake from cascading. Names are
//! looked up in scoped environments: resolution and checking are fused here.

use vstd::prelude::*;
use vstd::string::{StringExecFns, StringSliceAdditionalSpecFns};
use crate::ore::{BinOp, Block, Expr, ExprKind, FnDecl, Span, Stmt, UnOp};
use crate::text::{decimal_string, string_from_bytes};
use vstd::utf8::{valid_utf8, decode_utf8};

verus! {

#[derive(Debug, Clone, Copy, PartialEq, Eq, Structural)]
pub enum Ty {
    Int,
    Bool,
    Unit,
    /// The type of `return`: coerces to every type.
    Never,
    /// An already-reported error: compatible with everything, so errors don't cascade.
    Error,
}

pub open spec fn ty_text(t: Ty) -> Seq<char> {
    match t {
        Ty::Int => "int"@,
        Ty::Bool => "bool"@,
        Ty::Unit => "()"@,
        Ty::Never => "!"@,
        Ty::Error => "{error}"@,
    }
}

/// How a type is written in messages.
pub fn ty_str(t: Ty) -> (s: &'static str)
    ensures s@ == ty_text(t),
{
    match t {
        Ty::Int => "int",
        Ty::Bool => "bool",
        Ty::Unit => "()",
        Ty::Never => "!",
        Ty::Error => "{error}",
    }
}

pub open spec fn compatible_spec(found: Ty, expected: Ty) -> bool {
    found == expected || found == Ty::Never || found == Ty::Error || expected == Ty::Error
}

/// A value of type `found` may stand where `expected` is wanted.
pub fn compatible(found: &Ty, expected: &Ty) -> (r: bool)
    ensures r == compatible_spec(*found, *expected),
{
    *found == *expected || matches!(found, Ty::Never | Ty::Error) || *expected == Ty::Error
}

/// The type an annotation names: none is `()`.
pub open spec fn ann_spec(name: Option<Seq<char>>) -> Option<Ty> {
    match name {
        None => Some(Ty::Unit),
        Some(n) => if n == "int"@ { Some(Ty::Int) } else if n == "bool"@ { Some(Ty::Bool) } else { None },
    }
}

pub open spec fn opt_view(name: Option<String>) -> Option<Seq<char>> {
    match name {
        Some(s) => Some(s@),
        None => None,
    }
}

fn eq_lit(s: &String, lit: &str) -> (r: bool)
    ensures r == (s@ == lit@),
{
    let t = String::from_str(lit);
    *s == t
}

pub fn ann(name: Option<&String>) -> (r: Result<Ty, String>)
    ensures
        r is Ok <==> ann_spec(match name { Some(s) => Some(s@), None => None }) is Some,
        r matches Ok(t) ==> ann_spec(match name { Some(s) => Some(s@), None => None }) == Some(t),
        r matches Err(m) ==> name matches Some(s) && m@ == "unknown type `"@ + s@ + "`"@,
{
    match name {
        None => Ok(Ty::Unit),
        Some(s) => {
            if eq_lit(s, "int") {
                Ok(Ty::Int)
            } else if eq_lit(s, "bool") {
                Ok(Ty::Bool)
            } else {
                let mut m = String::from_str("unknown type `");
                m.append(s.as_str());
                m.append("`");
                Err(m)
            }
        },
    }
}

/// The annotation's type, `{error}` for an unknown one.
fn ann_or_error(name: &Option<String>) -> (t: Ty)
    ensures t == match ann_spec(opt_view(*name)) { Some(t) => t, None => Ty::Error },
{
    match ann(name.as_ref()) {
        Ok(t) => t,
        Err(_) => Ty::Error,
    }
}

pub struct Sig {
    pub params: Vec<Ty>,
    pub ret: Ty,
}

/// The signature a declaration gives a function.
pub open spec fn sig_params(f: FnDecl) -> Seq<Ty> {
    f.params@.map_values(|p: crate::ore::Param| match ann_spec(opt_view(p.ty)) { Some(t) => t, None => Ty::Error })
}

pub open spec fn sig_ret(f: FnDecl) -> Ty {
    match ann_spec(opt_view(f.ret)) { Some(t) => t, None => Ty::Error }
}

/// The last binding of `name` in a list of bindings (a later one shadows an earlier one).
pub open spec fn binding<T>(s: Seq<(String, T)>, name: Seq<char>) -> Option<T>
    decreases s.len(),
{
    if s.len() == 0 {
        None
    } else if s.last().0@ == name {
        Some(s.last().1)
    } else {
        binding(s.drop_last(), name)
    }
}

/// The signature of the last function declared as `name`.
pub open spec fn sig_lookup(t: Seq<(Seq<char>, Seq<Ty>, Ty)>, name: Seq<char>) -> Option<(Seq<Ty>, Ty)>
    decreases t.len(),
{
    if t.len() == 0 {
        None
    } else if t.last().0 == name {
        Some((t.last().1, t.last().2))
    } else {
        sig_lookup(t.drop_last(), name)
    }
}

/// A name in nested scopes: the innermost scope that binds it decides.
pub open spec fn scoped(scopes: Seq<Vec<(String, Ty)>>, name: Seq<char>) -> Option<Ty>
    decreases scopes.len(),
{
    if scopes.len() == 0 {
        None
    } else {
        match binding(scopes.last()@, name) {
            Some(t) => Some(t),
            None => scoped(scopes.drop_last(), name),
        }
    }
}

pub type FnTable = Seq<(Seq<char>, Seq<Ty>, Ty)>;

/// The names bound by `let`, in the order the checker meets them. A call's arguments are only
/// checked, and their `let`s only met, when the callee is a known function of the right arity.
pub open spec fn expr_lets(fns: FnTable, e: Expr) -> Seq<Seq<char>>
    decreases e,
{
    match e.kind {
        ExprKind::Unary(_, x) => expr_lets(fns, *x),
        ExprKind::Binary(_, a, b) => expr_lets(fns, *a) + expr_lets(fns, *b),
        ExprKind::Assign(a, b) => expr_lets(fns, *a) + expr_lets(fns, *b),
        ExprKind::Call(f, args) => match f.kind {
            ExprKind::Var(n) => match sig_lookup(fns, n@) {
                Some((ps, _)) => if ps.len() == args@.len() { args_lets(fns, args@) } else { Seq::empty() },
                None => Seq::empty(),
            },
            _ => Seq::empty(),
        },
        ExprKind::If(c, t, els) => expr_lets(fns, *c) + block_lets(fns, t) + match els {
            Some(x) => expr_lets(fns, *x),
            None => Seq::empty(),
        },
        ExprKind::While(c, b) => expr_lets(fns, *c) + block_lets(fns, b),
        ExprKind::Block(b) => block_lets(fns, b),
        ExprKind::Return(Some(x)) => expr_lets(fns, *x),
        _ => Seq::empty(),
    }
}

pub open spec fn args_lets(fns: FnTable, args: Seq<Expr>) -> Seq<Seq<char>>
    decreases args,
{
    if args.len() == 0 { Seq::empty() } else { args_lets(fns, args.drop_last()) + expr_lets(fns, args.last()) }
}

pub open spec fn block_lets(fns: FnTable, b: Block) -> Seq<Seq<char>>
    decreases b,
{
    stmts_lets(fns, b.stmts@) + match b.tail {
        Some(t) => expr_lets(fns, *t),
        None => Seq::empty(),
    }
}

pub open spec fn stmts_lets(fns: FnTable, s: Seq<Stmt>) -> Seq<Seq<char>>
    decreases s,
{
    if s.len() == 0 { Seq::empty() } else { stmts_lets(fns, s.drop_last()) + stmt_lets(fns, s.last()) }
}

pub open spec fn stmt_lets(fns: FnTable, st: Stmt) -> Seq<Seq<char>>
    decreases st,
{
    match st {
        Stmt::Let { name, ty, init, .. } =>
            (if ann_spec(opt_view(ty)) is Some { expr_lets(fns, init) } else { Seq::empty() }) + seq![name@],
        Stmt::Expr(x) => expr_lets(fns, x),
    }
}

/// The type a binary operator yields on well-typed operands.
pub open spec fn binop_result(op: BinOp) -> Ty {
    match op {
        BinOp::Add | BinOp::Sub | BinOp::Mul | BinOp::Div | BinOp::Rem => Ty::Int,
        _ => Ty::Bool,
    }
}

/// The first position in `b[l..h]` that is not white space, or `h`.
pub open spec fn skip_ws_fwd(b: Seq<u8>, l: int, h: int) -> int
    decreases h - l,
{
    if l < h && 0 <= l < b.len() && crate::bytes::is_ws(b[l]) { skip_ws_fwd(b, l + 1, h) } else { l }
}

/// The end of `b[l..h]` with trailing white space dropped.
pub open spec fn skip_ws_back(b: Seq<u8>, l: int, h: int) -> int
    decreases h - l,
{
    if h > l && 0 < h <= b.len() && crate::bytes::is_ws(b[h - 1]) { skip_ws_back(b, l, h - 1) } else { h }
}

pub struct Checker<'a> {
    src: &'a str,
    fns: Vec<(String, Sig)>,
    scopes: Vec<Vec<(String, Ty)>>,
    ret: Ty,
    pub errors: Vec<(Span, String)>,
    pub let_types: Vec<(String, Ty)>,
}

fn ty_vec_clone(v: &Vec<Ty>) -> (r: Vec<Ty>)
    ensures r@ == v@,
{
    let mut out: Vec<Ty> = Vec::new();
    let mut i: usize = 0;
    while i < v.len()
        invariant i <= v@.len(), out@ == v@.subrange(0, i as int),
        decreases v@.len() - i,
    {
        out.push(v[i]);
        i += 1;
        assert(out@ =~= v@.subrange(0, i as int));
    }
    assert(v@.subrange(0, v@.len() as int) =~= v@);
    out
}

impl<'a> Checker<'a> {
    pub closed spec fn source(&self) -> &'a str {
        self.src
    }

    /// The functions known, by name.
    pub closed spec fn fn_table(&self) -> Seq<(Seq<char>, Seq<Ty>, Ty)> {
        self.fns@.map_values(|e: (String, Sig)| (e.0@, e.1.params@, e.1.ret))
    }

    pub closed spec fn env(&self) -> Seq<Vec<(String, Ty)>> {
        self.scopes@
    }

    pub closed spec fn ret_ty(&self) -> Ty {
        self.ret
    }

    /// The diagnostics so far, in the order they were found.
    pub closed spec fn diags(&self) -> Seq<(Span, String)> {
        self.errors@
    }

    /// The types given to `let` bindings so far.
    pub closed spec fn lets(&self) -> Seq<(String, Ty)> {
        self.let_types@
    }

    /// The names of the recorded `let` bindings.
    pub closed spec fn let_names(&self) -> Seq<Seq<char>> {
        self.let_types@.map_values(|p: (String, Ty)| p.0@)
    }

    /// What every checking step keeps: the source, the functions, the return type; the
    /// diagnostics and recorded `let` types only grow at the end.
    pub closed spec fn extends(&self, old: &Checker<'a>) -> bool {
        &&& self.source() == old.source()
        &&& self.fn_table() == old.fn_table()
        &&& self.ret_ty() == old.ret_ty()
        &&& old.errors@.len() <= self.errors@.len()
        &&& forall|k: int| 0 <= k < old.errors@.len() ==> #[trigger] self.errors@[k] == old.errors@[k]
        &&& old.let_types@.len() <= self.let_types@.len()
        &&& forall|k: int| 0 <= k < old.let_types@.len() ==> #[trigger] self.let_types@[k] == old.let_types@[k]
    }

    /// A checker for the functions `items`, each known by its declared signature.
    pub fn new(src: &'a str, items: &[FnDecl]) -> (c: Self)
        ensures
            c.source() == src,
            c.fn_table().len() == items@.len(),
            forall|i: int| 0 <= i < items@.len() ==> #[trigger] c.fn_table()[i]
                == (items@[i].name@, sig_params(items@[i]), sig_ret(items@[i])),
            c.env().len() == 0,
            c.ret_ty() == Ty::Unit,
            c.diags().len() == 0,
            c.lets().len() == 0,
    {
        let mut fns: Vec<(String, Sig)> = Vec::new();
        let mut i: usize = 0;
        while i < items.len()
            invariant
                i <= items@.len(),
                fns@.len() == i,
                forall|k: int| 0 <= k < i ==> (#[trigger] fns@[k]).0@ == items@[k].name@
                    && fns@[k].1.params@ == sig_params(items@[k]) && fns@[k].1.ret == sig_ret(items@[k]),
            decreases items@.len() - i,
        {
            let f = &items[i];
            let mut params: Vec<Ty> = Vec::new();
            let mut j: usize = 0;
            while j < f.params.len()
                invariant
                    j <= f.params@.len(),
                    params@ == sig_params(*f).subrange(0, j as int),
                decreases f.params@.len() - j,
            {
                let t = ann_or_error(&f.params[j].ty);
                params.push(t);
                j += 1;
                assert(params@ =~= sig_params(*f).subrange(0, j as int));
            }
            assert(sig_params(*f).subrange(0, f.params@.len() as int) =~= sig_params(*f));
            let ret = ann_or_error(&f.ret);
            fns.push((f.name.clone(), Sig { params, ret }));
            i += 1;
        }
        let c = Checker { src, fns, scopes: Vec::new(), ret: Ty::Unit, errors: Vec::new(), let_types: Vec::new() };
        assert forall|i: int| 0 <= i < items@.len() implies #[trigger] c.fn_table()[i]
            == (items@[i].name@, sig_params(items@[i]), sig_ret(items@[i])) by {
            assert(c.fns@[i].0@ == items@[i].name@);
        }
        c
    }

    /// The signature of `name`: the last function declared under it.
    fn sig_of(&self, name: &String) -> (r: Option<(Vec<Ty>, Ty)>)
        ensures
            match r {
                None => sig_lookup(self.fn_table(), name@) is None,
                Some((ps, t)) => sig_lookup(self.fn_table(), name@) == Some((ps@, t)),
            },
    {
        let mut i = self.fns.len();
        assert(self.fn_table().subrange(0, i as int) =~= self.fn_table());
        while i > 0
            invariant
                i <= self.fns@.len(),
                sig_lookup(self.fn_table(), name@) == sig_lookup(self.fn_table().subrange(0, i as int), name@),
            decreases i,
        {
            let ghost pre = self.fn_table().subrange(0, i as int);
            i -= 1;
            assert(pre.drop_last() =~= self.fn_table().subrange(0, i as int));
            assert(pre.last() == self.fn_table()[i as int]);
            if self.fns[i].0 == *name {
                let ps = ty_vec_clone(&self.fns[i].1.params);
                return Some((ps, self.fns[i].1.ret));
            }
        }
        assert(self.fn_table().subrange(0, 0) =~= Seq::<(Seq<char>, Seq<Ty>, Ty)>::empty());
        None
    }

    /// Records a diagnostic; the expression it is about has type `{error}`.
    fn error(&mut self, span: Span, msg: String) -> (t: Ty)
        ensures
            t == Ty::Error,
            final(self).extends(old(self)),
            final(self).errors@ == old(self).errors@.push((span, msg)),
            final(self).let_types@ == old(self).let_types@,
            final(self).env() == old(self).env(),
    {
        self.errors.push((span, msg));
        assert(self.errors@.subrange(0, old(self).errors@.len() as int) =~= old(self).errors@);
        assert(self.let_types@.subrange(0, old(self).let_types@.len() as int) =~= old(self).let_types@);
        Ty::Error
    }

    /// The type of `name` in the current scopes.
    #[verifier::loop_isolation(false)]
    fn lookup(&self, name: &String) -> (r: Option<Ty>)
        ensures r == scoped(self.env(), name@),
    {
        let mut i = self.scopes.len();
        assert(self.scopes@.subrange(0, i as int) =~= self.scopes@);
        while i > 0
            invariant
                i <= self.scopes@.len(),
                scoped(self.scopes@, name@) == scoped(self.scopes@.subrange(0, i as int), name@),
            decreases i,
        {
            let ghost pre = self.scopes@.subrange(0, i as int);
            i -= 1;
            assert(pre.drop_last() =~= self.scopes@.subrange(0, i as int));
            assert(pre.last() == self.scopes@[i as int]);
            let scope = &self.scopes[i];
            let mut j = scope.len();
            assert(scope@.subrange(0, j as int) =~= scope@);
            while j > 0
                invariant
                    j <= scope@.len(),
                    binding(scope@, name@) == binding(scope@.subrange(0, j as int), name@),
                decreases j,
            {
                let ghost pj = scope@.subrange(0, j as int);
                j -= 1;
                assert(pj.drop_last() =~= scope@.subrange(0, j as int));
                assert(pj.last() == scope@[j as int]);
                if scope[j].0 == *name {
                    assert(binding(scope@, name@) == Some(scope@[j as int].1));
                    return Some(scope[j].1);
                }
            }
            assert(scope@.subrange(0, 0) =~= Seq::<(String, Ty)>::empty());
        }
        assert(self.scopes@.subrange(0, 0) =~= Seq::<Vec<(String, Ty)>>::empty());
        None
    }

    /// Binds `name` in the innermost scope.
    fn bind(&mut self, name: String, t: Ty)
        requires old(self).env().len() >= 1,
        ensures
            final(self).extends(old(self)),
            final(self).errors@ == old(self).errors@,
            final(self).let_types@ == old(self).let_types@,
            final(self).env().len() == old(self).env().len(),
            final(self).env().drop_last() == old(self).env().drop_last(),
            final(self).env().last()@ == old(self).env().last()@.push((name, t)),
    {
        let mut last = self.scopes.pop().unwrap();
        last.push((name, t));
        self.scopes.push(last);
        assert(self.errors@.subrange(0, old(self).errors@.len() as int) =~= old(self).errors@);
        assert(self.let_types@.subrange(0, old(self).let_types@.len() as int) =~= old(self).let_types@);
        assert(self.scopes@.drop_last() =~= old(self).scopes@.drop_last());
    }

    /// The source text of a span with surrounding whitespace trimmed.
    fn trimmed_text(&self, lo: u32, hi: u32) -> (s: String)
        ensures ({
            let b = self.src.spec_bytes();
            let h0 = if hi as int > b.len() { b.len() as int } else { hi as int };
            let l0 = if lo as int > h0 { h0 } else { lo as int };
            let l = skip_ws_fwd(b, l0, h0);
            let h = skip_ws_back(b, l, h0);
            valid_utf8(b.subrange(l, h)) ==> s@ == decode_utf8(b.subrange(l, h))
        }),
    {
        let b = self.src.as_bytes();
        let n = b.len();
        let mut l = lo as usize;
        let mut h = hi as usize;
        if h > n { h = n; }
        if l > h { l = h; }
        let ghost l0 = l as int;
        let ghost h0 = h as int;
        while l < h && crate::bytes::ws(b[l])
            invariant l <= h <= n, n == b@.len(), h == h0, skip_ws_fwd(b@, l as int, h0) == skip_ws_fwd(b@, l0, h0),
            decreases h - l,
        {
            l += 1;
        }
        let ghost l1 = l as int;
        while h > l && crate::bytes::ws(b[h - 1])
            invariant l <= h <= n, n == b@.len(), l == l1, skip_ws_back(b@, l1, h as int) == skip_ws_back(b@, l1, h0),
            decreases h,
        {
            h -= 1;
        }
        string_from_bytes(&b[l..h])
    }

    /// Checks one function against its signature: its parameters form the outermost scope.
    pub fn check_fn(&mut self, f: &FnDecl)
        requires sig_lookup(old(self).fn_table(), f.name@) is Some,
        ensures
            final(self).source() == old(self).source(),
            final(self).fn_table() == old(self).fn_table(),
            sig_lookup(old(self).fn_table(), f.name@) matches Some(sig) && final(self).ret_ty() == sig.1,
            final(self).env().len() == 1,
            old(self).diags().len() <= final(self).diags().len(),
            final(self).diags().subrange(0, old(self).diags().len() as int) == old(self).diags(),
            final(self).let_names() == old(self).let_names() + block_lets(old(self).fn_table(), f.body),
    {
        let (ps, ret) = match self.sig_of(&f.name) {
            Some(x) => x,
            None => { return; },
        };
        self.ret = ret;
        let mut params: Vec<(String, Ty)> = Vec::new();
        let mut i: usize = 0;
        while i < f.params.len() && i < ps.len()
            decreases f.params@.len() - i,
        {
            params.push((f.params[i].name.clone(), ps[i]));
            i += 1;
        }
        self.scopes = Vec::new();
        self.scopes.push(params);
        let ghost mid = *self;
        self.check_block(&f.body, ret);
        assert(self.errors@.subrange(0, old(self).errors@.len() as int) =~= old(self).errors@);
    }

    /// Checking mode: the expectation flows down into branches and tails, so a mismatch is
    /// reported at the innermost expression that is wrong.
    pub fn check(&mut self, e: &Expr, expected: Ty)
        ensures
            final(self).extends(old(self)),
            final(self).env() == old(self).env(),
            final(self).let_names() == old(self).let_names() + expr_lets(old(self).fn_table(), *e),
        decreases e, 1int,
    {
        let ghost l0 = self.let_names();
        let ghost fns = self.fn_table();
        let ghost s0 = *self;
        match &e.kind {
            ExprKind::If(c, then, els) => {
                self.check(c, Ty::Bool);
                self.check_block(then, expected);
                match els {
                    Some(x) => self.check(x, expected),
                    None => {
                        if !compatible(&Ty::Unit, &expected) {
                            let mut m = String::from_str("`if` without `else` has type (), expected ");
                            m.append(ty_str(expected));
                            self.error(e.span, m);
                        }
                    },
                }
            },
            ExprKind::Block(b) => self.check_block(b, expected),
            _ => {
                let found = self.infer(e);
                if !compatible(&found, &expected) {
                    let mut m = String::from_str("mismatched types: expected ");
                    m.append(ty_str(expected));
                    m.append(", found ");
                    m.append(ty_str(found));
                    self.error(e.span, m);
                }
            },
        }
        assert(self.let_names() =~= l0 + expr_lets(fns, *e));
    }

    pub fn check_block(&mut self, b: &Block, expected: Ty)
        ensures
            final(self).extends(old(self)),
            final(self).env() == old(self).env(),
            final(self).let_names() == old(self).let_names() + block_lets(old(self).fn_table(), *b),
        decreases b, 2int,
    {
        let ghost l0 = self.let_names();
        let ghost fns = self.fn_table();
        let ghost s0 = *self;
        self.scopes.push(Vec::new());
        let diverges = self.stmts(b);
        match &b.tail {
            Some(t) => self.check(t, expected),
            None => {
                if !diverges && !compatible(&Ty::Unit, &expected) {
                    let mut m = String::from_str("block has type (), expected ");
                    m.append(ty_str(expected));
                    let hi = b.span.hi;
                    let lo = if hi > 0 { hi - 1 } else { 0 };
                    self.error(Span { lo, hi }, m);
                }
            },
        }
        self.scopes.pop();
        assert(self.env() =~= s0.env());
        assert(self.let_names() =~= l0 + block_lets(fns, *b));
    }

    pub fn infer_block(&mut self, b: &Block) -> (t: Ty)
        ensures
            final(self).extends(old(self)),
            final(self).env() == old(self).env(),
            final(self).let_names() == old(self).let_names() + block_lets(old(self).fn_table(), *b),
            b.tail is None ==> t == Ty::Never || t == Ty::Unit,
        decreases b, 2int,
    {
        let ghost l0 = self.let_names();
        let ghost fns = self.fn_table();
        let ghost s0 = *self;
        self.scopes.push(Vec::new());
        let diverges = self.stmts(b);
        let t = match &b.tail {
            Some(t) => self.infer(t),
            None => if diverges { Ty::Never } else { Ty::Unit },
        };
        self.scopes.pop();
        assert(self.env() =~= s0.env());
        assert(self.let_names() =~= l0 + block_lets(fns, *b));
        t
    }

    /// Checks a block's statements in the innermost scope, binding each `let` there; true
    /// when one of them is an expression of type `!`.
    #[verifier::loop_isolation(false)]
    pub fn stmts(&mut self, b: &Block) -> (diverges: bool)
        requires old(self).env().len() >= 1,
        ensures
            final(self).extends(old(self)),
            final(self).env().len() == old(self).env().len(),
            final(self).env().drop_last() == old(self).env().drop_last(),
            final(self).let_names() == old(self).let_names() + stmts_lets(old(self).fn_table(), b.stmts@),
        decreases b, 1int,
    {
        let ghost s0 = *self;
        let ghost fns = self.fn_table();
        let mut diverges = false;
        let mut i: usize = 0;
        while i < b.stmts.len()
            invariant
                i <= b.stmts@.len(),
                self.extends(&s0),
                self.env().len() == s0.env().len(),
                self.env().drop_last() == s0.env().drop_last(),
                self.let_names() == s0.let_names() + stmts_lets(fns, b.stmts@.subrange(0, i as int)),
            decreases b.stmts@.len() - i,
        {
            proof {
                assert(decreases_to!(b => b.stmts));
                assert(decreases_to!(b.stmts => b.stmts@));
                assert(decreases_to!(b.stmts@ => b.stmts@[i as int]));
            }
            let ghost before = *self;
            match &b.stmts[i] {
                Stmt::Let { name, ty, init, .. } => {
                    proof { assert(decreases_to!(b.stmts@[i as int] => *init)); }
                    let t = match ann(ty.as_ref()) {
                        Ok(t) => {
                            if t == Ty::Unit && ty.is_none() {
                                self.infer(init)
                            } else {
                                self.check(init, t);
                                t
                            }
                        },
                        Err(m) => {
                            let ghost l1 = self.let_names();
                            let r = self.error(init.span, m);
                            assert(self.let_names() == l1);
                            r
                        },
                    };
                    let ghost mid = *self;
                    self.let_types.push((name.clone(), t));
                    proof {
                        assert(self.let_names() =~= mid.let_names().push(name@));
                        assert(self.let_types@.subrange(0, mid.let_types@.len() as int) =~= mid.let_types@);
                    }
                    self.bind(name.clone(), t);
                    proof {
                        assert(self.env().drop_last() =~= s0.env().drop_last());
                    }
                },
                Stmt::Expr(x) => {
                    let t = self.infer(x);
                    if t == Ty::Never {
                        diverges = true;
                    }
                },
            }
            assert(self.let_names() == before.let_names() + stmt_lets(fns, b.stmts@[i as int]));
            assert(b.stmts@.subrange(0, (i + 1) as int).drop_last() =~= b.stmts@.subrange(0, i as int));
            assert(b.stmts@.subrange(0, (i + 1) as int).last() == b.stmts@[i as int]);
            assert(self.let_names() =~= s0.let_names() + stmts_lets(fns, b.stmts@.subrange(0, (i + 1) as int)));
            i += 1;
        }
        assert(b.stmts@.subrange(0, b.stmts@.len() as int) =~= b.stmts@);
        diverges
    }

    /// Synthesis mode: the type of an expression from the expression alone.
    #[verifier::loop_isolation(false)]
    pub fn infer(&mut self, e: &Expr) -> (t: Ty)
        ensures
            final(self).extends(old(self)),
            final(self).env() == old(self).env(),
            final(self).let_names() == old(self).let_names() + expr_lets(old(self).fn_table(), *e),
            e.kind is Int ==> t == Ty::Int,
            e.kind is Bool ==> t == Ty::Bool,
            e.kind matches ExprKind::Var(n) ==> t == match scoped(old(self).env(), n@) {
                Some(u) => u,
                None => Ty::Error,
            },
            e.kind matches ExprKind::Unary(op, _) ==> t == if op == UnOp::Neg { Ty::Int } else { Ty::Bool },
            e.kind matches ExprKind::Binary(op, _, _) ==> t == Ty::Error || t == binop_result(op),
            e.kind matches ExprKind::Call(f, _) ==> t == Ty::Error || (f.kind matches ExprKind::Var(n)
                && sig_lookup(old(self).fn_table(), n@) matches Some(sig) && t == sig.1),
            e.kind is Assign || e.kind is While ==> t == Ty::Unit,
            e.kind matches ExprKind::If(_, _, els) && els is None ==> t == Ty::Unit,
            e.kind matches ExprKind::Block(b) && b.tail is None ==> t == Ty::Never || t == Ty::Unit,
            e.kind is Return ==> t == Ty::Never,
        decreases e, 0int,
    {
        let ghost l0 = self.let_names();
        let ghost fns = self.fn_table();
        let ghost s0 = *self;
        let t = match &e.kind {
            ExprKind::Int(_) => Ty::Int,
            ExprKind::Bool(_) => Ty::Bool,
            ExprKind::Var(name) => match self.lookup(name) {
                Some(t) => t,
                None => {
                    let mut m = String::from_str("cannot find value `");
                    m.append(name.as_str());
                    m.append("`");
                    self.error(e.span, m)
                },
            },
            ExprKind::Unary(op, x) => {
                let want = if *op == UnOp::Neg { Ty::Int } else { Ty::Bool };
                self.check(x, want);
                want
            },
            ExprKind::Binary(op, a, b) => {
                let ta = self.infer(a);
                let tb = self.infer(b);
                let ghost s1 = *self;
                let r = if ta == Ty::Error || tb == Ty::Error {
                    Ty::Error
                } else {
                    match op {
                        BinOp::Eq | BinOp::Ne => {
                            if !compatible(&tb, &ta) {
                                let mut m = String::from_str("cannot compare ");
                                m.append(ty_str(ta));
                                m.append(" with ");
                                m.append(ty_str(tb));
                                self.error(e.span, m)
                            } else {
                                Ty::Bool
                            }
                        },
                        _ => {
                            let (operands, result) = match op {
                                BinOp::Add | BinOp::Sub | BinOp::Mul | BinOp::Div | BinOp::Rem => (Ty::Int, Ty::Int),
                                BinOp::Lt | BinOp::Le | BinOp::Gt | BinOp::Ge => (Ty::Int, Ty::Bool),
                                _ => (Ty::Bool, Ty::Bool),
                            };
                            if !compatible(&ta, &operands) || !compatible(&tb, &operands) {
                                let op_text = self.trimmed_text(a.span.hi, b.span.lo);
                                let mut m = String::from_str("no implementation for `");
                                m.append(ty_str(ta));
                                m.append(" ");
                                m.append(op_text.as_str());
                                m.append(" ");
                                m.append(ty_str(tb));
                                m.append("`");
                                self.error(e.span, m)
                            } else {
                                result
                            }
                        },
                    }
                };
                r
            },
            ExprKind::Assign(lhs, rhs) => {
                let t = self.infer(lhs);
                self.check(rhs, t);
                Ty::Unit
            },
            ExprKind::Call(callee, args) => {
                match &callee.kind {
                    ExprKind::Var(name) => {
                        match self.sig_of(name) {
                            None => {
                                let mut m = String::from_str("cannot find function `");
                                m.append(name.as_str());
                                m.append("`");
                                self.error(callee.span, m)
                            },
                            Some((params, ret)) => {
                                if params.len() != args.len() {
                                    let np = params.len();
                                    let na = args.len();
                                    let mut m = String::from_str("this function takes ");
                                    let d = decimal_string(np as u64);
                                    m.append(d.as_str());
                                    m.append(if np == 1 { " argument" } else { " arguments" });
                                    m.append(" but ");
                                    let d2 = decimal_string(na as u64);
                                    m.append(d2.as_str());
                                    m.append(if na == 1 { " was supplied" } else { " were supplied" });
                                    self.error(e.span, m)
                                } else {
                                    let ghost la = self.let_names();
                                    let mut i: usize = 0;
                                    while i < args.len()
                                        invariant
                                            i <= args@.len(),
                                            params@.len() == args@.len(),
                                            self.extends(&s0),
                                            self.env() == s0.env(),
                                            self.let_names() == la + args_lets(fns, args@.subrange(0, i as int)),
                                        decreases args@.len() - i,
                                    {
                                        proof {
                                            assert(decreases_to!(e => e.kind));
                                            assert(decreases_to!(e.kind => e.kind->Call_1));
                                            assert(e.kind->Call_1 == *args);
                                            assert(decreases_to!(*args => args@));
                                            assert(decreases_to!(args@ => args@[i as int]));
                                        }
                                        let ghost before = *self;
                                        self.check(&args[i], params[i]);
                                        assert(args@.subrange(0, (i + 1) as int).drop_last() =~= args@.subrange(0, i as int));
                                        i += 1;
                                    }
                                    assert(args@.subrange(0, args@.len() as int) =~= args@);
                                    ret
                                }
                            },
                        }
                    },
                    _ => self.error(callee.span, String::from_str("only named functions can be called")),
                }
            },
            ExprKind::If(c, then, els) => {
                self.check(c, Ty::Bool);
                match els {
                    None => {
                        self.check_block(then, Ty::Unit);
                        Ty::Unit
                    },
                    Some(x) => {
                        let t = self.infer_block(then);
                        self.check(x, t);
                        t
                    },
                }
            },
            ExprKind::While(c, body) => {
                self.check(c, Ty::Bool);
                self.check_block(body, Ty::Unit);
                Ty::Unit
            },
            ExprKind::Block(b) => self.infer_block(b),
            ExprKind::Return(value) => {
                let ret = self.ret;
                match value {
                    Some(v) => self.check(v, ret),
                    None => {
                        if ret != Ty::Unit {
                            let mut m = String::from_str("`return;` in a function returning ");
                            m.append(ty_str(ret));
                            self.error(e.span, m);
                        }
                    },
                }
                Ty::Never
            },
        };
        assert(self.let_names() =~= l0 + expr_lets(fns, *e));
        t
    }
}

} // verus!
