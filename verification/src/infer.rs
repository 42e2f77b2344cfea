//! Hindley–Milner type inference for Ore functions without annotations. Type variables live
//! in a union-find (find follows bindings with path compression; union binds a variable);
//! `unify` makes two types equal or fails; the occurs check rejects infinite types; top-level
//! functions are generalized, so a polymorphic function works at several types.

use vstd::prelude::*;
use vstd::string::StringExecFns;
use crate::ore::{BinOp, Block, Expr, ExprKind, FnDecl, Stmt, UnOp};
use crate::text::decimal_string;
use crate::subst::{ty_eq, tys_eq, lemma_tys_eq_from, lemma_ty_eq_refl, lemma_ty_eq_sym, lemma_ty_eq_trans, lemma_tys_eq_at,
    head, eqk, unified, equiv, keeps_store, settled, all_eqk, lemma_keeps_refl, lemma_keeps_trans, lemma_keeps_push,
    lemma_keeps_bind, lemma_eqk_mono, lemma_head_mono, lemma_head_det, lemma_eqk_ty_eq, lemma_head_bind, lemma_common_depth,
    lemma_equiv_keep};

verus! {

#[derive(Debug)]
pub enum Ty {
    Var(u32),
    Int,
    Bool,
    Unit,
    Fn(Vec<Ty>, Box<Ty>),
}

/// A type scheme: `forall vars. ty`. Top-level functions are generalized; locals are not.
#[derive(Debug)]
pub struct Scheme {
    pub vars: Vec<u32>,
    pub ty: Ty,
}

/// Every type variable of `t` is below `n`.
pub open spec fn ty_wf(t: Ty, n: nat) -> bool
    decreases t,
{
    match t {
        Ty::Var(v) => v < n,
        Ty::Fn(ps, r) => tys_wf(ps@, n) && ty_wf(*r, n),
        _ => true,
    }
}

pub open spec fn tys_wf(s: Seq<Ty>, n: nat) -> bool
    decreases s,
{
    if s.len() == 0 { true } else { tys_wf(s.drop_last(), n) && ty_wf(s.last(), n) }
}

proof fn lemma_tys_wf_at(s: Seq<Ty>, n: nat, i: int)
    requires tys_wf(s, n), 0 <= i < s.len(),
    ensures ty_wf(s[i], n),
    decreases s.len(),
{
    if i < s.len() - 1 {
        lemma_tys_wf_at(s.drop_last(), n, i);
    }
}

proof fn lemma_tys_wf_push(s: Seq<Ty>, t: Ty, n: nat)
    requires tys_wf(s, n), ty_wf(t, n),
    ensures tys_wf(s.push(t), n),
{
    assert(s.push(t).drop_last() =~= s);
}

proof fn lemma_ty_wf_grow(t: Ty, a: nat, b: nat)
    requires ty_wf(t, a), a <= b,
    ensures ty_wf(t, b),
    decreases t, 0int,
{
    match t {
        Ty::Fn(ps, r) => {
            lemma_tys_wf_grow(ps@, a, b);
            lemma_ty_wf_grow(*r, a, b);
        },
        _ => {},
    }
}

proof fn lemma_tys_wf_grow(s: Seq<Ty>, a: nat, b: nat)
    requires tys_wf(s, a), a <= b,
    ensures tys_wf(s, b),
    decreases s, 0int,
{
    if s.len() > 0 {
        lemma_tys_wf_grow(s.drop_last(), a, b);
        lemma_ty_wf_grow(s.last(), a, b);
    }
}

/// A copy of a type.
#[verifier::loop_isolation(false)]
pub fn ty_clone(t: &Ty) -> (r: Ty)
    ensures forall|n: nat| ty_wf(*t, n) ==> ty_wf(r, n), ty_eq(r, *t),
    decreases t,
{
    let r = match t {
        Ty::Var(v) => Ty::Var(*v),
        Ty::Int => Ty::Int,
        Ty::Bool => Ty::Bool,
        Ty::Unit => Ty::Unit,
        Ty::Fn(ps, r) => {
            let mut out: Vec<Ty> = Vec::new();
            let mut i: usize = 0;
            while i < ps.len()
                invariant
                    i <= ps@.len(), out@.len() == i,
                    forall|n: nat| tys_wf(ps@, n) ==> tys_wf(out@, n),
                    forall|j: int| 0 <= j < i ==> ty_eq(#[trigger] out@[j], ps@[j]),
                decreases ps@.len() - i,
            {
                proof {
                    assert(decreases_to!(*t => (*t)->Fn_0));
                    assert((*t)->Fn_0 == *ps);
                    assert(decreases_to!(*ps => ps@));
                    assert(decreases_to!(ps@ => ps@[i as int]));
                }
                let c = ty_clone(&ps[i]);
                let ghost before = out@;
                out.push(c);
                proof {
                    assert forall|n: nat| tys_wf(ps@, n) implies tys_wf(out@, n) by {
                        lemma_tys_wf_at(ps@, n, i as int);
                        lemma_tys_wf_push(before, c, n);
                    }
                }
                i += 1;
            }
            let rc = ty_clone(r);
            proof { lemma_tys_eq_from(out@, ps@); }
            let res = Ty::Fn(out, Box::new(rc));
            assert forall|n: nat| ty_wf(*t, n) implies ty_wf(res, n) by {
                assert(tys_wf(ps@, n));
                assert(tys_wf(out@, n));
                assert(ty_wf(rc, n));
            }
            res
        },
    };
    assert forall|n: nat| ty_wf(*t, n) implies ty_wf(r, n) by {}
    r
}

/// How types are printed: quantified variables (listed in `names`) as `a`, `b`, ...; others
/// as `t` and their number.
pub open spec fn show_text(t: Ty, names: Seq<u32>) -> Seq<char>
    decreases t,
{
    match t {
        Ty::Var(v) => {
            let i = names.index_of_first(v);
            match i {
                Some(k) => crate::text::ascii_chars(seq![(97 + k) as u8]),
                None => "t"@ + crate::text::ascii_chars(crate::text::decimal(v as nat)),
            }
        },
        Ty::Int => "int"@,
        Ty::Bool => "bool"@,
        Ty::Unit => "()"@,
        Ty::Fn(ps, r) => "fn("@ + list_text(ps@, names) + ") -> "@ + show_text(*r, names),
    }
}

/// Types separated by `, `.
pub open spec fn list_text(s: Seq<Ty>, names: Seq<u32>) -> Seq<char>
    decreases s,
{
    if s.len() == 0 {
        Seq::empty()
    } else if s.len() == 1 {
        show_text(s[0], names)
    } else {
        list_text(s.drop_last(), names) + ", "@ + show_text(s.last(), names)
    }
}

fn position(names: &[u32], v: u32) -> (r: Option<usize>)
    ensures
        r matches Some(k) ==> k < names@.len(),
        match r {
            Some(k) => names@.index_of_first(v) == Some(k as int),
            None => names@.index_of_first(v) is None,
        },
{
    let mut i: usize = 0;
    while i < names.len()
        invariant i <= names@.len(), forall|k: int| 0 <= k < i ==> names@[k] != v,
        decreases names@.len() - i,
    {
        if names[i] == v {
            proof { names@.index_of_first_ensures(v); }
            assert(names@[i as int] == v);
            let ghost r = names@.index_of_first(v);
            proof {
                names@.index_of_first_ensures(v);
            }
            return Some(i);
        }
        i += 1;
    }
    proof { names@.index_of_first_ensures(v); }
    None
}

/// Pretty-prints a type, naming the quantified variables `a`, `b`, `c`, ...
#[verifier::loop_isolation(false)]
pub fn show(t: &Ty, names: &[u32]) -> (s: String)
    requires names@.len() <= 26,
    ensures s@ == show_text(*t, names@),
    decreases t,
{
    match t {
        Ty::Var(v) => match position(names, *v) {
            Some(i) => {
                let ch: u8 = 97 + i as u8;
                let mut v: Vec<u8> = Vec::new();
                v.push(ch);
                assert(v@ =~= seq![(97 + i) as u8]);
                assert(crate::text::is_ascii_seq(v@)) by { assert(v@[0] < 128); }
                crate::text::ascii_string(v.as_slice())
            },
            None => {
                let mut s = String::from_str("t");
                let d = decimal_string(*v as u64);
                s.append(d.as_str());
                s
            },
        },
        Ty::Int => String::from_str("int"),
        Ty::Bool => String::from_str("bool"),
        Ty::Unit => String::from_str("()"),
        Ty::Fn(ps, r) => {
            let mut s = String::from_str("fn(");
            let ghost pre = s@;
            let mut i: usize = 0;
            while i < ps.len()
                invariant
                    i <= ps@.len(), names@.len() <= 26,
                    s@ == pre + list_text(ps@.subrange(0, i as int), names@),
                decreases ps@.len() - i,
            {
                proof {
                    assert(decreases_to!(*t => (*t)->Fn_0));
                    assert((*t)->Fn_0 == *ps);
                    assert(decreases_to!(*ps => ps@));
                    assert(decreases_to!(ps@ => ps@[i as int]));
                }
                if i > 0 {
                    s.append(", ");
                }
                let p = show(&ps[i], names);
                s.append(p.as_str());
                proof {
                    let sub = ps@.subrange(0, (i + 1) as int);
                    assert(sub.drop_last() =~= ps@.subrange(0, i as int));
                    assert(sub.last() == ps@[i as int]);
                    if i == 0 { assert(sub[0] == ps@[0]); }
                }
                i += 1;
            }
            assert(ps@.subrange(0, ps@.len() as int) =~= ps@);
            s.append(") -> ");
            let rs = show(r, names);
            s.append(rs.as_str());
            s
        },
    }
}

/// The type an annotation names.
pub fn annotation(name: &String) -> (r: Result<Ty, String>)
    ensures
        r is Ok <==> (name@ == "int"@ || name@ == "bool"@),
        r matches Ok(t) ==> (t is Int && name@ == "int"@) || (t is Bool && name@ == "bool"@),
        r matches Err(m) ==> m@ == "unknown type `"@ + name@ + "`"@,
{
    if *name == String::from_str("int") {
        Ok(Ty::Int)
    } else if *name == String::from_str("bool") {
        Ok(Ty::Bool)
    } else {
        let mut m = String::from_str("unknown type `");
        m.append(name.as_str());
        m.append("`");
        Err(m)
    }
}

pub struct Infer {
    /// The union-find: a type variable is unbound (a root) or points at a type.
    parent: Vec<Option<Ty>>,
    pub log: Option<Vec<String>>,
}

/// A bound each walk over bindings stays within; a well-formed store never needs it.
pub const WALK_LIMIT: usize = 1000000;

impl Infer {
    /// The store holds type variables `0..n`, each bound to a type over them, or unbound.
    pub closed spec fn inv(&self) -> bool {
        &&& self.parent@.len() <= u32::MAX
        &&& forall|v: int| 0 <= v < self.parent@.len() && (#[trigger] self.parent@[v]) is Some
            ==> ty_wf(self.parent@[v]->Some_0, self.parent@.len())
    }

    pub closed spec fn nvars(&self) -> nat {
        self.parent@.len()
    }

    pub closed spec fn log_view(&self) -> Option<Vec<String>> {
        self.log
    }

    pub fn new() -> (r: Self)
        ensures r.inv(), r.nvars() == 0,
    {
        Infer { parent: Vec::new(), log: None }
    }

    proof fn lemma_grow(&self, t: Ty, a: nat)
        requires ty_wf(t, a), a <= self.nvars(),
        ensures ty_wf(t, self.nvars()),
    {
        lemma_ty_wf_grow(t, a, self.nvars());
    }

    /// A new, unbound type variable.
    pub fn fresh(&mut self) -> (r: Result<Ty, String>)
        requires old(self).inv(),
        ensures
            final(self).inv(),
            old(self).nvars() <= final(self).nvars(),
            final(self).log_view() == old(self).log_view(),
            r matches Ok(t) ==> ty_wf(t, final(self).nvars()) && t == Ty::Var(old(self).nvars() as u32),
            r is Ok <==> old(self).nvars() < 4294967295,
            r is Ok ==> final(self).nvars() == old(self).nvars() + 1,
            r is Err ==> final(self).nvars() == old(self).nvars(),
            r is Ok ==> final(self).store() == old(self).store().push(None),
            r is Err ==> final(self).store() == old(self).store(),
    {
        if self.parent.len() >= 4294967295 {
            return Err(String::from_str("too many type variables"));
        }
        let ghost before = self.parent@;
        self.parent.push(None);
        proof {
            assert forall|v: int| 0 <= v < self.parent@.len() && (#[trigger] self.parent@[v]) is Some
                implies ty_wf(self.parent@[v]->Some_0, self.parent@.len()) by {
                assert(self.parent@[v] == before[v]);
                lemma_ty_wf_grow(before[v]->Some_0, before.len(), self.parent@.len());
            }
        }
        Ok(Ty::Var((self.parent.len() - 1) as u32))
    }

    /// Binds variable `v` to `t` (the union of union-find).
    fn bind_var(&mut self, v: u32, t: Ty)
        requires old(self).inv(), (v as nat) < old(self).nvars(), ty_wf(t, old(self).nvars()),
        ensures
            final(self).inv(), final(self).nvars() == old(self).nvars(), final(self).log_view() == old(self).log_view(),
            final(self).parent@ == old(self).parent@.update(v as int, Some(t)),
    {
        let ghost before = self.parent@;
        self.parent.set(v as usize, Some(t));
        proof {
            assert forall|w: int| 0 <= w < self.parent@.len() && (#[trigger] self.parent@[w]) is Some
                implies ty_wf(self.parent@[w]->Some_0, self.parent@.len()) by {
                if w != v as int { assert(self.parent@[w] == before[w]); }
            }
        }
    }

    /// The bindings, variable by variable.
    pub closed spec fn store(&self) -> Seq<Option<Ty>> {
        self.parent@
    }

    /// The representative of a type: its bindings followed to an unbound variable or to a
    /// type that is not a variable. Unless the walk gives up (on a chain of bindings longer
    /// than the walk limit), the result is a copy of where the type leads in the store.
    pub fn find(&mut self, t: &Ty) -> (r: Ty)
        requires old(self).inv(), ty_wf(*t, old(self).nvars()),
        ensures
            final(self).inv(),
            final(self).nvars() == old(self).nvars(),
            final(self).log_view() == old(self).log_view(),
            final(self).store() == old(self).store(),
            ty_wf(r, final(self).nvars()),
            !(*t is Var) ==> forall|n: nat| ty_wf(*t, n) ==> ty_wf(r, n),
            settled(final(self).store(), r) ==> exists|k: nat| #[trigger] head(final(self).store(), *t, k) is Some
                && ty_eq(r, head(final(self).store(), *t, k)->Some_0),
    {
        let ghost p = self.parent@;
        let v = match t {
            Ty::Var(v) => *v,
            _ => {
                let r = ty_clone(t);
                proof { assert(head(p, *t, 0) == Some(*t)); }
                return r;
            },
        };
        let n = self.parent.len();
        let mut cur = v;
        let mut fuel: usize = WALK_LIMIT;
        let ghost mut steps: nat = 0;
        let ghost mut dk: nat = 0;
        let mut root: Ty = Ty::Var(cur);
        let mut done = false;
        while !done && fuel > 0
            invariant
                self.inv(), n == self.parent@.len(), p == self.parent@, (cur as nat) < n, ty_wf(root, n as nat),
                forall|j: nat| #[trigger] head(p, Ty::Var(cur), j) == head(p, *t, steps + j),
                done ==> head(p, *t, dk) is Some && ty_eq(root, head(p, *t, dk)->Some_0),
            decreases fuel,
        {
            fuel -= 1;
            match &self.parent[cur as usize] {
                None => {
                    root = Ty::Var(cur);
                    proof {
                        assert(head(p, Ty::Var(cur), 0) == Some(Ty::Var(cur)));
                        assert(head(p, Ty::Var(cur), 0) == head(p, *t, steps + 0));
                        lemma_ty_eq_refl(root);
                        dk = steps;
                    }
                    done = true;
                },
                Some(Ty::Var(w)) => {
                    assert(ty_wf(self.parent@[cur as int]->Some_0, n as nat));
                    let ghost c0 = cur;
                    cur = *w;
                    proof {
                        assert forall|j: nat| #[trigger] head(p, Ty::Var(cur), j) == head(p, *t, (steps + 1) + j) by {
                            assert(head(p, Ty::Var(c0), j + 1) == head(p, Ty::Var(cur), j));
                            assert(head(p, Ty::Var(c0), j + 1) == head(p, *t, steps + (j + 1)));
                        }
                        steps = steps + 1;
                    }
                },
                Some(other) => {
                    assert(ty_wf(self.parent@[cur as int]->Some_0, n as nat));
                    root = ty_clone(other);
                    proof {
                        assert(head(p, Ty::Var(cur), 1) == head(p, *other, 0));
                        assert(head(p, *other, 0) == Some(*other));
                        assert(head(p, Ty::Var(cur), 1) == head(p, *t, steps + 1));
                        dk = steps + 1;
                    }
                    done = true;
                },
            }
        }
        if !done {
            root = Ty::Var(cur);
            proof {
                if settled(p, root) {
                    assert(head(p, Ty::Var(cur), 0) == Some(Ty::Var(cur)));
                    assert(head(p, Ty::Var(cur), 0) == head(p, *t, steps + 0));
                    lemma_ty_eq_refl(root);
                }
            }
        }
        assert(ty_wf(root, n as nat));
        proof {
            if done {
                assert(head(p, *t, dk) is Some && ty_eq(root, head(p, *t, dk)->Some_0));
            }
        }
        root
    }

    /// Substitutes everything known, all the way down.
    pub fn zonk(&mut self, t: &Ty) -> (r: Ty)
        requires old(self).inv(), ty_wf(*t, old(self).nvars()),
        ensures
            final(self).inv(), final(self).nvars() == old(self).nvars(), final(self).log_view() == old(self).log_view(),
            ty_wf(r, final(self).nvars()), final(self).store() == old(self).store(),
    {
        self.zonk_within(t, WALK_LIMIT)
    }

    fn zonk_within(&mut self, t: &Ty, fuel: usize) -> (r: Ty)
        requires old(self).inv(), ty_wf(*t, old(self).nvars()),
        ensures
            final(self).inv(), final(self).nvars() == old(self).nvars(), final(self).log_view() == old(self).log_view(),
            ty_wf(r, final(self).nvars()), final(self).store() == old(self).store(),
        decreases fuel,
    {
        let f = self.find(t);
        if fuel == 0 {
            return f;
        }
        match f {
            Ty::Fn(ps, r) => {
                let n = self.parent.len();
                let mut out: Vec<Ty> = Vec::new();
                let mut i: usize = 0;
                while i < ps.len()
                    invariant
                        fuel > 0, n == old(self).parent@.len(), self.parent@ == old(self).parent@,
                        i <= ps@.len(), self.inv(), n == self.parent@.len(), self.log_view() == old(self).log_view(),
                        tys_wf(ps@, n as nat), ty_wf(*r, n as nat), tys_wf(out@, n as nat),
                    decreases ps@.len() - i,
                {
                    proof { lemma_tys_wf_at(ps@, n as nat, i as int); }
                    let z = self.zonk_within(&ps[i], fuel - 1);
                    proof { lemma_tys_wf_push(out@, z, n as nat); }
                    out.push(z);
                    i += 1;
                }
                let zr = self.zonk_within(&r, fuel - 1);
                Ty::Fn(out, Box::new(zr))
            },
            other => other,
        }
    }

    /// Whether type variable `v` occurs in `t` (after substitution).
    pub fn occurs(&mut self, v: u32, t: &Ty) -> (r: bool)
        requires old(self).inv(), ty_wf(*t, old(self).nvars()),
        ensures final(self).inv(), final(self).nvars() == old(self).nvars(), final(self).log_view() == old(self).log_view(),
            final(self).store() == old(self).store(),
    {
        self.occurs_within(v, t, WALK_LIMIT)
    }

    fn occurs_within(&mut self, v: u32, t: &Ty, fuel: usize) -> (r: bool)
        requires old(self).inv(), ty_wf(*t, old(self).nvars()),
        ensures final(self).inv(), final(self).nvars() == old(self).nvars(), final(self).log_view() == old(self).log_view(),
            final(self).store() == old(self).store(),
        decreases fuel,
    {
        let f = self.find(t);
        match f {
            Ty::Var(w) => v == w,
            Ty::Fn(ps, r) => {
                if fuel == 0 {
                    return false;
                }
                let n = self.parent.len();
                let mut i: usize = 0;
                while i < ps.len()
                    invariant
                        fuel > 0, n == old(self).parent@.len(), self.parent@ == old(self).parent@,
                        i <= ps@.len(), self.inv(), n == self.parent@.len(), self.log_view() == old(self).log_view(),
                        tys_wf(ps@, n as nat), ty_wf(*r, n as nat),
                    decreases ps@.len() - i,
                {
                    proof { lemma_tys_wf_at(ps@, n as nat, i as int); }
                    if self.occurs_within(v, &ps[i], fuel - 1) {
                        return true;
                    }
                    i += 1;
                }
                self.occurs_within(v, &r, fuel - 1)
            },
            _ => false,
        }
    }

    fn log_unify(&mut self, a: &Ty, b: &Ty)
        requires old(self).inv(),
        ensures
            final(self).inv(), final(self).nvars() == old(self).nvars(), final(self).parent@ == old(self).parent@,
            old(self).log is None ==> final(self).log is None,
            old(self).log matches Some(l) ==> final(self).log matches Some(l2) && l2@.len() == l@.len() + 1
                && l2@.drop_last() == l@
                && l2@.last()@ == "unify "@ + show_text(*a, Seq::empty()) + " ~ "@ + show_text(*b, Seq::empty()),
    {
        if self.log.is_some() {
            let mut line = String::from_str("unify ");
            let empty: Vec<u32> = Vec::new();
            let sa = show(a, empty.as_slice());
            line.append(sa.as_str());
            line.append(" ~ ");
            let sb = show(b, empty.as_slice());
            line.append(sb.as_str());
            let mut lg = match self.log.take() { Some(l) => l, None => Vec::new() };
            lg.push(line);
            self.log = Some(lg);
        }
    }

    /// Makes two types equal by binding variables, or fails: on a variable that would have to
    /// contain itself, or on two different type constructors.
    pub fn unify(&mut self, a: &Ty, b: &Ty) -> (r: Result<(), String>)
        requires old(self).inv(), ty_wf(*a, old(self).nvars()), ty_wf(*b, old(self).nvars()),
        ensures
            final(self).inv(), final(self).nvars() == old(self).nvars(),
            keeps_store(old(self).store(), final(self).store()),
            r is Ok ==> unified(final(self).store(), *a, *b),
    {
        self.unify_within(a, b, WALK_LIMIT)
    }

    /// Whether a type stays where it is: not a variable, or an unbound one.
    fn is_settled(&self, t: &Ty) -> (r: bool)
        requires self.inv(), ty_wf(*t, self.nvars()),
        ensures r == settled(self.store(), *t),
    {
        match t {
            Ty::Var(v) => self.parent[*v as usize].is_none(),
            _ => true,
        }
    }

    #[verifier::spinoff_prover]
    #[verifier::rlimit(60)]
    fn unify_within(&mut self, a: &Ty, b: &Ty, fuel: usize) -> (r: Result<(), String>)
        requires old(self).inv(), ty_wf(*a, old(self).nvars()), ty_wf(*b, old(self).nvars()),
        ensures
            final(self).inv(), final(self).nvars() == old(self).nvars(),
            keeps_store(old(self).store(), final(self).store()),
            r is Ok ==> unified(final(self).store(), *a, *b),
        decreases fuel,
    {
        let ghost a0 = *a;
        let ghost b0 = *b;
        let ghost p0 = self.store();
        proof { lemma_keeps_refl(p0); }
        let a = self.find(a);
        let b = self.find(b);
        self.log_unify(&a, &b);
        let n = self.parent.len();
        if !self.is_settled(&a) || !self.is_settled(&b) {
            return Err(String::from_str("type variables bound too deeply"));
        }
        let ghost ka = choose|k: nat| #[trigger] head(p0, a0, k) is Some && ty_eq(a, head(p0, a0, k)->Some_0);
        let ghost kb = choose|k: nat| #[trigger] head(p0, b0, k) is Some && ty_eq(b, head(p0, b0, k)->Some_0);
        let ghost ha = head(p0, a0, ka)->Some_0;
        let ghost hb = head(p0, b0, kb)->Some_0;
        let ghost kk: nat = ka + kb + 2;
        proof {
            lemma_head_mono(p0, a0, ka, kk);
            lemma_head_mono(p0, b0, kb, kk);
        }
        match (&a, &b) {
            (Ty::Var(x), Ty::Var(y)) => {
                if *x == *y {
                    proof {
                        assert(ha == a && hb == b);
                        lemma_ty_eq_refl(ha);
                        assert(eqk(p0, a0, b0, kk));
                    }
                    return Ok(());
                }
            },
            _ => {},
        }
        let var_side: Option<(u32, bool)> = match (&a, &b) {
            (Ty::Var(v), _) => Some((*v, true)),
            (_, Ty::Var(v)) => Some((*v, false)),
            _ => None,
        };
        match var_side {
            Some((v, left)) => {
                let t = if left { &b } else { &a };
                if self.occurs(v, t) {
                    let z = self.zonk(t);
                    let mut m = String::from_str("infinite type: t");
                    let d = decimal_string(v as u64);
                    m.append(d.as_str());
                    m.append(" = ");
                    let empty: Vec<u32> = Vec::new();
                    let st = show(&z, empty.as_slice());
                    m.append(st.as_str());
                    return Err(m);
                }
                let c = ty_clone(t);
                proof {
                    assert(*t != Ty::Var(v));
                    assert(settled(p0, *t));
                    assert(settled(p0, c)) by { match c { Ty::Var(w) => { assert(*t == c); }, _ => {} } }
                    assert(c != Ty::Var(v)) by { if c == Ty::Var(v) { assert(*t == c); } }
                    lemma_keeps_bind(p0, v, c);
                }
                self.bind_var(v, c);
                proof {
                    let q = self.store();
                    assert(q == p0.update(v as int, Some(c)));
                    if left {
                        assert(ha == Ty::Var(v));
                        lemma_head_bind(p0, v, c, a0, kk);
                        lemma_head_bind(p0, v, c, b0, kk);
                        assert(hb != Ty::Var(v)) by { if hb == Ty::Var(v) { lemma_ty_eq_sym(b, hb); } }
                        lemma_head_mono(q, b0, kk, kk + 1);
                        lemma_ty_eq_trans(c, b, hb);
                        assert(eqk(q, a0, b0, kk + 1));
                    } else {
                        assert(hb == Ty::Var(v));
                        lemma_head_bind(p0, v, c, a0, kk);
                        lemma_head_bind(p0, v, c, b0, kk);
                        assert(ha != Ty::Var(v)) by { if ha == Ty::Var(v) { lemma_ty_eq_sym(a, ha); } }
                        lemma_head_mono(q, a0, kk, kk + 1);
                        lemma_ty_eq_sym(a, ha);
                        lemma_ty_eq_sym(c, a);
                        lemma_ty_eq_trans(ha, a, c);
                        assert(eqk(q, a0, b0, kk + 1));
                    }
                }
                return Ok(());
            },
            None => {},
        }
        match (&a, &b) {
            (Ty::Int, Ty::Int) | (Ty::Bool, Ty::Bool) | (Ty::Unit, Ty::Unit) => {
                proof {
                    assert(ha == a && hb == b);
                    assert(eqk(p0, a0, b0, kk));
                }
                return Ok(());
            },
            (Ty::Fn(p1, r1), Ty::Fn(p2, r2)) => {
                if p1.len() == p2.len() && fuel > 0 {
                    let mut i: usize = 0;
                    while i < p1.len()
                        invariant
                            n == old(self).parent@.len(),
                            i <= p1@.len(), p1@.len() == p2@.len(), self.inv(), n == self.parent@.len(), fuel > 0,
                            tys_wf(p1@, n as nat), tys_wf(p2@, n as nat),
                            keeps_store(p0, self.store()), p0 == old(self).store(),
                            forall|j: int| 0 <= j < i ==> #[trigger] unified(self.store(), p1@[j], p2@[j]),
                        decreases p1@.len() - i,
                    {
                        proof {
                            lemma_tys_wf_at(p1@, n as nat, i as int);
                            lemma_tys_wf_at(p2@, n as nat, i as int);
                        }
                        let ghost s1 = self.store();
                        let ri = self.unify_within(&p1[i], &p2[i], fuel - 1);
                        proof {
                            lemma_keeps_trans(p0, s1, self.store());
                        }
                        match ri {
                            Ok(()) => {
                                proof {
                                    assert forall|j: int| 0 <= j < i + 1 implies #[trigger] unified(self.store(), p1@[j], p2@[j]) by {
                                        if j < i { assert(unified(s1, p1@[j], p2@[j])); }
                                    }
                                }
                            },
                            Err(e) => { return Err(e); },
                        }
                        i += 1;
                    }
                    let ghost s2 = self.store();
                    let rr = self.unify_within(r1, r2, fuel - 1);
                    proof {
                        lemma_keeps_trans(p0, s2, self.store());
                        if rr is Ok {
                            let pf = self.store();
                            assert forall|j: int| 0 <= j < p1@.len() implies #[trigger] unified(pf, p1@[j], p2@[j]) by {
                                assert(unified(s2, p1@[j], p2@[j]));
                            }
                            lemma_common_depth(pf, p1@, p2@);
                            let k1 = choose|k: nat| #[trigger] all_eqk(pf, p1@, p2@, k);
                            let k2 = choose|k: nat| #[trigger] eqk(pf, **r1, **r2, k);
                            let big: nat = kk + k1 + k2 + 1;
                            assert(!(ha is Var) && !(hb is Var));
                            assert(head(pf, a0, kk) == Some(ha));
                            assert(head(pf, b0, kk) == Some(hb));
                            lemma_head_mono(pf, a0, kk, big);
                            lemma_head_mono(pf, b0, kk, big);
                            match (ha, hb) {
                                (Ty::Fn(q1, s1r), Ty::Fn(q2, s2r)) => {
                                    assert(tys_eq(p1@, q1@) && ty_eq(**r1, *s1r));
                                    assert(tys_eq(p2@, q2@) && ty_eq(**r2, *s2r));
                                    assert forall|j: int| 0 <= j < q1@.len() implies eqk(pf, #[trigger] q1@[j], q2@[j], (big - 1) as nat) by {
                                        lemma_tys_eq_at(p1@, q1@, j);
                                        lemma_tys_eq_at(p2@, q2@, j);
                                        assert(eqk(pf, p1@[j], p2@[j], k1));
                                        lemma_eqk_mono(pf, p1@[j], p2@[j], k1, (big - 1) as nat);
                                        lemma_eqk_ty_eq(pf, p1@[j], p2@[j], q1@[j], q2@[j], (big - 1) as nat);
                                    }
                                    lemma_eqk_mono(pf, **r1, **r2, k2, (big - 1) as nat);
                                    lemma_eqk_ty_eq(pf, **r1, **r2, *s1r, *s2r, (big - 1) as nat);
                                    assert(eqk(pf, a0, b0, big));
                                },
                                _ => {},
                            }
                        }
                    }
                    return rr;
                }
            },
            _ => {},
        }
        let za = self.zonk(&a);
        let zb = self.zonk(&b);
        let empty: Vec<u32> = Vec::new();
        let mut m = String::from_str("mismatched types: ");
        let sa = show(&za, empty.as_slice());
        m.append(sa.as_str());
        m.append(" vs ");
        let sb = show(&zb, empty.as_slice());
        m.append(sb.as_str());
        Err(m)
    }
}

pub open spec fn scheme_wf(s: Scheme, n: nat) -> bool {
    ty_wf(s.ty, n) && forall|k: int| 0 <= k < s.vars@.len() ==> (#[trigger] s.vars@[k] as nat) < n
}

pub open spec fn env_wf(e: Seq<(String, Scheme)>, n: nat) -> bool {
    forall|k: int| 0 <= k < e.len() ==> scheme_wf(#[trigger] e[k].1, n)
}

proof fn lemma_env_grow(e: Seq<(String, Scheme)>, a: nat, b: nat)
    requires env_wf(e, a), a <= b,
    ensures env_wf(e, b),
{
    assert forall|k: int| 0 <= k < e.len() implies scheme_wf(#[trigger] e[k].1, b) by {
        lemma_ty_wf_grow(e[k].1.ty, a, b);
    }
}

/// Replaces the quantified variables by the types `map` gives them.
fn subst_ty(t: &Ty, map: &Vec<(u32, Ty)>, Ghost(n): Ghost<nat>) -> (r: Ty)
    requires ty_wf(*t, n), forall|k: int| 0 <= k < map@.len() ==> ty_wf(#[trigger] map@[k].1, n),
    ensures ty_wf(r, n), map@.len() == 0 ==> ty_eq(r, *t),
    decreases t,
{
    match t {
        Ty::Var(v) => {
            let mut i = map.len();
            while i > 0
                invariant i <= map@.len(), forall|k: int| 0 <= k < map@.len() ==> ty_wf(#[trigger] map@[k].1, n),
                decreases i,
            {
                i -= 1;
                if map[i].0 == *v {
                    return ty_clone(&map[i].1);
                }
            }
            Ty::Var(*v)
        },
        Ty::Int => Ty::Int,
        Ty::Bool => Ty::Bool,
        Ty::Unit => Ty::Unit,
        Ty::Fn(ps, r) => {
            let mut out: Vec<Ty> = Vec::new();
            let mut i: usize = 0;
            while i < ps.len()
                invariant
                    i <= ps@.len(), tys_wf(ps@, n), tys_wf(out@, n),
                    forall|k: int| 0 <= k < map@.len() ==> ty_wf(#[trigger] map@[k].1, n),
                    *t == Ty::Fn(*ps, *r), out@.len() == i,
                    map@.len() == 0 ==> forall|j: int| 0 <= j < i ==> ty_eq(#[trigger] out@[j], ps@[j]),
                decreases ps@.len() - i,
            {
                proof {
                    assert(decreases_to!(*t => (*t)->Fn_0));
                    assert(decreases_to!(*ps => ps@));
                    assert(decreases_to!(ps@ => ps@[i as int]));
                    lemma_tys_wf_at(ps@, n, i as int);
                }
                let c = subst_ty(&ps[i], map, Ghost(n));
                proof { lemma_tys_wf_push(out@, c, n); }
                out.push(c);
                i += 1;
            }
            let rr = subst_ty(r, map, Ghost(n));
            proof { if map@.len() == 0 { lemma_tys_eq_from(out@, ps@); } }
            Ty::Fn(out, Box::new(rr))
        },
    }
}

/// `acc` followed by the type variables of `t` that it lacks, in order of first appearance.
pub open spec fn fv_acc(t: Ty, acc: Seq<u32>) -> Seq<u32>
    decreases t,
{
    match t {
        Ty::Var(v) => if acc.contains(v) { acc } else { acc.push(v) },
        Ty::Fn(ps, r) => fv_acc(*r, fvs_acc(ps@, acc)),
        _ => acc,
    }
}

/// `fv_acc` over a list of types, left to right.
pub open spec fn fvs_acc(s: Seq<Ty>, acc: Seq<u32>) -> Seq<u32>
    decreases s,
{
    if s.len() == 0 { acc } else { fv_acc(s.last(), fvs_acc(s.drop_last(), acc)) }
}

/// The type variables of a type, in order of first appearance.
fn free_vars(t: &Ty, out: &mut Vec<u32>, Ghost(n): Ghost<nat>)
    requires ty_wf(*t, n), forall|k: int| 0 <= k < old(out)@.len() ==> (#[trigger] old(out)@[k] as nat) < n,
    ensures
        forall|k: int| 0 <= k < final(out)@.len() ==> (#[trigger] final(out)@[k] as nat) < n,
        final(out)@ == fv_acc(*t, old(out)@),
    decreases t,
{
    match t {
        Ty::Var(v) => {
            let mut seen = false;
            let mut i: usize = 0;
            while i < out.len()
                invariant i <= out@.len(), seen <==> exists|k: int| 0 <= k < i && out@[k] == *v,
                decreases out@.len() - i,
            {
                if out[i] == *v { seen = true; }
                i += 1;
            }
            if !seen {
                out.push(*v);
            }
        },
        Ty::Fn(ps, r) => {
            let ghost start = out@;
            let mut i: usize = 0;
            while i < ps.len()
                invariant
                    i <= ps@.len(), tys_wf(ps@, n), *t == Ty::Fn(*ps, *r),
                    forall|k: int| 0 <= k < out@.len() ==> (#[trigger] out@[k] as nat) < n,
                    out@ == fvs_acc(ps@.subrange(0, i as int), start),
                decreases ps@.len() - i,
            {
                proof {
                    assert(decreases_to!(*t => (*t)->Fn_0));
                    assert(decreases_to!(*ps => ps@));
                    assert(decreases_to!(ps@ => ps@[i as int]));
                    lemma_tys_wf_at(ps@, n, i as int);
                    assert(ps@.subrange(0, i + 1).drop_last() =~= ps@.subrange(0, i as int));
                }
                free_vars(&ps[i], out, Ghost(n));
                i += 1;
            }
            assert(ps@.subrange(0, ps@.len() as int) =~= ps@);
            free_vars(r, out, Ghost(n));
        },
        _ => {},
    }
}

impl Infer {
    /// A fresh instance of a scheme: each quantified variable replaced by a new one.
    pub fn instantiate(&mut self, s: &Scheme) -> (r: Result<Ty, String>)
        requires old(self).inv(), scheme_wf(*s, old(self).nvars()),
        ensures
            final(self).inv(), old(self).nvars() <= final(self).nvars(),
            final(self).log_view() == old(self).log_view(),
            r matches Ok(t) ==> ty_wf(t, final(self).nvars()),
            r is Ok <==> old(self).nvars() + s.vars@.len() <= 4294967295,
            keeps_store(old(self).store(), final(self).store()),
            s.vars@.len() == 0 ==> (r matches Ok(t) && ty_eq(t, s.ty)),
    {
        let mut map: Vec<(u32, Ty)> = Vec::new();
        proof { lemma_keeps_refl(self.store()); }
        let mut i: usize = 0;
        while i < s.vars.len()
            invariant
                self.inv(), old(self).nvars() <= self.nvars(), self.log_view() == old(self).log_view(),
                i <= s.vars@.len(), self.nvars() == old(self).nvars() + i,
                forall|k: int| 0 <= k < map@.len() ==> ty_wf(#[trigger] map@[k].1, self.nvars()),
                keeps_store(old(self).store(), self.store()), map@.len() == i,
            decreases s.vars@.len() - i,
        {
            let ghost n0 = self.nvars();
            let ghost s0 = self.store();
            let t = match self.fresh() {
                Ok(t) => t,
                Err(e) => {
                    assert(old(self).nvars() + s.vars@.len() > 4294967295);
                    return Err(e);
                },
            };
            proof {
                assert forall|k: int| 0 <= k < map@.len() implies ty_wf(#[trigger] map@[k].1, self.nvars()) by {
                    lemma_ty_wf_grow(map@[k].1, n0, self.nvars());
                }
                lemma_keeps_push(s0);
                lemma_keeps_trans(old(self).store(), s0, self.store());
            }
            map.push((s.vars[i], t));
            i += 1;
        }
        proof { lemma_ty_wf_grow(s.ty, old(self).nvars(), self.nvars()); }
        Ok(subst_ty(&s.ty, &map, Ghost(self.nvars())))
    }

    /// At top level the environment is closed, so every free variable of the (substituted)
    /// type is quantified.
    pub fn generalize(&mut self, t: &Ty) -> (s: Scheme)
        requires old(self).inv(), ty_wf(*t, old(self).nvars()),
        ensures
            final(self).inv(), final(self).nvars() == old(self).nvars(),
            final(self).log_view() == old(self).log_view(),
            scheme_wf(s, final(self).nvars()),
    {
        let ty = self.zonk(t);
        let mut vars: Vec<u32> = Vec::new();
        free_vars(&ty, &mut vars, Ghost(self.nvars()));
        Scheme { vars, ty }
    }
}

/// The scheme of the last entry of `e` named `name`.
pub open spec fn env_find(e: Seq<(String, Scheme)>, name: Seq<char>) -> Option<Scheme>
    decreases e.len(),
{
    if e.len() == 0 {
        None
    } else if e.last().0@ == name {
        Some(e.last().1)
    } else {
        env_find(e.drop_last(), name)
    }
}

/// The scheme of `name` in the innermost scope that binds it.
pub open spec fn scopes_find(sc: Seq<Vec<(String, Scheme)>>, name: Seq<char>) -> Option<Scheme>
    decreases sc.len(),
{
    if sc.len() == 0 {
        None
    } else {
        match env_find(sc.last()@, name) {
            Some(s) => Some(s),
            None => scopes_find(sc.drop_last(), name),
        }
    }
}

proof fn lemma_env_find_at(e: Seq<(String, Scheme)>, name: Seq<char>, j: int)
    requires 0 <= j < e.len(), e[j].0@ == name, forall|q: int| j < q < e.len() ==> (#[trigger] e[q]).0@ != name,
    ensures env_find(e, name) == Some(e[j].1),
    decreases e.len(),
{
    if j < e.len() - 1 {
        lemma_env_find_at(e.drop_last(), name, j);
    }
}

proof fn lemma_env_find_none(e: Seq<(String, Scheme)>, name: Seq<char>)
    requires forall|q: int| 0 <= q < e.len() ==> (#[trigger] e[q]).0@ != name,
    ensures env_find(e, name) is None,
    decreases e.len(),
{
    if e.len() > 0 {
        lemma_env_find_none(e.drop_last(), name);
    }
}

/// The last entry of `env` named `name`.
fn find_in(env: &Vec<(String, Scheme)>, name: &String) -> (r: Option<usize>)
    ensures
        r matches Some(k) ==> k < env@.len() && env@[k as int].0@ == name@
            && forall|j: int| k < j < env@.len() ==> (#[trigger] env@[j]).0@ != name@,
        r is None ==> forall|j: int| 0 <= j < env@.len() ==> (#[trigger] env@[j]).0@ != name@,
{
    let mut g = env.len();
    while g > 0
        invariant g <= env@.len(), forall|j: int| g <= j < env@.len() ==> (#[trigger] env@[j]).0@ != name@,
        decreases g,
    {
        g -= 1;
        if env[g].0 == *name {
            return Some(g);
        }
    }
    None
}

/// The scheme a name has: its innermost local binding, else its top-level one.
pub open spec fn name_scheme(sc: Seq<Vec<(String, Scheme)>>, gl: Seq<(String, Scheme)>, name: Seq<char>) -> Option<Scheme> {
    match scopes_find(sc, name) {
        Some(s) => Some(s),
        None => env_find(gl, name),
    }
}

/// The typing rule of a binary operator: arithmetic on `int` giving `int`, comparisons of
/// `int` giving `bool`, `&&` and `||` on `bool`, and `==` / `!=` on two operands of one type,
/// giving `bool`.
pub open spec fn binop_typed(p: Seq<Option<Ty>>, op: BinOp, ta: Ty, tb: Ty, t: Ty) -> bool {
    match op {
        BinOp::Add | BinOp::Sub | BinOp::Mul | BinOp::Div | BinOp::Rem =>
            equiv(p, ta, Ty::Int) && equiv(p, tb, Ty::Int) && equiv(p, t, Ty::Int),
        BinOp::Lt | BinOp::Le | BinOp::Gt | BinOp::Ge =>
            equiv(p, ta, Ty::Int) && equiv(p, tb, Ty::Int) && equiv(p, t, Ty::Bool),
        BinOp::And | BinOp::Or =>
            equiv(p, ta, Ty::Bool) && equiv(p, tb, Ty::Bool) && equiv(p, t, Ty::Bool),
        BinOp::Eq | BinOp::Ne => equiv(p, ta, tb) && equiv(p, t, Ty::Bool),
    }
}

/// The types given to an expression and its operands, as a tree of the expression's shape.
pub enum TyTree {
    Leaf(Ty),
    One(Ty, Box<TyTree>),
    Two(Ty, Box<TyTree>, Box<TyTree>),
}

/// The type at the root of a tree of types.
pub open spec fn tt_ty(tt: TyTree) -> Ty {
    match tt {
        TyTree::Leaf(t) => t,
        TyTree::One(t, _) => t,
        TyTree::Two(t, _, _) => t,
    }
}

/// The tree `tt` types `e` under the bindings of store `p`, local scopes `sc` and top-level
/// schemes `gl`: a literal has its type; a name the type of a monomorphic binding (a generic
/// one may be instantiated freely); `-` and `!` take and give `int` and `bool`; a binary
/// operator follows `binop_typed` on the types of its operands; an assignment has sides of
/// one type and type `()`; the condition of an `if` or `while` is a `bool`, a `while` and an
/// `if` without `else` have type `()`. Calls, blocks, the branches of an `if` and `return`
/// are not constrained here.
pub open spec fn typed(p: Seq<Option<Ty>>, sc: Seq<Vec<(String, Scheme)>>, gl: Seq<(String, Scheme)>, e: Expr, tt: TyTree) -> bool
    decreases e,
{
    let t = tt_ty(tt);
    match e.kind {
        ExprKind::Int(_) => equiv(p, t, Ty::Int),
        ExprKind::Bool(_) => equiv(p, t, Ty::Bool),
        ExprKind::Var(n) => match name_scheme(sc, gl, n@) {
            Some(s) => s.vars@.len() > 0 || equiv(p, t, s.ty),
            None => false,
        },
        ExprKind::Unary(op, x) => {
            let w = if op == UnOp::Neg { Ty::Int } else { Ty::Bool };
            tt matches TyTree::One(_, sx) && typed(p, sc, gl, *x, *sx) && equiv(p, tt_ty(*sx), w) && equiv(p, t, w)
        },
        ExprKind::Binary(op, a, b) => tt matches TyTree::Two(_, sa, sb) && typed(p, sc, gl, *a, *sa)
            && typed(p, sc, gl, *b, *sb) && binop_typed(p, op, tt_ty(*sa), tt_ty(*sb), t),
        ExprKind::Assign(l, r) => tt matches TyTree::Two(_, sl, sr) && typed(p, sc, gl, *l, *sl)
            && typed(p, sc, gl, *r, *sr) && equiv(p, tt_ty(*sl), tt_ty(*sr)) && equiv(p, t, Ty::Unit),
        ExprKind::If(c, _, els) => tt matches TyTree::One(_, sv) && typed(p, sc, gl, *c, *sv)
            && equiv(p, tt_ty(*sv), Ty::Bool) && (els is None ==> equiv(p, t, Ty::Unit)),
        ExprKind::While(c, _) => tt matches TyTree::One(_, sv) && typed(p, sc, gl, *c, *sv)
            && equiv(p, tt_ty(*sv), Ty::Bool) && equiv(p, t, Ty::Unit),
        _ => true,
    }
}

/// `e` has type `t` by the typing rules of `typed`.
pub open spec fn has_type(p: Seq<Option<Ty>>, sc: Seq<Vec<(String, Scheme)>>, gl: Seq<(String, Scheme)>, e: Expr, t: Ty) -> bool {
    exists|tt: TyTree| #[trigger] typed(p, sc, gl, e, tt) && tt_ty(tt) == t
}

/// A typing stays valid as the store grows: inference only ever adds bindings, so every type
/// it has given stays a valid type.
pub proof fn lemma_typed_keep(p: Seq<Option<Ty>>, q: Seq<Option<Ty>>, sc: Seq<Vec<(String, Scheme)>>,
    gl: Seq<(String, Scheme)>, e: Expr, tt: TyTree)
    requires keeps_store(p, q), typed(p, sc, gl, e, tt),
    ensures typed(q, sc, gl, e, tt),
    decreases e,
{
    let t = tt_ty(tt);
    match e.kind {
        ExprKind::Int(_) => { lemma_equiv_keep(p, q, t, Ty::Int); },
        ExprKind::Bool(_) => { lemma_equiv_keep(p, q, t, Ty::Bool); },
        ExprKind::Var(n) => {
            match name_scheme(sc, gl, n@) {
                Some(s) => { if s.vars@.len() == 0 { lemma_equiv_keep(p, q, t, s.ty); } },
                None => {},
            }
        },
        ExprKind::Unary(op, x) => {
            let w = if op == UnOp::Neg { Ty::Int } else { Ty::Bool };
            match tt {
                TyTree::One(_, sx) => {
                    lemma_typed_keep(p, q, sc, gl, *x, *sx);
                    lemma_equiv_keep(p, q, tt_ty(*sx), w);
                    lemma_equiv_keep(p, q, t, w);
                },
                _ => {},
            }
        },
        ExprKind::Binary(op, a, b) => {
            match tt {
                TyTree::Two(_, sa, sb) => {
                    let ta = tt_ty(*sa);
                    let tb = tt_ty(*sb);
                    lemma_typed_keep(p, q, sc, gl, *a, *sa);
                    lemma_typed_keep(p, q, sc, gl, *b, *sb);
                    if equiv(p, ta, Ty::Int) { lemma_equiv_keep(p, q, ta, Ty::Int); }
                    if equiv(p, tb, Ty::Int) { lemma_equiv_keep(p, q, tb, Ty::Int); }
                    if equiv(p, ta, Ty::Bool) { lemma_equiv_keep(p, q, ta, Ty::Bool); }
                    if equiv(p, tb, Ty::Bool) { lemma_equiv_keep(p, q, tb, Ty::Bool); }
                    if equiv(p, ta, tb) { lemma_equiv_keep(p, q, ta, tb); }
                    if equiv(p, t, Ty::Int) { lemma_equiv_keep(p, q, t, Ty::Int); }
                    if equiv(p, t, Ty::Bool) { lemma_equiv_keep(p, q, t, Ty::Bool); }
                },
                _ => {},
            }
        },
        ExprKind::Assign(l, r) => {
            match tt {
                TyTree::Two(_, sl, sr) => {
                    lemma_typed_keep(p, q, sc, gl, *l, *sl);
                    lemma_typed_keep(p, q, sc, gl, *r, *sr);
                    lemma_equiv_keep(p, q, tt_ty(*sl), tt_ty(*sr));
                    lemma_equiv_keep(p, q, t, Ty::Unit);
                },
                _ => {},
            }
        },
        ExprKind::If(c, _, els) => {
            match tt {
                TyTree::One(_, sv) => {
                    lemma_typed_keep(p, q, sc, gl, *c, *sv);
                    lemma_equiv_keep(p, q, tt_ty(*sv), Ty::Bool);
                    if els is None { lemma_equiv_keep(p, q, t, Ty::Unit); }
                },
                _ => {},
            }
        },
        ExprKind::While(c, _) => {
            match tt {
                TyTree::One(_, sv) => {
                    lemma_typed_keep(p, q, sc, gl, *c, *sv);
                    lemma_equiv_keep(p, q, tt_ty(*sv), Ty::Bool);
                    lemma_equiv_keep(p, q, t, Ty::Unit);
                },
                _ => {},
            }
        },
        _ => {},
    }
}

/// The inference state for one function body: the store, the top-level schemes, the scopes
/// of the body (locals are monomorphic), and the function's return type.
pub struct Ctx<'g> {
    inf: Infer,
    globals: &'g Vec<(String, Scheme)>,
    scopes: Vec<Vec<(String, Scheme)>>,
    ret: Ty,
}

fn mono(t: Ty) -> (s: Scheme)
    ensures s.ty == t, s.vars@.len() == 0,
{
    Scheme { vars: Vec::new(), ty: t }
}

impl<'g> Ctx<'g> {
    pub closed spec fn inv(&self) -> bool {
        &&& self.inf.inv()
        &&& env_wf(self.globals@, self.inf.nvars())
        &&& forall|i: int| 0 <= i < self.scopes@.len() ==> env_wf((#[trigger] self.scopes@[i])@, self.inf.nvars())
        &&& ty_wf(self.ret, self.inf.nvars())
        &&& self.scopes@.len() >= 1
    }

    pub closed spec fn depth(&self) -> nat {
        self.scopes@.len()
    }

    proof fn lemma_grow(&self, old: &Ctx<'g>)
        requires
            old.inv(), self.inf.inv(), old.inf.nvars() <= self.inf.nvars(),
            self.globals == old.globals, self.scopes@ == old.scopes@, self.ret == old.ret,
        ensures self.inv(),
    {
        lemma_env_grow(self.globals@, old.inf.nvars(), self.inf.nvars());
        assert forall|i: int| 0 <= i < self.scopes@.len() implies env_wf((#[trigger] self.scopes@[i])@, self.inf.nvars()) by {
            lemma_env_grow(self.scopes@[i]@, old.inf.nvars(), self.inf.nvars());
        }
        lemma_ty_wf_grow(self.ret, old.inf.nvars(), self.inf.nvars());
    }

    fn fresh(&mut self) -> (r: Result<Ty, String>)
        requires old(self).inv(),
        ensures
            r is Ok <==> old(self).inf.nvars() < 4294967295,
            r matches Ok(t) ==> t == Ty::Var(old(self).inf.nvars() as u32),
            old(self).inf.nvars() <= final(self).inf.nvars(),
            final(self).inv(), final(self).depth() == old(self).depth(),
            r matches Ok(t) ==> ty_wf(t, final(self).inf.nvars()),
            keeps_store(old(self).inf.store(), final(self).inf.store()),
            final(self).scopes@ == old(self).scopes@, final(self).globals == old(self).globals,
    {
        let ghost old_self = *self;
        let r = self.inf.fresh();
        proof {
            self.lemma_grow(&old_self);
            lemma_keeps_push(old_self.inf.store());
            lemma_keeps_refl(old_self.inf.store());
        }
        r
    }

    fn unify(&mut self, a: &Ty, b: &Ty) -> (r: Result<(), String>)
        requires old(self).inv(), ty_wf(*a, old(self).inf.nvars()), ty_wf(*b, old(self).inf.nvars()),
        ensures old(self).inf.nvars() <= final(self).inf.nvars(), final(self).inv(), final(self).depth() == old(self).depth(),
            keeps_store(old(self).inf.store(), final(self).inf.store()),
            r is Ok ==> unified(final(self).inf.store(), *a, *b),
            final(self).scopes@ == old(self).scopes@, final(self).globals == old(self).globals,
    {
        let ghost old_self = *self;
        let r = self.inf.unify(a, b);
        proof { self.lemma_grow(&old_self); }
        r
    }

    /// The type of a name: a fresh instance of its scheme, innermost scope first, then the
    /// top-level functions.
    fn lookup(&mut self, name: &String) -> (r: Result<Ty, String>)
        requires old(self).inv(),
        ensures
            old(self).inf.nvars() <= final(self).inf.nvars(),
            final(self).inv(), final(self).depth() == old(self).depth(),
            r matches Ok(t) ==> ty_wf(t, final(self).inf.nvars()),
            match (match scopes_find(old(self).scopes@, name@) { Some(s) => Some(s), None => env_find(old(self).globals@, name@) }) {
                Some(s) => (r is Ok <==> old(self).inf.nvars() + s.vars@.len() <= 4294967295),
                None => r matches Err(m) && m@ == "cannot find `"@ + name@ + "`"@,
            },
            keeps_store(old(self).inf.store(), final(self).inf.store()),
            final(self).scopes@ == old(self).scopes@, final(self).globals == old(self).globals,
            r matches Ok(t) ==> (name_scheme(old(self).scopes@, old(self).globals@, name@) matches Some(s)
                && (s.vars@.len() > 0 || ty_eq(t, s.ty))),
    {
        proof { lemma_keeps_refl(self.inf.store()); }
        let ghost old_self = *self;
        let ghost sc = self.scopes@;
        let mut found: Option<(usize, usize)> = None;
        let mut i = self.scopes.len();
        assert(sc.subrange(0, i as int) =~= sc);
        while i > 0 && found.is_none()
            invariant
                i <= self.scopes@.len(), sc == self.scopes@,
                found matches Some((a, b)) ==> a < self.scopes@.len() && b < self.scopes@[a as int]@.len()
                    && scopes_find(sc, name@) == Some(sc[a as int]@[b as int].1),
                found is None ==> scopes_find(sc, name@) == scopes_find(sc.subrange(0, i as int), name@),
            decreases i,
        {
            i -= 1;
            assert(sc.subrange(0, i + 1).drop_last() =~= sc.subrange(0, i as int));
            assert(sc.subrange(0, i + 1).last() == sc[i as int]);
            match find_in(&self.scopes[i], name) {
                Some(j) => {
                    proof { lemma_env_find_at(sc[i as int]@, name@, j as int); }
                    found = Some((i, j));
                },
                None => {
                    proof { lemma_env_find_none(sc[i as int]@, name@); }
                },
            }
        }
        assert(found is None ==> scopes_find(sc, name@) is None) by {
            if found is None { assert(i == 0); }
        }
        let r = match found {
            Some((a, b)) => {
                assert(env_wf(self.scopes@[a as int]@, self.inf.nvars()));
                let s = &self.scopes[a][b];
                assert(scheme_wf(s.1, self.inf.nvars()));
                self.inf.instantiate(&s.1)
            },
            None => {
                let gi = find_in(self.globals, name);
                match gi {
                    Some(x) => {
                        proof { lemma_env_find_at(self.globals@, name@, x as int); }
                        assert(scheme_wf(self.globals@[x as int].1, self.inf.nvars()));
                        self.inf.instantiate(&self.globals[x].1)
                    },
                    None => {
                        let mut m = String::from_str("cannot find `");
                        m.append(name.as_str());
                        m.append("`");
                        proof { lemma_env_find_none(self.globals@, name@); }
                        Err(m)
                    },
                }
            },
        };
        proof { self.lemma_grow(&old_self); }
        r
    }

    /// Binds a local name to a monomorphic type in the innermost scope.
    fn bind(&mut self, name: &String, t: Ty)
        requires old(self).inv(), ty_wf(t, old(self).inf.nvars()),
        ensures
            final(self).inv(), final(self).depth() == old(self).depth(), final(self).inf.nvars() == old(self).inf.nvars(),
            final(self).scopes@.drop_last() == old(self).scopes@.drop_last(),
            final(self).scopes@.last()@.drop_last() == old(self).scopes@.last()@,
            final(self).scopes@.last()@.last().0@ == name@,
            final(self).scopes@.last()@.last().1.ty == t,
            final(self).scopes@.last()@.last().1.vars@.len() == 0,
            final(self).inf == old(self).inf, final(self).globals == old(self).globals,
    {
        let mut last = self.scopes.pop().unwrap();
        let ghost before = last@;
        last.push((name.clone(), mono(t)));
        let ghost sc = self.scopes@;
        self.scopes.push(last);
        proof {
            assert forall|i: int| 0 <= i < self.scopes@.len() implies env_wf((#[trigger] self.scopes@[i])@, self.inf.nvars()) by {
                if i < sc.len() {
                    assert(self.scopes@[i] == sc[i]);
                } else {
                    assert forall|k: int| 0 <= k < self.scopes@[i]@.len() implies scheme_wf(#[trigger] self.scopes@[i]@[k].1, self.inf.nvars()) by {
                        if k < before.len() { assert(self.scopes@[i]@[k] == before[k]); }
                    }
                }
            }
        }
    }

    #[verifier::loop_isolation(false)]
    fn block(&mut self, b: &Block) -> (r: Result<Ty, String>)
        requires old(self).inv(),
        ensures
            old(self).inf.nvars() <= final(self).inf.nvars(),
            final(self).inv(), final(self).depth() == old(self).depth(),
            r matches Ok(t) ==> ty_wf(t, final(self).inf.nvars()),
            keeps_store(old(self).inf.store(), final(self).inf.store()),
            final(self).scopes@ == old(self).scopes@, final(self).globals == old(self).globals,
        decreases b, 1int,
    {
        let ghost d0 = self.depth();
        proof { lemma_keeps_refl(self.inf.store()); }
        self.scopes.push(Vec::new());
        assert(self.scopes@.drop_last() =~= old(self).scopes@);
        let mut i: usize = 0;
        while i < b.stmts.len()
            invariant self.inv(), self.depth() == d0 + 1, old(self).inf.nvars() <= self.inf.nvars(),
                keeps_store(old(self).inf.store(), self.inf.store()),
                self.scopes@.drop_last() == old(self).scopes@, self.globals == old(self).globals,
            decreases b.stmts@.len() - i,
        {
            proof {
                assert(decreases_to!(b => b.stmts));
                assert(decreases_to!(b.stmts => b.stmts@));
                assert(decreases_to!(b.stmts@ => b.stmts@[i as int]));
            }
            match &b.stmts[i] {
                Stmt::Let { name, ty, init, .. } => {
                    proof { assert(decreases_to!(b.stmts@[i as int] => *init)); }
                    let t = match self.expr(init) {
                        Ok(t) => t,
                        Err(e) => { self.scopes.pop(); return Err(e); },
                    };
                    match ty {
                        Some(ann) => {
                            let at = match annotation(ann) {
                                Ok(a) => a,
                                Err(e) => { self.scopes.pop(); return Err(e); },
                            };
                            let ghost n0 = self.inf.nvars();
                            match self.unify(&t, &at) {
                                Ok(()) => {},
                                Err(e) => { self.scopes.pop(); return Err(e); },
                            }
                            proof { lemma_ty_wf_grow(t, n0, self.inf.nvars()); }
                        },
                        None => {},
                    }
                    // Monomorphic: locals are not generalized.
                    self.bind(name, t);
                },
                Stmt::Expr(e) => {
                    match self.expr(e) {
                        Ok(_) => {},
                        Err(err) => { self.scopes.pop(); return Err(err); },
                    }
                },
            }
            i += 1;
        }
        let t = match &b.tail {
            Some(t) => match self.expr(t) {
                Ok(t) => t,
                Err(e) => { self.scopes.pop(); return Err(e); },
            },
            None => Ty::Unit,
        };
        self.scopes.pop();
        Ok(t)
    }

    /// The type of an expression: its typing rules' constraints are added to the store, and
    /// the result is a type `has_type` gives it there.
    #[verifier::loop_isolation(false)]
    #[verifier::rlimit(80)]
    fn expr(&mut self, e: &Expr) -> (r: Result<Ty, String>)
        requires old(self).inv(),
        ensures
            old(self).inf.nvars() <= final(self).inf.nvars(),
            final(self).inv(), final(self).depth() == old(self).depth(),
            r matches Ok(t) ==> ty_wf(t, final(self).inf.nvars()),
            keeps_store(old(self).inf.store(), final(self).inf.store()),
            final(self).scopes@ == old(self).scopes@, final(self).globals == old(self).globals,
            r matches Ok(t) ==> has_type(final(self).inf.store(), old(self).scopes@, old(self).globals@, *e, t),
        decreases e, 1int,
    {
        let ghost p0 = self.inf.store();
        let ghost sc = self.scopes@;
        let ghost gl = self.globals@;
        proof { lemma_keeps_refl(p0); }
        match &e.kind {
            ExprKind::Int(_) => {
                proof { lemma_ty_eq_refl(Ty::Int); assert(typed(p0, sc, gl, *e, TyTree::Leaf(Ty::Int))); }
                Ok(Ty::Int)
            },
            ExprKind::Bool(_) => {
                proof { lemma_ty_eq_refl(Ty::Bool); assert(typed(p0, sc, gl, *e, TyTree::Leaf(Ty::Bool))); }
                Ok(Ty::Bool)
            },
            ExprKind::Var(name) => {
                let r = self.lookup(name);
                proof {
                    if r is Ok {
                        assert(typed(self.inf.store(), sc, gl, *e, TyTree::Leaf(r->Ok_0)));
                    }
                }
                r
            },
            ExprKind::Unary(op, x) => {
                let t = if *op == UnOp::Neg { Ty::Int } else { Ty::Bool };
                let tx = match self.expr(x) { Ok(v) => v, Err(m) => { return Err(m); } };
                let ghost p1 = self.inf.store();
                match self.unify(&tx, &t) {
                    Ok(()) => {},
                    Err(m) => { proof { lemma_keeps_trans(p0, p1, self.inf.store()); } return Err(m); },
                }
                proof {
                    let p2 = self.inf.store();
                    lemma_keeps_trans(p0, p1, p2);
                    let ttx = choose|tt: TyTree| #[trigger] typed(p1, sc, gl, **x, tt) && tt_ty(tt) == tx;
                    lemma_typed_keep(p1, p2, sc, gl, **x, ttx);
                    lemma_ty_eq_refl(t);
                    assert(typed(p2, sc, gl, *e, TyTree::One(t, Box::new(ttx))));
                }
                Ok(t)
            },
            ExprKind::Binary(op, a, b) => {
                let ta = match self.expr(a) { Ok(v) => v, Err(m) => { return Err(m); } };
                let ghost p1 = self.inf.store();
                let n1 = Ghost(self.inf.nvars());
                let tb = match self.expr(b) {
                    Ok(v) => v,
                    Err(m) => { proof { lemma_keeps_trans(p0, p1, self.inf.store()); } return Err(m); },
                };
                let ghost p2 = self.inf.store();
                proof {
                    lemma_ty_wf_grow(ta, n1@, self.inf.nvars());
                    lemma_keeps_trans(p0, p1, p2);
                    lemma_has_type_keep(p1, p2, sc, gl, **a, ta);
                }
                match op {
                    BinOp::Add | BinOp::Sub | BinOp::Mul | BinOp::Div | BinOp::Rem => {
                        let n2 = Ghost(self.inf.nvars());
                        match self.unify(&ta, &Ty::Int) {
                            Ok(()) => {},
                            Err(m) => { proof { lemma_keeps_trans(p0, p2, self.inf.store()); } return Err(m); },
                        }
                        let ghost p3 = self.inf.store();
                        proof { lemma_ty_wf_grow(tb, n2@, self.inf.nvars()); lemma_keeps_trans(p0, p2, p3); }
                        match self.unify(&tb, &Ty::Int) {
                            Ok(()) => {},
                            Err(m) => { proof { lemma_keeps_trans(p0, p3, self.inf.store()); } return Err(m); },
                        }
                        proof {
                            let p4 = self.inf.store();
                            lemma_keeps_trans(p0, p3, p4);
                            lemma_keeps_trans(p2, p3, p4);
                            lemma_has_type_keep(p2, p4, sc, gl, **a, ta);
                            lemma_has_type_keep(p2, p4, sc, gl, **b, tb);
                            assert(unified(p3, ta, Ty::Int));
                            lemma_ty_eq_refl(Ty::Int);
                            lemma_binary_has_type(p4, sc, gl, *e, *op, **a, **b, ta, tb, Ty::Int);
                        }
                        Ok(Ty::Int)
                    },
                    BinOp::Lt | BinOp::Le | BinOp::Gt | BinOp::Ge => {
                        let n2 = Ghost(self.inf.nvars());
                        match self.unify(&ta, &Ty::Int) {
                            Ok(()) => {},
                            Err(m) => { proof { lemma_keeps_trans(p0, p2, self.inf.store()); } return Err(m); },
                        }
                        let ghost p3 = self.inf.store();
                        proof { lemma_ty_wf_grow(tb, n2@, self.inf.nvars()); lemma_keeps_trans(p0, p2, p3); }
                        match self.unify(&tb, &Ty::Int) {
                            Ok(()) => {},
                            Err(m) => { proof { lemma_keeps_trans(p0, p3, self.inf.store()); } return Err(m); },
                        }
                        proof {
                            let p4 = self.inf.store();
                            lemma_keeps_trans(p0, p3, p4);
                            lemma_keeps_trans(p2, p3, p4);
                            lemma_has_type_keep(p2, p4, sc, gl, **a, ta);
                            lemma_has_type_keep(p2, p4, sc, gl, **b, tb);
                            assert(unified(p3, ta, Ty::Int));
                            lemma_ty_eq_refl(Ty::Bool);
                            lemma_binary_has_type(p4, sc, gl, *e, *op, **a, **b, ta, tb, Ty::Bool);
                        }
                        Ok(Ty::Bool)
                    },
                    BinOp::And | BinOp::Or => {
                        let n2 = Ghost(self.inf.nvars());
                        match self.unify(&ta, &Ty::Bool) {
                            Ok(()) => {},
                            Err(m) => { proof { lemma_keeps_trans(p0, p2, self.inf.store()); } return Err(m); },
                        }
                        let ghost p3 = self.inf.store();
                        proof { lemma_ty_wf_grow(tb, n2@, self.inf.nvars()); lemma_keeps_trans(p0, p2, p3); }
                        match self.unify(&tb, &Ty::Bool) {
                            Ok(()) => {},
                            Err(m) => { proof { lemma_keeps_trans(p0, p3, self.inf.store()); } return Err(m); },
                        }
                        proof {
                            let p4 = self.inf.store();
                            lemma_keeps_trans(p0, p3, p4);
                            lemma_keeps_trans(p2, p3, p4);
                            lemma_has_type_keep(p2, p4, sc, gl, **a, ta);
                            lemma_has_type_keep(p2, p4, sc, gl, **b, tb);
                            assert(unified(p3, ta, Ty::Bool));
                            lemma_ty_eq_refl(Ty::Bool);
                            lemma_binary_has_type(p4, sc, gl, *e, *op, **a, **b, ta, tb, Ty::Bool);
                        }
                        Ok(Ty::Bool)
                    },
                    BinOp::Eq | BinOp::Ne => {
                        match self.unify(&ta, &tb) {
                            Ok(()) => {},
                            Err(m) => { proof { lemma_keeps_trans(p0, p2, self.inf.store()); } return Err(m); },
                        }
                        proof {
                            let p3 = self.inf.store();
                            lemma_keeps_trans(p0, p2, p3);
                            lemma_has_type_keep(p2, p3, sc, gl, **a, ta);
                            lemma_has_type_keep(p2, p3, sc, gl, **b, tb);
                            lemma_ty_eq_refl(Ty::Bool);
                            lemma_binary_has_type(p3, sc, gl, *e, *op, **a, **b, ta, tb, Ty::Bool);
                        }
                        Ok(Ty::Bool)
                    },
                }
            },
            ExprKind::Assign(lhs, rhs) => {
                let tl = match self.expr(lhs) { Ok(v) => v, Err(m) => { return Err(m); } };
                let ghost p1 = self.inf.store();
                let n1 = Ghost(self.inf.nvars());
                let tr = match self.expr(rhs) {
                    Ok(v) => v,
                    Err(m) => { proof { lemma_keeps_trans(p0, p1, self.inf.store()); } return Err(m); },
                };
                let ghost p2 = self.inf.store();
                proof { lemma_ty_wf_grow(tl, n1@, self.inf.nvars()); lemma_keeps_trans(p0, p1, p2); }
                match self.unify(&tl, &tr) {
                    Ok(()) => {},
                    Err(m) => { proof { lemma_keeps_trans(p0, p2, self.inf.store()); } return Err(m); },
                }
                proof {
                    let p3 = self.inf.store();
                    lemma_keeps_trans(p0, p2, p3);
                    lemma_keeps_trans(p1, p2, p3);
                    let ttl = choose|tt: TyTree| #[trigger] typed(p1, sc, gl, **lhs, tt) && tt_ty(tt) == tl;
                    let ttr = choose|tt: TyTree| #[trigger] typed(p2, sc, gl, **rhs, tt) && tt_ty(tt) == tr;
                    lemma_typed_keep(p1, p3, sc, gl, **lhs, ttl);
                    lemma_typed_keep(p2, p3, sc, gl, **rhs, ttr);
                    lemma_ty_eq_refl(Ty::Unit);
                    assert(typed(p3, sc, gl, *e, TyTree::Two(Ty::Unit, Box::new(ttl), Box::new(ttr))));
                }
                Ok(Ty::Unit)
            },
            _ => self.expr_other(e),
        }
    }

    /// The types of calls, `if`, `while`, blocks and `return`.
    #[verifier::loop_isolation(false)]
    fn expr_other(&mut self, e: &Expr) -> (r: Result<Ty, String>)
        requires
            old(self).inv(),
            !(e.kind is Int || e.kind is Bool || e.kind is Var || e.kind is Unary || e.kind is Binary || e.kind is Assign),
        ensures
            old(self).inf.nvars() <= final(self).inf.nvars(),
            final(self).inv(), final(self).depth() == old(self).depth(),
            r matches Ok(t) ==> ty_wf(t, final(self).inf.nvars()),
            keeps_store(old(self).inf.store(), final(self).inf.store()),
            final(self).scopes@ == old(self).scopes@, final(self).globals == old(self).globals,
            r matches Ok(t) ==> has_type(final(self).inf.store(), old(self).scopes@, old(self).globals@, *e, t),
        decreases e, 0int,
    {
        let ghost p0 = self.inf.store();
        let ghost sc = self.scopes@;
        let ghost gl = self.globals@;
        proof { lemma_keeps_refl(p0); }
        match &e.kind {
            ExprKind::Call(callee, args) => {
                let tf = self.expr(callee)?;
                let mut targs: Vec<Ty> = Vec::new();
                let mut i: usize = 0;
                while i < args.len()
                    invariant
                        self.inv(), self.depth() == old(self).depth(), old(self).inf.nvars() <= self.inf.nvars(),
                        ty_wf(tf, self.inf.nvars()), tys_wf(targs@, self.inf.nvars()),
                        keeps_store(p0, self.inf.store()), p0 == old(self).inf.store(),
                        self.scopes@ == old(self).scopes@, self.globals == old(self).globals,
                    decreases args@.len() - i,
                {
                    proof {
                        assert(decreases_to!(e => e.kind));
                        assert(decreases_to!(e.kind => e.kind->Call_1));
                        assert(e.kind->Call_1 == *args);
                        assert(decreases_to!(*args => args@));
                        assert(decreases_to!(args@ => args@[i as int]));
                    }
                    let n1 = Ghost(self.inf.nvars());
                    let ta = self.expr(&args[i])?;
                    proof {
                        lemma_ty_wf_grow(tf, n1@, self.inf.nvars());
                        lemma_tys_wf_grow(targs@, n1@, self.inf.nvars());
                        lemma_tys_wf_push(targs@, ta, self.inf.nvars());
                    }
                    targs.push(ta);
                    i += 1;
                }
                let n2 = Ghost(self.inf.nvars());
                let ret = self.fresh()?;
                let n3 = Ghost(self.inf.nvars());
                proof {
                    lemma_ty_wf_grow(tf, n2@, self.inf.nvars());
                    lemma_tys_wf_grow(targs@, n2@, self.inf.nvars());
                }
                let ret2 = ty_clone(&ret);
                let want = Ty::Fn(targs, Box::new(ret2));
                self.unify(&tf, &want)?;
                proof {
                    lemma_ty_wf_grow(ret, n3@, self.inf.nvars());
                    assert(typed(self.inf.store(), sc, gl, *e, TyTree::Leaf(ret)));
                }
                Ok(ret)
            },
            ExprKind::If(c, then, els) => {
                let tc = self.expr(c)?;
                let ghost p1 = self.inf.store();
                let ghost ttc = choose|tt: TyTree| #[trigger] typed(p1, sc, gl, **c, tt) && tt_ty(tt) == tc;
                self.unify(&tc, &Ty::Bool)?;
                let ghost p2 = self.inf.store();
                proof { assert(unified(p2, tc, Ty::Bool)); }
                let tt = self.block(then)?;
                let ghost p3 = self.inf.store();
                proof { lemma_keeps_trans(p1, p2, p3); }
                match els {
                    Some(x) => {
                        let n1 = Ghost(self.inf.nvars());
                        let te = self.expr(x)?;
                        let ghost p4 = self.inf.store();
                        proof { lemma_ty_wf_grow(tt, n1@, self.inf.nvars()); lemma_keeps_trans(p1, p3, p4); }
                        let n2 = Ghost(self.inf.nvars());
                        self.unify(&tt, &te)?;
                        proof {
                            lemma_ty_wf_grow(tt, n2@, self.inf.nvars());
                            let pf = self.inf.store();
                            lemma_keeps_trans(p1, p4, pf);
                            lemma_keeps_trans(p2, p3, p4);
                            lemma_keeps_trans(p2, p4, pf);
                            lemma_typed_keep(p1, pf, sc, gl, **c, ttc);
                            assert(unified(pf, tc, Ty::Bool));
                            assert(typed(pf, sc, gl, *e, TyTree::One(tt, Box::new(ttc))));
                        }
                        Ok(tt)
                    },
                    None => {
                        self.unify(&tt, &Ty::Unit)?;
                        proof {
                            let pf = self.inf.store();
                            lemma_keeps_trans(p1, p3, pf);
                            lemma_keeps_trans(p2, p3, pf);
                            lemma_typed_keep(p1, pf, sc, gl, **c, ttc);
                            assert(unified(pf, tc, Ty::Bool));
                            lemma_ty_eq_refl(Ty::Unit);
                            assert(typed(pf, sc, gl, *e, TyTree::One(Ty::Unit, Box::new(ttc))));
                        }
                        Ok(Ty::Unit)
                    },
                }
            },
            ExprKind::While(c, body) => {
                let tc = self.expr(c)?;
                let ghost p1 = self.inf.store();
                let ghost ttc = choose|tt: TyTree| #[trigger] typed(p1, sc, gl, **c, tt) && tt_ty(tt) == tc;
                self.unify(&tc, &Ty::Bool)?;
                let ghost p2 = self.inf.store();
                proof { assert(unified(p2, tc, Ty::Bool)); }
                self.block(body)?;
                proof {
                    let pf = self.inf.store();
                    lemma_keeps_trans(p1, p2, pf);
                    lemma_typed_keep(p1, pf, sc, gl, **c, ttc);
                    assert(unified(pf, tc, Ty::Bool));
                    lemma_ty_eq_refl(Ty::Unit);
                    assert(typed(pf, sc, gl, *e, TyTree::One(Ty::Unit, Box::new(ttc))));
                }
                Ok(Ty::Unit)
            },
            ExprKind::Block(b) => {
                let r = self.block(b);
                proof {
                    if r is Ok {
                        assert(typed(self.inf.store(), sc, gl, *e, TyTree::Leaf(r->Ok_0)));
                    }
                }
                r
            },
            ExprKind::Return(v) => {
                let tv = match v {
                    Some(x) => self.expr(x)?,
                    None => Ty::Unit,
                };
                let ret = ty_clone(&self.ret);
                self.unify(&tv, &ret)?;
                // `return` has every type: a fresh, unconstrained variable.
                let r = self.fresh();
                proof {
                    if r is Ok {
                        assert(typed(self.inf.store(), sc, gl, *e, TyTree::Leaf(r->Ok_0)));
                    }
                }
                r
            },
            _ => {
                proof { assert(false); }
                Err(String::new())
            },
        }
    }
}


/// A type an expression has stays its type as the store grows.
pub proof fn lemma_has_type_keep(p: Seq<Option<Ty>>, q: Seq<Option<Ty>>, sc: Seq<Vec<(String, Scheme)>>,
    gl: Seq<(String, Scheme)>, e: Expr, t: Ty)
    requires keeps_store(p, q), has_type(p, sc, gl, e, t),
    ensures has_type(q, sc, gl, e, t),
{
    let tt = choose|tt: TyTree| #[trigger] typed(p, sc, gl, e, tt) && tt_ty(tt) == t;
    lemma_typed_keep(p, q, sc, gl, e, tt);
}

/// A binary expression has type `t` when its operands have types that the operator's rule
/// relates to `t`.
proof fn lemma_binary_has_type(p: Seq<Option<Ty>>, sc: Seq<Vec<(String, Scheme)>>, gl: Seq<(String, Scheme)>,
    e: Expr, op: BinOp, a: Expr, b: Expr, ta: Ty, tb: Ty, t: Ty)
    requires
        e.kind matches ExprKind::Binary(o, x, y) && o == op && *x == a && *y == b,
        has_type(p, sc, gl, a, ta), has_type(p, sc, gl, b, tb), binop_typed(p, op, ta, tb, t),
    ensures has_type(p, sc, gl, e, t),
{
    let tta = choose|tt: TyTree| #[trigger] typed(p, sc, gl, a, tt) && tt_ty(tt) == ta;
    let ttb = choose|tt: TyTree| #[trigger] typed(p, sc, gl, b, tt) && tt_ty(tt) == tb;
    let tt = TyTree::Two(t, Box::new(tta), Box::new(ttb));
    assert(typed(p, sc, gl, e, tt));
}

/// Infers the type scheme of one top-level function. Missing annotations (parameters or
/// return) become fresh type variables; inside its own body the function is monomorphic.
pub fn infer_fn(inf: &mut Infer, globals: &Vec<(String, Scheme)>, f: &FnDecl) -> (r: Result<Scheme, String>)
    requires old(inf).inv(), env_wf(globals@, old(inf).nvars()),
    ensures
        final(inf).inv(),
        old(inf).nvars() <= final(inf).nvars(),
        r matches Ok(s) ==> scheme_wf(s, final(inf).nvars()),
{
    let mut own = Infer::new();
    std::mem::swap(&mut own, inf);
    let r = infer_owned(&mut own, globals, f);
    std::mem::swap(&mut own, inf);
    r
}

fn infer_owned(inf: &mut Infer, globals: &Vec<(String, Scheme)>, f: &FnDecl) -> (r: Result<Scheme, String>)
    requires old(inf).inv(), env_wf(globals@, old(inf).nvars()),
    ensures
        final(inf).inv(),
        old(inf).nvars() <= final(inf).nvars(),
        r matches Ok(s) ==> scheme_wf(s, final(inf).nvars()),
{
    let mut params: Vec<Ty> = Vec::new();
    let mut i: usize = 0;
    while i < f.params.len()
        invariant inf.inv(), old(inf).nvars() <= inf.nvars(), tys_wf(params@, inf.nvars()),
        decreases f.params@.len() - i,
    {
        let n0 = Ghost(inf.nvars());
        let t = match &f.params[i].ty {
            Some(a) => annotation(a)?,
            None => inf.fresh()?,
        };
        proof {
            lemma_tys_wf_grow(params@, n0@, inf.nvars());
            lemma_tys_wf_push(params@, t, inf.nvars());
        }
        params.push(t);
        i += 1;
    }
    let n1 = Ghost(inf.nvars());
    let ret = match &f.ret {
        Some(a) => annotation(a)?,
        None => inf.fresh()?,
    };
    proof { lemma_tys_wf_grow(params@, n1@, inf.nvars()); }
    let mut pclone: Vec<Ty> = Vec::new();
    let mut k: usize = 0;
    while k < params.len()
        invariant k <= params@.len(), tys_wf(params@, inf.nvars()), tys_wf(pclone@, inf.nvars()), pclone@.len() == k,
        decreases params@.len() - k,
    {
        proof { lemma_tys_wf_at(params@, inf.nvars(), k as int); }
        let c = ty_clone(&params[k]);
        proof { lemma_tys_wf_push(pclone@, c, inf.nvars()); }
        pclone.push(c);
        k += 1;
    }
    assert(ty_wf(ret, inf.nvars()));
    let rc = ty_clone(&ret);
    let fn_ty = Ty::Fn(pclone, Box::new(rc));
    assert(ty_wf(fn_ty, inf.nvars()));
    // Recursion: inside its own body the function is monomorphic.
    let mut scope: Vec<(String, Scheme)> = Vec::new();
    let fc = ty_clone(&fn_ty);
    let first = mono(fc);
    assert(scheme_wf(first, inf.nvars()));
    scope.push((f.name.clone(), first));
    let mut j: usize = 0;
    while j < f.params.len() && j < params.len()
        invariant
            tys_wf(params@, inf.nvars()), ty_wf(fn_ty, inf.nvars()), env_wf(scope@, inf.nvars()),
        decreases f.params@.len() - j,
    {
        proof { lemma_tys_wf_at(params@, inf.nvars(), j as int); }
        let ghost before = scope@;
        scope.push((f.params[j].name.clone(), mono(ty_clone(&params[j]))));
        proof {
            assert forall|q: int| 0 <= q < scope@.len() implies scheme_wf(#[trigger] scope@[q].1, inf.nvars()) by {
                if q < before.len() { assert(scope@[q] == before[q]); }
            }
        }
        j += 1;
    }
    let mut own = Infer::new();
    std::mem::swap(&mut own, inf);
    let mut scopes: Vec<Vec<(String, Scheme)>> = Vec::new();
    scopes.push(scope);
    proof { lemma_env_grow(globals@, old(inf).nvars(), own.nvars()); }
    let ghost n_made = own.nvars();
    let mut ctx = Ctx { inf: own, globals, scopes, ret: ty_clone(&ret) };
    let body = ctx.block(&f.body);
    let result = match body {
        Ok(bt) => {
            let rr = ty_clone(&ctx.ret);
            match ctx.unify(&bt, &rr) {
                Ok(()) => {
                    proof { lemma_ty_wf_grow(fn_ty, n_made, ctx.inf.nvars()); }
                    Ok(ctx.inf.generalize(&fn_ty))
                },
                Err(e) => Err(e),
            }
        },
        Err(e) => Err(e),
    };
    let mut back = ctx.inf;
    std::mem::swap(&mut back, inf);
    result
}

} // verus!
