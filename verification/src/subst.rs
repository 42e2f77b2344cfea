//! What a store of type-variable bindings means: which types it makes equal.

use vstd::prelude::*;
use crate::infer::Ty;

verus! {

/// Two types of the same shape, variable for variable.
pub open spec fn ty_eq(a: Ty, b: Ty) -> bool
    decreases a,
{
    match a {
        Ty::Var(x) => b == Ty::Var(x),
        Ty::Int => b is Int,
        Ty::Bool => b is Bool,
        Ty::Unit => b is Unit,
        Ty::Fn(ps, r) => match b {
            Ty::Fn(qs, s) => tys_eq(ps@, qs@) && ty_eq(*r, *s),
            _ => false,
        },
    }
}

/// Two lists of types of the same shape, element for element.
pub open spec fn tys_eq(a: Seq<Ty>, b: Seq<Ty>) -> bool
    decreases a,
{
    a.len() == b.len() && (a.len() == 0 || (tys_eq(a.drop_last(), b.drop_last()) && ty_eq(a.last(), b.last())))
}

pub proof fn lemma_tys_eq_at(a: Seq<Ty>, b: Seq<Ty>, i: int)
    requires tys_eq(a, b), 0 <= i < a.len(),
    ensures ty_eq(a[i], b[i]), a.len() == b.len(),
    decreases a.len(),
{
    if i < a.len() - 1 {
        lemma_tys_eq_at(a.drop_last(), b.drop_last(), i);
    }
}

pub proof fn lemma_tys_eq_from(a: Seq<Ty>, b: Seq<Ty>)
    requires a.len() == b.len(), forall|i: int| 0 <= i < a.len() ==> ty_eq(#[trigger] a[i], b[i]),
    ensures tys_eq(a, b),
    decreases a.len(),
{
    if a.len() > 0 {
        assert forall|i: int| 0 <= i < a.drop_last().len() implies ty_eq(#[trigger] a.drop_last()[i], b.drop_last()[i]) by {
            assert(ty_eq(a[i], b[i]));
        }
        lemma_tys_eq_from(a.drop_last(), b.drop_last());
        assert(ty_eq(a[a.len() - 1], b[a.len() - 1]));
    }
}

pub proof fn lemma_ty_eq_refl(a: Ty)
    ensures ty_eq(a, a),
    decreases a, 0nat,
{
    match a {
        Ty::Fn(ps, r) => {
            lemma_tys_eq_refl(ps@);
            lemma_ty_eq_refl(*r);
        },
        _ => {},
    }
}

pub proof fn lemma_tys_eq_refl(a: Seq<Ty>)
    ensures tys_eq(a, a),
    decreases a, 1nat,
{
    if a.len() > 0 {
        lemma_tys_eq_refl(a.drop_last());
        lemma_ty_eq_refl(a.last());
    }
}

pub proof fn lemma_ty_eq_sym(a: Ty, b: Ty)
    requires ty_eq(a, b),
    ensures ty_eq(b, a),
    decreases a, 0nat,
{
    match a {
        Ty::Fn(ps, r) => match b {
            Ty::Fn(qs, s) => {
                lemma_tys_eq_sym(ps@, qs@);
                lemma_ty_eq_sym(*r, *s);
            },
            _ => {},
        },
        _ => {},
    }
}

pub proof fn lemma_tys_eq_sym(a: Seq<Ty>, b: Seq<Ty>)
    requires tys_eq(a, b),
    ensures tys_eq(b, a),
    decreases a, 1nat,
{
    if a.len() > 0 {
        lemma_tys_eq_sym(a.drop_last(), b.drop_last());
        lemma_ty_eq_sym(a.last(), b.last());
    }
}

pub proof fn lemma_ty_eq_trans(a: Ty, b: Ty, c: Ty)
    requires ty_eq(a, b), ty_eq(b, c),
    ensures ty_eq(a, c),
    decreases a, 0nat,
{
    match a {
        Ty::Fn(ps, r) => match b {
            Ty::Fn(qs, s) => match c {
                Ty::Fn(us, w) => {
                    lemma_tys_eq_trans(ps@, qs@, us@);
                    lemma_ty_eq_trans(*r, *s, *w);
                },
                _ => {},
            },
            _ => {},
        },
        _ => {},
    }
}

pub proof fn lemma_tys_eq_trans(a: Seq<Ty>, b: Seq<Ty>, c: Seq<Ty>)
    requires tys_eq(a, b), tys_eq(b, c),
    ensures tys_eq(a, c),
    decreases a, 1nat,
{
    if a.len() > 0 {
        lemma_tys_eq_trans(a.drop_last(), b.drop_last(), c.drop_last());
        lemma_ty_eq_trans(a.last(), b.last(), c.last());
    }
}

/// Where a type leads in the store `p` within `k` steps: its bindings followed to a type that
/// is not a bound variable; `None` if that takes more steps.
pub open spec fn head(p: Seq<Option<Ty>>, t: Ty, k: nat) -> Option<Ty>
    decreases k,
{
    match t {
        Ty::Var(v) => if (v as int) < p.len() && p[v as int] is Some {
            if k == 0 { None } else { head(p, p[v as int]->Some_0, (k - 1) as nat) }
        } else {
            Some(t)
        },
        _ => Some(t),
    }
}

/// The store makes `a` and `b` equal, looking `k` steps deep: where they lead is the same
/// type, or the same function type with equal parameters and results.
pub open spec fn eqk(p: Seq<Option<Ty>>, a: Ty, b: Ty, k: nat) -> bool
    decreases k,
{
    if k == 0 {
        false
    } else {
        match (head(p, a, k), head(p, b, k)) {
            (Some(ha), Some(hb)) => ty_eq(ha, hb) || match (ha, hb) {
                (Ty::Fn(p1, r1), Ty::Fn(p2, r2)) => p1@.len() == p2@.len()
                    && (forall|i: int| 0 <= i < p1@.len() ==> eqk(p, #[trigger] p1@[i], p2@[i], (k - 1) as nat))
                    && eqk(p, *r1, *r2, (k - 1) as nat),
                _ => false,
            },
            _ => false,
        }
    }
}

/// The store makes `a` and `b` equal.
pub open spec fn unified(p: Seq<Option<Ty>>, a: Ty, b: Ty) -> bool {
    exists|k: nat| #[trigger] eqk(p, a, b, k)
}

/// `a` and `b` are the same type, or the store makes them equal.
pub open spec fn equiv(p: Seq<Option<Ty>>, a: Ty, b: Ty) -> bool {
    ty_eq(a, b) || unified(p, a, b)
}

/// Store `q` keeps what store `p` says: every equality, and where every type that leads to
/// a type constructor leads.
pub open spec fn keeps_store(p: Seq<Option<Ty>>, q: Seq<Option<Ty>>) -> bool {
    &&& p.len() <= q.len()
    &&& forall|a: Ty, b: Ty| #[trigger] unified(p, a, b) ==> unified(q, a, b)
    &&& forall|t: Ty, k: nat| #![trigger head(p, t, k)] head(p, t, k) is Some && !(head(p, t, k)->Some_0 is Var) ==> head(q, t, k) == head(p, t, k)
}

pub proof fn lemma_keeps_refl(p: Seq<Option<Ty>>)
    ensures keeps_store(p, p),
{
}

pub proof fn lemma_keeps_trans(p: Seq<Option<Ty>>, q: Seq<Option<Ty>>, r: Seq<Option<Ty>>)
    requires keeps_store(p, q), keeps_store(q, r),
    ensures keeps_store(p, r),
{
    assert forall|a: Ty, b: Ty| #[trigger] unified(p, a, b) implies unified(r, a, b) by {
        assert(unified(q, a, b));
    }
    assert forall|t: Ty, k: nat| #![trigger head(p, t, k)] head(p, t, k) is Some && !(head(p, t, k)->Some_0 is Var) implies head(r, t, k) == head(p, t, k) by {
        assert(head(q, t, k) == head(p, t, k));
    }
}

pub proof fn lemma_equiv_keep(p: Seq<Option<Ty>>, q: Seq<Option<Ty>>, a: Ty, b: Ty)
    requires keeps_store(p, q), equiv(p, a, b),
    ensures equiv(q, a, b),
{
    if !ty_eq(a, b) {
        assert(unified(p, a, b));
    }
}

/// More steps reach the same place.
pub proof fn lemma_head_mono(p: Seq<Option<Ty>>, t: Ty, k: nat, k2: nat)
    requires head(p, t, k) is Some, k <= k2,
    ensures head(p, t, k2) == head(p, t, k),
    decreases k,
{
    match t {
        Ty::Var(v) => if (v as int) < p.len() && p[v as int] is Some {
            lemma_head_mono(p, p[v as int]->Some_0, (k - 1) as nat, (k2 - 1) as nat);
        },
        _ => {},
    }
}

/// Looking deeper keeps an equality.
pub proof fn lemma_eqk_mono(p: Seq<Option<Ty>>, a: Ty, b: Ty, k: nat, k2: nat)
    requires eqk(p, a, b, k), k <= k2,
    ensures eqk(p, a, b, k2),
    decreases k,
{
    lemma_head_mono(p, a, k, k2);
    lemma_head_mono(p, b, k, k2);
    let ha = head(p, a, k)->Some_0;
    let hb = head(p, b, k)->Some_0;
    if !ty_eq(ha, hb) {
        match (ha, hb) {
            (Ty::Fn(p1, r1), Ty::Fn(p2, r2)) => {
                assert forall|i: int| 0 <= i < p1@.len() implies eqk(p, #[trigger] p1@[i], p2@[i], (k2 - 1) as nat) by {
                    lemma_eqk_mono(p, p1@[i], p2@[i], (k - 1) as nat, (k2 - 1) as nat);
                }
                lemma_eqk_mono(p, *r1, *r2, (k - 1) as nat, (k2 - 1) as nat);
            },
            _ => {},
        }
    }
}

/// Where a type leads is the same however far one looks.
pub proof fn lemma_head_det(p: Seq<Option<Ty>>, t: Ty, k1: nat, k2: nat)
    requires head(p, t, k1) is Some, head(p, t, k2) is Some,
    ensures head(p, t, k1) == head(p, t, k2),
{
    if k1 <= k2 { lemma_head_mono(p, t, k1, k2); } else { lemma_head_mono(p, t, k2, k1); }
}

/// A type and a same-shaped copy lead to same-shaped places.
pub proof fn lemma_head_ty_eq(p: Seq<Option<Ty>>, a: Ty, a2: Ty, k: nat)
    requires ty_eq(a, a2), head(p, a, k) is Some,
    ensures head(p, a2, k) is Some, ty_eq(head(p, a, k)->Some_0, head(p, a2, k)->Some_0),
{
    match a {
        Ty::Var(v) => {
            assert(a2 == a);
            lemma_ty_eq_refl(head(p, a, k)->Some_0);
        },
        _ => {
            assert(!(a2 is Var));
            assert(head(p, a, k) == Some(a));
            assert(head(p, a2, k) == Some(a2));
        },
    }
}

/// Equality in the store does not see the difference between types of the same shape.
pub proof fn lemma_eqk_ty_eq(p: Seq<Option<Ty>>, a: Ty, b: Ty, a2: Ty, b2: Ty, k: nat)
    requires eqk(p, a, b, k), ty_eq(a, a2), ty_eq(b, b2),
    ensures eqk(p, a2, b2, k),
    decreases k,
{
    let ha = head(p, a, k)->Some_0;
    let hb = head(p, b, k)->Some_0;
    lemma_head_ty_eq(p, a, a2, k);
    lemma_head_ty_eq(p, b, b2, k);
    let ha2 = head(p, a2, k)->Some_0;
    let hb2 = head(p, b2, k)->Some_0;
    if ty_eq(ha, hb) {
        lemma_ty_eq_sym(ha, ha2);
        lemma_ty_eq_trans(ha2, ha, hb);
        lemma_ty_eq_trans(ha2, hb, hb2);
    } else {
        match (ha, hb) {
            (Ty::Fn(p1, r1), Ty::Fn(p2, r2)) => match (ha2, hb2) {
                (Ty::Fn(q1, s1), Ty::Fn(q2, s2)) => {
                    assert(tys_eq(p1@, q1@) && ty_eq(*r1, *s1));
                    assert(tys_eq(p2@, q2@) && ty_eq(*r2, *s2));
                    assert(p1@.len() == q1@.len() && p2@.len() == q2@.len());
                    assert forall|i: int| 0 <= i < q1@.len() implies eqk(p, #[trigger] q1@[i], q2@[i], (k - 1) as nat) by {
                        lemma_tys_eq_at(p1@, q1@, i);
                        lemma_tys_eq_at(p2@, q2@, i);
                        lemma_eqk_ty_eq(p, p1@[i], p2@[i], q1@[i], q2@[i], (k - 1) as nat);
                    }
                    lemma_eqk_ty_eq(p, *r1, *r2, *s1, *s2, (k - 1) as nat);
                },
                _ => {},
            },
            _ => {},
        }
    }
}

/// Adding an unbound variable at the end of the store changes nothing.
pub proof fn lemma_head_push(p: Seq<Option<Ty>>, t: Ty, k: nat)
    ensures head(p.push(None), t, k) == head(p, t, k),
    decreases k,
{
    match t {
        Ty::Var(v) => if (v as int) < p.len() && p[v as int] is Some && k > 0 {
            assert(p.push(None)[v as int] == p[v as int]);
            lemma_head_push(p, p[v as int]->Some_0, (k - 1) as nat);
        } else if (v as int) < p.len() {
            assert(p.push(None)[v as int] == p[v as int]);
        },
        _ => {},
    }
}

pub proof fn lemma_eqk_push(p: Seq<Option<Ty>>, a: Ty, b: Ty, k: nat)
    ensures eqk(p.push(None), a, b, k) == eqk(p, a, b, k),
    decreases k,
{
    lemma_head_push(p, a, k);
    lemma_head_push(p, b, k);
    if k > 0 {
        match (head(p, a, k), head(p, b, k)) {
            (Some(Ty::Fn(p1, r1)), Some(Ty::Fn(p2, r2))) => {
                assert forall|i: int| 0 <= i < p1@.len() implies
                    eqk(p.push(None), #[trigger] p1@[i], p2@[i], (k - 1) as nat) == eqk(p, p1@[i], p2@[i], (k - 1) as nat) by {
                    lemma_eqk_push(p, p1@[i], p2@[i], (k - 1) as nat);
                }
                lemma_eqk_push(p, *r1, *r2, (k - 1) as nat);
            },
            _ => {},
        }
    }
}

/// A new unbound variable keeps the store's meaning.
pub proof fn lemma_keeps_push(p: Seq<Option<Ty>>)
    ensures keeps_store(p, p.push(None)),
{
    assert forall|a: Ty, b: Ty| #[trigger] unified(p, a, b) implies unified(p.push(None), a, b) by {
        let k = choose|k: nat| #[trigger] eqk(p, a, b, k);
        lemma_eqk_push(p, a, b, k);
    }
    assert forall|t: Ty, k: nat| #![trigger head(p, t, k)] head(p, t, k) is Some && !(head(p, t, k)->Some_0 is Var) implies head(p.push(None), t, k) == head(p, t, k) by {
        lemma_head_push(p, t, k);
    }
}

/// A type that stays where it is in store `p`: not a variable, or an unbound one.
pub open spec fn settled(p: Seq<Option<Ty>>, t: Ty) -> bool {
    t matches Ty::Var(w) ==> !((w as int) < p.len() && p[w as int] is Some)
}

/// Binding an unbound variable `v` to a settled type `c`: what led to `v` now leads to `c`
/// (one step further), and everything else leads where it did.
pub proof fn lemma_head_bind(p: Seq<Option<Ty>>, v: u32, c: Ty, t: Ty, k: nat)
    requires
        (v as int) < p.len(), p[v as int] is None,
        settled(p, c), c != Ty::Var(v),
        head(p, t, k) is Some,
    ensures ({
        let q = p.update(v as int, Some(c));
        &&& head(p, t, k) != Some(Ty::Var(v)) ==> head(q, t, k) == head(p, t, k)
        &&& head(p, t, k) == Some(Ty::Var(v)) ==> head(q, t, k + 1) == Some(c)
    }),
    decreases k,
{
    let q = p.update(v as int, Some(c));
    match t {
        Ty::Var(w) => {
            if (w as int) < p.len() && p[w as int] is Some {
                assert(w != v);
                assert(q[w as int] == p[w as int]);
                lemma_head_bind(p, v, c, p[w as int]->Some_0, (k - 1) as nat);
            } else if w == v {
                assert(q[v as int] == Some(c));
                match c {
                    Ty::Var(x) => { assert(x != v); if (x as int) < q.len() { assert(q[x as int] == p[x as int]); } },
                    _ => {},
                }
                assert(head(q, c, k) == Some(c));
            } else {
                if (w as int) < p.len() { assert(q[w as int] == p[w as int]); }
            }
        },
        _ => {},
    }
}

/// Binding an unbound variable to a settled type keeps every equality, one step deeper.
pub proof fn lemma_eqk_bind(p: Seq<Option<Ty>>, v: u32, c: Ty, a: Ty, b: Ty, k: nat)
    requires
        (v as int) < p.len(), p[v as int] is None,
        settled(p, c), c != Ty::Var(v),
        eqk(p, a, b, k),
    ensures eqk(p.update(v as int, Some(c)), a, b, k + 1),
    decreases k,
{
    let q = p.update(v as int, Some(c));
    let ha = head(p, a, k)->Some_0;
    let hb = head(p, b, k)->Some_0;
    lemma_head_bind(p, v, c, a, k);
    lemma_head_bind(p, v, c, b, k);
    if ha != Ty::Var(v) { lemma_head_mono(q, a, k, k + 1); }
    if hb != Ty::Var(v) { lemma_head_mono(q, b, k, k + 1); }
    if ty_eq(ha, hb) {
        if ha == Ty::Var(v) {
            assert(hb == Ty::Var(v));
            lemma_ty_eq_refl(c);
        } else if hb == Ty::Var(v) {
            lemma_ty_eq_sym(ha, hb);
            assert(ha == Ty::Var(v));
        }
    } else {
        match (ha, hb) {
            (Ty::Fn(p1, r1), Ty::Fn(p2, r2)) => {
                assert forall|i: int| 0 <= i < p1@.len() implies eqk(q, #[trigger] p1@[i], p2@[i], k) by {
                    lemma_eqk_bind(p, v, c, p1@[i], p2@[i], (k - 1) as nat);
                }
                lemma_eqk_bind(p, v, c, *r1, *r2, (k - 1) as nat);
            },
            _ => {},
        }
    }
}

/// Binding an unbound variable to a settled type keeps the store's meaning.
pub proof fn lemma_keeps_bind(p: Seq<Option<Ty>>, v: u32, c: Ty)
    requires (v as int) < p.len(), p[v as int] is None, settled(p, c), c != Ty::Var(v),
    ensures keeps_store(p, p.update(v as int, Some(c))),
{
    let q = p.update(v as int, Some(c));
    assert forall|a: Ty, b: Ty| #[trigger] unified(p, a, b) implies unified(q, a, b) by {
        let k = choose|k: nat| #[trigger] eqk(p, a, b, k);
        lemma_eqk_bind(p, v, c, a, b, k);
        assert(eqk(q, a, b, k + 1));
    }
    assert forall|t: Ty, k: nat| #![trigger head(p, t, k)] head(p, t, k) is Some && !(head(p, t, k)->Some_0 is Var) implies head(q, t, k) == head(p, t, k) by {
        lemma_head_bind(p, v, c, t, k);
    }
}

/// The store makes the pairs of `xs` and `ys` equal, looking `k` steps deep.
pub open spec fn all_eqk(p: Seq<Option<Ty>>, xs: Seq<Ty>, ys: Seq<Ty>, k: nat) -> bool {
    forall|i: int| 0 <= i < xs.len() ==> #[trigger] eqk(p, xs[i], ys[i], k)
}

/// Equalities of finitely many pairs hold at one common depth.
pub proof fn lemma_common_depth(p: Seq<Option<Ty>>, xs: Seq<Ty>, ys: Seq<Ty>)
    requires xs.len() == ys.len(), forall|i: int| 0 <= i < xs.len() ==> #[trigger] unified(p, xs[i], ys[i]),
    ensures exists|k: nat| #[trigger] all_eqk(p, xs, ys, k),
    decreases xs.len(),
{
    if xs.len() == 0 {
        assert(all_eqk(p, xs, ys, 0));
    } else {
        let n = (xs.len() - 1) as int;
        assert forall|i: int| 0 <= i < xs.drop_last().len() implies #[trigger] unified(p, xs.drop_last()[i], ys.drop_last()[i]) by {
            assert(unified(p, xs[i], ys[i]));
        }
        lemma_common_depth(p, xs.drop_last(), ys.drop_last());
        let k1 = choose|k: nat| #[trigger] all_eqk(p, xs.drop_last(), ys.drop_last(), k);
        assert(unified(p, xs[n], ys[n]));
        let k2 = choose|k: nat| #[trigger] eqk(p, xs[n], ys[n], k);
        let k = if k1 < k2 { k2 } else { k1 };
        assert forall|i: int| 0 <= i < xs.len() implies #[trigger] eqk(p, xs[i], ys[i], k) by {
            if i < n {
                assert(eqk(p, xs.drop_last()[i], ys.drop_last()[i], k1));
                lemma_eqk_mono(p, xs[i], ys[i], k1, k);
            } else {
                lemma_eqk_mono(p, xs[i], ys[i], k2, k);
            }
        }
        assert(all_eqk(p, xs, ys, k));
    }
}

} // verus!
