//! Two resolvers for `let` statements that differ in one ordering decision: whether a name
//! is declared before or after its initializer is resolved. Only the second gives
//! `let x = x + 1` its usual meaning (the new `x` is computed from the old one).

use vstd::prelude::*;

verus! {

pub enum E {
    Num(i64),
    Var(&'static str),
    Add(Box<E>, Box<E>),
}

pub struct Let {
    pub name: &'static str,
    pub init: E,
}

/// Resolved form: variables become slot numbers.
#[derive(Debug)]
pub enum R {
    Num(i64),
    Slot(usize),
    Add(Box<R>, Box<R>),
}

/// The slot of the innermost (latest) binding of a name.
pub open spec fn find_slot(scope: Seq<(&'static str, usize)>, v: Seq<char>) -> Option<usize>
    decreases scope.len(),
{
    if scope.len() == 0 { None } else if scope.last().0@ == v { Some(scope.last().1) } else { find_slot(scope.drop_last(), v) }
}

pub open spec fn bound(e: E, scope: Seq<(&'static str, usize)>) -> bool
    decreases e,
{
    match e {
        E::Num(_) => true,
        E::Var(v) => find_slot(scope, v@) is Some,
        E::Add(a, b) => bound(*a, scope) && bound(*b, scope),
    }
}

pub open spec fn resolved(e: E, scope: Seq<(&'static str, usize)>) -> R
    decreases e,
{
    match e {
        E::Num(n) => R::Num(n),
        E::Var(v) => R::Slot(find_slot(scope, v@).unwrap()),
        E::Add(a, b) => R::Add(Box::new(resolved(*a, scope)), Box::new(resolved(*b, scope))),
    }
}

fn lookup(scope: &[(&'static str, usize)], v: &'static str) -> (r: Option<usize>)
    ensures r == find_slot(scope@, v@),
{
    let target = String::from_str(v);
    let mut i: usize = scope.len();
    assert(scope@.subrange(0, scope@.len() as int) =~= scope@);
    while i > 0
        invariant i <= scope@.len(), target@ == v@, find_slot(scope@, v@) == find_slot(scope@.subrange(0, i as int), v@),
        decreases i,
    {
        assert(scope@.subrange(0, i as int).drop_last() =~= scope@.subrange(0, i - 1));
        if String::from_str(scope[i - 1].0) == target {
            return Some(scope[i - 1].1);
        }
        i -= 1;
    }
    assert(scope@.subrange(0, 0) =~= Seq::<(&'static str, usize)>::empty());
    None
}

/// Variables become the slot of their innermost binding.
pub fn resolve_expr(e: &E, scope: &[(&'static str, usize)]) -> (r: R)
    requires bound(*e, scope@),
    ensures r == resolved(*e, scope@),
    decreases e,
{
    match e {
        E::Num(n) => R::Num(*n),
        E::Var(v) => R::Slot(lookup(scope, *v).unwrap()),
        E::Add(a, b) => R::Add(Box::new(resolve_expr(a, scope)), Box::new(resolve_expr(b, scope))),
    }
}

/// The scope while statement `k` is resolved: the earlier names, and the name of `k` itself
/// when it is declared before its initializer.
pub open spec fn scope_at(prog: Seq<Let>, k: int, declare_before_init: bool) -> Seq<(&'static str, usize)> {
    let earlier = Seq::new(k as nat, |i: int| (prog[i].name, i as usize));
    if declare_before_init { earlier.push((prog[k].name, k as usize)) } else { earlier }
}

/// Every initializer's names are bound in the scope it is resolved in.
pub open spec fn prog_bound(prog: Seq<Let>, declare_before_init: bool) -> bool {
    forall|k: int| 0 <= k < prog.len() ==> bound(#[trigger] prog[k].init, scope_at(prog, k, declare_before_init))
}

/// Each statement's slot (its index) and its resolved initializer.
pub fn resolve(prog: &[Let], declare_before_init: bool) -> (out: Vec<(usize, R)>)
    requires prog_bound(prog@, declare_before_init),
    ensures
        out@.len() == prog@.len(),
        forall|k: int| 0 <= k < prog@.len() ==> (#[trigger] out@[k]).0 == k
            && out@[k].1 == resolved(prog@[k].init, scope_at(prog@, k, declare_before_init)),
{
    let mut scope: Vec<(&'static str, usize)> = Vec::new();
    let mut out: Vec<(usize, R)> = Vec::new();
    let mut slot: usize = 0;
    while slot < prog.len()
        invariant
            slot <= prog@.len(), out@.len() == slot, prog_bound(prog@, declare_before_init),
            scope@ == Seq::new(slot as nat, |i: int| (prog@[i].name, i as usize)),
            forall|k: int| 0 <= k < slot ==> (#[trigger] out@[k]).0 == k
                && out@[k].1 == resolved(prog@[k].init, scope_at(prog@, k, declare_before_init)),
        decreases prog@.len() - slot,
    {
        let l = &prog[slot];
        assert(bound(prog@[slot as int].init, scope_at(prog@, slot as int, declare_before_init)));
        if declare_before_init {
            scope.push((l.name, slot));
            assert(scope@ == scope_at(prog@, slot as int, declare_before_init));
            out.push((slot, resolve_expr(&l.init, scope.as_slice())));
        } else {
            assert(scope@ == scope_at(prog@, slot as int, declare_before_init));
            out.push((slot, resolve_expr(&l.init, scope.as_slice())));
            scope.push((l.name, slot));
        }
        assert(scope@ =~= Seq::new((slot + 1) as nat, |i: int| (prog@[i].name, i as usize)));
        slot += 1;
    }
    out
}

/// The value of a resolved expression over the slots, as an integer.
pub open spec fn value(r: R, slots: Seq<i64>) -> int
    decreases r,
{
    match r {
        R::Num(n) => n as int,
        R::Slot(s) => slots[s as int] as int,
        R::Add(a, b) => value(*a, slots) + value(*b, slots),
    }
}

/// Slots exist and no partial sum overflows `i64`.
pub open spec fn eval_ok(r: R, slots: Seq<i64>) -> bool
    decreases r,
{
    match r {
        R::Num(_) => true,
        R::Slot(s) => s < slots.len(),
        R::Add(a, b) => eval_ok(*a, slots) && eval_ok(*b, slots)
            && i64::MIN <= value(*a, slots) + value(*b, slots) <= i64::MAX,
    }
}

pub fn eval(r: &R, slots: &[i64]) -> (v: i64)
    requires eval_ok(*r, slots@),
    ensures v == value(*r, slots@),
    decreases r,
{
    match r {
        R::Num(n) => *n,
        R::Slot(s) => slots[*s],
        R::Add(a, b) => eval(a, slots) + eval(b, slots),
    }
}

} // verus!
