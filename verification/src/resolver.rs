//! Name resolution for Ore, in two passes: collect every function (so calls may precede
//! definitions), then resolve each body with lexical scopes. Values and types live in
//! separate namespaces. Uses are recorded in side tables keyed by source position, and every
//! problem becomes a diagnostic, with a "did you mean" suggestion where a name is close.

use vstd::prelude::*;
use vstd::string::{StringExecFns, StringSliceAdditionalSpecFns};
use crate::ore::{Block, Expr, ExprKind, FnDecl, Span, Stmt};
use crate::text::{ascii_chars, decimal, decimal_string};
use vstd::utf8::{is_char_boundary, encode_utf8};

verus! {

#[derive(Debug, Clone, Copy, PartialEq, Eq, Structural)]
pub enum Prim { Int, Bool }

/// What a name refers to.
#[derive(Debug, Clone, Copy, PartialEq, Eq, Structural)]
pub enum Res { Local(u32), Fn(u32) }

pub struct LocalInfo {
    pub name: String,
    pub mutable: bool,
    pub decl: Span,
}

pub struct Diag {
    pub span: Span,
    pub msg: String,
    pub help: Option<String>,
}

// ---------------- suggestions ----------------

/// Edit distance (insertions, deletions, substitutions) between `a[..i]` and `b[..j]`.
pub open spec fn lev(a: Seq<char>, b: Seq<char>, i: int, j: int) -> nat
    decreases i + j,
{
    if i <= 0 {
        if j <= 0 { 0 } else { j as nat }
    } else if j <= 0 {
        i as nat
    } else {
        let sub = lev(a, b, i - 1, j - 1) + if a[i - 1] == b[j - 1] { 0nat } else { 1nat };
        let del = lev(a, b, i - 1, j) + 1;
        let ins = lev(a, b, i, j - 1) + 1;
        if sub <= del && sub <= ins { sub } else if del <= ins { del } else { ins }
    }
}

pub open spec fn distance(a: Seq<char>, b: Seq<char>) -> nat {
    lev(a, b, a.len() as int, b.len() as int)
}

fn chars_of(s: &str) -> (v: Vec<char>)
    ensures v@ == s@,
{
    let n = s.unicode_len();
    let mut v: Vec<char> = Vec::new();
    let mut i: usize = 0;
    while i < n
        invariant i <= n, n == s@.len(), v@ == s@.subrange(0, i as int),
        decreases n - i,
    {
        v.push(s.get_char(i));
        i += 1;
        assert(v@ =~= s@.subrange(0, i as int));
    }
    assert(s@.subrange(0, n as int) =~= s@);
    v
}

/// Levenshtein distance between two strings, by characters, one row of the table at a time.
pub fn edit_distance(a: &str, b: &str) -> (d: usize)
    requires a@.len() + b@.len() < usize::MAX,
    ensures d == distance(a@, b@),
{
    let a = chars_of(a);
    let b = chars_of(b);
    let m = b.len();
    let mut prev: Vec<usize> = Vec::new();
    let mut j: usize = 0;
    while j <= m
        invariant j <= m + 1, m == b@.len(), a@.len() + m < usize::MAX, prev@.len() == j,
            forall|k: int| 0 <= k < j ==> #[trigger] prev@[k] == lev(a@, b@, 0, k),
        decreases m + 1 - j,
    {
        prev.push(j);
        j += 1;
    }
    let mut i: usize = 0;
    while i < a.len()
        invariant
            i <= a@.len(), m == b@.len(), a@.len() + m < usize::MAX, prev@.len() == m + 1,
            forall|k: int| 0 <= k <= m ==> #[trigger] prev@[k] == lev(a@, b@, i as int, k),
            forall|k: int| 0 <= k <= m ==> prev@[k] <= i + k,
        decreases a@.len() - i,
    {
        let mut cur: Vec<usize> = Vec::new();
        cur.push(i + 1);
        let mut k: usize = 0;
        while k < m
            invariant
                i < a@.len(), m == b@.len(), a@.len() + m < usize::MAX, prev@.len() == m + 1, k <= m,
                cur@.len() == k + 1,
                forall|q: int| 0 <= q <= m ==> #[trigger] prev@[q] == lev(a@, b@, i as int, q),
                forall|q: int| 0 <= q <= m ==> prev@[q] <= i + q,
                forall|q: int| 0 <= q <= k ==> #[trigger] cur@[q] == lev(a@, b@, i + 1, q),
                forall|q: int| 0 <= q <= k ==> cur@[q] <= i + 1 + q,
            decreases m - k,
        {
            let sub = prev[k] + if a[i] == b[k] { 0 } else { 1 };
            let del = prev[k + 1] + 1;
            let ins = cur[k] + 1;
            let best = if sub <= del && sub <= ins { sub } else if del <= ins { del } else { ins };
            assert(best == lev(a@, b@, i + 1, k + 1));
            cur.push(best);
            k += 1;
        }
        prev = cur;
        i += 1;
    }
    prev[m]
}

/// `a` comes strictly before `b` in string order (by characters, a prefix first).
pub open spec fn str_lt(a: Seq<char>, b: Seq<char>) -> bool
    decreases a.len(),
{
    if a.len() == 0 {
        b.len() > 0
    } else if b.len() == 0 {
        false
    } else if a[0] != b[0] {
        a[0] < b[0]
    } else {
        str_lt(a.subrange(1, a.len() as int), b.subrange(1, b.len() as int))
    }
}

proof fn lemma_str_lt_trans(a: Seq<char>, b: Seq<char>, c: Seq<char>)
    requires str_lt(a, b), str_lt(b, c),
    ensures str_lt(a, c),
    decreases a.len(),
{
    if a.len() > 0 && b.len() > 0 && c.len() > 0 && a[0] == b[0] && b[0] == c[0] {
        lemma_str_lt_trans(a.subrange(1, a.len() as int), b.subrange(1, b.len() as int), c.subrange(1, c.len() as int));
    }
}

proof fn lemma_str_lt_total(a: Seq<char>, b: Seq<char>)
    ensures str_lt(a, b) || str_lt(b, a) || a == b,
    decreases a.len(),
{
    if a.len() > 0 && b.len() > 0 && a[0] == b[0] {
        let (a1, b1) = (a.subrange(1, a.len() as int), b.subrange(1, b.len() as int));
        lemma_str_lt_total(a1, b1);
        if a1 == b1 {
            assert(a =~= seq![a[0]] + a1);
            assert(b =~= seq![b[0]] + b1);
        }
    } else if a.len() > 0 && b.len() > 0 {
        assert(a[0] < b[0] || b[0] < a[0]);
    } else if a.len() == 0 && b.len() == 0 {
        assert(a =~= b);
    }
}

proof fn lemma_str_lt_irrefl(a: Seq<char>)
    ensures !str_lt(a, a),
    decreases a.len(),
{
    if a.len() > 0 {
        lemma_str_lt_irrefl(a.subrange(1, a.len() as int));
    }
}

fn str_less(a: &str, b: &str) -> (r: bool)
    ensures r == str_lt(a@, b@),
{
    let x = chars_of(a);
    let y = chars_of(b);
    let mut i: usize = 0;
    assert(x@.subrange(0, x@.len() as int) =~= x@);
    assert(y@.subrange(0, y@.len() as int) =~= y@);
    while i < x.len() && i < y.len() && x[i] == y[i]
        invariant
            i <= x@.len(), i <= y@.len(),
            str_lt(x@, y@) == str_lt(x@.subrange(i as int, x@.len() as int), y@.subrange(i as int, y@.len() as int)),
        decreases x@.len() - i,
    {
        let ghost xs = x@.subrange(i as int, x@.len() as int);
        let ghost ys = y@.subrange(i as int, y@.len() as int);
        assert(xs.subrange(1, xs.len() as int) =~= x@.subrange(i + 1, x@.len() as int));
        assert(ys.subrange(1, ys.len() as int) =~= y@.subrange(i + 1, y@.len() as int));
        i += 1;
    }
    let ghost xs = x@.subrange(i as int, x@.len() as int);
    let ghost ys = y@.subrange(i as int, y@.len() as int);
    if i == x.len() {
        i < y.len()
    } else if i == y.len() {
        false
    } else {
        assert(xs[0] == x@[i as int] && ys[0] == y@[i as int]);
        x[i] < y[i]
    }
}

/// `(d, c)` is the smaller of two (distance, candidate) pairs, as tuples compare.
pub open spec fn pair_lt(d1: nat, c1: Seq<char>, d2: nat, c2: Seq<char>) -> bool {
    d1 < d2 || (d1 == d2 && str_lt(c1, c2))
}

/// How far a suggestion may be: a third of the name's length in bytes, at least 1.
pub open spec fn limit_of(name: &str) -> nat {
    (if name.spec_bytes().len() > 3 { name.spec_bytes().len() } else { 3 }) / 3
}

/// The closest candidate within a length-scaled distance, ties broken by string order; `None`
/// when none is close enough.
pub fn best_match<'c>(name: &str, candidates: &[&'c str]) -> (r: Option<&'c str>)
    requires forall|k: int| 0 <= k < candidates@.len() ==> name@.len() + (#[trigger] candidates@[k])@.len() < usize::MAX,
    ensures
        r is None <==> forall|k: int| 0 <= k < candidates@.len() ==> distance(name@, (#[trigger] candidates@[k])@) > limit_of(name),
        r matches Some(c) ==> (exists|k: int| 0 <= k < candidates@.len() && #[trigger] candidates@[k] == c)
            && distance(name@, c@) <= limit_of(name)
            && forall|k: int| 0 <= k < candidates@.len() && distance(name@, (#[trigger] candidates@[k])@) <= limit_of(name)
                ==> candidates@[k]@ == c@ || pair_lt(distance(name@, c@), c@, distance(name@, candidates@[k]@), candidates@[k]@),
{
    let len = name.as_bytes().len();
    let limit = (if len > 3 { len } else { 3 }) / 3;
    let mut best: Option<(usize, &'c str)> = None;
    let mut k: usize = 0;
    while k < candidates.len()
        invariant
            k <= candidates@.len(), limit == limit_of(name),
            forall|q: int| 0 <= q < candidates@.len() ==> name@.len() + (#[trigger] candidates@[q])@.len() < usize::MAX,
            best is None <==> forall|q: int| 0 <= q < k ==> distance(name@, (#[trigger] candidates@[q])@) > limit,
            best matches Some((d, c)) ==> d == distance(name@, c@) && d <= limit
                && (exists|q: int| 0 <= q < k && #[trigger] candidates@[q] == c)
                && forall|q: int| 0 <= q < k && distance(name@, (#[trigger] candidates@[q])@) <= limit
                    ==> candidates@[q]@ == c@ || pair_lt(d as nat, c@, distance(name@, candidates@[q]@), candidates@[q]@),
        decreases candidates@.len() - k,
    {
        let c = candidates[k];
        let d = edit_distance(name, c);
        if d <= limit {
            let better = match best {
                None => true,
                Some((bd, bc)) => d < bd || (d == bd && str_less(c, bc)),
            };
            if better {
                proof {
                    if best is Some {
                        let (bd, bc) = best->Some_0;
                        assert forall|q: int| 0 <= q < k + 1 && distance(name@, (#[trigger] candidates@[q])@) <= limit
                            implies candidates@[q]@ == c@ || pair_lt(d as nat, c@, distance(name@, candidates@[q]@), candidates@[q]@) by {
                            if q < k && candidates@[q]@ != bc@ {
                                let dq = distance(name@, candidates@[q]@);
                                if d == bd && dq == bd {
                                    lemma_str_lt_trans(c@, bc@, candidates@[q]@);
                                }
                            }
                        }
                    }
                    assert(candidates@[k as int] == c);
                }
                best = Some((d, c));
            } else {
                proof {
                    let (bd, bc) = best->Some_0;
                    lemma_str_lt_total(c@, bc@);
                    assert forall|q: int| 0 <= q < k + 1 && distance(name@, (#[trigger] candidates@[q])@) <= limit
                        implies candidates@[q]@ == bc@ || pair_lt(bd as nat, bc@, distance(name@, candidates@[q]@), candidates@[q]@) by {
                        if q == k {
                            assert(candidates@[q] == c);
                        }
                    }
                }
            }
        }
        k += 1;
    }
    match best {
        Some((_, c)) => Some(c),
        None => None,
    }
}

// ---------------- positions ----------------

/// The number of line feeds in `b[..n]`.
pub open spec fn newlines(b: Seq<u8>, n: int) -> nat
    decreases n,
{
    if n <= 0 || n > b.len() { 0 } else { newlines(b, n - 1) + if b[n - 1] == 10 { 1nat } else { 0nat } }
}

/// Where the line holding position `n` starts: just after the last line feed before `n`.
pub open spec fn line_start(b: Seq<u8>, n: int) -> int
    decreases n,
{
    if n <= 0 || n > b.len() { 0 } else if b[n - 1] == 10 { n } else { line_start(b, n - 1) }
}

/// The 1-based line and column (in bytes) of a byte position.
pub fn line_col(src: &str, pos: u32) -> (lc: (usize, usize))
    requires pos <= src.spec_bytes().len(), is_char_boundary(src.spec_bytes(), pos as int), pos < u32::MAX,
    ensures
        lc.0 == newlines(src.spec_bytes(), pos as int) + 1,
        lc.1 == pos - line_start(src.spec_bytes(), pos as int) + 1,
{
    let b = src.as_bytes();
    let p = pos as usize;
    let mut lines: usize = 1;
    let mut start: usize = 0;
    let mut i: usize = 0;
    while i < p
        invariant
            i <= p, p <= b@.len(), p == pos, pos < u32::MAX,
            lines == newlines(b@, i as int) + 1, lines <= i + 1,
            start == line_start(b@, i as int), start <= i,
        decreases p - i,
    {
        if b[i] == 10 {
            lines += 1;
            start = i + 1;
        }
        i += 1;
    }
    (lines, p - start + 1)
}

/// The first occurrence of `pat` in `b` at or after `from`.
pub open spec fn occurs_at(b: Seq<u8>, pat: Seq<u8>, i: int) -> bool {
    0 <= i && i + pat.len() <= b.len() && b.subrange(i, i + pat.len()) == pat
}

/// `str::find` from a position: the first place at or after `from` where `pat` occurs.
pub fn find_from(b: &[u8], from: usize, pat: &[u8]) -> (r: Option<usize>)
    ensures
        r matches Some(i) ==> from <= i && occurs_at(b@, pat@, i as int)
            && forall|j: int| from <= j < i ==> !occurs_at(b@, pat@, j),
        r is None ==> forall|j: int| from <= j ==> !occurs_at(b@, pat@, j),
{
    let n = b.len();
    let m = pat.len();
    if m > n || from > n - m {
        proof {
            assert forall|j: int| from <= j implies !occurs_at(b@, pat@, j) by {}
        }
        return None;
    }
    if m == 0 {
        assert(b@.subrange(from as int, from as int) =~= pat@);
        return Some(from);
    }
    let mut i: usize = from;
    while i <= n - m
        invariant
            n == b@.len(), m == pat@.len(), 1 <= m <= n, from <= i, i <= n - m + 1,
            forall|j: int| from <= j < i ==> !occurs_at(b@, pat@, j),
        decreases n - m + 1 - i,
    {
        if crate::bytes::span_is(b, i, i + m, pat) {
            return Some(i);
        }
        i += 1;
    }
    proof {
        assert forall|j: int| from <= j implies !occurs_at(b@, pat@, j) by {
            if j >= i {
                assert(j + m > n);
            }
        }
    }
    None
}

// ---------------- the resolver ----------------

/// Functions are visible everywhere in the module; locals are in scopes, innermost last.
/// The side tables map the start of each value use to what it names and the start of each
/// type annotation to its type.
pub struct Resolver<'a> {
    fns: Vec<(&'a str, u32, Span)>,
    scopes: Vec<Vec<(String, u32)>>,
    locals: Vec<LocalInfo>,
    res: Vec<(u32, Res)>,
    types: Vec<(u32, Prim)>,
    diags: Vec<Diag>,
}

/// The binding of a name in one scope: the last one wins, as a map's `insert` does.
pub open spec fn scope_get(sc: Seq<(Seq<char>, u32)>, name: Seq<char>) -> Option<u32>
    decreases sc.len(),
{
    if sc.len() == 0 { None } else if sc.last().0 == name { Some(sc.last().1) } else { scope_get(sc.drop_last(), name) }
}

/// The innermost local binding of a name.
pub open spec fn scopes_get(scs: Seq<Seq<(Seq<char>, u32)>>, name: Seq<char>) -> Option<u32>
    decreases scs.len(),
{
    if scs.len() == 0 {
        None
    } else {
        match scope_get(scs.last(), name) {
            Some(id) => Some(id),
            None => scopes_get(scs.drop_last(), name),
        }
    }
}

/// The function of that name (each name is registered once, first definition first).
pub open spec fn fn_get(fs: Seq<(Seq<char>, u32, Span)>, name: Seq<char>) -> Option<(u32, Span)>
    decreases fs.len(),
{
    if fs.len() == 0 {
        None
    } else {
        match fn_get(fs.drop_last(), name) {
            Some(x) => Some(x),
            None => if fs.last().0 == name { Some((fs.last().1, fs.last().2)) } else { None },
        }
    }
}

/// What a name refers to: a local if one is in scope, otherwise a function.
pub open spec fn lookup_spec(scs: Seq<Seq<(Seq<char>, u32)>>, fs: Seq<(Seq<char>, u32, Span)>, name: Seq<char>) -> Option<Res> {
    match scopes_get(scs, name) {
        Some(id) => Some(Res::Local(id)),
        None => match fn_get(fs, name) {
            Some((id, _)) => Some(Res::Fn(id)),
            None => None,
        },
    }
}

pub open spec fn scope_view(v: Seq<(String, u32)>) -> Seq<(Seq<char>, u32)> {
    v.map_values(|e: (String, u32)| (e.0@, e.1))
}

impl<'a> Resolver<'a> {
    pub closed spec fn scopes_view(&self) -> Seq<Seq<(Seq<char>, u32)>> {
        self.scopes@.map_values(|v: Vec<(String, u32)>| scope_view(v@))
    }

    pub closed spec fn fns_view(&self) -> Seq<(Seq<char>, u32, Span)> {
        self.fns@.map_values(|e: (&'a str, u32, Span)| (e.0@, e.1, e.2))
    }

    pub closed spec fn locals_view(&self) -> Seq<(Seq<char>, bool, Span)> {
        self.locals@.map_values(|l: LocalInfo| (l.name@, l.mutable, l.decl))
    }

    pub closed spec fn res_view(&self) -> Seq<(u32, Res)> {
        self.res@
    }

    pub closed spec fn types_view(&self) -> Seq<(u32, Prim)> {
        self.types@
    }

    pub closed spec fn diags_view(&self) -> Seq<(Span, Seq<char>, Option<Seq<char>>)> {
        self.diags@.map_values(|d: Diag| (d.span, d.msg@, match d.help { Some(h) => Some(h@), None => None }))
    }

    /// Everything recorded so far is kept: tables and diagnostics only grow.
    pub open spec fn kept(&self, old: &Resolver<'a>) -> bool {
        &&& old.locals_view().len() <= self.locals_view().len()
        &&& self.locals_view().subrange(0, old.locals_view().len() as int) == old.locals_view()
        &&& old.res_view().len() <= self.res_view().len()
        &&& self.res_view().subrange(0, old.res_view().len() as int) == old.res_view()
        &&& old.types_view().len() <= self.types_view().len()
        &&& self.types_view().subrange(0, old.types_view().len() as int) == old.types_view()
        &&& old.diags_view().len() <= self.diags_view().len()
        &&& self.diags_view().subrange(0, old.diags_view().len() as int) == old.diags_view()
        &&& self.fns_view() == old.fns_view()
    }

    pub fn new() -> (r: Self)
        ensures
            r.scopes_view().len() == 0, r.fns_view().len() == 0, r.locals_view().len() == 0,
            r.res_view().len() == 0, r.types_view().len() == 0, r.diags_view().len() == 0,
    {
        Resolver { fns: Vec::new(), scopes: Vec::new(), locals: Vec::new(), res: Vec::new(), types: Vec::new(), diags: Vec::new() }
    }

    fn error(&mut self, span: Span, msg: String, help: Option<String>)
        ensures
            final(self).diags_view() == old(self).diags_view().push((span, msg@, match help { Some(h) => Some(h@), None => None })),
            final(self).scopes_view() == old(self).scopes_view(),
            final(self).kept(old(self)),
            final(self).types_view() == old(self).types_view(),
            final(self).res_view() == old(self).res_view(),
            final(self).locals_view() == old(self).locals_view(),
    {
        self.diags.push(Diag { span, msg, help });
        proof {
            assert(self.diags_view() =~= old(self).diags_view().push((span, msg@, match help { Some(h) => Some(h@), None => None })));
            assert(self.locals_view().subrange(0, old(self).locals_view().len() as int) =~= old(self).locals_view());
            assert(self.res_view().subrange(0, old(self).res_view().len() as int) =~= old(self).res_view());
            assert(self.types_view().subrange(0, old(self).types_view().len() as int) =~= old(self).types_view());
            assert(self.diags_view().subrange(0, old(self).diags_view().len() as int) =~= old(self).diags_view());
        }
    }

    /// The diagnostics, in the order they were found.
    pub fn diags(&self) -> (d: &Vec<Diag>)
        ensures d@.map_values(|d: Diag| (d.span, d.msg@, match d.help { Some(h) => Some(h@), None => None })) == self.diags_view(),
    {
        &self.diags
    }

    /// The value uses resolved, by source position (a later entry for a position replaces an
    /// earlier one).
    pub fn resolutions(&self) -> (r: &Vec<(u32, Res)>)
        ensures r@ == self.res_view(),
    {
        &self.res
    }

    pub fn num_types(&self) -> (n: usize)
        ensures n == self.types_view().len(),
    {
        self.types.len()
    }

    pub fn locals(&self) -> (l: &Vec<LocalInfo>)
        ensures l@.map_values(|l: LocalInfo| (l.name@, l.mutable, l.decl)) == self.locals_view(),
    {
        &self.locals
    }
}

impl<'a> Resolver<'a> {
    proof fn lemma_kept_refl(&self)
        ensures self.kept(self),
    {
        assert(self.locals_view().subrange(0, self.locals_view().len() as int) =~= self.locals_view());
        assert(self.res_view().subrange(0, self.res_view().len() as int) =~= self.res_view());
        assert(self.types_view().subrange(0, self.types_view().len() as int) =~= self.types_view());
        assert(self.diags_view().subrange(0, self.diags_view().len() as int) =~= self.diags_view());
    }

    proof fn lemma_kept_trans(a: &Resolver<'a>, b: &Resolver<'a>, c: &Resolver<'a>)
        requires b.kept(a), c.kept(b),
        ensures c.kept(a),
    {
        assert(c.locals_view().subrange(0, a.locals_view().len() as int) =~= b.locals_view().subrange(0, a.locals_view().len() as int));
        assert(c.res_view().subrange(0, a.res_view().len() as int) =~= b.res_view().subrange(0, a.res_view().len() as int));
        assert(c.types_view().subrange(0, a.types_view().len() as int) =~= b.types_view().subrange(0, a.types_view().len() as int));
        assert(c.diags_view().subrange(0, a.diags_view().len() as int) =~= b.diags_view().subrange(0, a.diags_view().len() as int));
    }

    /// The type a type name denotes is recorded at its position; any other name is an error,
    /// with a suggestion among `int` and `bool` when one is close.
    fn resolve_type(&mut self, name: &str, span: Span)
        ensures
            final(self).kept(old(self)), final(self).scopes_view() == old(self).scopes_view(),
            final(self).locals_view() == old(self).locals_view(),
            name@ == "int"@ ==> final(self).types_view() == old(self).types_view().push((span.lo, Prim::Int))
                && final(self).diags_view() == old(self).diags_view(),
            name@ == "bool"@ ==> final(self).types_view() == old(self).types_view().push((span.lo, Prim::Bool))
                && final(self).diags_view() == old(self).diags_view(),
            name@ != "int"@ && name@ != "bool"@ ==> final(self).types_view() == old(self).types_view()
                && final(self).diags_view().len() == old(self).diags_view().len() + 1
                && final(self).diags_view().last().0 == span
                && final(self).diags_view().last().1 == "cannot find type `"@ + name@ + "` in this scope"@,
    {
        proof {
            reveal_strlit("int");
            reveal_strlit("bool");
            assert("int"@.len() == 3 && "bool"@.len() == 4);
            assert("bool"@ != "int"@);
        }
        let n = String::from_str(name);
        if n == String::from_str("int") {
            self.types.push((span.lo, Prim::Int));
            proof {
                assert(self.types_view().subrange(0, old(self).types_view().len() as int) =~= old(self).types_view());
                self.lemma_kept_same_but_types(old(self));
            }
        } else if n == String::from_str("bool") {
            self.types.push((span.lo, Prim::Bool));
            proof {
                assert(self.types_view().subrange(0, old(self).types_view().len() as int) =~= old(self).types_view());
                self.lemma_kept_same_but_types(old(self));
            }
        } else {
            let cands: [&str; 2] = ["int", "bool"];
            let fits = name.unicode_len() < usize::MAX - 8;
            proof { reveal_strlit("int"); reveal_strlit("bool"); }
            let help = if fits {
                match best_match(name, &cands) {
                    Some(m) => {
                        let mut h = String::from_str("a type with a similar name exists: `");
                        h.append(m);
                        h.append("`");
                        Some(h)
                    },
                    None => None,
                }
            } else {
                None
            };
            let mut msg = String::from_str("cannot find type `");
            msg.append(name);
            msg.append("` in this scope");
            self.error(span, msg, help);
        }
    }

    proof fn lemma_kept_same_but_types(&self, old: &Resolver<'a>)
        requires
            self.locals == old.locals, self.res == old.res, self.diags == old.diags, self.fns == old.fns,
            old.types_view().len() <= self.types_view().len(),
            self.types_view().subrange(0, old.types_view().len() as int) == old.types_view(),
        ensures self.kept(old),
    {
        old.lemma_kept_refl();
    }

    /// A new local, visible in the innermost scope.
    fn declare(&mut self, name: &str, mutable: bool, decl: Span)
        requires old(self).scopes_view().len() >= 1,
        ensures
            final(self).kept(old(self)),
            final(self).locals_view() == old(self).locals_view().push((name@, mutable, decl)),
            final(self).scopes_view() == old(self).scopes_view().update(old(self).scopes_view().len() - 1,
                old(self).scopes_view().last().push((name@, old(self).locals_view().len() as u32))),
    {
        let id = self.locals.len() as u32;
        self.locals.push(LocalInfo { name: String::from_str(name), mutable, decl });
        let last = self.scopes.len() - 1;
        let ghost sc0 = self.scopes@[last as int]@;
        self.scopes[last].push((String::from_str(name), id));
        proof {
            assert(self.locals_view() =~= old(self).locals_view().push((name@, mutable, decl)));
            assert(scope_view(self.scopes@[last as int]@) =~= scope_view(sc0).push((name@, id)));
            assert(self.scopes_view() =~= old(self).scopes_view().update(old(self).scopes_view().len() - 1,
                old(self).scopes_view().last().push((name@, old(self).locals_view().len() as u32))));
            assert(self.locals_view().subrange(0, old(self).locals_view().len() as int) =~= old(self).locals_view());
            assert(self.res_view().subrange(0, old(self).res_view().len() as int) =~= old(self).res_view());
            assert(self.types_view().subrange(0, old(self).types_view().len() as int) =~= old(self).types_view());
            assert(self.diags_view().subrange(0, old(self).diags_view().len() as int) =~= old(self).diags_view());
        }
    }

    /// What a name refers to: the innermost local, else a function.
    fn lookup(&self, name: &str) -> (r: Option<Res>)
        ensures r == lookup_spec(self.scopes_view(), self.fns_view(), name@),
    {
        let target = String::from_str(name);
        let ghost scs = self.scopes_view();
        let mut i: usize = self.scopes.len();
        assert(scs.subrange(0, scs.len() as int) =~= scs);
        while i > 0
            invariant
                i <= self.scopes@.len(), scs == self.scopes_view(), target@ == name@,
                scopes_get(scs, name@) == scopes_get(scs.subrange(0, i as int), name@),
            decreases i,
        {
            let sc = &self.scopes[i - 1];
            let ghost v = scope_view(sc@);
            assert(scs.subrange(0, i as int).last() == v);
            assert(scs.subrange(0, i as int).drop_last() =~= scs.subrange(0, i - 1));
            let mut j: usize = sc.len();
            assert(v.subrange(0, v.len() as int) =~= v);
            while j > 0
                invariant
                    j <= sc@.len(), v == scope_view(sc@), 0 < i <= self.scopes@.len(), target@ == name@,
                    scs == self.scopes_view(),
                    scopes_get(scs, name@) == scopes_get(scs.subrange(0, i as int), name@),
                    scs.subrange(0, i as int).last() == v,
                    scope_get(v, name@) == scope_get(v.subrange(0, j as int), name@),
                decreases j,
            {
                assert(v.subrange(0, j as int).drop_last() =~= v.subrange(0, j - 1));
                if sc[j - 1].0 == target {
                    return Some(Res::Local(sc[j - 1].1));
                }
                j -= 1;
            }
            assert(v.subrange(0, 0) =~= Seq::<(Seq<char>, u32)>::empty());
            i -= 1;
        }
        assert(scs.subrange(0, 0) =~= Seq::<Seq<(Seq<char>, u32)>>::empty());
        match self.fn_lookup(name) {
            Some((id, _)) => Some(Res::Fn(id)),
            None => None,
        }
    }

    fn fn_lookup(&self, name: &str) -> (r: Option<(u32, Span)>)
        ensures r == fn_get(self.fns_view(), name@),
    {
        let target = String::from_str(name);
        let ghost fs = self.fns_view();
        let mut i: usize = 0;
        while i < self.fns.len()
            invariant
                i <= self.fns@.len(), fs == self.fns_view(), target@ == name@,
                fn_get(fs.subrange(0, i as int), name@) is None,
            decreases self.fns@.len() - i,
        {
            assert(fs.subrange(0, i + 1).drop_last() =~= fs.subrange(0, i as int));
            let f = self.fns[i];
            if String::from_str(f.0) == target {
                proof { lemma_fn_get_prefix(fs, i as int + 1, name@); }
                return Some((f.1, f.2));
            }
            i += 1;
        }
        assert(fs.subrange(0, fs.len() as int) =~= fs);
        None
    }
}

/// A name found in a prefix is found in the whole list, with the same value.
proof fn lemma_fn_get_prefix(fs: Seq<(Seq<char>, u32, Span)>, k: int, name: Seq<char>)
    requires 0 <= k <= fs.len(), fn_get(fs.subrange(0, k), name) is Some,
    ensures fn_get(fs, name) == fn_get(fs.subrange(0, k), name),
    decreases fs.len() - k,
{
    if k < fs.len() {
        assert(fs.subrange(0, k + 1).drop_last() =~= fs.subrange(0, k));
        lemma_fn_get_prefix(fs, k + 1, name);
    } else {
        assert(fs.subrange(0, k) =~= fs);
    }
}

/// Where a function's name is: three bytes after the start of its declaration (`fn `).
pub open spec fn name_span(f: FnDecl) -> Span {
    Span { lo: (f.span.lo + 3) as u32, hi: (f.span.lo + 3 + encode_utf8(f.name@).len()) as u32 }
}

/// The module scope after registering `items[..n]`: a name defined again keeps its first
/// definition.
pub open spec fn collect_spec(fs: Seq<(Seq<char>, u32, Span)>, items: Seq<FnDecl>, n: int) -> Seq<(Seq<char>, u32, Span)>
    decreases n,
{
    if n <= 0 {
        fs
    } else {
        let acc = collect_spec(fs, items, n - 1);
        let f = items[n - 1];
        if fn_get(acc, f.name@) is Some { acc } else { acc.push((f.name@, (n - 1) as u32, name_span(f))) }
    }
}

/// The diagnostics registering `items[..n]` reports: one for each name defined again, at
/// its name, pointing at the line of the first definition.
pub open spec fn collect_diags(fs: Seq<(Seq<char>, u32, Span)>, items: Seq<FnDecl>, src: Seq<u8>, n: int)
    -> Seq<(Span, Seq<char>, Option<Seq<char>>)>
    decreases n,
{
    if n <= 0 {
        Seq::empty()
    } else {
        let ds = collect_diags(fs, items, src, n - 1);
        let f = items[n - 1];
        match fn_get(collect_spec(fs, items, n - 1), f.name@) {
            Some((_, prev)) => ds.push((
                name_span(f),
                "the name `"@ + f.name@ + "` is defined multiple times"@,
                Some("previous definition of `"@ + f.name@ + "` is on line "@
                    + ascii_chars(decimal((newlines(src, prev.lo as int) + 1) as nat))),
            )),
            None => ds,
        }
    }
}

/// Positions that diagnostics will print as lines: inside the source, on a character
/// boundary, and below `u32::MAX`.
pub open spec fn printable(src: &str, lo: u32) -> bool {
    lo <= src.spec_bytes().len() && is_char_boundary(src.spec_bytes(), lo as int) && lo < u32::MAX
}

/// Whether `collect_items` may register `items` of `src` in a fresh resolver: few enough
/// items, and each name's position (three bytes into its declaration, after `fn `) inside
/// the source, on a character boundary, with its end within `u32` offsets.
pub fn items_collectable(items: &[FnDecl], src: &str) -> (r: bool)
    ensures
        r == (items@.len() <= u32::MAX
            && forall|k: int| 0 <= k < items@.len() ==> (#[trigger] items@[k]).span.lo + 3 + encode_utf8(items@[k].name@).len() <= u32::MAX
                && printable(src, (items@[k].span.lo + 3) as u32)),
{
    if items.len() > u32::MAX as usize {
        return false;
    }
    let n = src.as_bytes().len();
    let mut k: usize = 0;
    while k < items.len()
        invariant
            k <= items@.len(), n == src.spec_bytes().len(),
            forall|j: int| 0 <= j < k ==> (#[trigger] items@[j]).span.lo + 3 + encode_utf8(items@[j].name@).len() <= u32::MAX
                && printable(src, (items@[j].span.lo + 3) as u32),
        decreases items@.len() - k,
    {
        let lo = items[k].span.lo as u64;
        let len = items[k].name.as_str().as_bytes().len() as u64;
        if len > u32::MAX as u64 || lo + 3 + len > u32::MAX as u64 {
            return false;
        }
        let pos = (lo + 3) as usize;
        if pos > n || !src.is_char_boundary(pos) || lo + 3 >= u32::MAX as u64 {
            return false;
        }
        k += 1;
    }
    true
}

impl<'a> Resolver<'a> {
    /// Pass 1: every function is visible in every body, so calls may precede definitions. A
    /// name defined twice is an error that points at the first definition's line.
    pub fn collect_items(&mut self, items: &'a [FnDecl], src: &str)
        requires
            items@.len() <= u32::MAX,
            forall|k: int| 0 <= k < old(self).fns_view().len() ==> printable(src, (#[trigger] old(self).fns_view()[k]).2.lo),
            forall|k: int| 0 <= k < items@.len() ==> (#[trigger] items@[k]).span.lo + 3 + encode_utf8(items@[k].name@).len() <= u32::MAX
                && printable(src, (items@[k].span.lo + 3) as u32),
        ensures
            final(self).fns_view() == collect_spec(old(self).fns_view(), items@, items@.len() as int),
            final(self).scopes_view() == old(self).scopes_view(),
            final(self).locals_view() == old(self).locals_view(),
            final(self).res_view() == old(self).res_view(),
            final(self).types_view() == old(self).types_view(),
            final(self).diags_view() == old(self).diags_view() + collect_diags(old(self).fns_view(), items@, src.spec_bytes(), items@.len() as int),
    {
        let mut i: usize = 0;
        let ghost d0 = self.diags_view();
        assert(d0 + collect_diags(old(self).fns_view(), items@, src.spec_bytes(), 0) =~= d0);
        while i < items.len()
            invariant
                i <= items@.len(), items@.len() <= u32::MAX,
                self.fns_view() == collect_spec(old(self).fns_view(), items@, i as int),
                forall|k: int| 0 <= k < self.fns_view().len() ==> printable(src, (#[trigger] self.fns_view()[k]).2.lo),
                forall|k: int| 0 <= k < items@.len() ==> (#[trigger] items@[k]).span.lo + 3 + encode_utf8(items@[k].name@).len() <= u32::MAX
                    && printable(src, (items@[k].span.lo + 3) as u32),
                self.scopes_view() == old(self).scopes_view(),
                self.locals_view() == old(self).locals_view(),
                self.res_view() == old(self).res_view(),
                self.types_view() == old(self).types_view(),
                d0 == old(self).diags_view(),
                self.diags_view() == d0 + collect_diags(old(self).fns_view(), items@, src.spec_bytes(), i as int),
            decreases items@.len() - i,
        {
            let f = &items[i];
            let nm = f.name.as_str();
            let len = nm.as_bytes().len();
            assert(items@[i as int].span.lo + 3 + len <= u32::MAX);
            let name_sp = Span { lo: f.span.lo + 3, hi: f.span.lo + 3 + len as u32 };
            match self.fn_lookup(nm) {
                Some((_, prev)) => {
                    proof {
                        let k = choose_index(self.fns_view(), f.name@);
                    }
                    let (line, _) = line_col(src, prev.lo);
                    let mut msg = String::from_str("the name `");
                    msg.append(nm);
                    msg.append("` is defined multiple times");
                    let mut help = String::from_str("previous definition of `");
                    help.append(nm);
                    help.append("` is on line ");
                    let ls = decimal_string(line as u64);
                    help.append(ls.as_str());
                    let ghost before = self.diags_view();
                    self.error(name_sp, msg, Some(help));
                    proof {
                        reveal_strlit("the name `");
                        reveal_strlit("` is defined multiple times");
                        reveal_strlit("previous definition of `");
                        reveal_strlit("` is on line ");
                        assert(name_sp == name_span(*f));
                        assert(self.diags_view() =~= d0 + collect_diags(old(self).fns_view(), items@, src.spec_bytes(), i + 1));
                    }
                },
                None => {
                    let ghost fs0 = self.fns_view();
                    self.fns.push((nm, i as u32, name_sp));
                    proof {
                        assert(self.fns_view() =~= fs0.push((f.name@, i as u32, name_span(*f))));
                        assert(collect_diags(old(self).fns_view(), items@, src.spec_bytes(), i + 1)
                            == collect_diags(old(self).fns_view(), items@, src.spec_bytes(), i as int));
                    }
                },
            }
            i += 1;
        }
    }
}

/// An index at which a registered function has the name (it exists when lookup finds it).
proof fn choose_index(fs: Seq<(Seq<char>, u32, Span)>, name: Seq<char>) -> (k: int)
    requires fn_get(fs, name) is Some,
    ensures 0 <= k < fs.len(), fs[k].0 == name, fn_get(fs, name) == Some((fs[k].1, fs[k].2)),
    decreases fs.len(),
{
    if fn_get(fs.drop_last(), name) is Some {
        let k = choose_index(fs.drop_last(), name);
        k
    } else {
        fs.len() - 1
    }
}

/// The resolution recorded for a position: the last entry wins.
pub open spec fn res_get(t: Seq<(u32, Res)>, lo: u32) -> Option<Res>
    decreases t.len(),
{
    if t.len() == 0 { None } else if t.last().0 == lo { Some(t.last().1) } else { res_get(t.drop_last(), lo) }
}

fn all_fit(name: &str, cands: &Vec<&str>) -> (r: bool)
    ensures r <==> forall|k: int| 0 <= k < cands@.len() ==> name@.len() + (#[trigger] cands@[k])@.len() < usize::MAX,
{
    let n = name.unicode_len();
    let mut k: usize = 0;
    while k < cands.len()
        invariant
            k <= cands@.len(), n == name@.len(),
            forall|q: int| 0 <= q < k ==> name@.len() + (#[trigger] cands@[q])@.len() < usize::MAX,
        decreases cands@.len() - k,
    {
        let c = cands[k].unicode_len();
        if c >= usize::MAX - n {
            assert(!(name@.len() + cands@[k as int]@.len() < usize::MAX));
            return false;
        }
        k += 1;
    }
    true
}

/// The names of a scope.
pub open spec fn scope_strs(sc: Seq<(String, u32)>) -> Seq<Seq<char>> {
    sc.map_values(|e: (String, u32)| e.0@)
}

/// The names of nested scopes, outermost first.
pub open spec fn scopes_strs(scs: Seq<Vec<(String, u32)>>) -> Seq<Seq<char>>
    decreases scs.len(),
{
    if scs.len() == 0 { Seq::empty() } else { scopes_strs(scs.drop_last()) + scope_strs(scs.last()@) }
}

pub open spec fn strs_view(v: Seq<&str>) -> Seq<Seq<char>> {
    v.map_values(|x: &str| x@)
}

/// The names a help message may suggest: the locals in scope, then the functions.
pub open spec fn help_cands(scs: Seq<Vec<(String, u32)>>, fns: Seq<(&str, u32, Span)>) -> Seq<Seq<char>> {
    scopes_strs(scs) + fns.map_values(|e: (&str, u32, Span)| e.0@)
}

/// Every name fits beside `name` in a `usize` count of characters.
pub open spec fn names_fit(name: &str, hc: Seq<Seq<char>>) -> bool {
    forall|k: int| 0 <= k < hc.len() ==> name@.len() + (#[trigger] hc[k]).len() < usize::MAX
}

/// Some name lies within the suggestion limit of `name`.
pub open spec fn has_close(name: &str, hc: Seq<Seq<char>>) -> bool {
    exists|k: int| 0 <= k < hc.len() && distance(name@, #[trigger] hc[k]) <= limit_of(name)
}

/// `c` is one of the names, within the limit, and no other such name comes before it.
pub open spec fn best_in(name: &str, hc: Seq<Seq<char>>, c: Seq<char>) -> bool {
    &&& exists|k: int| 0 <= k < hc.len() && #[trigger] hc[k] == c
    &&& distance(name@, c) <= limit_of(name)
    &&& forall|j: int| 0 <= j < hc.len() && distance(name@, (#[trigger] hc[j])) <= limit_of(name)
        ==> hc[j] == c || pair_lt(distance(name@, c), c, distance(name@, hc[j]), hc[j])
}

/// The text of the help for a suggested name.
pub open spec fn help_text(c: Seq<char>) -> Seq<char> {
    "a local variable or fn with a similar name exists: `"@ + c + "`"@
}

impl<'a> Resolver<'a> {
    fn res_lookup(&self, lo: u32) -> (r: Option<Res>)
        ensures r == res_get(self.res_view(), lo),
    {
        let mut i: usize = self.res.len();
        assert(self.res@.subrange(0, self.res@.len() as int) =~= self.res@);
        while i > 0
            invariant
                i <= self.res@.len(),
                res_get(self.res@, lo) == res_get(self.res@.subrange(0, i as int), lo),
            decreases i,
        {
            assert(self.res@.subrange(0, i as int).drop_last() =~= self.res@.subrange(0, i - 1));
            if self.res[i - 1].0 == lo {
                return Some(self.res[i - 1].1);
            }
            i -= 1;
        }
        assert(self.res@.subrange(0, 0) =~= Seq::<(u32, Res)>::empty());
        None
    }

    /// The help for a name that is not found: the closest visible local or function.
    fn value_help(&self, name: &str) -> (h: Option<String>)
        ensures
            names_fit(name, help_cands(self.scopes@, self.fns@))
                && has_close(name, help_cands(self.scopes@, self.fns@))
                ==> (h is Some && exists|c: Seq<char>| #[trigger] best_in(name, help_cands(self.scopes@, self.fns@), c)
                    && h->0@ == help_text(c)),
            !(names_fit(name, help_cands(self.scopes@, self.fns@))
                && has_close(name, help_cands(self.scopes@, self.fns@))) ==> h is None,
    {
        let mut cands: Vec<&str> = Vec::new();
        let mut i: usize = 0;
        while i < self.scopes.len()
            invariant i <= self.scopes@.len(), strs_view(cands@) == scopes_strs(self.scopes@.subrange(0, i as int)),
            decreases self.scopes@.len() - i,
        {
            let sc = &self.scopes[i];
            let mut j: usize = 0;
            while j < sc.len()
                invariant j <= sc@.len(), i < self.scopes@.len(), *sc == self.scopes@[i as int],
                    strs_view(cands@) == scopes_strs(self.scopes@.subrange(0, i as int)) + scope_strs(sc@.subrange(0, j as int)),
                decreases sc@.len() - j,
            {
                let ghost before = cands@;
                let s = sc[j].0.as_str();
                cands.push(s);
                assert(strs_view(cands@) =~= strs_view(before).push(sc@[j as int].0@));
                assert(scope_strs(sc@.subrange(0, j + 1)) =~= scope_strs(sc@.subrange(0, j as int)).push(sc@[j as int].0@));
                j += 1;
                assert(strs_view(cands@) =~= scopes_strs(self.scopes@.subrange(0, i as int)) + scope_strs(sc@.subrange(0, j as int)));
            }
            assert(sc@.subrange(0, sc@.len() as int) =~= sc@);
            assert(self.scopes@.subrange(0, i + 1).drop_last() =~= self.scopes@.subrange(0, i as int));
            i += 1;
        }
        assert(self.scopes@.subrange(0, self.scopes@.len() as int) =~= self.scopes@);
        let ghost base = cands@;
        let mut k: usize = 0;
        while k < self.fns.len()
            invariant k <= self.fns@.len(), cands@ == base + self.fns@.subrange(0, k as int).map_values(|e: (&str, u32, Span)| e.0),
            decreases self.fns@.len() - k,
        {
            cands.push(self.fns[k].0);
            k += 1;
            assert(cands@ =~= base + self.fns@.subrange(0, k as int).map_values(|e: (&str, u32, Span)| e.0));
        }
        let ghost hc = help_cands(self.scopes@, self.fns@);
        assert(strs_view(cands@) =~= hc) by {
            assert(self.fns@.subrange(0, self.fns@.len() as int) =~= self.fns@);
        }
        assert(forall|q: int| 0 <= q < cands@.len() ==> (#[trigger] cands@[q])@ == hc[q]);
        if !all_fit(name, &cands) {
            proof {
                let q = choose|q: int| 0 <= q < cands@.len() && !(name@.len() + (#[trigger] cands@[q])@.len() < usize::MAX);
                assert(!(name@.len() + hc[q].len() < usize::MAX));
            }
            return None;
        }
        match best_match(name, cands.as_slice()) {
            Some(m) => {
                let mut h = String::from_str("a local variable or fn with a similar name exists: `");
                h.append(m);
                h.append("`");
                proof {
                    let q = choose|q: int| 0 <= q < cands@.len() && #[trigger] cands@[q] == m;
                    assert(h@ == help_text(hc[q]));
                    assert(hc[q] == m@);
                    assert forall|j: int| 0 <= j < hc.len() && distance(name@, (#[trigger] hc[j])) <= limit_of(name)
                        implies hc[j] == m@ || pair_lt(distance(name@, m@), m@, distance(name@, hc[j]), hc[j]) by {
                        assert(cands@[j]@ == hc[j]);
                    }
                    assert(best_in(name, hc, m@));
                }
                Some(h)
            },
            None => {
                proof {
                    assert forall|k: int| 0 <= k < hc.len() implies distance(name@, #[trigger] hc[k]) > limit_of(name) by {
                        assert(cands@[k]@ == hc[k]);
                    }
                }
                None
            },
        }
    }

    fn push_res(&mut self, lo: u32, r: Res)
        ensures
            final(self).kept(old(self)), final(self).scopes_view() == old(self).scopes_view(),
            final(self).res_view() == old(self).res_view().push((lo, r)),
            final(self).diags_view() == old(self).diags_view(),
    {
        self.res.push((lo, r));
        proof {
            assert(self.res_view().subrange(0, old(self).res_view().len() as int) =~= old(self).res_view());
            old(self).lemma_kept_refl();
        }
    }

    /// Resolves the names in an expression; blocks open scopes of their own.
    pub fn expr(&mut self, e: &Expr)
        ensures
            final(self).kept(old(self)), final(self).scopes_view() == old(self).scopes_view(),
            e.kind is Int || e.kind is Bool ==> final(self).res_view() == old(self).res_view()
                && final(self).diags_view() == old(self).diags_view(),
            e.kind matches ExprKind::Var(n) ==> match lookup_spec(old(self).scopes_view(), old(self).fns_view(), n@) {
                Some(r) => final(self).res_view() == old(self).res_view().push((e.span.lo, r))
                    && final(self).diags_view() == old(self).diags_view(),
                None => final(self).res_view() == old(self).res_view()
                    && final(self).diags_view().len() == old(self).diags_view().len() + 1
                    && final(self).diags_view().last().0 == e.span
                    && final(self).diags_view().last().1 == "cannot find value `"@ + n@ + "` in this scope"@,
            },
        decreases e,
    {
        let ghost s0 = *self;
        proof { self.lemma_kept_refl(); }
        match &e.kind {
            ExprKind::Int(_) | ExprKind::Bool(_) | ExprKind::Return(None) => {},
            ExprKind::Var(name) => {
                match self.lookup(name.as_str()) {
                    Some(r) => { self.push_res(e.span.lo, r); },
                    None => {
                        let help = self.value_help(name.as_str());
                        let mut msg = String::from_str("cannot find value `");
                        msg.append(name.as_str());
                        msg.append("` in this scope");
                        self.error(e.span, msg, help);
                    },
                }
            },
            ExprKind::Assign(lhs, rhs) => {
                self.expr(rhs);
                let ghost s1 = *self;
                self.expr(lhs);
                proof { Self::lemma_kept_trans(&s0, &s1, self); }
                if let ExprKind::Var(name) = &lhs.kind {
                    if let Some(r) = self.res_lookup(lhs.span.lo) {
                        let ok = match r {
                            Res::Local(id) => (id as usize) < self.locals.len() && self.locals[id as usize].mutable,
                            Res::Fn(_) => false,
                        };
                        if !ok {
                            let ghost s2 = *self;
                            let mut msg = String::from_str("cannot assign twice to immutable variable `");
                            msg.append(name.as_str());
                            msg.append("`");
                            let help = String::from_str("consider making this binding mutable");
                            self.error(lhs.span, msg, Some(help));
                            proof { Self::lemma_kept_trans(&s0, &s2, self); }
                        }
                    }
                }
            },
            ExprKind::Unary(_, x) => { self.expr(x); },
            ExprKind::Return(Some(x)) => { self.expr(x); },
            ExprKind::Binary(_, a, b) => {
                self.expr(a);
                let ghost s1 = *self;
                self.expr(b);
                proof { Self::lemma_kept_trans(&s0, &s1, self); }
            },
            ExprKind::Call(f, args) => {
                self.expr(f);
                let mut k: usize = 0;
                while k < args.len()
                    invariant self.kept(&s0), self.scopes_view() == s0.scopes_view(),
                        e.kind == ExprKind::Call(*f, *args),
                    decreases args@.len() - k,
                {
                    proof {
                        assert(decreases_to!(e => e.kind));
                        assert(decreases_to!(e.kind => e.kind->Call_1));
                        assert(e.kind->Call_1 == *args);
                        assert(decreases_to!(*args => args@));
                        assert(decreases_to!(args@ => args@[k as int]));
                    }
                    let ghost s1 = *self;
                    self.expr(&args[k]);
                    proof { Self::lemma_kept_trans(&s0, &s1, self); }
                    k += 1;
                }
            },
            ExprKind::If(c, t, els) => {
                self.expr(c);
                let ghost s1 = *self;
                self.block(t);
                proof { Self::lemma_kept_trans(&s0, &s1, self); }
                if let Some(x) = els {
                    let ghost s2 = *self;
                    self.expr(x);
                    proof { Self::lemma_kept_trans(&s0, &s2, self); }
                }
            },
            ExprKind::While(c, b) => {
                self.expr(c);
                let ghost s1 = *self;
                self.block(b);
                proof { Self::lemma_kept_trans(&s0, &s1, self); }
            },
            ExprKind::Block(b) => { self.block(b); },
        }
    }

    /// A block opens a scope; a `let` initializer is resolved before its name is in scope.
    pub fn block(&mut self, b: &Block)
        ensures final(self).kept(old(self)), final(self).scopes_view() == old(self).scopes_view(),
        decreases b,
    {
        let ghost s0 = *self;
        self.scopes.push(Vec::new());
        proof {
            assert(self.scopes_view().drop_last() =~= s0.scopes_view());
            assert(self.locals_view().subrange(0, s0.locals_view().len() as int) =~= s0.locals_view());
            assert(self.res_view().subrange(0, s0.res_view().len() as int) =~= s0.res_view());
            assert(self.types_view().subrange(0, s0.types_view().len() as int) =~= s0.types_view());
            assert(self.diags_view().subrange(0, s0.diags_view().len() as int) =~= s0.diags_view());
        }
        let mut i: usize = 0;
        while i < b.stmts.len()
            invariant
                self.kept(&s0),
                self.scopes_view().len() == s0.scopes_view().len() + 1,
                self.scopes_view().drop_last() == s0.scopes_view(),
            decreases b.stmts@.len() - i,
        {
            let ghost s1 = *self;
            match &b.stmts[i] {
                Stmt::Let { name, mutable, init, span, .. } => {
                    self.expr(init);
                    let decl = Span { lo: span.lo, hi: span.lo.saturating_add(3) };
                    let ghost s2 = *self;
                    self.declare(name.as_str(), *mutable, decl);
                    proof {
                        Self::lemma_kept_trans(&s1, &s2, self);
                        assert(self.scopes_view().drop_last() =~= s2.scopes_view().drop_last());
                    }
                },
                Stmt::Expr(e) => { self.expr(e); },
            }
            proof { Self::lemma_kept_trans(&s0, &s1, self); }
            i += 1;
        }
        if let Some(t) = &b.tail {
            let ghost s1 = *self;
            self.expr(t);
            proof { Self::lemma_kept_trans(&s0, &s1, self); }
        }
        let ghost s3 = *self;
        self.scopes.pop();
        proof {
            assert(self.scopes_view() =~= s3.scopes_view().drop_last());
            assert(self.locals_view() == s3.locals_view());
            s3.lemma_kept_refl();
        }
    }

    /// Pass 2 for one function: parameters are immutable locals of the body's outer scope,
    /// and annotation names are found in the source (the tree keeps no span for them).
    pub fn resolve_fn(&mut self, f: &FnDecl, src: &str)
        ensures
            final(self).kept(old(self)), final(self).scopes_view() == old(self).scopes_view(),
            final(self).locals_view().len() >= old(self).locals_view().len() + f.params@.len(),
            forall|k: int| 0 <= k < f.params@.len() ==> #[trigger] final(self).locals_view()[old(self).locals_view().len() + k]
                == (f.params@[k].name@, false, f.params@[k].span),
    {
        let ghost s0 = *self;
        let b = src.as_bytes();
        let bl = b.len();
        self.scopes.push(Vec::new());
        proof {
            assert(self.scopes_view().drop_last() =~= s0.scopes_view());
            assert(self.locals_view().subrange(0, s0.locals_view().len() as int) =~= s0.locals_view());
            assert(self.res_view().subrange(0, s0.res_view().len() as int) =~= s0.res_view());
            assert(self.types_view().subrange(0, s0.types_view().len() as int) =~= s0.types_view());
            assert(self.diags_view().subrange(0, s0.diags_view().len() as int) =~= s0.diags_view());
        }
        let mut search_from: usize = f.span.lo as usize;
        let mut i: usize = 0;
        while i < f.params.len()
            invariant
                self.kept(&s0), b@ == src.spec_bytes(), bl == b@.len(),
                self.scopes_view().len() == s0.scopes_view().len() + 1,
                self.scopes_view().drop_last() == s0.scopes_view(),
                i <= f.params@.len(),
                self.locals_view().len() == s0.locals_view().len() + i,
                forall|k: int| 0 <= k < i ==> #[trigger] self.locals_view()[s0.locals_view().len() + k]
                    == (f.params@[k].name@, false, f.params@[k].span),
            decreases f.params@.len() - i,
        {
            let p = &f.params[i];
            let ghost s1 = *self;
            proof { s1.lemma_kept_refl(); }
            if let Some(ty) = &p.ty {
                let pat = ty.as_str().as_bytes();
                match find_from(b, search_from, pat) {
                    Some(lo) => {
                        let n = pat.len();
                        assert(occurs_at(b@, pat@, lo as int));
                        assert(lo + n <= bl);
                        search_from = lo + n;
                        self.resolve_type(ty.as_str(), Span { lo: lo as u32, hi: (lo + n) as u32 });
                    },
                    None => {},
                }
            }
            let ghost s2 = *self;
            self.declare(p.name.as_str(), false, p.span);
            proof {
                Self::lemma_kept_trans(&s1, &s2, self);
                Self::lemma_kept_trans(&s0, &s1, self);
                assert(self.scopes_view().drop_last() =~= s2.scopes_view().drop_last());
            }
            i += 1;
        }
        if let Some(ret) = &f.ret {
            let pat = ret.as_str().as_bytes();
            match find_from(b, search_from, pat) {
                Some(lo) => {
                    let n = pat.len();
                    assert(occurs_at(b@, pat@, lo as int));
                    assert(lo + n <= bl);
                    let ghost s1 = *self;
                    self.resolve_type(ret.as_str(), Span { lo: lo as u32, hi: (lo + n) as u32 });
                    proof { Self::lemma_kept_trans(&s0, &s1, self); }
                },
                None => {},
            }
        }
        let ghost s1 = *self;
        self.block(&f.body);
        proof {
            Self::lemma_kept_trans(&s0, &s1, self);
            assert forall|k: int| 0 <= k < f.params@.len() implies #[trigger] self.locals_view()[s0.locals_view().len() + k]
                == (f.params@[k].name@, false, f.params@[k].span) by {
                assert(self.locals_view().subrange(0, s1.locals_view().len() as int)[s0.locals_view().len() + k]
                    == self.locals_view()[s0.locals_view().len() + k]);
            }
        }
        let ghost s3 = *self;
        self.scopes.pop();
        proof {
            assert(self.scopes_view() =~= s3.scopes_view().drop_last());
            s3.lemma_kept_refl();
        }
    }
}

} // verus!
