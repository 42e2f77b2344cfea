//! Where AST nodes live: one generic parser, three node stores. Boxes give every child its
//! own heap allocation; an arena keeps all nodes in one `Vec` with `u32` children; a
//! bumpalo arena hands out `&'b` references.

use vstd::prelude::*;
use crate::wrap::{wadd, wsub, wmul, wdiv, wrapping_div};

verus! {

#[verifier::external_type_specification]
#[verifier::external_body]
pub struct ExBump<const MIN_ALIGN: usize>(bumpalo::Bump<MIN_ALIGN>);

/// `bumpalo::Bump::new`: an empty arena.
#[verifier::external_body]
pub fn bump_new() -> bumpalo::Bump {
    bumpalo::Bump::new()
}

/// `bumpalo::Bump::alloc`: moves the value into the arena and returns a reference to it
/// that lives as long as the arena.
#[verifier::external_body]
fn bump_alloc<'b>(bump: &'b bumpalo::Bump, e: BumpExpr<'b>) -> (r: &'b BumpExpr<'b>)
    ensures *r == e,
{
    bump.alloc(e)
}

/// What the parser needs from a node store.
pub trait Builder {
    type Node;
    fn num(&mut self, n: i64) -> Self::Node;
    fn var(&mut self, slot: u8) -> Self::Node;
    fn bin(&mut self, op: u8, a: Self::Node, b: Self::Node) -> Self::Node;
}

/// What an operator computes: wrapping `+`, `-`, `*`, and for anything else a wrapping
/// division that yields 0 for a zero divisor.
pub open spec fn apply_spec(op: u8, a: i64, b: i64) -> i64 {
    if op == 43 { wadd(a, b) } else if op == 45 { wsub(a, b) } else if op == 42 { wmul(a, b) }
    else if b == 0 { 0 } else { wdiv(a, b) }
}

pub fn apply(op: u8, a: i64, b: i64) -> (r: i64)
    ensures r == apply_spec(op, a, b),
{
    if op == 43 {
        a.wrapping_add(b)
    } else if op == 45 {
        a.wrapping_sub(b)
    } else if op == 42 {
        a.wrapping_mul(b)
    } else if b == 0 {
        0
    } else {
        wrapping_div(a, b)
    }
}

// ---------------- store 1: boxes ----------------

pub enum BoxExpr {
    Num(i64),
    Var(u8),
    Bin(u8, Box<BoxExpr>, Box<BoxExpr>),
}

pub struct BoxB;

impl Builder for BoxB {
    type Node = Box<BoxExpr>;
    fn num(&mut self, n: i64) -> Box<BoxExpr> { Box::new(BoxExpr::Num(n)) }
    fn var(&mut self, s: u8) -> Box<BoxExpr> { Box::new(BoxExpr::Var(s)) }
    fn bin(&mut self, op: u8, a: Box<BoxExpr>, b: Box<BoxExpr>) -> Box<BoxExpr> { Box::new(BoxExpr::Bin(op, a, b)) }
}

/// The variables a tree reads are all bound in the environment.
pub open spec fn box_vars_ok(e: BoxExpr, n: nat) -> bool
    decreases e,
{
    match e {
        BoxExpr::Num(_) => true,
        BoxExpr::Var(s) => s < n,
        BoxExpr::Bin(_, a, b) => box_vars_ok(*a, n) && box_vars_ok(*b, n),
    }
}

pub open spec fn box_value(e: BoxExpr, env: Seq<i64>) -> i64
    decreases e,
{
    match e {
        BoxExpr::Num(n) => n,
        BoxExpr::Var(s) => env[s as int],
        BoxExpr::Bin(op, a, b) => apply_spec(op, box_value(*a, env), box_value(*b, env)),
    }
}

pub fn eval_box(e: &BoxExpr, env: &[i64]) -> (v: i64)
    requires box_vars_ok(*e, env@.len()),
    ensures v == box_value(*e, env@),
    decreases e,
{
    match e {
        BoxExpr::Num(n) => *n,
        BoxExpr::Var(s) => env[*s as usize],
        BoxExpr::Bin(op, a, b) => apply(*op, eval_box(a, env), eval_box(b, env)),
    }
}

// ---------------- store 2: one vector, children by index ----------------

#[derive(Clone, Copy)]
pub enum Node {
    Num(i64),
    Var(u8),
    Bin(u8, u32, u32),
}

pub struct Arena {
    pub nodes: Vec<Node>,
}

impl Builder for Arena {
    type Node = u32;
    fn num(&mut self, n: i64) -> (r: u32)
        ensures
            final(self).nodes@ == old(self).nodes@.push(Node::Num(n)),
            old(self).nodes@.len() < u32::MAX ==> r == old(self).nodes@.len(),
    {
        self.nodes.push(Node::Num(n));
        (self.nodes.len() as u32).wrapping_sub(1)
    }
    fn var(&mut self, s: u8) -> (r: u32)
        ensures
            final(self).nodes@ == old(self).nodes@.push(Node::Var(s)),
            old(self).nodes@.len() < u32::MAX ==> r == old(self).nodes@.len(),
    {
        self.nodes.push(Node::Var(s));
        (self.nodes.len() as u32).wrapping_sub(1)
    }
    fn bin(&mut self, op: u8, a: u32, b: u32) -> (r: u32)
        ensures
            final(self).nodes@ == old(self).nodes@.push(Node::Bin(op, a, b)),
            old(self).nodes@.len() < u32::MAX ==> r == old(self).nodes@.len(),
    {
        self.nodes.push(Node::Bin(op, a, b));
        (self.nodes.len() as u32).wrapping_sub(1)
    }
}

/// Children come before their parents, and variables are bound: evaluation terminates and
/// stays in bounds.
pub open spec fn arena_ok(nodes: Seq<Node>, n: nat) -> bool {
    forall|i: int| 0 <= i < nodes.len() ==> match #[trigger] nodes[i] {
        Node::Bin(_, a, b) => a < i && b < i,
        Node::Var(s) => s < n,
        Node::Num(_) => true,
    }
}

pub open spec fn arena_value(nodes: Seq<Node>, id: int, env: Seq<i64>) -> i64
    decreases id,
{
    if id < 0 || id >= nodes.len() {
        0
    } else {
        match nodes[id] {
            Node::Num(n) => n,
            Node::Var(s) => env[s as int],
            Node::Bin(op, a, b) => if a < id && b < id {
                apply_spec(op, arena_value(nodes, a as int, env), arena_value(nodes, b as int, env))
            } else {
                0
            },
        }
    }
}

/// Whether the arena is well formed for an environment of `n` variables.
pub fn arena_check(nodes: &[Node], n: usize) -> (r: bool)
    ensures r == arena_ok(nodes@, n as nat),
{
    let mut i: usize = 0;
    while i < nodes.len()
        invariant
            i <= nodes@.len(),
            forall|k: int| 0 <= k < i ==> match #[trigger] nodes@[k] {
                Node::Bin(_, a, b) => a < k && b < k,
                Node::Var(s) => s < n,
                Node::Num(_) => true,
            },
        decreases nodes@.len() - i,
    {
        let ok = match nodes[i] {
            Node::Bin(_, a, b) => (a as usize) < i && (b as usize) < i,
            Node::Var(s) => (s as usize) < n,
            Node::Num(_) => true,
        };
        if !ok {
            return false;
        }
        i += 1;
    }
    true
}

pub fn eval_arena(nodes: &[Node], id: u32, env: &[i64]) -> (v: i64)
    requires arena_ok(nodes@, env@.len()), (id as int) < nodes@.len(),
    ensures v == arena_value(nodes@, id as int, env@),
    decreases id,
{
    match nodes[id as usize] {
        Node::Num(n) => n,
        Node::Var(s) => env[s as usize],
        Node::Bin(op, a, b) => {
            assert(a < id && b < id) by { assert(match nodes@[id as int] { Node::Bin(_, a, b) => a < id && b < id, _ => true }); }
            apply(op, eval_arena(nodes, a, env), eval_arena(nodes, b, env))
        },
    }
}

// ---------------- store 3: a bump arena ----------------

pub enum BumpExpr<'b> {
    Num(i64),
    Var(u8),
    Bin(u8, &'b BumpExpr<'b>, &'b BumpExpr<'b>),
}

pub struct BumpB<'b> {
    pub bump: &'b bumpalo::Bump,
}

impl<'b> Builder for BumpB<'b> {
    type Node = &'b BumpExpr<'b>;
    fn num(&mut self, n: i64) -> &'b BumpExpr<'b> { bump_alloc(self.bump, BumpExpr::Num(n)) }
    fn var(&mut self, s: u8) -> &'b BumpExpr<'b> { bump_alloc(self.bump, BumpExpr::Var(s)) }
    fn bin(&mut self, op: u8, a: &'b BumpExpr<'b>, b: &'b BumpExpr<'b>) -> &'b BumpExpr<'b> {
        bump_alloc(self.bump, BumpExpr::Bin(op, a, b))
    }
}

pub open spec fn bump_vars_ok<'b>(e: BumpExpr<'b>, n: nat) -> bool
    decreases e,
{
    match e {
        BumpExpr::Num(_) => true,
        BumpExpr::Var(s) => s < n,
        BumpExpr::Bin(_, a, b) => bump_vars_ok(*a, n) && bump_vars_ok(*b, n),
    }
}

pub open spec fn bump_value<'b>(e: BumpExpr<'b>, env: Seq<i64>) -> i64
    decreases e,
{
    match e {
        BumpExpr::Num(n) => n,
        BumpExpr::Var(s) => env[s as int],
        BumpExpr::Bin(op, a, b) => apply_spec(op, bump_value(*a, env), bump_value(*b, env)),
    }
}

pub fn eval_bump(e: &BumpExpr, env: &[i64]) -> (v: i64)
    requires bump_vars_ok(*e, env@.len()),
    ensures v == bump_value(*e, env@),
    decreases e,
{
    match e {
        BumpExpr::Num(n) => *n,
        BumpExpr::Var(s) => env[*s as usize],
        BumpExpr::Bin(op, a, b) => apply(*op, eval_bump(a, env), eval_bump(b, env)),
    }
}

// ---------------- the grammar, on bytes ----------------

/// The first position at or after `i` that is not a space.
pub open spec fn skip_sp(s: Seq<u8>, i: int) -> int
    decreases s.len() - i,
{
    if 0 <= i < s.len() && s[i] == 32 { skip_sp(s, i + 1) } else { i }
}

/// The first position at or after `i` that is not a decimal digit.
pub open spec fn digits_end(s: Seq<u8>, i: int) -> int
    decreases s.len() - i,
{
    if 0 <= i < s.len() && 48 <= s[i] <= 57 { digits_end(s, i + 1) } else { i }
}

/// The value of a numeral whose first byte, at `j`, counts `s[j] - 48`, followed by the digits
/// before `e`.
pub open spec fn num_value(s: Seq<u8>, j: int, e: int) -> int
    decreases e - j,
{
    if e <= j + 1 { s[j] - 48 } else { num_value(s, j, e - 1) * 10 + (s[e - 1] - 48) }
}

/// How much text is left after position `i`.
pub open spec fn room(s: Seq<u8>, i: int) -> nat {
    if i <= s.len() { (s.len() - i) as nat } else { 0 }
}

pub proof fn lemma_skip_sp(s: Seq<u8>, i: int)
    ensures i <= skip_sp(s, i),
        0 <= i <= s.len() ==> skip_sp(s, i) <= s.len(),
        forall|k: int| i <= k < skip_sp(s, i) ==> s[k] == 32,
        0 <= skip_sp(s, i) < s.len() ==> s[skip_sp(s, i)] != 32,
    decreases s.len() - i,
{
    if 0 <= i < s.len() && s[i] == 32 { lemma_skip_sp(s, i + 1); }
}

pub proof fn lemma_digits_end(s: Seq<u8>, i: int)
    ensures i <= digits_end(s, i),
        0 <= i <= s.len() ==> digits_end(s, i) <= s.len(),
        forall|k: int| i <= k < digits_end(s, i) ==> 48 <= #[trigger] s[k] <= 57,
        0 <= digits_end(s, i) < s.len() ==> !(48 <= s[digits_end(s, i)] <= 57),
    decreases s.len() - i,
{
    if 0 <= i < s.len() && 48 <= s[i] <= 57 { lemma_digits_end(s, i + 1); }
}

/// A numeral only grows as digits follow.
pub proof fn lemma_num_grows(s: Seq<u8>, j: int, a: int, b: int)
    requires 0 <= j < s.len(), s[j] >= 48, j + 1 <= a <= b <= s.len(),
        forall|k: int| j + 1 <= k < b ==> 48 <= #[trigger] s[k] <= 57,
    ensures 0 <= num_value(s, j, a) <= num_value(s, j, b),
    decreases b - a,
{
    if a < b {
        lemma_num_grows(s, j, a, b - 1);
        assert(48 <= s[b - 1] <= 57);
    } else {
        lemma_num_nonneg(s, j, a);
    }
}

proof fn lemma_num_nonneg(s: Seq<u8>, j: int, e: int)
    requires 0 <= j < s.len(), s[j] >= 48, j + 1 <= e <= s.len(),
        forall|k: int| j + 1 <= k < e ==> 48 <= #[trigger] s[k] <= 57,
    ensures 0 <= num_value(s, j, e),
    decreases e - j,
{
    if e > j + 1 {
        lemma_num_nonneg(s, j, e - 1);
        assert(48 <= s[e - 1] <= 57);
    }
}

/// Where an atom that starts at `i` ends, or `None` where there is none.
pub open spec fn atom_end(s: Seq<u8>, i: int) -> Option<int>
    decreases room(s, i), 0nat,
{
    let j = skip_sp(s, i);
    if j < 0 || j >= s.len() {
        None
    } else {
        proof { lemma_skip_sp(s, i); }
        let c = s[j];
        if c == 40 {
            match expr_end(s, j + 1) {
                Some(k) => {
                    let k2 = skip_sp(s, k);
                    Some(if 0 <= k2 < s.len() { k2 + 1 } else { k2 })
                },
                None => None,
            }
        } else if 97 <= c <= 122 {
            Some(j + 1)
        } else if c < 48 {
            None
        } else {
            let e = digits_end(s, j + 1);
            if num_value(s, j, e) <= i64::MAX { Some(e) } else { None }
        }
    }
}

/// Where a term that starts at `i` ends.
pub open spec fn term_end(s: Seq<u8>, i: int) -> Option<int>
    decreases room(s, i), 1nat,
{
    match atom_end(s, i) {
        Some(k) => if i < k <= s.len() { term_rest(s, k) } else { None },
        None => None,
    }
}

/// Where the `*` and `/` operands that follow position `k` end.
pub open spec fn term_rest(s: Seq<u8>, k: int) -> Option<int>
    decreases room(s, k), 2nat,
{
    let j = skip_sp(s, k);
    if 0 <= j < s.len() && (s[j] == 42 || s[j] == 47) {
        proof { lemma_skip_sp(s, k); }
        match atom_end(s, j + 1) {
            Some(k2) => if j < k2 <= s.len() { term_rest(s, k2) } else { None },
            None => None,
        }
    } else {
        Some(j)
    }
}

/// Where an expression that starts at `i` ends.
pub open spec fn expr_end(s: Seq<u8>, i: int) -> Option<int>
    decreases room(s, i), 3nat,
{
    match term_end(s, i) {
        Some(k) => if i < k <= s.len() { expr_rest(s, k) } else { None },
        None => None,
    }
}

/// Where the `+` and `-` operands that follow position `k` end.
pub open spec fn expr_rest(s: Seq<u8>, k: int) -> Option<int>
    decreases room(s, k), 4nat,
{
    let j = skip_sp(s, k);
    if 0 <= j < s.len() && (s[j] == 43 || s[j] == 45) {
        proof { lemma_skip_sp(s, k); }
        match term_end(s, j + 1) {
            Some(k2) => if j < k2 <= s.len() { expr_rest(s, k2) } else { None },
            None => None,
        }
    } else {
        Some(j)
    }
}

// ---------------- the parser, generic over the store ----------------

/// expr := term (('+'|'-') term)* ; term := atom (('*'|'/') atom)* ;
/// atom := NUM | VAR | '(' expr ')', with spaces anywhere between tokens.
pub struct P<'s> {
    pub s: &'s [u8],
    pub i: usize,
}

impl<'s> P<'s> {
    /// The parser reads the same text and only moves forward, never past the end.
    pub open spec fn moved(&self, old: P<'s>) -> bool {
        &&& self.s@ == old.s@
        &&& old.i <= self.i <= self.s@.len()
    }

    fn skip(&mut self)
        requires old(self).i <= old(self).s@.len(),
        ensures final(self).moved(*old(self)),
            forall|k: int| old(self).i <= k < final(self).i ==> final(self).s@[k] == 32,
            final(self).i == final(self).s@.len() || final(self).s@[final(self).i as int] != 32,
            final(self).i == skip_sp(old(self).s@, old(self).i as int),
    {
        while self.i < self.s.len() && self.s[self.i] == 32
            invariant self.moved(*old(self)),
                forall|k: int| old(self).i <= k < self.i ==> self.s@[k] == 32,
                skip_sp(self.s@, self.i as int) == skip_sp(old(self).s@, old(self).i as int),
            decreases self.s@.len() - self.i,
        {
            self.i += 1;
        }
    }

    /// An expression, or `None` where the text is not one (a missing operand, or a numeral
    /// too large for `i64`).
    pub fn expr<B: Builder>(&mut self, b: &mut B) -> (r: Option<B::Node>)
        requires old(self).i <= old(self).s@.len(),
        ensures final(self).moved(*old(self)),
            r is Some <==> expr_end(old(self).s@, old(self).i as int) is Some,
            r is Some ==> expr_end(old(self).s@, old(self).i as int) == Some(final(self).i as int)
                && final(self).i > old(self).i,
        decreases old(self).s@.len() - old(self).i, 2nat,
    {
        let ghost s0 = self.s@;
        let ghost i0 = self.i as int;
        let mut lhs = self.term(b)?;
        loop
            invariant self.moved(*old(self)), self.s@ == s0, self.i > i0, i0 == old(self).i,
                expr_rest(s0, self.i as int) == expr_end(s0, i0),
            decreases self.s@.len() - self.i,
        {
            let ghost k = self.i as int;
            self.skip();
            let ghost j = self.i as int;
            proof { lemma_skip_sp(s0, k); }
            if self.i < self.s.len() && (self.s[self.i] == 43 || self.s[self.i] == 45) {
                let op = self.s[self.i];
                self.i += 1;
                match self.term(b) {
                    Some(r) => {
                        assert(expr_rest(s0, k) == expr_rest(s0, self.i as int));
                        lhs = b.bin(op, lhs, r);
                    },
                    None => {
                        assert(expr_rest(s0, k) is None);
                        return None;
                    },
                }
            } else {
                assert(expr_rest(s0, k) == Some(j));
                return Some(lhs);
            }
        }
    }

    fn term<B: Builder>(&mut self, b: &mut B) -> (r: Option<B::Node>)
        requires old(self).i <= old(self).s@.len(),
        ensures final(self).moved(*old(self)),
            r is Some <==> term_end(old(self).s@, old(self).i as int) is Some,
            r is Some ==> term_end(old(self).s@, old(self).i as int) == Some(final(self).i as int)
                && final(self).i > old(self).i,
        decreases old(self).s@.len() - old(self).i, 1nat,
    {
        let ghost s0 = self.s@;
        let ghost i0 = self.i as int;
        let mut lhs = self.atom(b)?;
        loop
            invariant self.moved(*old(self)), self.s@ == s0, self.i > i0, i0 == old(self).i,
                term_rest(s0, self.i as int) == term_end(s0, i0),
            decreases self.s@.len() - self.i,
        {
            let ghost k = self.i as int;
            self.skip();
            let ghost j = self.i as int;
            proof { lemma_skip_sp(s0, k); }
            if self.i < self.s.len() && (self.s[self.i] == 42 || self.s[self.i] == 47) {
                let op = self.s[self.i];
                self.i += 1;
                match self.atom(b) {
                    Some(r) => {
                        assert(term_rest(s0, k) == term_rest(s0, self.i as int));
                        lhs = b.bin(op, lhs, r);
                    },
                    None => {
                        assert(term_rest(s0, k) is None);
                        return None;
                    },
                }
            } else {
                assert(term_rest(s0, k) == Some(j));
                return Some(lhs);
            }
        }
    }

    fn atom<B: Builder>(&mut self, b: &mut B) -> (r: Option<B::Node>)
        requires old(self).i <= old(self).s@.len(),
        ensures final(self).moved(*old(self)),
            r is Some <==> atom_end(old(self).s@, old(self).i as int) is Some,
            r is Some ==> atom_end(old(self).s@, old(self).i as int) == Some(final(self).i as int)
                && final(self).i > old(self).i,
        decreases old(self).s@.len() - old(self).i, 0nat,
    {
        let ghost s0 = self.s@;
        self.skip();
        let ghost j = self.i as int;
        proof { lemma_skip_sp(s0, old(self).i as int); }
        if self.i >= self.s.len() {
            return None;
        }
        let c = self.s[self.i];
        self.i += 1;
        if c == 40 {
            let e = self.expr(b)?;
            self.skip();
            if self.i < self.s.len() {
                self.i += 1;
            }
            Some(e)
        } else if 97 <= c && c <= 122 {
            Some(b.var(c - 97))
        } else {
            if c < 48 {
                return None;
            }
            let mut n: i64 = (c - 48) as i64;
            let ghost e = digits_end(s0, j + 1);
            proof { lemma_digits_end(s0, j + 1); }
            while self.i < self.s.len() && 48 <= self.s[self.i] && self.s[self.i] <= 57
                invariant self.moved(*old(self)), self.s@ == s0, 0 <= j < s0.len(), s0[j] >= 48,
                    s0[j] != 40, !(97 <= s0[j] <= 122), j == skip_sp(s0, old(self).i as int), e == digits_end(s0, j + 1),
                    j + 1 <= self.i <= e, e <= s0.len(), n as int == num_value(s0, j, self.i as int),
                    digits_end(s0, self.i as int) == e,
                    forall|k: int| j + 1 <= k < e ==> 48 <= #[trigger] s0[k] <= 57,
                decreases self.s@.len() - self.i,
            {
                let d = (self.s[self.i] - 48) as i64;
                proof {
                    lemma_digits_end(s0, self.i + 1);
                    lemma_num_nonneg(s0, j, self.i as int);
                    lemma_num_grows(s0, j, self.i + 1, e);
                    assert(num_value(s0, j, self.i + 1) == n * 10 + d);
                }
                n = match n.checked_mul(10) {
                    Some(m) => match m.checked_add(d) {
                        Some(x) => x,
                        None => {
                            assert(m + d > i64::MAX);
                            assert(num_value(s0, j, e) > i64::MAX);
                            return None;
                        },
                    },
                    None => {
                        proof { assert(n * 10 + d > i64::MAX) by (nonlinear_arith) requires n * 10 > i64::MAX, d >= 0; }
                        return None;
                    },
                };
                self.i += 1;
            }
            Some(b.num(n))
        }
    }
}

} // verus!
