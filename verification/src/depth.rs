//! Deep nesting. Recursive descent has no depth limit of its own: every `(` costs one pass
//! through all ten precedence levels. A depth counter turns "the stack overflows" into
//! "this input is rejected"; a Pratt loop spends one function per nesting level.
//!
//! The evaluators read bytes: digits are values, `(` `)` nest, and `||`, `&&`, `<`, `+`,
//! `*` and unary `-` combine. An arithmetic overflow, or an operand byte below `'0'`,
//! is a failure of the input, reported as `None`.

use vstd::prelude::*;
use vstd::string::StringExecFns;
use crate::text::{ascii_chars, decimal, decimal_string};

verus! {

pub const MAX_DEPTH: usize = 256;

/// What an evaluation comes to: a value and the position after it, nesting beyond the
/// limit at the byte of the offending `(`, or a failure.
pub enum Out {
    Val(i64, int),
    Deep(int),
    Fail,
}

/// The byte at `i`, or 0 past the end.
pub open spec fn at_byte(s: Seq<u8>, i: int) -> u8 {
    if 0 <= i < s.len() { s[i] } else { 0 }
}

pub open spec fn truth(b: bool) -> i64 {
    if b { 1 } else { 0 }
}

/// The value of a single operand byte.
pub open spec fn digit_out(c: u8, i: int) -> Out {
    if c < 48 { Out::Fail } else { Out::Val((c - 48) as i64, i + 1) }
}

/// How much input is left from `i`: what every recursive step consumes.
pub open spec fn room(s: Seq<u8>, i: int) -> int {
    if 0 <= i < s.len() { s.len() - i } else { 0 }
}

/// The ten-level recursive descent from position `i` at level `k` (9 `expr`, 8 `assign`,
/// 7 `or`, 6 `and`, 5 `cmp`, 4 `add`, 3 `mul`, 2 `unary`, 1 `postfix`, 0 `primary`), at
/// nesting depth `d`; with `lim`, nesting beyond `MAX_DEPTH` is rejected.
pub open spec fn rd(s: Seq<u8>, i: int, k: int, d: int, lim: bool) -> Out
    decreases room(s, i), k, 0int,
{
    if i < 0 || k < 0 || k > 9 {
        Out::Fail
    } else if k == 9 || k == 8 || k == 1 {
        rd(s, i, k - 1, d, lim)
    } else if k == 7 || k == 6 || k == 4 || k == 3 {
        match rd(s, i, k - 1, d, lim) {
            Out::Val(v, p) => if i <= p { rd_loop(s, p, k, v, d, lim) } else { Out::Fail },
            o => o,
        }
    } else if k == 5 {
        match rd(s, i, 4, d, lim) {
            Out::Val(v, p) => if i <= p && at_byte(s, p) == 60 {
                match rd(s, p + 1, 4, d, lim) {
                    Out::Val(w, q) => Out::Val(truth(v < w), q),
                    o => o,
                }
            } else {
                Out::Val(v, p)
            },
            o => o,
        }
    } else if k == 2 {
        if at_byte(s, i) == 45 {
            match rd(s, i + 1, 2, d, lim) {
                Out::Val(v, q) => if v == i64::MIN { Out::Fail } else { Out::Val((-v) as i64, q) },
                o => o,
            }
        } else {
            rd(s, i, 1, d, lim)
        }
    } else {
        let c = at_byte(s, i);
        if c != 40 {
            digit_out(c, i)
        } else if lim && d + 1 > MAX_DEPTH {
            Out::Deep(i)
        } else {
            match rd(s, i + 1, 9, if lim { d + 1 } else { d }, lim) {
                Out::Val(v, p) => Out::Val(v, p + 1),
                o => o,
            }
        }
    }
}

/// The loop of a left-associative level `k` (`or`, `and`, `add`, `mul`) after its first
/// operand `v`, at position `i`.
pub open spec fn rd_loop(s: Seq<u8>, i: int, k: int, v: i64, d: int, lim: bool) -> Out
    decreases room(s, i), 0int, 0int,
{
    let c = at_byte(s, i);
    let op: u8 = if k == 7 { 124 } else if k == 6 { 38 } else if k == 4 { 43 } else { 42 };
    if i < 0 || i >= s.len() || c != op {
        Out::Val(v, i)
    } else {
        let j = if k == 7 || k == 6 { i + 2 } else { i + 1 };
        match rd(s, j, k - 1, d, lim) {
            Out::Val(w, p) => {
                let x: int = if k == 7 { (v | w) as int } else if k == 6 { (v & w) as int } else if k == 4 { v + w } else { v * w };
                if !(i < p) || x < i64::MIN || x > i64::MAX {
                    Out::Fail
                } else {
                    rd_loop(s, p, k, x as i64, d, lim)
                }
            },
            o => o,
        }
    }
}

/// The message for nesting too deep.
pub open spec fn deep_msg_at(b: int) -> Seq<char> {
    "expression nested more than 256 levels deep at byte "@ + ascii_chars(decimal(b as nat))
}

/// The outcome of the depth-limited evaluator as it reports it.
pub open spec fn rd_result(o: Out, r: Option<Result<i64, String>>, fi: int) -> bool {
    match o {
        Out::Val(v, p) => r == Some(Ok::<i64, String>(v)) && fi == p,
        Out::Deep(b) => r matches Some(Err(m)) && m@ == deep_msg_at(b),
        Out::Fail => r is None,
    }
}

/// The ten-level recursive descent with a depth limit.
pub struct Rd<'a> {
    pub s: &'a [u8],
    pub i: usize,
    pub depth: usize,
}

impl<'a> Rd<'a> {
    pub open spec fn pos(&self) -> int {
        self.i as int
    }

    pub open spec fn dep(&self) -> int {
        self.depth as int
    }

    pub open spec fn ok(&self) -> bool {
        self.i <= self.s@.len() + 1 && 2 * self.s@.len() + 3 <= usize::MAX && self.depth <= MAX_DEPTH
    }

    /// The evaluator moved on over the same input, with the depth it started with.
    pub open spec fn after(&self, old: &Rd<'a>, o: Out, r: Option<Result<i64, String>>) -> bool {
        &&& self.s == old.s
        &&& rd_result(o, r, self.i as int)
        &&& (o is Val ==> self.depth == old.depth && old.i < self.i <= 2 * self.s@.len() - old.i + 1)
    }

    pub fn peek(&self) -> (c: u8)
        ensures c == at_byte(self.s@, self.i as int),
    {
        if self.i < self.s.len() { self.s[self.i] } else { 0 }
    }

    pub fn expr(&mut self) -> (r: Option<Result<i64, String>>)
        requires old(self).ok(),
        ensures final(self).after(old(self), rd(old(self).s@, old(self).pos(), 9, old(self).dep(), true), r),
        decreases room(old(self).s@, old(self).pos()), 9int, 1int,
    {
        self.assign()
    }

    pub fn assign(&mut self) -> (r: Option<Result<i64, String>>)
        requires old(self).ok(),
        ensures final(self).after(old(self), rd(old(self).s@, old(self).pos(), 8, old(self).dep(), true), r),
        decreases room(old(self).s@, old(self).pos()), 8int, 1int,
    {
        self.or()
    }

    pub fn postfix(&mut self) -> (r: Option<Result<i64, String>>)
        requires old(self).ok(),
        ensures final(self).after(old(self), rd(old(self).s@, old(self).pos(), 1, old(self).dep(), true), r),
        decreases room(old(self).s@, old(self).pos()), 1int, 1int,
    {
        self.primary()
    }

    /// One operand of level `k - 1`, through the method for that level.
    fn level(&mut self, k: u8) -> (r: Option<Result<i64, String>>)
        requires old(self).ok(), k == 7 || k == 6 || k == 4 || k == 3,
        ensures final(self).after(old(self), rd(old(self).s@, old(self).pos(), k - 1, old(self).dep(), true), r),
        decreases room(old(self).s@, old(self).pos()), k - 1, 3int,
    {
        if k == 7 { self.and() } else if k == 6 { self.cmp() } else if k == 4 { self.mul() } else { self.unary() }
    }

    /// A left-associative level: `or` (7), `and` (6), `add` (4) or `mul` (3).
    fn chain(&mut self, k: u8) -> (r: Option<Result<i64, String>>)
        requires old(self).ok(), k == 7 || k == 6 || k == 4 || k == 3,
        ensures final(self).after(old(self), rd(old(self).s@, old(self).pos(), k as int, old(self).dep(), true), r),
        decreases room(old(self).s@, old(self).pos()), k, 1int,
    {
        let ghost s = self.s@;
        let ghost i0 = self.i as int;
        let ghost d0 = self.depth as int;
        let mut v = match self.level(k) {
            Some(Ok(v)) => v,
            other => { return other; },
        };
        let op: u8 = if k == 7 { 124 } else if k == 6 { 38 } else if k == 4 { 43 } else { 42 };
        loop
            invariant
                self.s@ == s, self.depth == d0, i0 < self.i <= 2 * s.len() - i0 + 1, 2 * s.len() + 3 <= usize::MAX,
                d0 <= MAX_DEPTH, k == 7 || k == 6 || k == 4 || k == 3,
                op == (if k == 7 { 124u8 } else if k == 6 { 38u8 } else if k == 4 { 43u8 } else { 42u8 }),
                rd(s, i0, k as int, d0, true) == rd_loop(s, self.i as int, k as int, v, d0, true),
                self.s == old(self).s, i0 == old(self).i, d0 == old(self).depth, s == old(self).s@,
            decreases room(s, self.i as int),
        {
            let c = self.peek();
            if self.i >= self.s.len() || c != op {
                return Some(Ok(v));
            }
            let ghost i1 = self.i as int;
            self.i += if k == 7 || k == 6 { 2 } else { 1 };
            assert(room(s, self.i as int) < room(s, i0));
            let w = match self.level(k) {
                Some(Ok(w)) => w,
                other => { return other; },
            };
            let x: Option<i64> = if k == 7 { Some(v | w) } else if k == 6 { Some(v & w) }
                else if k == 4 { v.checked_add(w) } else { v.checked_mul(w) };
            match x {
                Some(x) => { v = x; },
                None => { return None; },
            }
            assert(i1 < self.i);
        }
    }

    pub fn or(&mut self) -> (r: Option<Result<i64, String>>)
        requires old(self).ok(),
        ensures final(self).after(old(self), rd(old(self).s@, old(self).pos(), 7, old(self).dep(), true), r),
        decreases room(old(self).s@, old(self).pos()), 7int, 2int,
    {
        self.chain(7)
    }

    pub fn and(&mut self) -> (r: Option<Result<i64, String>>)
        requires old(self).ok(),
        ensures final(self).after(old(self), rd(old(self).s@, old(self).pos(), 6, old(self).dep(), true), r),
        decreases room(old(self).s@, old(self).pos()), 6int, 2int,
    {
        self.chain(6)
    }

    pub fn cmp(&mut self) -> (r: Option<Result<i64, String>>)
        requires old(self).ok(),
        ensures final(self).after(old(self), rd(old(self).s@, old(self).pos(), 5, old(self).dep(), true), r),
        decreases room(old(self).s@, old(self).pos()), 5int, 2int,
    {
        let v = match self.add() {
            Some(Ok(v)) => v,
            other => { return other; },
        };
        if self.peek() == 60 {
            self.i += 1;
            let w = match self.add() {
                Some(Ok(w)) => w,
                other => { return other; },
            };
            return Some(Ok(if v < w { 1 } else { 0 }));
        }
        Some(Ok(v))
    }

    pub fn add(&mut self) -> (r: Option<Result<i64, String>>)
        requires old(self).ok(),
        ensures final(self).after(old(self), rd(old(self).s@, old(self).pos(), 4, old(self).dep(), true), r),
        decreases room(old(self).s@, old(self).pos()), 4int, 2int,
    {
        self.chain(4)
    }

    pub fn mul(&mut self) -> (r: Option<Result<i64, String>>)
        requires old(self).ok(),
        ensures final(self).after(old(self), rd(old(self).s@, old(self).pos(), 3, old(self).dep(), true), r),
        decreases room(old(self).s@, old(self).pos()), 3int, 2int,
    {
        self.chain(3)
    }

    pub fn unary(&mut self) -> (r: Option<Result<i64, String>>)
        requires old(self).ok(),
        ensures final(self).after(old(self), rd(old(self).s@, old(self).pos(), 2, old(self).dep(), true), r),
        decreases room(old(self).s@, old(self).pos()), 2int, 2int,
    {
        if self.peek() == 45 {
            self.i += 1;
            let v = match self.unary() {
                Some(Ok(v)) => v,
                other => { return other; },
            };
            if v == i64::MIN {
                return None;
            }
            return Some(Ok(-v));
        }
        self.postfix()
    }

    pub fn primary(&mut self) -> (r: Option<Result<i64, String>>)
        requires old(self).ok(),
        ensures final(self).after(old(self), rd(old(self).s@, old(self).pos(), 0, old(self).dep(), true), r),
        decreases room(old(self).s@, old(self).pos()), 0int, 2int,
    {
        let c = self.peek();
        self.i += 1;
        if c != 40 {
            if c < 48 {
                return None;
            }
            return Some(Ok((c - 48) as i64));
        }
        self.depth += 1;
        if self.depth > MAX_DEPTH {
            let mut m = String::from_str("expression nested more than 256 levels deep at byte ");
            let b = decimal_string((self.i - 1) as u64);
            m.append(b.as_str());
            return Some(Err(m));
        }
        let v = match self.expr() {
            Some(Ok(v)) => v,
            other => { return other; },
        };
        self.depth -= 1;
        self.i += 1;
        Some(Ok(v))
    }
}

/// The ten-level recursive descent without a depth limit.
pub struct R<'a> {
    pub s: &'a [u8],
    pub i: usize,
}

impl<'a> R<'a> {
    pub open spec fn pos(&self) -> int {
        self.i as int
    }

    pub open spec fn ok(&self) -> bool {
        self.i <= self.s@.len() + 1 && 2 * self.s@.len() + 3 <= usize::MAX
    }

    /// The evaluator moved on over the same input.
    pub open spec fn after(&self, old: &R<'a>, o: Out, r: Option<i64>) -> bool {
        &&& self.s == old.s
        &&& (match o { Out::Val(v, p) => r == Some(v) && self.i == p, _ => r is None })
        &&& (o is Val ==> old.i < self.i <= 2 * self.s@.len() - old.i + 1)
    }

    pub fn peek(&self) -> (c: u8)
        ensures c == at_byte(self.s@, self.i as int),
    {
        if self.i < self.s.len() { self.s[self.i] } else { 0 }
    }

    pub fn expr(&mut self) -> (r: Option<i64>)
        requires old(self).ok(),
        ensures final(self).after(old(self), rd(old(self).s@, old(self).pos(), 9, 0, false), r),
        decreases room(old(self).s@, old(self).pos()), 9int, 1int,
    {
        self.assign()
    }

    pub fn assign(&mut self) -> (r: Option<i64>)
        requires old(self).ok(),
        ensures final(self).after(old(self), rd(old(self).s@, old(self).pos(), 8, 0, false), r),
        decreases room(old(self).s@, old(self).pos()), 8int, 1int,
    {
        self.or()
    }

    pub fn postfix(&mut self) -> (r: Option<i64>)
        requires old(self).ok(),
        ensures final(self).after(old(self), rd(old(self).s@, old(self).pos(), 1, 0, false), r),
        decreases room(old(self).s@, old(self).pos()), 1int, 1int,
    {
        self.primary()
    }

    /// One operand of level `k - 1`, through the method for that level.
    fn level(&mut self, k: u8) -> (r: Option<i64>)
        requires old(self).ok(), k == 7 || k == 6 || k == 4 || k == 3,
        ensures final(self).after(old(self), rd(old(self).s@, old(self).pos(), k - 1, 0, false), r),
        decreases room(old(self).s@, old(self).pos()), k - 1, 3int,
    {
        if k == 7 { self.and() } else if k == 6 { self.cmp() } else if k == 4 { self.mul() } else { self.unary() }
    }

    /// A left-associative level: `or` (7), `and` (6), `add` (4) or `mul` (3).
    fn chain(&mut self, k: u8) -> (r: Option<i64>)
        requires old(self).ok(), k == 7 || k == 6 || k == 4 || k == 3,
        ensures final(self).after(old(self), rd(old(self).s@, old(self).pos(), k as int, 0, false), r),
        decreases room(old(self).s@, old(self).pos()), k, 1int,
    {
        let ghost s = self.s@;
        let ghost i0 = self.i as int;
        let mut v = match self.level(k) {
            Some(v) => v,
            other => { return other; },
        };
        let op: u8 = if k == 7 { 124 } else if k == 6 { 38 } else if k == 4 { 43 } else { 42 };
        loop
            invariant
                self.s@ == s, i0 < self.i <= 2 * s.len() - i0 + 1, 2 * s.len() + 3 <= usize::MAX,
                k == 7 || k == 6 || k == 4 || k == 3,
                op == (if k == 7 { 124u8 } else if k == 6 { 38u8 } else if k == 4 { 43u8 } else { 42u8 }),
                rd(s, i0, k as int, 0, false) == rd_loop(s, self.i as int, k as int, v, 0, false),
                self.s == old(self).s, i0 == old(self).i, s == old(self).s@,
            decreases room(s, self.i as int),
        {
            let c = self.peek();
            if self.i >= self.s.len() || c != op {
                return Some(v);
            }
            let ghost i1 = self.i as int;
            self.i += if k == 7 || k == 6 { 2 } else { 1 };
            assert(room(s, self.i as int) < room(s, i0));
            let w = match self.level(k) {
                Some(w) => w,
                other => { return other; },
            };
            let x: Option<i64> = if k == 7 { Some(v | w) } else if k == 6 { Some(v & w) }
                else if k == 4 { v.checked_add(w) } else { v.checked_mul(w) };
            match x {
                Some(x) => { v = x; },
                None => { return None; },
            }
            assert(i1 < self.i);
        }
    }

    pub fn or(&mut self) -> (r: Option<i64>)
        requires old(self).ok(),
        ensures final(self).after(old(self), rd(old(self).s@, old(self).pos(), 7, 0, false), r),
        decreases room(old(self).s@, old(self).pos()), 7int, 2int,
    {
        self.chain(7)
    }

    pub fn and(&mut self) -> (r: Option<i64>)
        requires old(self).ok(),
        ensures final(self).after(old(self), rd(old(self).s@, old(self).pos(), 6, 0, false), r),
        decreases room(old(self).s@, old(self).pos()), 6int, 2int,
    {
        self.chain(6)
    }

    pub fn cmp(&mut self) -> (r: Option<i64>)
        requires old(self).ok(),
        ensures final(self).after(old(self), rd(old(self).s@, old(self).pos(), 5, 0, false), r),
        decreases room(old(self).s@, old(self).pos()), 5int, 2int,
    {
        let v = match self.add() {
            Some(v) => v,
            other => { return other; },
        };
        if self.peek() == 60 {
            self.i += 1;
            let w = match self.add() {
                Some(w) => w,
                other => { return other; },
            };
            return Some(if v < w { 1 } else { 0 });
        }
        Some(v)
    }

    pub fn add(&mut self) -> (r: Option<i64>)
        requires old(self).ok(),
        ensures final(self).after(old(self), rd(old(self).s@, old(self).pos(), 4, 0, false), r),
        decreases room(old(self).s@, old(self).pos()), 4int, 2int,
    {
        self.chain(4)
    }

    pub fn mul(&mut self) -> (r: Option<i64>)
        requires old(self).ok(),
        ensures final(self).after(old(self), rd(old(self).s@, old(self).pos(), 3, 0, false), r),
        decreases room(old(self).s@, old(self).pos()), 3int, 2int,
    {
        self.chain(3)
    }

    pub fn unary(&mut self) -> (r: Option<i64>)
        requires old(self).ok(),
        ensures final(self).after(old(self), rd(old(self).s@, old(self).pos(), 2, 0, false), r),
        decreases room(old(self).s@, old(self).pos()), 2int, 2int,
    {
        if self.peek() == 45 {
            self.i += 1;
            let v = match self.unary() {
                Some(v) => v,
                other => { return other; },
            };
            if v == i64::MIN {
                return None;
            }
            return Some(-v);
        }
        self.postfix()
    }

    pub fn primary(&mut self) -> (r: Option<i64>)
        requires old(self).ok(),
        ensures final(self).after(old(self), rd(old(self).s@, old(self).pos(), 0, 0, false), r),
        decreases room(old(self).s@, old(self).pos()), 0int, 2int,
    {
        let c = self.peek();
        self.i += 1;
        if c != 40 {
            if c < 48 {
                return None;
            }
            return Some((c - 48) as i64);
        }
        let v = match self.expr() {
            Some(v) => v,
            other => { return other; },
        };
        self.i += 1;
        Some(v)
    }
}



/// The binding powers of the Pratt loop's operators.
pub open spec fn infix_spec(op: u8) -> Option<(u8, u8)> {
    if op == 124 { Some((1u8, 2u8)) } else if op == 38 { Some((3u8, 4u8)) } else if op == 60 { Some((5u8, 6u8)) }
    else if op == 43 { Some((7u8, 8u8)) } else if op == 42 { Some((9u8, 10u8)) } else { None }
}

/// Combining two operands: the exact value, which may not fit `i64`.
pub open spec fn combine(op: u8, a: i64, b: i64) -> int {
    if op == 124 { (a | b) as int } else if op == 38 { (a & b) as int } else if op == 60 { truth(a < b) as int }
    else if op == 43 { a + b } else { a * b }
}

/// The Pratt loop from position `i` with minimum binding power `m`, at nesting depth `d`.
pub open spec fn pr_expr(s: Seq<u8>, i: int, m: u8, d: int) -> Out
    decreases room(s, i), 2int,
{
    if i < 0 {
        Out::Fail
    } else {
        match pr_atom(s, i, d) {
            Out::Val(v, p) => if i <= p { pr_loop(s, p, m, d, v) } else { Out::Fail },
            o => o,
        }
    }
}

/// After the left operand `lhs`, at position `i`.
pub open spec fn pr_loop(s: Seq<u8>, i: int, m: u8, d: int, lhs: i64) -> Out
    decreases room(s, i), 1int,
{
    let c = at_byte(s, i);
    match infix_spec(c) {
        None => Out::Val(lhs, i),
        Some((l, r)) => if l < m || i < 0 || i >= s.len() {
            Out::Val(lhs, i)
        } else {
            let j = if c == 124 || c == 38 { i + 2 } else { i + 1 };
            match pr_expr(s, j, r, d) {
                Out::Val(w, q) => {
                    let x = combine(c, lhs, w);
                    if !(i < q) || x < i64::MIN || x > i64::MAX { Out::Fail } else { pr_loop(s, q, m, d, x as i64) }
                },
                o => o,
            }
        },
    }
}

/// An operand: a digit, a negated operand, or a parenthesized expression one level deeper.
pub open spec fn pr_atom(s: Seq<u8>, i: int, d: int) -> Out
    decreases room(s, i), 0int,
{
    let c = at_byte(s, i);
    if i < 0 {
        Out::Fail
    } else if c == 45 {
        match pr_atom(s, i + 1, d) {
            Out::Val(v, q) => if v == i64::MIN { Out::Fail } else { Out::Val((-v) as i64, q) },
            o => o,
        }
    } else if c == 40 {
        if d + 1 > MAX_DEPTH {
            Out::Deep(i)
        } else {
            match pr_expr(s, i + 1, 0, d + 1) {
                Out::Val(v, p) => Out::Val(v, p + 1),
                o => o,
            }
        }
    } else {
        digit_out(c, i)
    }
}

/// The outcome of the Pratt evaluator as it reports it.
pub open spec fn pr_result(o: Out, r: Option<Result<i64, String>>, fi: int) -> bool {
    match o {
        Out::Val(v, p) => r == Some(Ok::<i64, String>(v)) && fi == p,
        Out::Deep(_) => r matches Some(Err(m)) && m@ == "expression nested more than 256 levels deep"@,
        Out::Fail => r is None,
    }
}

/// The Pratt evaluator: one function per nesting level, plus the operand.
pub struct Pr<'a> {
    pub s: &'a [u8],
    pub i: usize,
    pub depth: usize,
}

impl<'a> Pr<'a> {
    pub open spec fn pos(&self) -> int {
        self.i as int
    }

    pub open spec fn dep(&self) -> int {
        self.depth as int
    }

    pub open spec fn ok(&self) -> bool {
        self.i <= self.s@.len() + 1 && 2 * self.s@.len() + 3 <= usize::MAX && self.depth <= MAX_DEPTH
    }

    pub open spec fn after(&self, old: &Pr<'a>, o: Out, r: Option<Result<i64, String>>) -> bool {
        &&& self.s == old.s
        &&& pr_result(o, r, self.i as int)
        &&& (o is Val ==> self.depth == old.depth && old.i < self.i <= 2 * self.s@.len() - old.i + 1)
    }

    pub fn peek(&self) -> (c: u8)
        ensures c == at_byte(self.s@, self.i as int),
    {
        if self.i < self.s.len() { self.s[self.i] } else { 0 }
    }

    pub fn infix(op: u8) -> (r: Option<(u8, u8)>)
        ensures r == infix_spec(op),
    {
        if op == 124 { Some((1, 2)) } else if op == 38 { Some((3, 4)) } else if op == 60 { Some((5, 6)) }
        else if op == 43 { Some((7, 8)) } else if op == 42 { Some((9, 10)) } else { None }
    }

    pub fn expr_bp(&mut self, min_bp: u8) -> (r: Option<Result<i64, String>>)
        requires old(self).ok(),
        ensures final(self).after(old(self), pr_expr(old(self).s@, old(self).pos(), min_bp, old(self).dep()), r),
        decreases room(old(self).s@, old(self).pos()), 2int,
    {
        let ghost s = self.s@;
        let ghost i0 = self.i as int;
        let ghost d0 = self.depth as int;
        let mut lhs = match self.atom() {
            Some(Ok(v)) => v,
            other => { return other; },
        };
        loop
            invariant
                self.s@ == s, self.depth == d0, i0 < self.i <= 2 * s.len() - i0 + 1, 2 * s.len() + 3 <= usize::MAX,
                d0 <= MAX_DEPTH,
                pr_expr(s, i0, min_bp, d0) == pr_loop(s, self.i as int, min_bp, d0, lhs),
                self.s == old(self).s, i0 == old(self).i, d0 == old(self).depth, s == old(self).s@,
            decreases room(s, self.i as int),
        {
            let op = self.peek();
            let (l, r) = match Self::infix(op) {
                Some(p) => p,
                None => { return Some(Ok(lhs)); },
            };
            if l < min_bp {
                return Some(Ok(lhs));
            }
            self.i += if op == 124 || op == 38 { 2 } else { 1 };
            assert(room(s, self.i as int) < room(s, i0));
            let rhs = match self.expr_bp(r) {
                Some(Ok(w)) => w,
                other => { return other; },
            };
            let x: Option<i64> = if op == 124 { Some(lhs | rhs) } else if op == 38 { Some(lhs & rhs) }
                else if op == 60 { Some(if lhs < rhs { 1 } else { 0 }) }
                else if op == 43 { lhs.checked_add(rhs) } else { lhs.checked_mul(rhs) };
            match x {
                Some(x) => { lhs = x; },
                None => { return None; },
            }
        }
    }

    pub fn atom(&mut self) -> (r: Option<Result<i64, String>>)
        requires old(self).ok(),
        ensures final(self).after(old(self), pr_atom(old(self).s@, old(self).pos(), old(self).dep()), r),
        decreases room(old(self).s@, old(self).pos()), 0int,
    {
        let c = self.peek();
        self.i += 1;
        if c == 45 {
            let v = match self.atom() {
                Some(Ok(v)) => v,
                other => { return other; },
            };
            if v == i64::MIN {
                return None;
            }
            return Some(Ok(-v));
        }
        if c == 40 {
            self.depth += 1;
            if self.depth > MAX_DEPTH {
                return Some(Err(String::from_str("expression nested more than 256 levels deep")));
            }
            let v = match self.expr_bp(0) {
                Some(Ok(v)) => v,
                other => { return other; },
            };
            self.depth -= 1;
            self.i += 1;
            return Some(Ok(v));
        }
        if c < 48 {
            return None;
        }
        Some(Ok((c - 48) as i64))
    }
}

/// A number nested in `depth` pairs of parentheses: `((…1+2…))`.
pub fn nested(depth: usize) -> (s: String)
    ensures s@ == Seq::new(depth as nat, |i: int| '(') + "1+2"@ + Seq::new(depth as nat, |i: int| ')'),
{
    let mut s = String::new();
    let mut k: usize = 0;
    while k < depth
        invariant k <= depth, s@ == Seq::new(k as nat, |i: int| '('),
        decreases depth - k,
    {
        s.append("(");
        k += 1;
        proof { reveal_strlit("("); }
        assert(s@ =~= Seq::new(k as nat, |i: int| '('));
    }
    s.append("1+2");
    let ghost pre = s@;
    let mut k: usize = 0;
    while k < depth
        invariant k <= depth, s@ == pre + Seq::new(k as nat, |i: int| ')'),
        decreases depth - k,
    {
        s.append(")");
        k += 1;
        proof { reveal_strlit(")"); }
        assert(s@ =~= pre + Seq::new(k as nat, |i: int| ')'));
    }
    s
}

} // verus!
