//! Two's-complement `i64` arithmetic as the compiled code performs it.

use vstd::prelude::*;

verus! {

/// Wrapping addition.
pub open spec fn wadd(x: i64, y: i64) -> i64 {
    vstd::wrapping::i64_specs::wrapping_add(x, y)
}

/// Wrapping subtraction.
pub open spec fn wsub(x: i64, y: i64) -> i64 {
    vstd::wrapping::i64_specs::wrapping_sub(x, y)
}

/// Wrapping multiplication.
pub open spec fn wmul(x: i64, y: i64) -> i64 {
    vstd::wrapping::i64_specs::wrapping_mul(x, y)
}

/// A wrapping sum that fits is the sum.
pub proof fn lemma_wadd_exact(x: i64, y: i64)
    requires i64::MIN <= x + y <= i64::MAX,
    ensures wadd(x, y) == x + y,
{
}

/// A wrapping product that fits is the product.
pub proof fn lemma_wmul_exact(x: i64, y: i64)
    requires i64::MIN <= x * y <= i64::MAX,
    ensures wmul(x, y) == x * y,
{
    let p: int = x * y;
    let m: int = 0x1_0000_0000_0000_0000;
    if p >= 0 {
        vstd::arithmetic::div_mod::lemma_small_mod(p as nat, m as nat);
    } else {
        vstd::arithmetic::div_mod::lemma_small_mod((p + m) as nat, m as nat);
        vstd::arithmetic::div_mod::lemma_mod_add_multiples_vanish(p, m);
    }
}

/// A wrapping difference that fits is the difference.
pub proof fn lemma_wsub_exact(x: i64, y: i64)
    requires i64::MIN <= x - y <= i64::MAX,
    ensures wsub(x, y) == x - y,
{
}

/// Truncating division and remainder, in range, are Rust's `/` and `%`: the dividend is
/// quotient times divisor plus remainder, the remainder is smaller than the divisor in
/// magnitude, and it is zero or has the dividend's sign.
pub proof fn lemma_wdiv_wrem_meaning(x: i64, d: i64)
    requires d != 0, !(x == i64::MIN && d == -1),
    ensures
        x == wdiv(x, d) * d + wrem(x, d),
        (if wrem(x, d) < 0 { -wrem(x, d) } else { wrem(x, d) as int }) < (if d < 0 { -d } else { d as int }),
        wrem(x, d) == 0 || ((wrem(x, d) < 0) == (x < 0)),
{
    lemma_trunc_bounds(x, d);
    let a = x as int;
    let b = d as int;
    let q = trunc_div(a, b);
    let r = trunc_rem(a, b);
    assert(wdiv(x, d) == q);
    assert(wrem(x, d) == r);
    if a == 0 {
    } else if a > 0 && b > 0 {
        assert(a == (a / b) * b + a % b && 0 <= a % b < b) by (nonlinear_arith) requires a > 0, b > 0;
    } else if a < 0 && b < 0 {
        assert(-a == ((-a) / (-b)) * (-b) + (-a) % (-b) && 0 <= (-a) % (-b) < -b) by (nonlinear_arith) requires a < 0, b < 0;
        assert(a == q * b + r) by (nonlinear_arith) requires q == (-a) / (-b), r == -((-a) % (-b)), -a == ((-a) / (-b)) * (-b) + (-a) % (-b);
    } else if a < 0 {
        assert(-a == ((-a) / b) * b + (-a) % b && 0 <= (-a) % b < b) by (nonlinear_arith) requires a < 0, b > 0;
        assert(a == q * b + r) by (nonlinear_arith) requires q == -((-a) / b), r == -((-a) % b), -a == ((-a) / b) * b + (-a) % b;
    } else {
        assert(a == (a / (-b)) * (-b) + a % (-b) && 0 <= a % (-b) < -b) by (nonlinear_arith) requires a > 0, b < 0;
        assert(a == q * b + r) by (nonlinear_arith) requires q == -(a / (-b)), r == a % (-b), a == (a / (-b)) * (-b) + a % (-b);
    }
}

/// Wrapping negation: only `i64::MIN` wraps (to itself).
pub open spec fn wneg(x: i64) -> i64 {
    if x == i64::MIN { i64::MIN } else { (-x) as i64 }
}

/// Division rounding toward zero, as Rust's `/` does, over the integers.
pub open spec fn trunc_div(x: int, d: int) -> int {
    if x == 0 {
        0
    } else if x > 0 && d > 0 {
        x / d
    } else if x < 0 && d < 0 {
        (-x) / (-d)
    } else if x < 0 {
        -((-x) / d)
    } else {
        -(x / (-d))
    }
}

/// Remainder with the sign of the dividend, as Rust's `%` does, over the integers.
pub open spec fn trunc_rem(x: int, d: int) -> int {
    if x == 0 {
        0
    } else if x > 0 && d > 0 {
        x % d
    } else if x < 0 && d < 0 {
        -((-x) % (-d))
    } else if x < 0 {
        -((-x) % d)
    } else {
        x % (-d)
    }
}

/// Wrapping division (the divisor is nonzero): `i64::MIN / -1` wraps to `i64::MIN`.
pub open spec fn wdiv(x: i64, d: i64) -> i64 {
    if x == i64::MIN && d == -1 { i64::MIN } else { trunc_div(x as int, d as int) as i64 }
}

/// Wrapping remainder (the divisor is nonzero): `i64::MIN % -1` is 0.
pub open spec fn wrem(x: i64, d: i64) -> i64 {
    if x == i64::MIN && d == -1 { 0 } else { trunc_rem(x as int, d as int) as i64 }
}

/// The boolean encoding used by every machine in this crate: 1 for true, 0 for false.
pub open spec fn b2i(b: bool) -> i64 {
    if b { 1 } else { 0 }
}

pub fn wrapping_neg(x: i64) -> (r: i64)
    ensures r == wneg(x),
{
    if x == i64::MIN { i64::MIN } else { -x }
}

/// Quotients and remainders of in-range operands stay in range, except `i64::MIN / -1`.
pub proof fn lemma_trunc_bounds(x: i64, d: i64)
    requires d != 0, !(x == i64::MIN && d == -1),
    ensures
        i64::MIN <= trunc_div(x as int, d as int) <= i64::MAX,
        i64::MIN <= trunc_rem(x as int, d as int) <= i64::MAX,
{
    let a = x as int;
    let b = d as int;
    if a > 0 && b > 0 {
        assert(0 <= a / b <= a) by (nonlinear_arith) requires a > 0, b > 0;
        assert(0 <= a % b < b) by (nonlinear_arith) requires a > 0, b > 0;
    } else if a < 0 && b < 0 {
        assert(0 <= (-a) / (-b) <= -a) by (nonlinear_arith) requires a < 0, b < 0;
        assert(0 <= (-a) % (-b) < -b) by (nonlinear_arith) requires a < 0, b < 0;
        if b == -1 {
            assert((-a) / (-b) == -a);
        } else {
            assert((-a) / (-b) <= (-a) / 2) by (nonlinear_arith) requires a < 0, b <= -2;
        }
    } else if a < 0 {
        assert(0 <= (-a) / b <= -a) by (nonlinear_arith) requires a < 0, b > 0;
        assert(0 <= (-a) % b < b) by (nonlinear_arith) requires a < 0, b > 0;
    } else if a > 0 {
        assert(0 <= a / (-b) <= a) by (nonlinear_arith) requires a > 0, b < 0;
        assert(0 <= a % (-b) < -b) by (nonlinear_arith) requires a > 0, b < 0;
    }
}

pub fn wrapping_div(x: i64, d: i64) -> (r: i64)
    requires d != 0,
    ensures r == wdiv(x, d),
{
    if x == i64::MIN && d == -1 {
        return i64::MIN;
    }
    proof { lemma_trunc_bounds(x, d); }
    match x.checked_div(d) {
        Some(q) => q,
        None => i64::MIN,
    }
}

pub fn wrapping_rem(x: i64, d: i64) -> (r: i64)
    requires d != 0,
    ensures r == wrem(x, d),
{
    if x == i64::MIN && d == -1 {
        return 0;
    }
    proof { lemma_trunc_bounds(x, d); }
    match x.checked_rem(d) {
        Some(q) => q,
        None => 0,
    }
}

pub fn bool_to_i64(b: bool) -> (r: i64)
    ensures r == b2i(b),
{
    if b { 1 } else { 0 }
}

} // verus!
