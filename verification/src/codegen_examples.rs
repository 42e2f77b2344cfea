//! Small functions whose compiled form shows what the back end does: constant folding,
//! common subexpressions, loop-invariant motion, induction variables, dead stores,
//! trapping division, and the calling convention.

use vstd::prelude::*;
use crate::wrap::{wadd, wmul, trunc_div, wrapping_div, lemma_trunc_bounds, lemma_wadd_exact, lemma_wmul_exact};

verus! {

/// `3x + 1`.
pub fn scale(x: i64) -> (r: i64)
    requires -3074457345618258602 <= x <= 3074457345618258601,
    ensures r == 3 * x + 1,
{
    let y = x * 3;
    y + 1
}

/// Whether `x + 1` wraps below `x`: true exactly for `i64::MAX`.
pub fn wraps(x: i64) -> (r: bool)
    ensures r == (x == i64::MAX),
{
    x.wrapping_add(1) < x
}

/// `(ab + 1)(ab + 2)`, with the wrapping arithmetic of a release build; the exact value
/// when nothing overflows.
pub fn cse(a: i64, b: i64) -> (r: i64)
    ensures
        r == wmul(wadd(wmul(a, b), 1), wadd(wmul(a, b), 2)),
        i64::MIN <= a * b <= i64::MAX - 2 && i64::MIN <= (a * b + 1) * (a * b + 2) <= i64::MAX
            ==> r == (a * b + 1) * (a * b + 2),
{
    let ab = a.wrapping_mul(b);
    let r = ab.wrapping_add(1).wrapping_mul(ab.wrapping_add(2));
    proof {
        if i64::MIN <= a * b <= i64::MAX - 2 && i64::MIN <= (a * b + 1) * (a * b + 2) <= i64::MAX {
            lemma_wmul_exact(a, b);
            lemma_wadd_exact(ab, 1);
            lemma_wadd_exact(ab, 2);
            lemma_wmul_exact((ab + 1) as i64, (ab + 2) as i64);
        }
    }
    r
}

/// `n` additions of `v`, wrapping: what a loop that adds a fixed value computes.
pub open spec fn repeated_wadd(k: nat, v: i64) -> i64
    decreases k,
{
    if k == 0 { 0 } else { wadd(repeated_wadd((k - 1) as nat, v), v) }
}

/// `1 + 2 + ... + k`, wrapping at `u64`.
pub open spec fn triangle_wrapping(k: nat) -> u64
    decreases k,
{
    if k == 0 { 0 } else { vstd::wrapping::u64_specs::wrapping_add(triangle_wrapping((k - 1) as nat), k as u64) }
}

/// `1 + 2 + ... + k` over the integers.
pub open spec fn triangle_int(k: int) -> int
    decreases k,
{
    if k <= 0 { 0 } else { triangle_int(k - 1) + k }
}

/// Adds `a * b` to every element.
pub fn scale_all(xs: &mut [i64], a: i64, b: i64)
    requires
        i64::MIN <= a * b <= i64::MAX,
        forall|i: int| 0 <= i < old(xs)@.len() ==> i64::MIN <= #[trigger] old(xs)@[i] + a * b <= i64::MAX,
    ensures
        final(xs)@.len() == old(xs)@.len(),
        forall|i: int| 0 <= i < old(xs)@.len() ==> #[trigger] final(xs)@[i] == old(xs)@[i] + a * b,
{
    let n = xs.len();
    let mut k: usize = 0;
    while k < n
        invariant
            n == xs@.len(),
            xs@.len() == old(xs)@.len(),
            0 <= k <= n,
            i64::MIN <= a * b <= i64::MAX,
            forall|i: int| 0 <= i < old(xs)@.len() ==> i64::MIN <= #[trigger] old(xs)@[i] + a * b <= i64::MAX,
            forall|i: int| 0 <= i < k ==> #[trigger] xs@[i] == old(xs)@[i] + a * b,
            forall|i: int| k <= i < n ==> #[trigger] xs@[i] == old(xs)@[i],
        decreases n - k,
    {
        let v = xs[k] + a * b;
        xs[k] = v;
        k = k + 1;
    }
}

/// `1 + 2 + ... + n`, wrapping at `u64`.
pub fn triangle(n: u64) -> (r: u64)
    ensures r == triangle_wrapping(n as nat),
{
    let mut s: u64 = 0;
    let mut i: u64 = 0;
    while i < n
        invariant i <= n, s == triangle_wrapping(i as nat),
        decreases n - i,
    {
        i += 1;
        s = s.wrapping_add(i);
    }
    s
}

/// Stores twice; only the second store is observable.
pub fn overwrite(x: &mut i64)
    ensures *final(x) == 2,
{
    *x = 1;
    *x = 2;
}

/// Rust's checked `/`: the caller rules out a zero divisor and `i64::MIN / -1`.
pub fn divide(a: i64, b: i64) -> (r: i64)
    requires b != 0, !(a == i64::MIN && b == -1),
    ensures r == trunc_div(a as int, b as int),
{
    proof { lemma_trunc_bounds(a, b); }
    wrapping_div(a, b)
}

/// Adds `b / a` to an accumulator `n` times, but only when `a != 0`.
pub fn guarded_sum(n: u64, a: i64, b: i64) -> (r: i64)
    requires n == 0 || a == 0 || !(b == i64::MIN && a == -1),
    ensures r == (if a == 0 { 0 } else { repeated_wadd(n as nat, trunc_div(b as int, a as int) as i64) }),
{
    let mut acc: i64 = 0;
    let mut k: u64 = 0;
    while k < n
        invariant
            k <= n,
            n == 0 || a == 0 || !(b == i64::MIN && a == -1),
            acc == (if a == 0 { 0 } else { repeated_wadd(k as nat, trunc_div(b as int, a as int) as i64) }),
        decreases n - k,
    {
        if a != 0 {
            acc = acc.wrapping_add(wrapping_div(b, a));
        }
        k += 1;
    }
    acc
}

/// `a + 2b + 3c + 4d + 5e + 6f + 7g`: seven arguments, the last one passed on the stack;
/// wrapping as a release build computes it, and exact when nothing overflows.
pub open spec fn seven_wrapping(a: i64, b: i64, c: i64, d: i64, e: i64, f: i64, g: i64) -> i64 {
    wadd(wadd(wadd(wadd(wadd(wadd(a, wmul(2, b)), wmul(3, c)), wmul(4, d)), wmul(5, e)), wmul(6, f)), wmul(7, g))
}

pub fn seven(a: i64, b: i64, c: i64, d: i64, e: i64, f: i64, g: i64) -> (r: i64)
    ensures
        r == seven_wrapping(a, b, c, d, e, f, g),
        i64::MIN <= 2 * b <= i64::MAX && i64::MIN <= 3 * c <= i64::MAX && i64::MIN <= 4 * d <= i64::MAX
            && i64::MIN <= 5 * e <= i64::MAX && i64::MIN <= 6 * f <= i64::MAX && i64::MIN <= 7 * g <= i64::MAX
            && i64::MIN <= a + 2 * b <= i64::MAX
            && i64::MIN <= a + 2 * b + 3 * c <= i64::MAX
            && i64::MIN <= a + 2 * b + 3 * c + 4 * d <= i64::MAX
            && i64::MIN <= a + 2 * b + 3 * c + 4 * d + 5 * e <= i64::MAX
            && i64::MIN <= a + 2 * b + 3 * c + 4 * d + 5 * e + 6 * f <= i64::MAX
            && i64::MIN <= a + 2 * b + 3 * c + 4 * d + 5 * e + 6 * f + 7 * g <= i64::MAX
            ==> r == a + 2 * b + 3 * c + 4 * d + 5 * e + 6 * f + 7 * g,
{
    let t1 = a.wrapping_add(2i64.wrapping_mul(b));
    let t2 = t1.wrapping_add(3i64.wrapping_mul(c));
    let t3 = t2.wrapping_add(4i64.wrapping_mul(d));
    let t4 = t3.wrapping_add(5i64.wrapping_mul(e));
    let t5 = t4.wrapping_add(6i64.wrapping_mul(f));
    let r = t5.wrapping_add(7i64.wrapping_mul(g));
    proof {
        if i64::MIN <= 2 * b <= i64::MAX && i64::MIN <= 3 * c <= i64::MAX && i64::MIN <= 4 * d <= i64::MAX
            && i64::MIN <= 5 * e <= i64::MAX && i64::MIN <= 6 * f <= i64::MAX && i64::MIN <= 7 * g <= i64::MAX
            && i64::MIN <= a + 2 * b <= i64::MAX
            && i64::MIN <= a + 2 * b + 3 * c <= i64::MAX
            && i64::MIN <= a + 2 * b + 3 * c + 4 * d <= i64::MAX
            && i64::MIN <= a + 2 * b + 3 * c + 4 * d + 5 * e <= i64::MAX
            && i64::MIN <= a + 2 * b + 3 * c + 4 * d + 5 * e + 6 * f <= i64::MAX
            && i64::MIN <= a + 2 * b + 3 * c + 4 * d + 5 * e + 6 * f + 7 * g <= i64::MAX {
            lemma_wmul_exact(2, b); lemma_wmul_exact(3, c); lemma_wmul_exact(4, d);
            lemma_wmul_exact(5, e); lemma_wmul_exact(6, f); lemma_wmul_exact(7, g);
            lemma_wadd_exact(a, wmul(2, b));
            lemma_wadd_exact(t1, wmul(3, c));
            lemma_wadd_exact(t2, wmul(4, d));
            lemma_wadd_exact(t3, wmul(5, e));
            lemma_wadd_exact(t4, wmul(6, f));
            lemma_wadd_exact(t5, wmul(7, g));
        }
    }
    r
}

/// `std::hint::black_box`: documented as the identity function.
#[verifier::external_body]
fn black_box_i64(x: i64) -> (r: i64)
    ensures r == x,
{
    std::hint::black_box(x)
}

/// The identity, hidden from the optimizer.
pub fn opaque(x: i64) -> (r: i64)
    ensures r == x,
{
    black_box_i64(x)
}

/// Values needed after a call must survive it: `7x + 11y`, computed as
/// `opaque(3x + 5y) + 3x + 5y + x + y` with wrapping arithmetic; exact when nothing overflows.
pub open spec fn across_call_wrapping(x: i64, y: i64) -> i64 {
    let p = wmul(x, 3);
    let q = wmul(y, 5);
    let r = wadd(p, q);
    wadd(wadd(wadd(wadd(r, p), q), x), y)
}

pub fn across_call(x: i64, y: i64) -> (r: i64)
    ensures
        r == across_call_wrapping(x, y),
        i64::MIN <= 3 * x <= i64::MAX && i64::MIN <= 5 * y <= i64::MAX
            && i64::MIN <= 3 * x + 5 * y <= i64::MAX
            && i64::MIN <= 6 * x + 5 * y <= i64::MAX
            && i64::MIN <= 6 * x + 10 * y <= i64::MAX
            && i64::MIN <= 7 * x + 10 * y <= i64::MAX
            && i64::MIN <= 7 * x + 11 * y <= i64::MAX
            ==> r == 7 * x + 11 * y,
{
    let p = x.wrapping_mul(3);
    let q = y.wrapping_mul(5);
    let r = opaque(p.wrapping_add(q));
    let s1 = r.wrapping_add(p);
    let s2 = s1.wrapping_add(q);
    let s3 = s2.wrapping_add(x);
    let out = s3.wrapping_add(y);
    proof {
        if i64::MIN <= 3 * x <= i64::MAX && i64::MIN <= 5 * y <= i64::MAX
            && i64::MIN <= 3 * x + 5 * y <= i64::MAX
            && i64::MIN <= 6 * x + 5 * y <= i64::MAX
            && i64::MIN <= 6 * x + 10 * y <= i64::MAX
            && i64::MIN <= 7 * x + 10 * y <= i64::MAX
            && i64::MIN <= 7 * x + 11 * y <= i64::MAX {
            lemma_wmul_exact(x, 3); lemma_wmul_exact(y, 5);
            lemma_wadd_exact(p, q);
            lemma_wadd_exact(r, p);
            lemma_wadd_exact(s1, q);
            lemma_wadd_exact(s2, x);
            lemma_wadd_exact(s3, y);
        }
    }
    out
}

/// `1 + 2 + ... + n`, a counted loop as rustc compiles it.
pub fn sum_to(n: i64) -> (r: i64)
    requires triangle_int(n as int) <= i64::MAX,
    ensures r == triangle_int(n as int),
{
    let mut i: i64 = 0;
    let mut total: i64 = 0;
    while i < n
        invariant
            0 <= i,
            i == 0 || i <= n,
            total == triangle_int(i as int),
            triangle_int(n as int) <= i64::MAX,
        decreases n - i,
    {
        i += 1;
        proof { lemma_triangle_monotone(i as int, n as int); }
        total += opaque(i);
    }
    assert(i == n || (n <= 0 && i == 0));
    total
}

proof fn lemma_triangle_monotone(i: int, j: int)
    requires i <= j,
    ensures triangle_int(i) <= triangle_int(j),
    decreases j - i,
{
    if i < j {
        lemma_triangle_monotone(i, j - 1);
        assert(triangle_int(j) == triangle_int(j - 1) + j || j <= 0);
    }
}

/// An item used before its definition: items are visible in their whole module.
pub fn later(a: i32) -> (r: i32)
    requires a <= i32::MAX - 100,
    ensures r == a + 100,
{
    a + 100
}

} // verus!
