//! Byte classes shared by the lexers: ASCII digits, letters, whitespace.

use vstd::prelude::*;

verus! {

/// `u8::is_ascii_whitespace`: space, tab, line feed, form feed, carriage return.
pub open spec fn is_ws(c: u8) -> bool {
    c == 32 || c == 9 || c == 10 || c == 12 || c == 13
}

pub open spec fn is_digit(c: u8) -> bool {
    48 <= c <= 57
}

pub open spec fn is_alpha(c: u8) -> bool {
    (65 <= c <= 90) || (97 <= c <= 122)
}

pub open spec fn is_alnum(c: u8) -> bool {
    is_digit(c) || is_alpha(c)
}

/// A byte that may continue an identifier: a letter, a digit or `_`.
pub open spec fn is_ident_byte(c: u8) -> bool {
    is_alnum(c) || c == 95
}

/// The byte at `i`, if there is one.
pub open spec fn byte_at(b: Seq<u8>, i: int) -> Option<u8> {
    if 0 <= i < b.len() { Some(b[i]) } else { None }
}

pub fn ws(c: u8) -> (r: bool)
    ensures r == is_ws(c),
{
    c == 32 || c == 9 || c == 10 || c == 12 || c == 13
}

pub fn digit(c: u8) -> (r: bool)
    ensures r == is_digit(c),
{
    48 <= c && c <= 57
}

pub fn alpha(c: u8) -> (r: bool)
    ensures r == is_alpha(c),
{
    (65 <= c && c <= 90) || (97 <= c && c <= 122)
}

pub fn alnum(c: u8) -> (r: bool)
    ensures r == is_alnum(c),
{
    digit(c) || alpha(c)
}

pub fn ident_byte(c: u8) -> (r: bool)
    ensures r == is_ident_byte(c),
{
    alnum(c) || c == 95
}

pub fn get(b: &[u8], i: usize) -> (r: Option<u8>)
    ensures r == byte_at(b@, i as int),
{
    if i < b.len() { Some(b[i]) } else { None }
}

/// Whether `b[lo..hi]` spells `w`.
pub fn span_is(b: &[u8], lo: usize, hi: usize, w: &[u8]) -> (r: bool)
    requires lo <= hi <= b@.len(),
    ensures r == (b@.subrange(lo as int, hi as int) == w@),
{
    if hi - lo != w.len() {
        return false;
    }
    let mut k: usize = 0;
    while k < w.len()
        invariant
            hi - lo == w@.len(), lo <= hi <= b@.len(), k <= w@.len(),
            forall|j: int| 0 <= j < k ==> b@[lo + j] == w@[j],
        decreases w@.len() - k,
    {
        if b[lo + k] != w[k] {
            assert(b@.subrange(lo as int, hi as int)[k as int] != w@[k as int]);
            return false;
        }
        k += 1;
    }
    assert(b@.subrange(lo as int, hi as int) =~= w@);
    true
}

} // verus!
