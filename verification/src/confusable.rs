//! A rule literal that looks like "DE" but holds a Cyrillic letter. The check a rule lexer
//! should run on every literal: flag characters from a table of known look-alikes, and say
//! when they are mixed with ASCII letters.

use vstd::prelude::*;
use vstd::string::{StringExecFns, StrSliceExecFns};
use crate::spans::{unicode_white, char_is_whitespace, push_char, chars_vec};
use crate::text::{ascii_chars, decimal, decimal_string};
use crate::precedence::strings_view;

verus! {

/// Drops white space at the front.
pub open spec fn trim_front(s: Seq<char>, quote: bool) -> Seq<char>
    decreases s.len(),
{
    if s.len() > 0 && (if quote { s[0] == '"' } else { unicode_white(s[0]) }) {
        trim_front(s.drop_first(), quote)
    } else {
        s
    }
}

/// Drops white space (or, with `quote`, double quotes) at the back.
pub open spec fn trim_back(s: Seq<char>, quote: bool) -> Seq<char>
    decreases s.len(),
{
    if s.len() > 0 && (if quote { s.last() == '"' } else { unicode_white(s.last()) }) {
        trim_back(s.drop_last(), quote)
    } else {
        s
    }
}

/// `str::trim` (`quote` false) and `str::trim_matches('"')` (`quote` true).
pub open spec fn trim_spec(s: Seq<char>, quote: bool) -> Seq<char> {
    trim_back(trim_front(s, quote), quote)
}

/// Where `==` first occurs.
pub open spec fn eqeq_from(s: Seq<char>, i: int) -> Option<int>
    decreases s.len() - i,
{
    if i < 0 || i + 1 >= s.len() {
        None
    } else if s[i] == '=' && s[i + 1] == '=' {
        Some(i)
    } else {
        eqeq_from(s, i + 1)
    }
}

/// A rule `name == "literal"` split into its field and its literal; `None` without `==`.
pub open spec fn rule_spec(s: Seq<char>) -> Option<(Seq<char>, Seq<char>)> {
    match eqeq_from(s, 0) {
        Some(j) => Some((trim_spec(s.subrange(0, j), false),
            trim_spec(trim_spec(s.subrange(j + 2, s.len() as int), false), true))),
        None => None,
    }
}

fn matches_trim(c: char, quote: bool) -> (r: bool)
    ensures r == (if quote { c == '"' } else { unicode_white(c) }),
{
    if quote { c == '"' } else { char_is_whitespace(c) }
}

/// Trims `cs[lo..hi]` at both ends; the bounds of what is left.
fn trim_range(cs: &Vec<char>, lo: usize, hi: usize, quote: bool) -> (r: (usize, usize))
    requires lo <= hi <= cs@.len(),
    ensures
        lo <= r.0 <= r.1 <= hi,
        cs@.subrange(r.0 as int, r.1 as int) == trim_spec(cs@.subrange(lo as int, hi as int), quote),
{
    let mut a = lo;
    while a < hi && matches_trim(cs[a], quote)
        invariant
            lo <= a <= hi, hi <= cs@.len(),
            trim_front(cs@.subrange(a as int, hi as int), quote) == trim_front(cs@.subrange(lo as int, hi as int), quote),
        decreases hi - a,
    {
        assert(cs@.subrange(a as int, hi as int).drop_first() =~= cs@.subrange(a + 1, hi as int));
        a += 1;
    }
    let mut b = hi;
    while b > a && matches_trim(cs[b - 1], quote)
        invariant
            lo <= a <= b <= hi, hi <= cs@.len(),
            trim_back(cs@.subrange(a as int, b as int), quote) == trim_back(cs@.subrange(a as int, hi as int), quote),
        decreases b - a,
    {
        assert(cs@.subrange(a as int, b as int).drop_last() =~= cs@.subrange(a as int, b - 1));
        b -= 1;
    }
    (a, b)
}

fn string_of(cs: &Vec<char>, lo: usize, hi: usize) -> (s: String)
    requires lo <= hi <= cs@.len(),
    ensures s@ == cs@.subrange(lo as int, hi as int),
{
    let mut s = String::new();
    let mut k = lo;
    while k < hi
        invariant lo <= k <= hi, hi <= cs@.len(), s@ == cs@.subrange(lo as int, k as int),
        decreases hi - k,
    {
        push_char(&mut s, cs[k]);
        k += 1;
        assert(s@ =~= cs@.subrange(lo as int, k as int));
    }
    s
}

/// Splits a rule `name == "literal"` into its trimmed field and its literal without
/// quotes; `None` when the rule has no `==`.
pub fn lex_rule(src: &str) -> (r: Option<(String, String)>)
    ensures
        match rule_spec(src@) {
            Some((f, l)) => r matches Some(p) && p.0@ == f && p.1@ == l,
            None => r is None,
        },
{
    let cs = chars_vec(src);
    let n = cs.len();
    let mut j: usize = 0;
    while n > 0 && j < n - 1 && !(cs[j] == '=' && cs[j + 1] == '=')
        invariant j <= n, n == cs@.len(), eqeq_from(cs@, j as int) == eqeq_from(cs@, 0),
        decreases n - j,
    {
        j += 1;
    }
    if n == 0 || j >= n - 1 {
        return None;
    }
    let (fa, fb) = trim_range(&cs, 0, j, false);
    let (la, lb) = trim_range(&cs, j + 2, n, false);
    let (qa, qb) = trim_range(&cs, la, lb, true);
    assert(cs@.subrange(la as int, lb as int).subrange((qa - la) as int, (qb - la) as int) =~= cs@.subrange(qa as int, qb as int));
    proof {
        let t = cs@.subrange(la as int, lb as int);
        assert(t =~= cs@.subrange(la as int, lb as int));
    }
    Some((string_of(&cs, fa, fb), string_of(&cs, qa, qb)))
}

/// The look-alike table: a character from another script, the Latin letter it imitates,
/// and its Unicode name.
pub open spec fn confusable_spec(c: char) -> Option<(char, Seq<char>)> {
    if c == '\u{0410}' { Some(('A', "CYRILLIC CAPITAL LETTER A"@)) }
    else if c == '\u{0415}' { Some(('E', "CYRILLIC CAPITAL LETTER IE"@)) }
    else if c == '\u{041E}' { Some(('O', "CYRILLIC CAPITAL LETTER O"@)) }
    else if c == '\u{0420}' { Some(('P', "CYRILLIC CAPITAL LETTER ER"@)) }
    else if c == '\u{0421}' { Some(('C', "CYRILLIC CAPITAL LETTER ES"@)) }
    else if c == '\u{0391}' { Some(('A', "GREEK CAPITAL LETTER ALPHA"@)) }
    else if c == '\u{0395}' { Some(('E', "GREEK CAPITAL LETTER EPSILON"@)) }
    else { None }
}

pub fn confusable(c: char) -> (r: Option<(char, &'static str)>)
    ensures
        match confusable_spec(c) {
            Some((l, n)) => r matches Some(p) && p.0 == l && p.1@ == n,
            None => r is None,
        },
{
    if c == '\u{0410}' { Some(('A', "CYRILLIC CAPITAL LETTER A")) }
    else if c == '\u{0415}' { Some(('E', "CYRILLIC CAPITAL LETTER IE")) }
    else if c == '\u{041E}' { Some(('O', "CYRILLIC CAPITAL LETTER O")) }
    else if c == '\u{0420}' { Some(('P', "CYRILLIC CAPITAL LETTER ER")) }
    else if c == '\u{0421}' { Some(('C', "CYRILLIC CAPITAL LETTER ES")) }
    else if c == '\u{0391}' { Some(('A', "GREEK CAPITAL LETTER ALPHA")) }
    else if c == '\u{0395}' { Some(('E', "GREEK CAPITAL LETTER EPSILON")) }
    else { None }
}

/// How many bytes UTF-8 takes for a character.
pub open spec fn utf8_width(c: char) -> nat {
    if (c as u32) < 0x80 { 1 } else if (c as u32) < 0x800 { 2 } else if (c as u32) < 0x10000 { 3 } else { 4 }
}

/// The byte offset of character `k`.
pub open spec fn byte_offset(s: Seq<char>, k: int) -> nat
    decreases k,
{
    if k <= 0 || k > s.len() { 0 } else { byte_offset(s, k - 1) + utf8_width(s[k - 1]) }
}

pub open spec fn hex_digit(d: int) -> char {
    if d < 10 { ((48 + d) as u8) as char } else { ((55 + d) as u8) as char }
}

/// Upper-case hexadecimal digits without leading zeros ("0" for zero).
pub open spec fn hex(n: nat) -> Seq<char>
    decreases n,
{
    if n < 16 { seq![hex_digit(n as int)] } else { hex(n / 16).push(hex_digit((n % 16) as int)) }
}

/// At least four hexadecimal digits, padded with zeros.
pub open spec fn hex4(n: nat) -> Seq<char> {
    let h = hex(n);
    if h.len() < 4 { Seq::new((4 - h.len()) as nat, |i: int| '0') + h } else { h }
}

fn push_hex(s: &mut String, n: u32)
    ensures final(s)@ == old(s)@ + hex(n as nat),
    decreases n,
{
    if n >= 16 {
        push_hex(s, n / 16);
    }
    let d = n % 16;
    let c = if d < 10 { ((48 + d) as u8) as char } else { ((55 + d) as u8) as char };
    assert(c == hex_digit(d as int));
    push_char(s, c);
    assert(final(s)@ =~= old(s)@ + hex(n as nat)) by {
        if n >= 16 {
            assert(hex(n as nat) == hex((n / 16) as nat).push(hex_digit((n % 16) as int)));
        }
    }
}

fn hex4_string(n: u32) -> (s: String)
    ensures s@ == hex4(n as nat),
{
    let mut h = String::new();
    push_hex(&mut h, n);
    assert(h@ =~= hex(n as nat));
    let len = h.as_str().unicode_len();
    let mut s = String::new();
    if len < 4 {
        let mut k = len;
        while k < 4
            invariant len <= k <= 4, len < 4, s@ == Seq::new((k - len) as nat, |i: int| '0'),
            decreases 4 - k,
        {
            push_char(&mut s, '0');
            k += 1;
            assert(s@ =~= Seq::new((k - len) as nat, |i: int| '0'));
        }
    }
    s.append(h.as_str());
    s
}

pub open spec fn is_ascii_letter(c: char) -> bool {
    ('A' <= c <= 'Z') || ('a' <= c <= 'z')
}

pub open spec fn has_ascii_letter(s: Seq<char>) -> bool {
    exists|k: int| 0 <= k < s.len() && is_ascii_letter(#[trigger] s[k])
}

/// The warning for a look-alike character at byte `off`.
pub open spec fn warning_text(off: nat, c: char, looks: char, name: Seq<char>, mixed: bool) -> Seq<char> {
    "byte "@ + ascii_chars(decimal(off)) + ": U+"@ + hex4(c as u32 as nat) + " "@ + name
        + " looks like '"@ + seq![looks] + "'"@
        + (if mixed { " (mixed with ASCII letters)"@ } else { Seq::empty() })
}

/// The warnings for the characters from position `k` on.
pub open spec fn lint_from(s: Seq<char>, k: int, mixed: bool) -> Seq<Seq<char>>
    decreases s.len() - k,
{
    if k < 0 || k >= s.len() {
        Seq::empty()
    } else {
        (match confusable_spec(s[k]) {
            Some((l, n)) => seq![warning_text(byte_offset(s, k), s[k], l, n, mixed)],
            None => Seq::empty(),
        }) + lint_from(s, k + 1, mixed)
    }
}

proof fn lemma_offset_bound(s: Seq<char>, k: int)
    requires 0 <= k <= s.len(),
    ensures byte_offset(s, k) <= 4 * k,
    decreases k,
{
    if k > 0 { lemma_offset_bound(s, k - 1); }
}

fn width_of(c: char) -> (w: u64)
    ensures w == utf8_width(c),
{
    let u = c as u32;
    if u < 0x80 { 1 } else if u < 0x800 { 2 } else if u < 0x10000 { 3 } else { 4 }
}

/// The check a rule lexer runs on a literal: one warning per look-alike character, with
/// its byte offset, code point and name.
pub fn lint_literal(lit: &str) -> (out: Vec<String>)
    requires lit@.len() < 0x1000_0000_0000_0000,
    ensures strings_view(out@) == lint_from(lit@, 0, has_ascii_letter(lit@)),
{
    let cs = chars_vec(lit);
    let n = cs.len();
    let mut mixed = false;
    let mut k: usize = 0;
    while k < n
        invariant
            k <= n, n == cs@.len(),
            mixed == exists|j: int| 0 <= j < k && is_ascii_letter(#[trigger] cs@[j]),
        decreases n - k,
    {
        let c = cs[k];
        if ('A' <= c && c <= 'Z') || ('a' <= c && c <= 'z') {
            mixed = true;
        }
        k += 1;
    }
    assert(mixed == has_ascii_letter(lit@));
    let mut out: Vec<String> = Vec::new();
    let mut off: u64 = 0;
    let mut k: usize = 0;
    while k < n
        invariant
            k <= n, n == cs@.len(), cs@ == lit@, n < 0x1000_0000_0000_0000,
            off == byte_offset(cs@, k as int),
            strings_view(out@) + lint_from(cs@, k as int, mixed) == lint_from(cs@, 0, mixed),
        decreases n - k,
    {
        let c = cs[k];
        proof { lemma_offset_bound(cs@, k as int); }
        match confusable(c) {
            Some((looks, name)) => {
                let mut w = String::from_str("byte ");
                let o = decimal_string(off);
                w.append(o.as_str());
                w.append(": U+");
                let h = hex4_string(c as u32);
                w.append(h.as_str());
                w.append(" ");
                w.append(name);
                w.append(" looks like '");
                push_char(&mut w, looks);
                w.append("'");
                if mixed {
                    w.append(" (mixed with ASCII letters)");
                }
                proof { reveal_strlit(""); }
                assert(w@ =~= warning_text(off as nat, c, looks, name@, mixed));
                let ghost before = out@;
                out.push(w);
                assert(strings_view(out@) =~= strings_view(before).push(warning_text(off as nat, c, looks, name@, mixed)));
            },
            None => {},
        }
        assert(strings_view(out@) + lint_from(cs@, k + 1, mixed) =~= lint_from(cs@, 0, mixed));
        off = off + width_of(c);
        k += 1;
    }
    out
}

} // verus!
