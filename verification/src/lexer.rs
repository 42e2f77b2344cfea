//! The Ore lexer: hand-written and byte-oriented, zero-copy for identifiers, maximal munch
//! for operators, a span on every token, and error tokens in place of aborting.

use vstd::prelude::*;
use vstd::utf8::{valid_utf8, decode_utf8};
use vstd::string::{StringSliceAdditionalSpecFns, StringExecFns};
use crate::bytes::{is_ws, is_digit, is_alpha, is_ident_byte, byte_at, ws, digit, alpha, ident_byte, get, span_is};
use crate::text::string_from_bytes;

verus! {

#[derive(Debug, Clone, Copy, PartialEq, Eq, Structural)]
pub struct Span {
    /// Byte offset of the first byte.
    pub lo: u32,
    /// Byte offset one past the last byte.
    pub hi: u32,
}

#[derive(Debug, Clone, PartialEq)]
pub enum TokKind {
    Int(i64),
    /// Escapes already processed.
    Str(String),
    /// The text is the token's span of the source: nothing is copied.
    Ident,
    Fn, Let, Mut, If, Else, While, Return, True, False,
    LParen, RParen, LBrace, RBrace, Comma, Semi, Colon, Arrow,
    Plus, Minus, Star, Slash, Percent, Assign, EqEq, Ne, Lt, Le, Gt, Ge, AndAnd, OrOr, Bang,
    Error(String),
    Eof,
}

#[derive(Debug, Clone, PartialEq)]
pub struct Token {
    pub kind: TokKind,
    pub span: Span,
}

// ---------------- the token grammar ----------------

/// The end of the line that holds position `i`: the next `\n` at or after `i`, or the end.
pub open spec fn line_end(b: Seq<u8>, i: int) -> int
    decreases b.len() - i,
{
    if i < 0 || i >= b.len() { b.len() as int } else if b[i] == 10 { i } else { line_end(b, i + 1) }
}

pub proof fn lemma_line_end(b: Seq<u8>, i: int)
    requires 0 <= i <= b.len(),
    ensures
        i <= line_end(b, i) <= b.len(),
        line_end(b, i) < b.len() ==> b[line_end(b, i)] == 10,
        forall|j: int| i <= j < line_end(b, i) ==> b[j] != 10,
    decreases b.len() - i,
{
    if i < b.len() && b[i] != 10 {
        lemma_line_end(b, i + 1);
    }
}

/// Whitespace and `//` comments are skipped; this is where the next token starts.
pub open spec fn trivia_end(b: Seq<u8>, i: int) -> int
    decreases b.len() - i,
{
    if i < 0 || i >= b.len() {
        i
    } else if is_ws(b[i]) {
        trivia_end(b, i + 1)
    } else if b[i] == 47 && byte_at(b, i + 1) == Some(47u8) {
        proof { lemma_line_end(b, i + 2); }
        trivia_end(b, line_end(b, i + 2))
    } else {
        i
    }
}

pub proof fn lemma_trivia_end(b: Seq<u8>, i: int)
    requires 0 <= i <= b.len(),
    ensures
        i <= trivia_end(b, i) <= b.len(),
        trivia_end(b, i) < b.len() ==> !is_ws(b[trivia_end(b, i)]),
    decreases b.len() - i,
{
    if i < b.len() {
        if is_ws(b[i]) {
            lemma_trivia_end(b, i + 1);
        } else if b[i] == 47 && byte_at(b, i + 1) == Some(47u8) {
            lemma_line_end(b, i + 2);
            lemma_trivia_end(b, line_end(b, i + 2));
        }
    }
}

/// End of a run of bytes satisfying the numeral rule: digits and `_`.
pub open spec fn number_end(b: Seq<u8>, i: int) -> int
    decreases b.len() - i,
{
    if 0 <= i < b.len() && (is_digit(b[i]) || b[i] == 95) { number_end(b, i + 1) } else { i }
}

/// The value of the digits in `b[lo..hi]`, underscores ignored.
pub open spec fn number_value(b: Seq<u8>, lo: int, hi: int) -> int
    decreases hi - lo,
{
    if hi <= lo {
        0
    } else if b[hi - 1] == 95 {
        number_value(b, lo, hi - 1)
    } else {
        10 * number_value(b, lo, hi - 1) + (b[hi - 1] - 48)
    }
}

/// End of an identifier: letters, digits and `_`.
pub open spec fn ident_end(b: Seq<u8>, i: int) -> int
    decreases b.len() - i,
{
    if 0 <= i < b.len() && is_ident_byte(b[i]) { ident_end(b, i + 1) } else { i }
}

pub proof fn lemma_scan_ends(b: Seq<u8>, i: int)
    requires 0 <= i <= b.len(),
    ensures
        i <= number_end(b, i) <= b.len(),
        i <= ident_end(b, i) <= b.len(),
    decreases b.len() - i,
{
    if i < b.len() {
        lemma_scan_ends(b, i + 1);
    }
}

/// A keyword, or `Ident` for any other word.
pub open spec fn keyword_kind(w: Seq<u8>) -> TokKind {
    if w == seq![102u8, 110] {
        TokKind::Fn
    } else if w == seq![108u8, 101, 116] {
        TokKind::Let
    } else if w == seq![109u8, 117, 116] {
        TokKind::Mut
    } else if w == seq![105u8, 102] {
        TokKind::If
    } else if w == seq![101u8, 108, 115, 101] {
        TokKind::Else
    } else if w == seq![119u8, 104, 105, 108, 101] {
        TokKind::While
    } else if w == seq![114u8, 101, 116, 117, 114, 110] {
        TokKind::Return
    } else if w == seq![116u8, 114, 117, 101] {
        TokKind::True
    } else if w == seq![102u8, 97, 108, 115, 101] {
        TokKind::False
    } else {
        TokKind::Ident
    }
}

/// Operators and punctuation, two-byte operators first (maximal munch).
pub open spec fn punct_table(c: u8, n: Option<u8>) -> Option<(TokKind, int)> {
    if c == 45 && n == Some(62u8) { Some((TokKind::Arrow, 2)) }
    else if c == 61 && n == Some(61u8) { Some((TokKind::EqEq, 2)) }
    else if c == 33 && n == Some(61u8) { Some((TokKind::Ne, 2)) }
    else if c == 60 && n == Some(61u8) { Some((TokKind::Le, 2)) }
    else if c == 62 && n == Some(61u8) { Some((TokKind::Ge, 2)) }
    else if c == 38 && n == Some(38u8) { Some((TokKind::AndAnd, 2)) }
    else if c == 124 && n == Some(124u8) { Some((TokKind::OrOr, 2)) }
    else if c == 40 { Some((TokKind::LParen, 1)) }
    else if c == 41 { Some((TokKind::RParen, 1)) }
    else if c == 123 { Some((TokKind::LBrace, 1)) }
    else if c == 125 { Some((TokKind::RBrace, 1)) }
    else if c == 44 { Some((TokKind::Comma, 1)) }
    else if c == 59 { Some((TokKind::Semi, 1)) }
    else if c == 58 { Some((TokKind::Colon, 1)) }
    else if c == 43 { Some((TokKind::Plus, 1)) }
    else if c == 45 { Some((TokKind::Minus, 1)) }
    else if c == 42 { Some((TokKind::Star, 1)) }
    else if c == 47 { Some((TokKind::Slash, 1)) }
    else if c == 37 { Some((TokKind::Percent, 1)) }
    else if c == 61 { Some((TokKind::Assign, 1)) }
    else if c == 60 { Some((TokKind::Lt, 1)) }
    else if c == 62 { Some((TokKind::Gt, 1)) }
    else if c == 33 { Some((TokKind::Bang, 1)) }
    else { None }
}

/// The number of bytes of the UTF-8 character that starts with `c`, not past the end.
pub open spec fn char_width(c: u8, room: int) -> int {
    let w = if c < 0x80 { 1int } else if 0xc0 <= c <= 0xdf { 2 } else if 0xe0 <= c <= 0xef { 3 } else if 0xf0 <= c { 4 } else { 1 };
    if w <= room { w } else { room }
}

/// How a string literal ends.
pub enum StrEnd {
    /// Closed by `"`: the bytes with escapes processed.
    Closed(Seq<u8>),
    /// Closed, but an escape was not one of `\n \t \\ \"`.
    BadEscape,
    /// A line break or the end of the input came first.
    Unterminated,
}

/// Scans a string literal body from `i` (just after the opening quote), with the bytes
/// produced so far in `acc`. Returns the position after the literal and how it ended.
pub open spec fn string_scan(b: Seq<u8>, i: int, acc: Seq<u8>, bad: bool) -> (int, StrEnd)
    decreases b.len() - i,
{
    if i < 0 || i >= b.len() {
        (b.len() as int, StrEnd::Unterminated)
    } else if b[i] == 34 {
        (i + 1, if bad { StrEnd::BadEscape } else { StrEnd::Closed(acc) })
    } else if b[i] == 10 {
        (i, StrEnd::Unterminated)
    } else if b[i] == 92 {
        if i + 1 >= b.len() {
            (b.len() as int, StrEnd::Unterminated)
        } else {
            let e = b[i + 1];
            if e == 110 { string_scan(b, i + 2, acc.push(10u8), bad) }
            else if e == 116 { string_scan(b, i + 2, acc.push(9u8), bad) }
            else if e == 92 { string_scan(b, i + 2, acc.push(92u8), bad) }
            else if e == 34 { string_scan(b, i + 2, acc.push(34u8), bad) }
            else { string_scan(b, i + 2, acc, true) }
        }
    } else {
        string_scan(b, i + 1, acc.push(b[i]), bad)
    }
}

pub proof fn lemma_string_scan(b: Seq<u8>, i: int, acc: Seq<u8>, bad: bool)
    requires 0 <= i,
    ensures i <= string_scan(b, i, acc, bad).0 <= b.len() || (i > b.len() && string_scan(b, i, acc, bad).0 == b.len()),
    decreases b.len() - i,
{
    if 0 <= i < b.len() && b[i] != 34 && b[i] != 10 {
        if b[i] == 92 {
            if i + 1 < b.len() {
                lemma_string_scan(b, i + 2, acc.push(10u8), bad);
                lemma_string_scan(b, i + 2, acc.push(9u8), bad);
                lemma_string_scan(b, i + 2, acc.push(92u8), bad);
                lemma_string_scan(b, i + 2, acc.push(34u8), bad);
                lemma_string_scan(b, i + 2, acc, true);
            }
        } else {
            lemma_string_scan(b, i + 1, acc.push(b[i]), bad);
        }
    }
}

/// Where the token that starts at `p` (not trivia, not the end) ends.
pub open spec fn token_end(b: Seq<u8>, p: int) -> int {
    let c = b[p];
    if is_digit(c) {
        number_end(b, p)
    } else if is_alpha(c) || c == 95 {
        ident_end(b, p)
    } else if c == 34 {
        string_scan(b, p + 1, Seq::empty(), false).0
    } else {
        match punct_table(c, byte_at(b, p + 1)) {
            Some((_, len)) => p + len,
            None => p + char_width(c, b.len() - p),
        }
    }
}

/// What the token that starts at `p` is.
pub open spec fn kind_ok(k: TokKind, b: Seq<u8>, p: int) -> bool {
    let c = b[p];
    if is_digit(c) {
        let v = number_value(b, p, number_end(b, p));
        if v <= i64::MAX {
            k == TokKind::Int(v as i64)
        } else {
            k matches TokKind::Error(m) && m@ == "integer literal is too large for `int` (i64)"@
        }
    } else if is_alpha(c) || c == 95 {
        k == keyword_kind(b.subrange(p, ident_end(b, p)))
    } else if c == 34 {
        match string_scan(b, p + 1, Seq::empty(), false).1 {
            StrEnd::Closed(text) => k matches TokKind::Str(s) && (valid_utf8(text) ==> s@ == decode_utf8(text)),
            StrEnd::Unterminated => k matches TokKind::Error(m) && m@ == "unterminated string literal"@,
            StrEnd::BadEscape => k is Error,
        }
    } else {
        match punct_table(c, byte_at(b, p + 1)) {
            Some((kind, _)) => k == kind,
            None => k matches TokKind::Error(m)
                && (valid_utf8(unexpected_msg(b, p)) ==> m@ == decode_utf8(unexpected_msg(b, p))),
        }
    }
}

/// The bytes of the message for a character no token starts with: the character, then its
/// code point as `U+` and upper-case hex.
pub open spec fn unexpected_msg(b: Seq<u8>, p: int) -> Seq<u8> {
    let w = char_width(b[p], b.len() - p);
    "unexpected character '".spec_bytes() + b.subrange(p, p + w) + "' (".spec_bytes()
        + seq![85u8, 43u8] + cp_digits(code_point_spec(b, p, w), 20, false) + seq![41u8]
}

// ---------------- the lexer ----------------

pub struct Lexer<'a> {
    src: &'a str,
    b: &'a [u8],
    pos: usize,
    done: bool,
}

impl<'a> Lexer<'a> {
    /// The source's bytes.
    pub closed spec fn bytes(&self) -> Seq<u8> {
        self.b@
    }

    /// The position of the next unread byte.
    pub closed spec fn position(&self) -> int {
        self.pos as int
    }

    /// Whether `Eof` has been produced.
    pub closed spec fn finished(&self) -> bool {
        self.done
    }

    pub closed spec fn wf(&self) -> bool {
        &&& self.b@ == self.src.spec_bytes()
        &&& self.pos <= self.b@.len()
        &&& self.b@.len() <= usize::MAX
    }

    pub fn new(src: &'a str) -> (l: Self)
        ensures l.wf(), l.bytes() == src.spec_bytes(), l.position() == 0, !l.finished(),
    {
        let b = src.as_bytes();
        let _n = b.len();
        Lexer { src, b, pos: 0, done: false }
    }

    fn skip_trivia(&mut self)
        requires old(self).wf(),
        ensures
            final(self).wf(), final(self).b == old(self).b, final(self).src == old(self).src,
            final(self).done == old(self).done,
            final(self).pos == trivia_end(old(self).b@, old(self).pos as int),
    {
        let ghost b = self.b@;
        let ghost start = self.pos as int;
        proof { lemma_trivia_end(b, start); }
        while self.pos < self.b.len()
            invariant
                self.wf(), self.b@ == b, self.b == old(self).b, self.src == old(self).src, self.done == old(self).done,
                trivia_end(b, self.pos as int) == trivia_end(b, start),
                start == old(self).pos, b == old(self).b@,
            decreases self.b@.len() - self.pos,
        {
            let c = self.b[self.pos];
            if ws(c) {
                self.pos += 1;
            } else if c == 47 && self.pos + 1 < self.b.len() && self.b[self.pos + 1] == 47 {
                let ghost cstart = self.pos + 2;
                proof { lemma_line_end(b, cstart); }
                self.pos += 2;
                while self.pos < self.b.len() && self.b[self.pos] != 10
                    invariant
                        self.wf(), self.b@ == b, self.b == old(self).b, self.src == old(self).src, self.done == old(self).done,
                        cstart <= self.pos <= line_end(b, cstart),
                        line_end(b, self.pos as int) == line_end(b, cstart),
                    decreases self.b@.len() - self.pos,
                {
                    proof { lemma_line_end(b, self.pos + 1); }
                    self.pos += 1;
                }
            } else {
                return;
            }
        }
    }
}


impl<'a> Lexer<'a> {
    /// A numeral: digits with `_` separators, checked against `i64::MAX`.
    fn number(&mut self) -> (k: TokKind)
        requires old(self).wf(), old(self).pos < old(self).b@.len(), is_digit(old(self).b@[old(self).pos as int]),
        ensures
            final(self).wf(), final(self).b == old(self).b, final(self).src == old(self).src,
            final(self).done == old(self).done,
            final(self).pos == number_end(old(self).b@, old(self).pos as int),
            kind_ok(k, old(self).b@, old(self).pos as int),
    {
        let ghost b = self.b@;
        let ghost p = self.pos as int;
        let mut v: i64 = 0;
        let mut overflow = false;
        while self.pos < self.b.len() && (digit(self.b[self.pos]) || self.b[self.pos] == 95)
            invariant
                self.wf(), self.b@ == b, self.b == old(self).b, self.src == old(self).src, self.done == old(self).done,
                p <= self.pos,
                number_end(b, self.pos as int) == number_end(b, p),
                !overflow ==> v == number_value(b, p, self.pos as int),
                overflow ==> number_value(b, p, self.pos as int) > i64::MAX,
                0 <= number_value(b, p, self.pos as int),
            decreases self.b@.len() - self.pos,
        {
            let d = self.b[self.pos];
            if d != 95 {
                let dv = (d - 48) as i64;
                if !overflow {
                    match v.checked_mul(10) {
                        Some(m) => match m.checked_add(dv) {
                            Some(n) => { v = n; }
                            None => { overflow = true; }
                        },
                        None => { overflow = true; }
                    }
                }
            }
            self.pos += 1;
        }
        if overflow {
            TokKind::Error(String::from_str("integer literal is too large for `int` (i64)"))
        } else {
            TokKind::Int(v)
        }
    }

    /// An identifier or a keyword. `int` and `bool` are ordinary names, resolved later.
    fn ident_or_keyword(&mut self) -> (k: TokKind)
        requires old(self).wf(), old(self).pos < old(self).b@.len(),
            is_alpha(old(self).b@[old(self).pos as int]) || old(self).b@[old(self).pos as int] == 95,
        ensures
            final(self).wf(), final(self).b == old(self).b, final(self).src == old(self).src,
            final(self).done == old(self).done,
            final(self).pos == ident_end(old(self).b@, old(self).pos as int),
            kind_ok(k, old(self).b@, old(self).pos as int),
    {
        let ghost b = self.b@;
        let start = self.pos;
        proof { lemma_scan_ends(b, start as int); }
        while self.pos < self.b.len() && ident_byte(self.b[self.pos])
            invariant
                self.wf(), self.b@ == b, self.b == old(self).b, self.src == old(self).src, self.done == old(self).done,
                start <= self.pos,
                ident_end(b, self.pos as int) == ident_end(b, start as int),
            decreases self.b@.len() - self.pos,
        {
            self.pos += 1;
        }
        let (b, lo, hi) = (self.b, start, self.pos);
        if span_is(b, lo, hi, &[102u8, 110]) { TokKind::Fn }
        else if span_is(b, lo, hi, &[108u8, 101, 116]) { TokKind::Let }
        else if span_is(b, lo, hi, &[109u8, 117, 116]) { TokKind::Mut }
        else if span_is(b, lo, hi, &[105u8, 102]) { TokKind::If }
        else if span_is(b, lo, hi, &[101u8, 108, 115, 101]) { TokKind::Else }
        else if span_is(b, lo, hi, &[119u8, 104, 105, 108, 101]) { TokKind::While }
        else if span_is(b, lo, hi, &[114u8, 101, 116, 117, 114, 110]) { TokKind::Return }
        else if span_is(b, lo, hi, &[116u8, 114, 117, 101]) { TokKind::True }
        else if span_is(b, lo, hi, &[102u8, 97, 108, 115, 101]) { TokKind::False }
        else { TokKind::Ident }
    }
}


/// Appends the bytes of a literal message.
fn push_lit(out: &mut Vec<u8>, lit: &str)
    ensures final(out)@ == old(out)@ + lit.spec_bytes(),
{
    crate::text::push_all(out, lit.as_bytes());
}

/// An upper-case hex digit.
pub open spec fn hex_byte(d: u8) -> u8 {
    if d < 10 { (48 + d) as u8 } else { (55 + d) as u8 }
}

/// The hex digits of `cp` below bit `shift`, four bits at a time: a leading zero digit is
/// left out until one is `started` or the last four digits are reached.
pub open spec fn cp_digits(cp: u32, shift: u32, started: bool) -> Seq<u8>
    decreases shift,
{
    if shift < 4 || shift > 20 {
        Seq::empty()
    } else {
        let s2 = (shift - 4) as u32;
        let d = ((cp >> s2) & 15) as u8;
        let p = d != 0 || started || s2 < 16;
        (if p { seq![hex_byte(d)] } else { Seq::empty() }) + cp_digits(cp, s2, p)
    }
}

/// Appends `U+` and at least four upper-case hex digits of `cp`.
pub(crate) fn push_codepoint(out: &mut Vec<u8>, cp: u32)
    ensures final(out)@ == old(out)@ + seq![85u8, 43u8] + cp_digits(cp, 20, false),
{
    out.push(85u8);
    out.push(43u8);
    let mut shift: u32 = 20;
    let mut started = false;
    assert(out@ == old(out)@ + seq![85u8, 43u8]);
    while shift > 0
        invariant shift <= 20, shift % 4 == 0,
            out@ + cp_digits(cp, shift, started) == old(out)@ + seq![85u8, 43u8] + cp_digits(cp, 20, false),
        decreases shift,
    {
        let ghost o0 = out@;
        let ghost st0 = started;
        let ghost sh0 = shift;
        shift = shift - 4;
        let x = (cp >> shift) & 15;
        assert(x < 16) by (bit_vector) requires x == (cp >> shift) & 15;
        let d = x as u8;
        assert(d == ((cp >> shift) & 15) as u8);
        if d != 0 || started || shift < 16 {
            started = true;
            out.push(if d < 10 { 48 + d } else { 55 + d });
        }
        assert(cp_digits(cp, sh0, st0) == (if started { seq![hex_byte(d)] } else { Seq::<u8>::empty() })
            + cp_digits(cp, shift, started));
        assert(out@ + cp_digits(cp, shift, started) =~= o0 + cp_digits(cp, sh0, st0));
    }
}

/// The code point that the UTF-8 bytes `b[p..p + w]` encode.
pub open spec fn code_point_spec(b: Seq<u8>, p: int, w: int) -> u32 {
    let c = b[p] as u32;
    if w == 1 {
        c
    } else if w == 2 {
        ((c & 0x1f) << 6u32) | (b[p + 1] as u32 & 0x3f)
    } else if w == 3 {
        ((c & 0x0f) << 12u32) | ((b[p + 1] as u32 & 0x3f) << 6u32) | (b[p + 2] as u32 & 0x3f)
    } else {
        ((c & 0x07) << 18u32) | ((b[p + 1] as u32 & 0x3f) << 12u32) | ((b[p + 2] as u32 & 0x3f) << 6u32) | (b[p + 3] as u32 & 0x3f)
    }
}

/// The code point of the UTF-8 character of `w` bytes at `b[p..]`.
pub(crate) fn code_point(b: &[u8], p: usize, w: usize) -> (r: u32)
    requires p + w <= b@.len(), 1 <= w <= 4,
    ensures r == code_point_spec(b@, p as int, w as int),
{
    let c = b[p] as u32;
    if w == 1 {
        c
    } else if w == 2 {
        ((c & 0x1f) << 6) | (b[p + 1] as u32 & 0x3f)
    } else if w == 3 {
        ((c & 0x0f) << 12) | ((b[p + 1] as u32 & 0x3f) << 6) | (b[p + 2] as u32 & 0x3f)
    } else {
        ((c & 0x07) << 18) | ((b[p + 1] as u32 & 0x3f) << 12) | ((b[p + 2] as u32 & 0x3f) << 6) | (b[p + 3] as u32 & 0x3f)
    }
}

pub fn char_width_of(c: u8, room: usize) -> (w: usize)
    requires room >= 1,
    ensures w == char_width(c, room as int), 1 <= w <= room,
{
    let w: usize = if c < 0x80 { 1 } else if 0xc0 <= c && c <= 0xdf { 2 } else if 0xe0 <= c && c <= 0xef { 3 } else if 0xf0 <= c { 4 } else { 1 };
    if w <= room { w } else { room }
}

pub fn punct_of(c: u8, n: Option<u8>) -> (r: Option<(TokKind, usize)>)
    ensures
        r is None <==> punct_table(c, n) is None,
        r matches Some((k, len)) ==> punct_table(c, n) == Some((k, len as int)),
{
    let (has, n2) = match n { Some(x) => (true, x), None => (false, 0u8) };
    if c == 45 && has && n2 == 62 { Some((TokKind::Arrow, 2)) }
    else if c == 61 && has && n2 == 61 { Some((TokKind::EqEq, 2)) }
    else if c == 33 && has && n2 == 61 { Some((TokKind::Ne, 2)) }
    else if c == 60 && has && n2 == 61 { Some((TokKind::Le, 2)) }
    else if c == 62 && has && n2 == 61 { Some((TokKind::Ge, 2)) }
    else if c == 38 && has && n2 == 38 { Some((TokKind::AndAnd, 2)) }
    else if c == 124 && has && n2 == 124 { Some((TokKind::OrOr, 2)) }
    else if c == 40 { Some((TokKind::LParen, 1)) }
    else if c == 41 { Some((TokKind::RParen, 1)) }
    else if c == 123 { Some((TokKind::LBrace, 1)) }
    else if c == 125 { Some((TokKind::RBrace, 1)) }
    else if c == 44 { Some((TokKind::Comma, 1)) }
    else if c == 59 { Some((TokKind::Semi, 1)) }
    else if c == 58 { Some((TokKind::Colon, 1)) }
    else if c == 43 { Some((TokKind::Plus, 1)) }
    else if c == 45 { Some((TokKind::Minus, 1)) }
    else if c == 42 { Some((TokKind::Star, 1)) }
    else if c == 47 { Some((TokKind::Slash, 1)) }
    else if c == 37 { Some((TokKind::Percent, 1)) }
    else if c == 61 { Some((TokKind::Assign, 1)) }
    else if c == 60 { Some((TokKind::Lt, 1)) }
    else if c == 62 { Some((TokKind::Gt, 1)) }
    else if c == 33 { Some((TokKind::Bang, 1)) }
    else { None }
}

impl<'a> Lexer<'a> {
    /// A string literal. An error (unknown escape, or a line break or the end of input before the
    /// closing quote) becomes an error token; an unterminated literal stops at the end of its
    /// line, so the next line lexes normally.
    fn string(&mut self) -> (k: TokKind)
        requires old(self).wf(), old(self).pos < old(self).b@.len(), old(self).b@[old(self).pos as int] == 34,
        ensures
            final(self).wf(), final(self).b == old(self).b, final(self).src == old(self).src,
            final(self).done == old(self).done,
            final(self).pos == string_scan(old(self).b@, old(self).pos + 1, Seq::empty(), false).0,
            kind_ok(k, old(self).b@, old(self).pos as int),
    {
        let ghost b = self.b@;
        let ghost p = self.pos as int;
        self.pos += 1;
        let mut out: Vec<u8> = Vec::new();
        let mut bad: Option<usize> = None;
        loop
            invariant
                self.wf(), self.b@ == b, self.b == old(self).b, self.src == old(self).src,
                self.done == old(self).done, b == old(self).b@, p == old(self).pos,
                0 <= p < b.len(), b[p] == 34,
                p + 1 <= self.pos,
                bad matches Some(q) ==> q < self.pos <= b.len(),
                string_scan(b, self.pos as int, out@, bad is Some) == string_scan(b, p + 1, Seq::empty(), false),
            decreases self.b@.len() - self.pos,
        {
            if self.pos >= self.b.len() {
                self.pos = self.b.len();
                return TokKind::Error(String::from_str("unterminated string literal"));
            }
            let c = self.b[self.pos];
            if c == 34 {
                self.pos += 1;
                return match bad {
                    Some(q) => {
                        let mut msg: Vec<u8> = Vec::new();
                        push_lit(&mut msg, "unknown escape `\\");
                        let w = char_width_of(self.b[q], self.b.len() - q);
                        let mut k: usize = 0;
                        while k < w
                            invariant self.wf(), q + w <= self.b@.len(), k <= w,
                            decreases w - k,
                        {
                            msg.push(self.b[q + k]);
                            k += 1;
                        }
                        msg.push(96u8);
                        TokKind::Error(string_from_bytes(msg.as_slice()))
                    }
                    None => TokKind::Str(string_from_bytes(out.as_slice())),
                };
            } else if c == 10 {
                return TokKind::Error(String::from_str("unterminated string literal"));
            } else if c == 92 {
                if self.pos + 1 >= self.b.len() {
                    self.pos = self.b.len();
                    return TokKind::Error(String::from_str("unterminated string literal"));
                }
                let e = self.b[self.pos + 1];
                if e == 110 {
                    out.push(10u8);
                } else if e == 116 {
                    out.push(9u8);
                } else if e == 92 {
                    out.push(92u8);
                } else if e == 34 {
                    out.push(34u8);
                } else if bad.is_none() {
                    bad = Some(self.pos + 1);
                }
                self.pos += 2;
            } else {
                out.push(c);
                self.pos += 1;
            }
        }
    }

    /// Operators and punctuation; any other character becomes an error token that covers the
    /// whole UTF-8 character, so lexing can continue after it.
    fn punct(&mut self) -> (k: TokKind)
        requires old(self).wf(), old(self).pos < old(self).b@.len(),
        ensures
            final(self).wf(), final(self).b == old(self).b, final(self).src == old(self).src,
            final(self).done == old(self).done,
            final(self).pos == old(self).pos + match punct_table(old(self).b@[old(self).pos as int], byte_at(old(self).b@, old(self).pos + 1)) {
                Some((_, len)) => len,
                None => char_width(old(self).b@[old(self).pos as int], old(self).b@.len() - old(self).pos),
            },
            match punct_table(old(self).b@[old(self).pos as int], byte_at(old(self).b@, old(self).pos + 1)) {
                Some((kind, _)) => k == kind,
                None => k matches TokKind::Error(m) && (valid_utf8(unexpected_msg(old(self).b@, old(self).pos as int))
                    ==> m@ == decode_utf8(unexpected_msg(old(self).b@, old(self).pos as int))),
            },
    {
        let c = self.b[self.pos];
        match punct_of(c, get(self.b, self.pos + 1)) {
            Some((kind, len)) => {
                self.pos += len;
                kind
            }
            None => {
                let w = char_width_of(c, self.b.len() - self.pos);
                let cp = code_point(self.b, self.pos, w);
                let mut msg: Vec<u8> = Vec::new();
                push_lit(&mut msg, "unexpected character '");
                let ghost head = msg@;
                let mut k: usize = 0;
                while k < w
                    invariant self.wf(), self.pos + w <= self.b@.len(), k <= w,
                        msg@ == head + self.b@.subrange(self.pos as int, self.pos + k),
                    decreases w - k,
                {
                    msg.push(self.b[self.pos + k]);
                    k += 1;
                    assert(msg@ =~= head + self.b@.subrange(self.pos as int, self.pos + k));
                }
                push_lit(&mut msg, "' (");
                push_codepoint(&mut msg, cp);
                msg.push(41u8);
                assert(msg@ =~= unexpected_msg(self.b@, self.pos as int));
                self.pos += w;
                TokKind::Error(string_from_bytes(msg.as_slice()))
            }
        }
    }
}


/// A token is never empty, and never runs past the end.
pub proof fn lemma_token_end(b: Seq<u8>, p: int)
    requires 0 <= p < b.len(), !is_ws(b[p]),
    ensures p < token_end(b, p) <= b.len(),
{
    lemma_scan_ends(b, p + 1);
    lemma_string_scan(b, p + 1, Seq::empty(), false);
    let c = b[p];
    if is_digit(c) {
        assert(number_end(b, p) == number_end(b, p + 1));
    } else if is_alpha(c) || c == 95 {
        assert(ident_end(b, p) == ident_end(b, p + 1));
    }
}

/// The well-formed token sequence of `b` from position `from` on: each token starts where
/// the trivia after the previous one ends and is what `kind_ok` says, and the last one is
/// the single `Eof`, at the end. (Spans are exact when the source fits `u32` offsets.)
pub open spec fn lexes_from(b: Seq<u8>, from: int, toks: Seq<Token>) -> bool {
    &&& toks.len() >= 1
    &&& toks.last().kind is Eof
    &&& forall|i: int| 0 <= i < toks.len() - 1 ==> !(#[trigger] toks[i].kind is Eof)
    &&& b.len() <= u32::MAX ==> {
        &&& toks[0].span.lo == trivia_end(b, from)
        &&& toks.last().span.lo == b.len() && toks.last().span.hi == b.len()
        &&& forall|i: int| 0 <= i < toks.len() - 1 ==> {
            &&& (#[trigger] toks[i]).span.lo < b.len()
            &&& kind_ok(toks[i].kind, b, toks[i].span.lo as int)
            &&& toks[i].span.hi == token_end(b, toks[i].span.lo as int)
            &&& toks[i + 1].span.lo == trivia_end(b, toks[i].span.hi as int)
        }
    }
}

impl<'a> Lexer<'a> {
    /// The next token, pulled lazily; the stream ends with exactly one `Eof`.
    pub fn next(&mut self) -> (t: Option<Token>)
        requires old(self).wf(),
        ensures
            final(self).wf(),
            final(self).bytes() == old(self).bytes(),
            old(self).finished() ==> t is None && final(self).position() == old(self).position() && final(self).finished(),
            !old(self).finished() ==> ({
                let b = old(self).bytes();
                let p = trivia_end(b, old(self).position());
                &&& t is Some
                &&& if p >= b.len() {
                    &&& t->0.kind is Eof
                    &&& t->0.span == Span { lo: p as u32, hi: p as u32 }
                    &&& final(self).finished()
                    &&& final(self).position() == p
                } else {
                    &&& kind_ok(t->0.kind, b, p)
                    &&& t->0.span == Span { lo: p as u32, hi: token_end(b, p) as u32 }
                    &&& !final(self).finished()
                    &&& final(self).position() == token_end(b, p)
                    &&& p < token_end(b, p) <= b.len()
                }
            }),
    {
        if self.done {
            return None;
        }
        proof { lemma_trivia_end(self.b@, self.pos as int); }
        self.skip_trivia();
        let start = self.pos;
        let kind = if self.pos >= self.b.len() {
            self.done = true;
            TokKind::Eof
        } else {
            let c = self.b[self.pos];
            proof { lemma_token_end(self.b@, start as int); }
            if digit(c) {
                self.number()
            } else if alpha(c) || c == 95 {
                self.ident_or_keyword()
            } else if c == 34 {
                self.string()
            } else {
                self.punct()
            }
        };
        Some(Token { kind, span: Span { lo: start as u32, hi: self.pos as u32 } })
    }

    /// All the tokens from here to the end, `Eof` last.
    pub fn tokens(self) -> (toks: Vec<Token>)
        requires self.wf(), !self.finished(),
        ensures lexes_from(self.bytes(), self.position(), toks@),
    {
        let mut lx = self;
        let ghost b = lx.b@;
        let ghost from = lx.pos as int;
        let mut toks: Vec<Token> = Vec::new();
        loop
            invariant
                lx.wf(), lx.bytes() == b, b == self.bytes(), from == self.position(),
                !lx.finished() ==> (toks@.len() == 0 ==> lx.position() == from),
                !lx.finished() ==> forall|i: int| 0 <= i < toks@.len() ==> !(#[trigger] toks@[i].kind is Eof),
                !lx.finished() && toks@.len() > 0 && b.len() <= u32::MAX ==> lx.position() == toks@.last().span.hi,
                lx.finished() ==> lexes_from(b, from, toks@),
                b.len() <= u32::MAX ==> {
                    &&& toks@.len() > 0 ==> toks@[0].span.lo == trivia_end(b, from)
                    &&& forall|i: int| 0 <= i < toks@.len() - 1 ==> {
                        &&& (#[trigger] toks@[i]).span.lo < b.len()
                        &&& kind_ok(toks@[i].kind, b, toks@[i].span.lo as int)
                        &&& toks@[i].span.hi == token_end(b, toks@[i].span.lo as int)
                        &&& toks@[i + 1].span.lo == trivia_end(b, toks@[i].span.hi as int)
                    }
                    &&& !lx.finished() && toks@.len() > 0 ==> {
                        &&& toks@.last().span.lo < b.len()
                        &&& kind_ok(toks@.last().kind, b, toks@.last().span.lo as int)
                        &&& toks@.last().span.hi == token_end(b, toks@.last().span.lo as int)
                    }
                },
            decreases 2 * (b.len() - lx.position()) + (if lx.finished() { 0int } else { 1int }),
        {
            let ghost before = lx.position();
            match lx.next() {
                Some(t) => {
                    proof { lemma_trivia_end(b, before); }
                    toks.push(t);
                }
                None => {
                    return toks;
                }
            }
        }
    }
}

/// Line starts, computed once; spans are converted to line:column only when a message is printed.
pub struct LineIndex {
    starts: Vec<u32>,
}

/// The offsets where lines start: 0, and one past every line feed.
pub open spec fn line_starts(b: Seq<u8>) -> Seq<u32>
    decreases b.len(),
{
    if b.len() == 0 {
        seq![0u32]
    } else if b.last() == 10 {
        line_starts(b.drop_last()).push(b.len() as u32)
    } else {
        line_starts(b.drop_last())
    }
}

/// How many entries of a sorted sequence are at most `pos`.
pub open spec fn count_le(s: Seq<u32>, pos: u32) -> int
    decreases s.len(),
{
    if s.len() == 0 { 0 } else { count_le(s.drop_last(), pos) + (if s.last() <= pos { 1int } else { 0 }) }
}

pub open spec fn strictly_sorted(s: Seq<u32>) -> bool {
    forall|i: int, j: int| 0 <= i < j < s.len() ==> s[i] < s[j]
}

proof fn lemma_line_starts(b: Seq<u8>)
    requires b.len() <= u32::MAX,
    ensures
        line_starts(b).len() >= 1, line_starts(b)[0] == 0, strictly_sorted(line_starts(b)),
        forall|i: int| 0 <= i < line_starts(b).len() ==> #[trigger] line_starts(b)[i] <= b.len(),
    decreases b.len(),
{
    if b.len() > 0 {
        lemma_line_starts(b.drop_last());
    }
}

/// In a strictly sorted sequence that starts at 0, the entries at most `pos` are a prefix.
proof fn lemma_count_le_prefix(s: Seq<u32>, pos: u32)
    requires strictly_sorted(s),
    ensures
        0 <= count_le(s, pos) <= s.len(),
        forall|i: int| 0 <= i < count_le(s, pos) ==> #[trigger] s[i] <= pos,
        forall|i: int| count_le(s, pos) <= i < s.len() ==> #[trigger] s[i] > pos,
    decreases s.len(),
{
    if s.len() > 0 {
        let t = s.drop_last();
        assert(strictly_sorted(t));
        lemma_count_le_prefix(t, pos);
        if s.last() <= pos {
            if count_le(t, pos) < t.len() {
                assert(t[count_le(t, pos)] > pos);
                assert(t[count_le(t, pos)] < s.last());
            }
            assert forall|i: int| 0 <= i < count_le(s, pos) implies #[trigger] s[i] <= pos by {
                if i < t.len() { assert(s[i] < s[s.len() - 1]); }
            }
        } else {
            assert forall|i: int| 0 <= i < count_le(s, pos) implies #[trigger] s[i] <= pos by {
                assert(s[i] == t[i]);
            }
            assert forall|i: int| count_le(s, pos) <= i < s.len() implies #[trigger] s[i] > pos by {
                if i < t.len() { assert(s[i] == t[i]); }
            }
        }
    }
}

impl LineIndex {
    /// The sequence of line starts.
    pub closed spec fn starts(&self) -> Seq<u32> {
        self.starts@
    }

    pub fn new(src: &str) -> (li: Self)
        requires src.spec_bytes().len() <= u32::MAX,
        ensures li.starts() == line_starts(src.spec_bytes()),
    {
        let b = src.as_bytes();
        let mut starts: Vec<u32> = Vec::new();
        starts.push(0u32);
        let mut i: usize = 0;
        while i < b.len()
            invariant i <= b@.len(), b@.len() <= u32::MAX, starts@ == line_starts(b@.subrange(0, i as int)),
            decreases b@.len() - i,
        {
            assert(b@.subrange(0, (i + 1) as int).drop_last() =~= b@.subrange(0, i as int));
            if b[i] == 10 {
                starts.push(i as u32 + 1);
            }
            i += 1;
        }
        assert(b@.subrange(0, b@.len() as int) =~= b@);
        LineIndex { starts }
    }

    /// The 1-based line and column (counted in bytes) of byte offset `pos`.
    pub fn line_col(&self, pos: u32) -> (lc: (u32, u32))
        requires
            exists|b: Seq<u8>| b.len() <= u32::MAX && self.starts() == #[trigger] line_starts(b),
            self.starts().len() < u32::MAX,
            pos < u32::MAX,
        ensures ({
            let n = count_le(self.starts(), pos);
            &&& 1 <= n <= self.starts().len()
            &&& lc.0 == n
            &&& lc.1 == pos - self.starts()[n - 1] + 1
        }),
    {
        let ghost b = choose|b: Seq<u8>| b.len() <= u32::MAX && self.starts() == #[trigger] line_starts(b);
        proof {
            lemma_line_starts(b);
            lemma_count_le_prefix(self.starts@, pos);
        }
        // partition_point: the first index whose start is past `pos`.
        let mut lo: usize = 0;
        let mut hi: usize = self.starts.len();
        while lo < hi
            invariant
                lo <= hi <= self.starts@.len(),
                forall|i: int| 0 <= i < lo ==> #[trigger] self.starts@[i] <= pos,
                forall|i: int| hi <= i < self.starts@.len() ==> #[trigger] self.starts@[i] > pos,
                strictly_sorted(self.starts@),
            decreases hi - lo,
        {
            let mid = lo + (hi - lo) / 2;
            if self.starts[mid] <= pos {
                assert forall|i: int| 0 <= i <= mid implies #[trigger] self.starts@[i] <= pos by {
                    if i < mid { assert(self.starts@[i] < self.starts@[mid as int]); }
                }
                lo = mid + 1;
            } else {
                assert forall|i: int| mid <= i < self.starts@.len() implies #[trigger] self.starts@[i] > pos by {
                    if i > mid { assert(self.starts@[i] > self.starts@[mid as int]); }
                }
                hi = mid;
            }
        }
        let n = lo;
        assert(n == count_le(self.starts@, pos)) by {
            let c = count_le(self.starts@, pos);
            if c < n { assert(self.starts@[c] > pos); }
            if c > n { assert(self.starts@[n as int] <= pos); }
        }
        assert(self.starts@[0] == 0);
        let line = n - 1;
        (line as u32 + 1, pos - self.starts[line] + 1)
    }
}

} // verus!
