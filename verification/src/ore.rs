//! The Ore front end shared by name resolution, type checking, inference and lowering:
//! a lexer that stops at the first error, a recursive-descent parser with spans on every
//! node, and an s-expression printer.

use vstd::prelude::*;
use vstd::string::{StringSliceAdditionalSpecFns, StringExecFns};
use crate::bytes::{is_digit, is_alpha, is_ident_byte, byte_at, digit, alpha, ident_byte, get, span_is};
use crate::lexer::{trivia_end, ident_end, lemma_trivia_end, lemma_scan_ends, lemma_line_end, line_end};
use crate::text::{ascii_chars, ascii_string, is_ascii_seq, int_to_string, int_text};

verus! {

#[derive(Debug, Clone, Copy, PartialEq, Eq, Structural)]
pub struct Span {
    pub lo: u32,
    pub hi: u32,
}

impl Span {
    /// The span from the start of `self` to the end of `other`.
    pub fn to(self, other: Span) -> (s: Span)
        ensures s == (Span { lo: self.lo, hi: other.hi }),
    {
        Span { lo: self.lo, hi: other.hi }
    }
}

#[derive(Debug, Clone, PartialEq)]
pub enum Tok {
    Int(i64), Ident(String),
    Fn, Let, Mut, If, Else, While, Return, True, False,
    LParen, RParen, LBrace, RBrace, Comma, Semi, Colon, Arrow,
    Plus, Minus, Star, Slash, Percent, Assign, EqEq, Ne, Lt, Le, Gt, Ge, AndAnd, OrOr, Bang,
    Eof,
}

#[derive(Debug, Clone)]
pub struct Token {
    pub tok: Tok,
    pub span: Span,
}

#[derive(Debug)]
pub struct ParseError {
    pub span: Span,
    pub msg: String,
}

// ---------------- the token grammar ----------------

/// End of a run of decimal digits.
pub open spec fn digits_end(b: Seq<u8>, i: int) -> int
    decreases b.len() - i,
{
    if 0 <= i < b.len() && is_digit(b[i]) { digits_end(b, i + 1) } else { i }
}

/// The value of the decimal digits `b[lo..hi]`.
pub open spec fn digits_value(b: Seq<u8>, lo: int, hi: int) -> int
    decreases hi - lo,
{
    if hi <= lo { 0 } else { 10 * digits_value(b, lo, hi - 1) + (b[hi - 1] - 48) }
}

pub proof fn lemma_digits_end(b: Seq<u8>, i: int)
    requires 0 <= i <= b.len(),
    ensures i <= digits_end(b, i) <= b.len(),
    decreases b.len() - i,
{
    if i < b.len() { lemma_digits_end(b, i + 1); }
}

/// The keyword a word spells, or `None` for an identifier.
pub open spec fn ore_keyword(w: Seq<u8>) -> Option<Tok> {
    if w == seq![102u8, 110] { Some(Tok::Fn) }
    else if w == seq![108u8, 101, 116] { Some(Tok::Let) }
    else if w == seq![109u8, 117, 116] { Some(Tok::Mut) }
    else if w == seq![105u8, 102] { Some(Tok::If) }
    else if w == seq![101u8, 108, 115, 101] { Some(Tok::Else) }
    else if w == seq![119u8, 104, 105, 108, 101] { Some(Tok::While) }
    else if w == seq![114u8, 101, 116, 117, 114, 110] { Some(Tok::Return) }
    else if w == seq![116u8, 114, 117, 101] { Some(Tok::True) }
    else if w == seq![102u8, 97, 108, 115, 101] { Some(Tok::False) }
    else { None }
}

/// Operators and punctuation, two-byte operators first.
pub open spec fn ore_punct(c: u8, n: Option<u8>) -> Option<(Tok, int)> {
    if c == 45 && n == Some(62u8) { Some((Tok::Arrow, 2)) }
    else if c == 61 && n == Some(61u8) { Some((Tok::EqEq, 2)) }
    else if c == 33 && n == Some(61u8) { Some((Tok::Ne, 2)) }
    else if c == 60 && n == Some(61u8) { Some((Tok::Le, 2)) }
    else if c == 62 && n == Some(61u8) { Some((Tok::Ge, 2)) }
    else if c == 38 && n == Some(38u8) { Some((Tok::AndAnd, 2)) }
    else if c == 124 && n == Some(124u8) { Some((Tok::OrOr, 2)) }
    else if c == 40 { Some((Tok::LParen, 1)) }
    else if c == 41 { Some((Tok::RParen, 1)) }
    else if c == 123 { Some((Tok::LBrace, 1)) }
    else if c == 125 { Some((Tok::RBrace, 1)) }
    else if c == 44 { Some((Tok::Comma, 1)) }
    else if c == 59 { Some((Tok::Semi, 1)) }
    else if c == 58 { Some((Tok::Colon, 1)) }
    else if c == 43 { Some((Tok::Plus, 1)) }
    else if c == 45 { Some((Tok::Minus, 1)) }
    else if c == 42 { Some((Tok::Star, 1)) }
    else if c == 47 { Some((Tok::Slash, 1)) }
    else if c == 37 { Some((Tok::Percent, 1)) }
    else if c == 61 { Some((Tok::Assign, 1)) }
    else if c == 60 { Some((Tok::Lt, 1)) }
    else if c == 62 { Some((Tok::Gt, 1)) }
    else if c == 33 { Some((Tok::Bang, 1)) }
    else { None }
}

/// The token that starts at `p` (after trivia, before the end), with its end, or `None`
/// when it is an error: a numeral too large for `i64`, or a character that starts no token.
#[verifier::opaque]
pub open spec fn ore_token(b: Seq<u8>, p: int) -> Option<(Tok, int)> {
    let c = b[p];
    if is_digit(c) {
        let e = digits_end(b, p);
        let v = digits_value(b, p, e);
        if v <= i64::MAX { Some((Tok::Int(v as i64), e)) } else { None }
    } else if is_alpha(c) || c == 95 {
        let e = ident_end(b, p);
        let w = b.subrange(p, e);
        match ore_keyword(w) {
            Some(k) => Some((k, e)),
            None => Some((Tok::Ident(arbitrary()), e)),
        }
    } else {
        match ore_punct(c, byte_at(b, p + 1)) {
            Some((t, len)) => Some((t, p + len)),
            None => None,
        }
    }
}

/// Whether `t` is the token that `ore_token` describes: for an identifier, the name is
/// exactly the source text.
pub open spec fn tok_matches(t: Tok, b: Seq<u8>, p: int, spec_tok: Tok) -> bool {
    match spec_tok {
        Tok::Ident(_) => t matches Tok::Ident(name) && name@ == ascii_chars(b.subrange(p, ident_end(b, p))),
        _ => t == spec_tok,
    }
}

/// The source lexes without error from position `i` on.
#[verifier::opaque]
pub open spec fn lexes_ok(b: Seq<u8>, i: int) -> bool
    decreases b.len() - i,
{
    let p = trivia_end(b, i);
    if i < 0 || i > b.len() || p >= b.len() {
        true
    } else {
        match ore_token(b, p) {
            Some((_, e)) => if i < e && p < e && e <= b.len() { lexes_ok(b, e) } else { false },
            None => false,
        }
    }
}

/// `toks` is the token sequence of `b`: tokens as `ore_token` describes them, each starting
/// where the trivia after the previous one ends, and a single `Eof` at the end.
#[verifier::opaque]
pub open spec fn token_stream(b: Seq<u8>, toks: Seq<Token>) -> bool {
    &&& toks.len() >= 1
    &&& toks.last().tok is Eof
    &&& toks.last().span == (Span { lo: b.len() as u32, hi: b.len() as u32 })
    &&& toks[0].span.lo == trivia_end(b, 0)
    &&& forall|i: int| 0 <= i < toks.len() - 1 ==> {
        let p = (#[trigger] toks[i]).span.lo as int;
        &&& !(toks[i].tok is Eof)
        &&& p < b.len()
        &&& ore_token(b, p) matches Some((t, e)) && tok_matches(toks[i].tok, b, p, t) && toks[i].span.hi == e
        &&& toks[i + 1].span.lo == trivia_end(b, toks[i].span.hi as int)
    }
}

/// The tokens produced so far, the last of which ends at `i`.
#[verifier::opaque]
pub open spec fn stream_prefix(b: Seq<u8>, out: Seq<Token>, i: int) -> bool {
    &&& out.len() > 0 ==> out.last().span.hi == i
    &&& out.len() > 0 ==> out[0].span.lo == trivia_end(b, 0)
    &&& out.len() == 0 ==> i == 0
    &&& forall|k: int| 0 <= k < out.len() ==> {
        let p = (#[trigger] out[k]).span.lo as int;
        &&& !(out[k].tok is Eof)
        &&& p < b.len()
        &&& ore_token(b, p) matches Some((t, e)) && tok_matches(out[k].tok, b, p, t) && out[k].span.hi == e
        &&& k + 1 < out.len() ==> out[k + 1].span.lo == trivia_end(b, out[k].span.hi as int)
    }
}

proof fn lemma_stream_push(b: Seq<u8>, out: Seq<Token>, i: int, t: Token)
    requires
        b.len() < u32::MAX, 0 <= i <= b.len(),
        stream_prefix(b, out, i),
        t.span.lo == trivia_end(b, i), (t.span.lo as int) < b.len(), !(t.tok is Eof),
        ore_token(b, t.span.lo as int) matches Some((t2, e)) && tok_matches(t.tok, b, t.span.lo as int, t2) && t.span.hi == e,
    ensures stream_prefix(b, out.push(t), t.span.hi as int),
{
    reveal(stream_prefix);
    let o2 = out.push(t);
    assert forall|k: int| 0 <= k < o2.len() implies ({
        let p = (#[trigger] o2[k]).span.lo as int;
        &&& !(o2[k].tok is Eof)
        &&& p < b.len()
        &&& ore_token(b, p) matches Some((t, e)) && tok_matches(o2[k].tok, b, p, t) && o2[k].span.hi == e
        &&& k + 1 < o2.len() ==> o2[k + 1].span.lo == trivia_end(b, o2[k].span.hi as int)
    }) by {
        if k < out.len() {
            assert(o2[k] == out[k]);
            if k + 1 == out.len() {
                assert(o2[k + 1] == t);
            } else if k + 1 < out.len() {
                assert(o2[k + 1] == out[k + 1]);
            }
        }
    }
}

proof fn lemma_stream_finish(b: Seq<u8>, out: Seq<Token>, i: int)
    requires
        b.len() < u32::MAX, 0 <= i <= b.len(),
        stream_prefix(b, out, i), trivia_end(b, i) >= b.len(),
    ensures token_stream(b, out.push(Token { tok: Tok::Eof, span: Span { lo: b.len() as u32, hi: b.len() as u32 } })),
{
    reveal(stream_prefix);
    reveal(token_stream);
    lemma_trivia_end(b, i);
    let eof = Token { tok: Tok::Eof, span: Span { lo: b.len() as u32, hi: b.len() as u32 } };
    let o2 = out.push(eof);
    assert forall|k: int| 0 <= k < o2.len() - 1 implies ({
        let p = (#[trigger] o2[k]).span.lo as int;
        &&& !(o2[k].tok is Eof)
        &&& p < b.len()
        &&& ore_token(b, p) matches Some((t, e)) && tok_matches(o2[k].tok, b, p, t) && o2[k].span.hi == e
        &&& o2[k + 1].span.lo == trivia_end(b, o2[k].span.hi as int)
    }) by {
        assert(o2[k] == out[k]);
        if k + 1 == out.len() {
            assert(o2[k + 1] == eof);
        } else {
            assert(o2[k + 1] == out[k + 1]);
        }
    }
    if out.len() == 0 {
        assert(trivia_end(b, 0) == b.len());
    } else {
        assert(o2[0] == out[0]);
    }
}

/// One step of `lexes_ok`.
/// Where lexing from `i` first fails: the start of the first token that is not one.
pub open spec fn lex_fail(b: Seq<u8>, i: int) -> int
    decreases b.len() - i,
{
    let p = trivia_end(b, i);
    if i < 0 || i > b.len() || p >= b.len() {
        -1
    } else {
        match ore_token(b, p) {
            Some((_, e)) => if i < e && p < e && e <= b.len() { lex_fail(b, e) } else { p },
            None => p,
        }
    }
}

/// Where the error for a token that fails to lex at `p` ends: after the numeral that is
/// too large, or one byte on.
pub open spec fn ore_lex_end(b: Seq<u8>, p: int) -> int {
    if is_digit(b[p]) { digits_end(b, p) } else { p + 1 }
}

/// The message for a token that fails to lex at `p`.
pub open spec fn ore_lex_msg(b: Seq<u8>, p: int) -> Seq<char> {
    if is_digit(b[p]) { "integer too large"@ } else { "unexpected character"@ }
}

proof fn lemma_lexes_step(b: Seq<u8>, i: int)
    requires 0 <= i <= b.len(),
    ensures ({
        let p = trivia_end(b, i);
        &&& p >= b.len() ==> lexes_ok(b, i)
        &&& p < b.len() ==> match ore_token(b, p) {
            Some((_, e)) => i <= p < e <= b.len() ==> lexes_ok(b, i) == lexes_ok(b, e),
            None => !lexes_ok(b, i),
        }
    }),
{
    reveal(lexes_ok);
}

pub fn lex(src: &str) -> (r: Result<Vec<Token>, ParseError>)
    requires src.spec_bytes().len() < u32::MAX,
    ensures
        r is Ok <==> lexes_ok(src.spec_bytes(), 0),
        r matches Ok(toks) ==> token_stream(src.spec_bytes(), toks@),
        r matches Err(e) ==> e.span.lo as int == lex_fail(src.spec_bytes(), 0)
            && e.span.hi as int == ore_lex_end(src.spec_bytes(), lex_fail(src.spec_bytes(), 0))
            && e.msg@ == ore_lex_msg(src.spec_bytes(), lex_fail(src.spec_bytes(), 0)),
{
    lex_bytes(src.as_bytes())
}

fn lex_bytes(b: &[u8]) -> (r: Result<Vec<Token>, ParseError>)
    requires b@.len() < u32::MAX,
    ensures
        r is Ok <==> lexes_ok(b@, 0),
        r matches Ok(toks) ==> token_stream(b@, toks@),
        r matches Err(e) ==> e.span.lo as int == lex_fail(b@, 0) && e.span.hi as int == ore_lex_end(b@, lex_fail(b@, 0))
            && e.msg@ == ore_lex_msg(b@, lex_fail(b@, 0)),
{
    let n = b.len();
    let mut i: usize = 0;
    let mut out: Vec<Token> = Vec::new();
    assert(stream_prefix(b@, out@, 0)) by { reveal(stream_prefix); }
    loop
        invariant
            n == b@.len(), i <= n, n < u32::MAX,
            lexes_ok(b@, 0) == lexes_ok(b@, i as int),
            lex_fail(b@, 0) == lex_fail(b@, i as int),
            stream_prefix(b@, out@, i as int),
        ensures trivia_end(b@, i as int) >= n,
        decreases n - i,
    {
        let ghost i_before = i as int;
        let start = skip_trivia(b, i);
        if start >= n {
            break;
        }
        let (tok, e) = match lex_token(b, start) {
            Ok(x) => x,
            Err(err) => {
                proof { lemma_lexes_step(b@, i as int); }
                return Err(err);
            }
        };
        proof { lemma_lexes_step(b@, i as int); }
        i = e;
        proof {
            lemma_trivia_end(b@, i_before);
            lemma_stream_push(b@, out@, i_before, Token { tok, span: Span { lo: start as u32, hi: i as u32 } });
        }
        out.push(Token { tok, span: Span { lo: start as u32, hi: i as u32 } });
    }
    proof {
        lemma_stream_finish(b@, out@, i as int);
        lemma_lexes_step(b@, i as int);
    }
    out.push(Token { tok: Tok::Eof, span: Span { lo: n as u32, hi: n as u32 } });
    Ok(out)
}

/// The token at `start` (not trivia, not the end), or the error it is.
fn lex_token(b: &[u8], start: usize) -> (r: Result<(Tok, usize), ParseError>)
    requires start < b@.len(), b@.len() < u32::MAX,
    ensures
        r is Ok <==> ore_token(b@, start as int) is Some,
        r matches Err(e) ==> e.span.lo == start as u32 && e.span.hi as int == ore_lex_end(b@, start as int)
            && e.msg@ == ore_lex_msg(b@, start as int),
        r matches Ok((t, e)) ==> ore_token(b@, start as int) matches Some((t2, e2))
            && tok_matches(t, b@, start as int, t2) && e == e2 && start < e <= b@.len() && !(t is Eof),
{
    reveal(ore_token);
    let c = b[start];
    if digit(c) {
        match lex_number(b, start) {
            (Some(v), e) => Ok((Tok::Int(v), e)),
            (None, e) => {
                let mut msg = String::new();
                msg.append("integer too large");
                Err(ParseError { span: Span { lo: start as u32, hi: e as u32 }, msg })
            }
        }
    } else if alpha(c) || c == 95 {
        let (t, e) = lex_word(b, start);
        Ok((t, e))
    } else {
        match punct_tok(c, get(b, start + 1)) {
            Some((t, len)) => Ok((t, start + len)),
            None => {
                let mut msg = String::new();
                msg.append("unexpected character");
                Err(ParseError { span: Span { lo: start as u32, hi: (start + 1) as u32 }, msg })
            }
        }
    }
}

/// Skips whitespace and `//` comments.
fn skip_trivia(b: &[u8], from: usize) -> (r: usize)
    requires from <= b@.len(),
    ensures r == trivia_end(b@, from as int), from <= r <= b@.len(),
{
    let n = b.len();
    let mut i = from;
    let ghost i0 = from as int;
    proof { lemma_trivia_end(b@, i0); }
    loop
        invariant
            n == b@.len(), i0 <= i <= n, i0 == from,
            trivia_end(b@, i as int) == trivia_end(b@, i0),
        decreases n - i,
    {
        if i >= n {
            return i;
        }
        let c = b[i];
        if crate::bytes::ws(c) {
            i += 1;
        } else if c == 47 && i + 1 < n && b[i + 1] == 47 {
            let ghost cstart = i + 2;
            proof { lemma_line_end(b@, cstart as int); }
            i += 2;
            while i < n && b[i] != 10
                invariant
                    n == b@.len(), cstart <= i <= line_end(b@, cstart as int),
                    line_end(b@, i as int) == line_end(b@, cstart as int),
                decreases n - i,
            {
                proof { lemma_line_end(b@, i + 1); }
                i += 1;
            }
        } else {
            return i;
        }
    }
}

/// A run of digits at `start`: its value, or `None` when it is too large for `i64`.
pub(crate) fn lex_number(b: &[u8], start: usize) -> (r: (Option<i64>, usize))
    requires start < b@.len(), is_digit(b@[start as int]),
    ensures
        r.1 == digits_end(b@, start as int),
        start < r.1 <= b@.len(),
        r.0 is Some <==> digits_value(b@, start as int, r.1 as int) <= i64::MAX,
        r.0 matches Some(v) ==> v == digits_value(b@, start as int, r.1 as int),
{
    let n = b.len();
    let mut i = start;
    proof { lemma_digits_end(b@, start as int); }
    let mut v: i64 = 0;
    let mut overflow = false;
    while i < n && digit(b[i])
        invariant
            n == b@.len(), start <= i <= n,
            digits_end(b@, i as int) == digits_end(b@, start as int),
            !overflow ==> v == digits_value(b@, start as int, i as int),
            overflow ==> digits_value(b@, start as int, i as int) > i64::MAX,
            0 <= digits_value(b@, start as int, i as int),
        decreases n - i,
    {
        let dv = (b[i] - 48) as i64;
        if !overflow {
            match v.checked_mul(10) {
                Some(m) => match m.checked_add(dv) {
                    Some(x) => { v = x; }
                    None => { overflow = true; }
                },
                None => { overflow = true; }
            }
        }
        i += 1;
    }
    if overflow { (None, i) } else { (Some(v), i) }
}

/// A word at `start`: a keyword, or an identifier holding its text.
fn lex_word(b: &[u8], start: usize) -> (r: (Tok, usize))
    requires start < b@.len(), is_alpha(b@[start as int]) || b@[start as int] == 95,
    ensures
        r.1 == ident_end(b@, start as int),
        start < r.1 <= b@.len(),
        ({
            let w = b@.subrange(start as int, r.1 as int);
            match ore_keyword(w) {
                Some(k) => r.0 == k,
                None => r.0 matches Tok::Ident(name) && name@ == ascii_chars(w),
            }
        }),
{
    let n = b.len();
    let mut i = start;
    proof { lemma_scan_ends(b@, start as int); }
    while i < n && ident_byte(b[i])
        invariant
            n == b@.len(), start <= i <= n,
            ident_end(b@, i as int) == ident_end(b@, start as int),
            forall|k: int| start <= k < i ==> is_ident_byte(#[trigger] b@[k]),
        decreases n - i,
    {
        i += 1;
    }
    let t = if span_is(b, start, i, &[102u8, 110]) { Tok::Fn }
    else if span_is(b, start, i, &[108u8, 101, 116]) { Tok::Let }
    else if span_is(b, start, i, &[109u8, 117, 116]) { Tok::Mut }
    else if span_is(b, start, i, &[105u8, 102]) { Tok::If }
    else if span_is(b, start, i, &[101u8, 108, 115, 101]) { Tok::Else }
    else if span_is(b, start, i, &[119u8, 104, 105, 108, 101]) { Tok::While }
    else if span_is(b, start, i, &[114u8, 101, 116, 117, 114, 110]) { Tok::Return }
    else if span_is(b, start, i, &[116u8, 114, 117, 101]) { Tok::True }
    else if span_is(b, start, i, &[102u8, 97, 108, 115, 101]) { Tok::False }
    else {
        let word = &b[start..i];
        assert(word@ == b@.subrange(start as int, i as int));
        assert(is_ascii_seq(word@)) by {
            assert forall|k: int| 0 <= k < word@.len() implies #[trigger] word@[k] < 128 by {
                assert(is_ident_byte(b@[start + k]));
            }
        }
        Tok::Ident(ascii_string(word))
    };
    (t, i)
}

fn punct_tok(c: u8, n: Option<u8>) -> (r: Option<(Tok, usize)>)
    ensures
        r is None <==> ore_punct(c, n) is None,
        r matches Some((t, len)) ==> ore_punct(c, n) == Some((t, len as int)) && 1 <= len <= 2,
{
    let (has, n2) = match n { Some(x) => (true, x), None => (false, 0u8) };
    if c == 45 && has && n2 == 62 { Some((Tok::Arrow, 2)) }
    else if c == 61 && has && n2 == 61 { Some((Tok::EqEq, 2)) }
    else if c == 33 && has && n2 == 61 { Some((Tok::Ne, 2)) }
    else if c == 60 && has && n2 == 61 { Some((Tok::Le, 2)) }
    else if c == 62 && has && n2 == 61 { Some((Tok::Ge, 2)) }
    else if c == 38 && has && n2 == 38 { Some((Tok::AndAnd, 2)) }
    else if c == 124 && has && n2 == 124 { Some((Tok::OrOr, 2)) }
    else if c == 40 { Some((Tok::LParen, 1)) }
    else if c == 41 { Some((Tok::RParen, 1)) }
    else if c == 123 { Some((Tok::LBrace, 1)) }
    else if c == 125 { Some((Tok::RBrace, 1)) }
    else if c == 44 { Some((Tok::Comma, 1)) }
    else if c == 59 { Some((Tok::Semi, 1)) }
    else if c == 58 { Some((Tok::Colon, 1)) }
    else if c == 43 { Some((Tok::Plus, 1)) }
    else if c == 45 { Some((Tok::Minus, 1)) }
    else if c == 42 { Some((Tok::Star, 1)) }
    else if c == 47 { Some((Tok::Slash, 1)) }
    else if c == 37 { Some((Tok::Percent, 1)) }
    else if c == 61 { Some((Tok::Assign, 1)) }
    else if c == 60 { Some((Tok::Lt, 1)) }
    else if c == 62 { Some((Tok::Gt, 1)) }
    else if c == 33 { Some((Tok::Bang, 1)) }
    else { None }
}

} // verus!

verus! {

// ---------------- AST ----------------

#[derive(Debug, Clone, Copy, PartialEq, Eq, Structural)]
pub enum BinOp { Add, Sub, Mul, Div, Rem, Eq, Ne, Lt, Le, Gt, Ge, And, Or }

#[derive(Debug, Clone, Copy, PartialEq, Eq, Structural)]
pub enum UnOp { Neg, Not }

#[derive(Debug)]
pub struct Expr {
    pub kind: ExprKind,
    pub span: Span,
}

#[derive(Debug)]
pub enum ExprKind {
    Int(i64),
    Bool(bool),
    Var(String),
    Unary(UnOp, Box<Expr>),
    Binary(BinOp, Box<Expr>, Box<Expr>),
    Assign(Box<Expr>, Box<Expr>),
    Call(Box<Expr>, Vec<Expr>),
    /// The else branch is a block expression or another `if`.
    If(Box<Expr>, Block, Option<Box<Expr>>),
    While(Box<Expr>, Block),
    Block(Block),
    Return(Option<Box<Expr>>),
}

#[derive(Debug)]
pub struct Block {
    pub stmts: Vec<Stmt>,
    pub tail: Option<Box<Expr>>,
    pub span: Span,
}

#[derive(Debug)]
pub enum Stmt {
    Let { name: String, mutable: bool, ty: Option<String>, init: Expr, span: Span },
    Expr(Expr),
}

#[derive(Debug)]
pub struct Param {
    pub name: String,
    pub ty: Option<String>,
    pub span: Span,
}

#[derive(Debug)]
pub struct FnDecl {
    pub name: String,
    pub params: Vec<Param>,
    pub ret: Option<String>,
    pub body: Block,
    pub span: Span,
}

/// An assignment's target is a variable.
pub open spec fn assign_ok(e: Expr) -> bool {
    e.kind matches ExprKind::Assign(l, _) ==> l.kind is Var
}

/// The comparison operator tokens; comparisons do not associate.
pub open spec fn is_cmp_tok(t: Tok) -> bool {
    t is EqEq || t is Ne || t is Lt || t is Le || t is Gt || t is Ge
}

/// Tokens equal as the parser compares them: same variant, same payload.
pub open spec fn tok_same(a: Tok, b: Tok) -> bool {
    match (a, b) {
        (Tok::Int(x), Tok::Int(y)) => x == y,
        (Tok::Ident(x), Tok::Ident(y)) => x@ == y@,
        (Tok::Int(_), _) => false,
        (Tok::Ident(_), _) => false,
        (_, Tok::Int(_)) => false,
        (_, Tok::Ident(_)) => false,
        _ => a == b,
    }
}

pub fn tok_eq(a: &Tok, b: &Tok) -> (r: bool)
    ensures r == tok_same(*a, *b),
{
    match (a, b) {
        (Tok::Int(x), Tok::Int(y)) => *x == *y,
        (Tok::Ident(x), Tok::Ident(y)) => *x == *y,
        (Tok::Int(_), _) | (Tok::Ident(_), _) | (_, Tok::Int(_)) | (_, Tok::Ident(_)) => false,
        (Tok::Fn, Tok::Fn) | (Tok::Let, Tok::Let) | (Tok::Mut, Tok::Mut) | (Tok::If, Tok::If)
        | (Tok::Else, Tok::Else) | (Tok::While, Tok::While) | (Tok::Return, Tok::Return)
        | (Tok::True, Tok::True) | (Tok::False, Tok::False) | (Tok::LParen, Tok::LParen)
        | (Tok::RParen, Tok::RParen) | (Tok::LBrace, Tok::LBrace) | (Tok::RBrace, Tok::RBrace)
        | (Tok::Comma, Tok::Comma) | (Tok::Semi, Tok::Semi) | (Tok::Colon, Tok::Colon)
        | (Tok::Arrow, Tok::Arrow) | (Tok::Plus, Tok::Plus) | (Tok::Minus, Tok::Minus)
        | (Tok::Star, Tok::Star) | (Tok::Slash, Tok::Slash) | (Tok::Percent, Tok::Percent)
        | (Tok::Assign, Tok::Assign) | (Tok::EqEq, Tok::EqEq) | (Tok::Ne, Tok::Ne) | (Tok::Lt, Tok::Lt)
        | (Tok::Le, Tok::Le) | (Tok::Gt, Tok::Gt) | (Tok::Ge, Tok::Ge) | (Tok::AndAnd, Tok::AndAnd)
        | (Tok::OrOr, Tok::OrOr) | (Tok::Bang, Tok::Bang) | (Tok::Eof, Tok::Eof) => true,
        _ => false,
    }
}

/// The text `{:?}` gives for a token.
pub open spec fn tok_debug_text(t: Tok) -> Seq<char> {
    match t {
        Tok::Int(n) => "Int("@ + ascii_chars(int_text(n as int)) + ")"@,
        Tok::Ident(name) => "Ident(\""@ + name@ + "\")"@,
        Tok::Fn => "Fn"@,
        Tok::Let => "Let"@,
        Tok::Mut => "Mut"@,
        Tok::If => "If"@,
        Tok::Else => "Else"@,
        Tok::While => "While"@,
        Tok::Return => "Return"@,
        Tok::True => "True"@,
        Tok::False => "False"@,
        Tok::LParen => "LParen"@,
        Tok::RParen => "RParen"@,
        Tok::LBrace => "LBrace"@,
        Tok::RBrace => "RBrace"@,
        Tok::Comma => "Comma"@,
        Tok::Semi => "Semi"@,
        Tok::Colon => "Colon"@,
        Tok::Arrow => "Arrow"@,
        Tok::Plus => "Plus"@,
        Tok::Minus => "Minus"@,
        Tok::Star => "Star"@,
        Tok::Slash => "Slash"@,
        Tok::Percent => "Percent"@,
        Tok::Assign => "Assign"@,
        Tok::EqEq => "EqEq"@,
        Tok::Ne => "Ne"@,
        Tok::Lt => "Lt"@,
        Tok::Le => "Le"@,
        Tok::Gt => "Gt"@,
        Tok::Ge => "Ge"@,
        Tok::AndAnd => "AndAnd"@,
        Tok::OrOr => "OrOr"@,
        Tok::Bang => "Bang"@,
        Tok::Eof => "Eof"@,
    }
}

/// The token as `{:?}` prints it.
pub fn tok_debug(t: &Tok) -> (r: String)
    ensures r@ == tok_debug_text(*t),
{
    let mut s = String::new();
    match t {
        Tok::Int(n) => {
            s.append("Int(");
            let d = int_to_string(*n);
            s.append(d.as_str());
            s.append(")");
        }
        Tok::Ident(name) => {
            s.append("Ident(\"");
            s.append(name.as_str());
            s.append("\")");
        }
        Tok::Fn => s.append("Fn"), Tok::Let => s.append("Let"), Tok::Mut => s.append("Mut"),
        Tok::If => s.append("If"), Tok::Else => s.append("Else"), Tok::While => s.append("While"),
        Tok::Return => s.append("Return"), Tok::True => s.append("True"), Tok::False => s.append("False"),
        Tok::LParen => s.append("LParen"), Tok::RParen => s.append("RParen"),
        Tok::LBrace => s.append("LBrace"), Tok::RBrace => s.append("RBrace"),
        Tok::Comma => s.append("Comma"), Tok::Semi => s.append("Semi"), Tok::Colon => s.append("Colon"),
        Tok::Arrow => s.append("Arrow"), Tok::Plus => s.append("Plus"), Tok::Minus => s.append("Minus"),
        Tok::Star => s.append("Star"), Tok::Slash => s.append("Slash"), Tok::Percent => s.append("Percent"),
        Tok::Assign => s.append("Assign"), Tok::EqEq => s.append("EqEq"), Tok::Ne => s.append("Ne"),
        Tok::Lt => s.append("Lt"), Tok::Le => s.append("Le"), Tok::Gt => s.append("Gt"), Tok::Ge => s.append("Ge"),
        Tok::AndAnd => s.append("AndAnd"), Tok::OrOr => s.append("OrOr"), Tok::Bang => s.append("Bang"),
        Tok::Eof => s.append("Eof"),
    }
    assert(s@ =~= tok_debug_text(*t));
    s
}

/// A copy of a token (the derived `Clone` is not read by the verifier).
pub fn tok_clone(t: &Tok) -> (r: Tok)
    ensures tok_same(r, *t),
{
    match t {
        Tok::Int(n) => Tok::Int(*n),
        Tok::Ident(s) => Tok::Ident(s.clone()),
        Tok::Fn => Tok::Fn, Tok::Let => Tok::Let, Tok::Mut => Tok::Mut, Tok::If => Tok::If,
        Tok::Else => Tok::Else, Tok::While => Tok::While, Tok::Return => Tok::Return,
        Tok::True => Tok::True, Tok::False => Tok::False, Tok::LParen => Tok::LParen,
        Tok::RParen => Tok::RParen, Tok::LBrace => Tok::LBrace, Tok::RBrace => Tok::RBrace,
        Tok::Comma => Tok::Comma, Tok::Semi => Tok::Semi, Tok::Colon => Tok::Colon,
        Tok::Arrow => Tok::Arrow, Tok::Plus => Tok::Plus, Tok::Minus => Tok::Minus,
        Tok::Star => Tok::Star, Tok::Slash => Tok::Slash, Tok::Percent => Tok::Percent,
        Tok::Assign => Tok::Assign, Tok::EqEq => Tok::EqEq, Tok::Ne => Tok::Ne, Tok::Lt => Tok::Lt,
        Tok::Le => Tok::Le, Tok::Gt => Tok::Gt, Tok::Ge => Tok::Ge, Tok::AndAnd => Tok::AndAnd,
        Tok::OrOr => Tok::OrOr, Tok::Bang => Tok::Bang, Tok::Eof => Tok::Eof,
    }
}

} // verus!

verus! {

// ---------------- parser ----------------

pub struct Parser {
    toks: Vec<Token>,
    at: usize,
}

pub type PResult<T> = Result<T, ParseError>;

/// The binary operator a token denotes at one left-associative precedence level:
/// 0 is `||`, 1 is `&&`, 2 is `+ -`, 3 is `* / %`.
pub open spec fn level_op(level: u8, t: Tok) -> Option<BinOp> {
    if level == 0 {
        if t is OrOr { Some(BinOp::Or) } else { None }
    } else if level == 1 {
        if t is AndAnd { Some(BinOp::And) } else { None }
    } else if level == 2 {
        if t is Plus { Some(BinOp::Add) } else if t is Minus { Some(BinOp::Sub) } else { None }
    } else {
        if t is Star { Some(BinOp::Mul) } else if t is Slash { Some(BinOp::Div) } else if t is Percent { Some(BinOp::Rem) } else { None }
    }
}

/// The token at position `i`, `Eof` past the end.
pub open spec fn tok_at(ts: Seq<Token>, i: int) -> Tok {
    if 0 <= i < ts.len() { ts[i].tok } else { Tok::Eof }
}

/// How many tokens are left after position `p`.
pub open spec fn toks_left(ts: Seq<Token>, p: int) -> nat {
    if p <= ts.len() { (ts.len() - p) as nat } else { 0 }
}

/// What the parser needs to know of a parsed expression: 1 for a variable, 2 for a
/// block-like expression (`if`, `while`, a block), 0 otherwise.
pub open spec fn expr_class(e: Expr) -> u8 {
    match e.kind {
        ExprKind::Var(_) => 1,
        ExprKind::If(..) => 2,
        ExprKind::While(..) => 2,
        ExprKind::Block(_) => 2,
        _ => 0,
    }
}

/// Where an expression starting at token `p` ends, with its class; `None` where the tokens
/// there are not one.
pub open spec fn pe_expr(ts: Seq<Token>, p: int) -> Option<(int, u8)>
    decreases toks_left(ts, p), 21nat,
{
    pe_assign(ts, p)
}

/// assign := or ("=" assign)?, the left side a variable.
pub open spec fn pe_assign(ts: Seq<Token>, p: int) -> Option<(int, u8)>
    decreases toks_left(ts, p), 20nat,
{
    match pe_level(ts, p, 0) {
        Some((k, c)) => if p < k < ts.len() {
            if tok_at(ts, k) is Assign {
                match pe_assign(ts, k + 1) {
                    Some((k2, _)) => if c == 1 { Some((k2, 0u8)) } else { None },
                    None => None,
                }
            } else {
                Some((k, c))
            }
        } else {
            None
        },
        None => None,
    }
}

/// One left-associative level: operand (op operand)*.
pub open spec fn pe_level(ts: Seq<Token>, p: int, level: u8) -> Option<(int, u8)>
    decreases toks_left(ts, p), level_rank(level),
{
    match pe_operand(ts, p, level) {
        Some((k, c)) => if p < k < ts.len() { pe_level_rest(ts, k, level, c) } else { None },
        None => None,
    }
}

/// The `(op operand)*` that follows position `k` at one level; `c` is the class so far.
pub open spec fn pe_level_rest(ts: Seq<Token>, k: int, level: u8, c: u8) -> Option<(int, u8)>
    decreases toks_left(ts, k), level_rank(level),
{
    if 0 <= k < ts.len() && level_op(level, tok_at(ts, k)) is Some {
        match pe_operand(ts, k + 1, level) {
            Some((k2, _)) => if k + 1 < k2 < ts.len() { pe_level_rest(ts, k2, level, 0) } else { None },
            None => None,
        }
    } else {
        Some((k, c))
    }
}

/// The operand of a level: `&&` under `||`, comparisons under `&&`, `*` under `+`, unary
/// under `*`.
pub open spec fn pe_operand(ts: Seq<Token>, p: int, level: u8) -> Option<(int, u8)>
    decreases toks_left(ts, p), operand_rank(level),
{
    if level == 0 {
        pe_level(ts, p, 1)
    } else if level == 1 {
        pe_comparison(ts, p)
    } else if level == 2 {
        pe_level(ts, p, 3)
    } else {
        pe_unary(ts, p)
    }
}

/// cmp := add (cmp_op add)?, not followed by another comparison.
pub open spec fn pe_comparison(ts: Seq<Token>, p: int) -> Option<(int, u8)>
    decreases toks_left(ts, p), 13nat,
{
    match pe_level(ts, p, 2) {
        Some((k, c)) => if p < k < ts.len() {
            if is_cmp_tok(tok_at(ts, k)) {
                match pe_level(ts, k + 1, 2) {
                    Some((k2, _)) => if k + 1 < k2 < ts.len() {
                        if is_cmp_tok(tok_at(ts, k2)) { None } else { Some((k2, 0u8)) }
                    } else {
                        None
                    },
                    None => None,
                }
            } else {
                Some((k, c))
            }
        } else {
            None
        },
        None => None,
    }
}

/// unary := ("-" | "!") unary | postfix
pub open spec fn pe_unary(ts: Seq<Token>, p: int) -> Option<(int, u8)>
    decreases toks_left(ts, p), 6nat,
{
    if 0 <= p < ts.len() && (tok_at(ts, p) is Minus || tok_at(ts, p) is Bang) {
        match pe_unary(ts, p + 1) {
            Some((k, _)) => Some((k, 0u8)),
            None => None,
        }
    } else {
        pe_postfix(ts, p)
    }
}

/// postfix := primary ("(" args ")")*
pub open spec fn pe_postfix(ts: Seq<Token>, p: int) -> Option<(int, u8)>
    decreases toks_left(ts, p), 5nat,
{
    match pe_primary(ts, p) {
        Some((k, c)) => if p < k < ts.len() { pe_calls(ts, k, c) } else { None },
        None => None,
    }
}

/// The calls that follow position `k`.
pub open spec fn pe_calls(ts: Seq<Token>, k: int, c: u8) -> Option<(int, u8)>
    decreases toks_left(ts, k), 5nat,
{
    if 0 <= k < ts.len() && tok_at(ts, k) is LParen {
        match pe_args(ts, k + 1) {
            Some(a) => if k + 1 <= a < ts.len() && tok_at(ts, a) is RParen { pe_calls(ts, a + 1, 0) } else { None },
            None => None,
        }
    } else {
        Some((k, c))
    }
}

/// Call arguments from position `q`: expressions separated, and optionally ended, by commas;
/// where they stop (before the closing parenthesis, if any).
pub open spec fn pe_args(ts: Seq<Token>, q: int) -> Option<int>
    decreases toks_left(ts, q), 22nat,
{
    if !(0 <= q < ts.len()) {
        None
    } else if tok_at(ts, q) is RParen {
        Some(q)
    } else {
        match pe_expr(ts, q) {
            Some((k, _)) => if q < k < ts.len() {
                if tok_at(ts, k) is Comma { pe_args(ts, k + 1) } else { Some(k) }
            } else {
                None
            },
            None => None,
        }
    }
}

/// primary := INT | "true" | "false" | IDENT | "(" expr ")" | block | if_expr
///          | "while" expr block | "return" expr?
pub open spec fn pe_primary(ts: Seq<Token>, p: int) -> Option<(int, u8)>
    decreases toks_left(ts, p), 4nat,
{
    if !(0 <= p < ts.len()) {
        None
    } else {
        match tok_at(ts, p) {
            Tok::Int(_) => Some((p + 1, 0u8)),
            Tok::True => Some((p + 1, 0u8)),
            Tok::False => Some((p + 1, 0u8)),
            Tok::Ident(_) => Some((p + 1, 1u8)),
            Tok::LParen => match pe_expr(ts, p + 1) {
                Some((k, c)) => if p + 1 < k < ts.len() && tok_at(ts, k) is RParen { Some((k + 1, c)) } else { None },
                None => None,
            },
            Tok::LBrace => match pe_block(ts, p) {
                Some(k) => Some((k, 2u8)),
                None => None,
            },
            Tok::If => match pe_if(ts, p) {
                Some(k) => Some((k, 2u8)),
                None => None,
            },
            Tok::While => match pe_expr(ts, p + 1) {
                Some((k, _)) => if p + 1 < k < ts.len() {
                    match pe_block(ts, k) {
                        Some(k2) => Some((k2, 2u8)),
                        None => None,
                    }
                } else {
                    None
                },
                None => None,
            },
            Tok::Return => if tok_at(ts, p + 1) is Semi || tok_at(ts, p + 1) is RBrace {
                Some((p + 1, 0u8))
            } else {
                match pe_expr(ts, p + 1) {
                    Some((k, _)) => Some((k, 0u8)),
                    None => None,
                }
            },
            _ => None,
        }
    }
}

/// if_expr := "if" expr block ("else" (block | if_expr))?, from the `if` at `p`.
pub open spec fn pe_if(ts: Seq<Token>, p: int) -> Option<int>
    decreases toks_left(ts, p), 3nat,
{
    if !(0 <= p < ts.len()) {
        None
    } else {
        match pe_expr(ts, p + 1) {
            Some((k, _)) => if p + 1 < k < ts.len() {
                match pe_block(ts, k) {
                    Some(k2) => if k < k2 < ts.len() {
                        if tok_at(ts, k2) is Else {
                            if tok_at(ts, k2 + 1) is If { pe_if(ts, k2 + 1) } else { pe_block(ts, k2 + 1) }
                        } else {
                            Some(k2)
                        }
                    } else {
                        None
                    },
                    None => None,
                }
            } else {
                None
            },
            None => None,
        }
    }
}

/// block := "{" stmt* expr? "}"; where it ends.
pub open spec fn pe_block(ts: Seq<Token>, p: int) -> Option<int>
    decreases toks_left(ts, p), 3nat,
{
    if 0 <= p < ts.len() && tok_at(ts, p) is LBrace { pe_stmts(ts, p + 1) } else { None }
}

/// The statements of a block from position `q` to its closing brace, and where it ends:
/// a `let`, an expression with `;`, a block-like expression without one, and a last
/// expression before the brace.
pub open spec fn pe_stmts(ts: Seq<Token>, q: int) -> Option<int>
    decreases toks_left(ts, q), 23nat,
{
    if !(0 <= q < ts.len()) {
        None
    } else if tok_at(ts, q) is RBrace {
        Some(q + 1)
    } else if tok_at(ts, q) is Let {
        match pe_let(ts, q) {
            Some(k) => if q < k < ts.len() { pe_stmts(ts, k) } else { None },
            None => None,
        }
    } else {
        match pe_expr(ts, q) {
            Some((k, c)) => if q < k < ts.len() {
                if tok_at(ts, k) is Semi {
                    pe_stmts(ts, k + 1)
                } else if tok_at(ts, k) is RBrace {
                    Some(k + 1)
                } else if c == 2 {
                    pe_stmts(ts, k)
                } else {
                    None
                }
            } else {
                None
            },
            None => None,
        }
    }
}

/// let_stmt := "let" "mut"? IDENT (":" IDENT)? "=" expr ";", from the `let` at `p` (whatever
/// token stands there is taken for it).
pub open spec fn pe_let(ts: Seq<Token>, p: int) -> Option<int>
    decreases toks_left(ts, p), 2nat,
{
    let p1 = if tok_at(ts, p) is Eof { p } else { p + 1 };
    let m = if tok_at(ts, p1) is Mut { p1 + 1 } else { p1 };
    let n = if tok_at(ts, m + 1) is Colon { m + 3 } else { m + 1 };
    if !(0 <= p < ts.len()) || !(tok_at(ts, m) is Ident)
        || (tok_at(ts, m + 1) is Colon && !(tok_at(ts, m + 2) is Ident)) || !(tok_at(ts, n) is Assign) {
        None
    } else {
        match pe_expr(ts, n + 1) {
            Some((k, _)) => if tok_at(ts, k) is Semi { Some(k + 1) } else { None },
            None => None,
        }
    }
}

/// The parameters of a function from position `q`: where they stop.
pub open spec fn pe_params(ts: Seq<Token>, q: int) -> Option<int>
    decreases toks_left(ts, q),
{
    let n = if tok_at(ts, q + 1) is Colon { q + 3 } else { q + 1 };
    if !(0 <= q < ts.len()) {
        None
    } else if tok_at(ts, q) is RParen {
        Some(q)
    } else if !(tok_at(ts, q) is Ident) || (tok_at(ts, q + 1) is Colon && !(tok_at(ts, q + 2) is Ident)) {
        None
    } else if tok_at(ts, n) is Comma {
        if n + 1 <= ts.len() { pe_params(ts, n + 1) } else { None }
    } else {
        Some(n)
    }
}

/// fn_decl := "fn" IDENT "(" (param ("," param)*)? ")" ("->" IDENT)? block, from `p`.
pub open spec fn pe_fn(ts: Seq<Token>, p: int) -> Option<int> {
    if !(tok_at(ts, p) is Fn) || !(tok_at(ts, p + 1) is Ident) || !(tok_at(ts, p + 2) is LParen) {
        None
    } else {
        match pe_params(ts, p + 3) {
            Some(q) => if !(tok_at(ts, q) is RParen) {
                None
            } else if tok_at(ts, q + 1) is Arrow {
                if tok_at(ts, q + 2) is Ident { pe_block(ts, q + 3) } else { None }
            } else {
                pe_block(ts, q + 1)
            },
            None => None,
        }
    }
}

/// program := fn_decl*, from position `p` to the end.
pub open spec fn pe_program(ts: Seq<Token>, p: int) -> bool
    decreases toks_left(ts, p),
{
    if !(0 <= p < ts.len()) {
        false
    } else if tok_at(ts, p) is Eof {
        true
    } else {
        match pe_fn(ts, p) {
            Some(k) => if p < k < ts.len() { pe_program(ts, k) } else { false },
            None => false,
        }
    }
}

/// How many function declarations a program has from position `p`.
pub open spec fn pe_fn_count(ts: Seq<Token>, p: int) -> nat
    decreases toks_left(ts, p),
{
    if !(0 <= p < ts.len()) || tok_at(ts, p) is Eof {
        0
    } else {
        match pe_fn(ts, p) {
            Some(k) => if p < k < ts.len() { 1 + pe_fn_count(ts, k) } else { 0 },
            None => 0,
        }
    }
}

/// The termination rank of a level's operand (just below the level).
pub open spec fn operand_rank(level: u8) -> nat {
    if level == 0 { 17 } else if level == 1 { 14 } else if level == 2 { 10 } else { 7 }
}

/// The termination rank of a left-associative level (below its caller, above its operand).
pub open spec fn level_rank(level: u8) -> nat {
    if level == 0 { 18 } else if level == 1 { 15 } else if level == 2 { 11 } else { 8 }
}

fn level_op_of(level: u8, t: &Tok) -> (r: Option<BinOp>)
    ensures r == level_op(level, *t),
{
    if level == 0 {
        match t { Tok::OrOr => Some(BinOp::Or), _ => None }
    } else if level == 1 {
        match t { Tok::AndAnd => Some(BinOp::And), _ => None }
    } else if level == 2 {
        match t { Tok::Plus => Some(BinOp::Add), Tok::Minus => Some(BinOp::Sub), _ => None }
    } else {
        match t { Tok::Star => Some(BinOp::Mul), Tok::Slash => Some(BinOp::Div), Tok::Percent => Some(BinOp::Rem), _ => None }
    }
}

impl Parser {
    pub closed spec fn tokens(&self) -> Seq<Token> {
        self.toks@
    }

    pub closed spec fn pos(&self) -> int {
        self.at as int
    }

    /// Tokens end with `Eof`, and the position is on a token.
    pub open spec fn wf(&self) -> bool {
        &&& self.tokens().len() >= 1
        &&& self.tokens().last().tok is Eof
        &&& 0 <= self.pos() < self.tokens().len()
    }

    /// The current token.
    pub open spec fn cur(&self) -> Tok {
        self.tokens()[self.pos()].tok
    }

    /// Parsing keeps the tokens, and never moves backward.
    pub open spec fn advanced(&self, old: Parser) -> bool {
        &&& self.wf()
        &&& self.tokens() == old.tokens()
        &&& old.pos() <= self.pos()
    }

    pub fn new(toks: Vec<Token>) -> (p: Self)
        requires toks@.len() >= 1, toks@.last().tok is Eof,
        ensures p.wf(), p.tokens() == toks@, p.pos() == 0,
    {
        Parser { toks, at: 0 }
    }

    fn peek(&self) -> (t: &Tok)
        requires self.wf(),
        ensures *t == self.cur(),
    {
        &self.toks[self.at].tok
    }

    fn span(&self) -> (s: Span)
        requires self.wf(),
        ensures s == self.tokens()[self.pos()].span,
    {
        self.toks[self.at].span
    }

    /// Consumes the current token; `Eof` is never consumed.
    fn bump(&mut self) -> (t: Token)
        requires old(self).wf(),
        ensures
            final(self).advanced(*old(self)),
            tok_same(t.tok, old(self).cur()),
            t.span == old(self).tokens()[old(self).pos()].span,
            final(self).pos() == if old(self).cur() is Eof { old(self).pos() } else { old(self).pos() + 1 },
    {
        let t = Token { tok: tok_clone(&self.toks[self.at].tok), span: self.toks[self.at].span };
        let is_eof = match &self.toks[self.at].tok { Tok::Eof => true, _ => false };
        let n = self.toks.len();
        if !is_eof {
            assert(self.at as int != self.toks@.len() - 1);
            self.at += 1;
        }
        t
    }

    /// Consumes the current token if it is `t`.
    fn eat(&mut self, t: &Tok) -> (r: bool)
        requires old(self).wf(), !(*t is Eof),
        ensures
            final(self).advanced(*old(self)),
            r == tok_same(old(self).cur(), *t),
            final(self).pos() == if r { old(self).pos() + 1 } else { old(self).pos() },
    {
        if tok_eq(self.peek(), t) {
            self.bump();
            true
        } else {
            false
        }
    }

    fn expect(&mut self, t: &Tok, what: &str) -> (r: PResult<Token>)
        requires old(self).wf(), !(*t is Eof),
        ensures
            final(self).advanced(*old(self)),
            r is Ok <==> tok_same(old(self).cur(), *t),
            r matches Ok(tok) ==> final(self).pos() == old(self).pos() + 1 && tok.span == old(self).tokens()[old(self).pos()].span,
            r matches Err(e) ==> final(self).pos() == old(self).pos() && e.span == old(self).tokens()[old(self).pos()].span,
    {
        if tok_eq(self.peek(), t) {
            Ok(self.bump())
        } else {
            let mut msg = String::new();
            msg.append("expected ");
            msg.append(what);
            self.error(msg)
        }
    }

    /// An error at the current token: `{msg}, found {token:?}`.
    fn error<T>(&self, msg: String) -> (r: PResult<T>)
        requires self.wf(),
        ensures r matches Err(e) && e.span == self.tokens()[self.pos()].span,
    {
        let mut m = msg;
        m.append(", found ");
        let d = tok_debug(self.peek());
        m.append(d.as_str());
        Err(ParseError { span: self.span(), msg: m })
    }

    fn ident(&mut self) -> (r: PResult<(String, Span)>)
        requires old(self).wf(),
        ensures
            final(self).advanced(*old(self)),
            r is Ok <==> old(self).cur() is Ident,
            r matches Ok((name, sp)) ==> old(self).cur() matches Tok::Ident(n) && n@ == name@
                && sp == old(self).tokens()[old(self).pos()].span && final(self).pos() == old(self).pos() + 1,
            r is Err ==> final(self).pos() == old(self).pos(),
    {
        match self.peek() {
            Tok::Ident(name) => {
                let n = name.clone();
                let sp = self.bump().span;
                Ok((n, sp))
            }
            _ => {
                let mut msg = String::new();
                msg.append("expected a name");
                self.error(msg)
            }
        }
    }
}

} // verus!

verus! {

impl Parser {
    /// program := fn_decl*
    pub fn program(&mut self) -> (r: PResult<Vec<FnDecl>>)
        requires old(self).wf(),
        ensures
            final(self).advanced(*old(self)),
            r is Ok ==> final(self).cur() is Eof,
            r is Ok <==> pe_program(old(self).tokens(), old(self).pos()),
            r matches Ok(v) ==> v@.len() == pe_fn_count(old(self).tokens(), old(self).pos()),
            old(self).cur() is Eof ==> (r matches Ok(v) && v@.len() == 0),
    {
        let mut items: Vec<FnDecl> = Vec::new();
        while !matches!(self.peek(), Tok::Eof)
            invariant self.advanced(*old(self)),
                pe_program(self.tokens(), self.pos()) == pe_program(old(self).tokens(), old(self).pos()),
                pe_program(self.tokens(), self.pos()) ==>
                    items@.len() + pe_fn_count(self.tokens(), self.pos()) == pe_fn_count(old(self).tokens(), old(self).pos()),
            decreases self.tokens().len() - self.pos(),
        {
            let f = self.fn_decl()?;
            items.push(f);
        }
        Ok(items)
    }

    /// fn_decl := "fn" IDENT "(" (param ("," param)*)? ")" ("->" IDENT)? block
    #[verifier::spinoff_prover]
    #[verifier::rlimit(50)]
    fn fn_decl(&mut self) -> (r: PResult<FnDecl>)
        requires old(self).wf(),
        ensures
            final(self).advanced(*old(self)),
            r is Ok ==> final(self).pos() > old(self).pos(),
            r matches Ok(f) ==> f.span.lo == old(self).tokens()[old(self).pos()].span.lo,
            r is Ok <==> pe_fn(old(self).tokens(), old(self).pos()) is Some,
            r is Ok ==> pe_fn(old(self).tokens(), old(self).pos()) == Some(final(self).pos()),
            r matches Ok(f) ==> (tok_at(old(self).tokens(), old(self).pos() + 1) matches Tok::Ident(n) && n@ == f.name@),
    {
        let lo = self.expect(&Tok::Fn, "`fn`")?.span;
        let ghost p1 = self.pos();
        let (name, _) = self.ident()?;
        assert(p1 == old(self).pos() + 1);
        self.expect(&Tok::LParen, "`(`")?;
        let ghost q0 = self.pos();
        let mut params: Vec<Param> = Vec::new();
        while !matches!(self.peek(), Tok::RParen)
            invariant_except_break
                pe_params(self.tokens(), self.pos()) == pe_params(old(self).tokens(), q0),
            invariant self.advanced(*old(self)), self.pos() > old(self).pos(), q0 == old(self).pos() + 3,
            ensures pe_params(old(self).tokens(), q0) == Some(self.pos()),
            decreases self.tokens().len() - self.pos(),
        {
            let (pname, pspan) = self.ident()?;
            let ty = if self.eat(&Tok::Colon) { Some(self.ident()?.0) } else { None };
            params.push(Param { name: pname, ty, span: pspan });
            if !self.eat(&Tok::Comma) {
                break;
            }
        }
        self.expect(&Tok::RParen, "`)`")?;
        let ret = if self.eat(&Tok::Arrow) { Some(self.ident()?.0) } else { None };
        let body = self.block()?;
        let span = lo.to(body.span);
        Ok(FnDecl { name, params, ret, span, body })
    }

    /// block := "{" stmt* expr? "}"
    fn block(&mut self) -> (r: PResult<Block>)
        requires old(self).wf(),
        ensures
            final(self).advanced(*old(self)),
            r is Ok ==> final(self).pos() > old(self).pos() && old(self).cur() is LBrace,
            r matches Ok(b) ==> b.span.lo == old(self).tokens()[old(self).pos()].span.lo
                && b.span.hi == final(self).tokens()[final(self).pos() - 1].span.hi,
            r is Ok <==> pe_block(old(self).tokens(), old(self).pos()) is Some,
            r is Ok ==> pe_block(old(self).tokens(), old(self).pos()) == Some(final(self).pos()),
        decreases old(self).tokens().len() - old(self).pos(), 3nat,
    {
        let lo = self.expect(&Tok::LBrace, "`{`")?.span;
        let mut stmts: Vec<Stmt> = Vec::new();
        let mut tail: Option<Box<Expr>> = None;
        loop
            invariant self.advanced(*old(self)), self.pos() > old(self).pos(), old(self).cur() is LBrace,
                lo == old(self).tokens()[old(self).pos()].span,
                pe_stmts(self.tokens(), self.pos()) == pe_stmts(old(self).tokens(), old(self).pos() + 1),
            ensures self.cur() is RBrace,
            decreases self.tokens().len() - self.pos(),
        {
            match self.peek() {
                Tok::RBrace => break,
                Tok::Let => {
                    let s = self.let_stmt()?;
                    stmts.push(s);
                }
                _ => {
                    let e = self.expr()?;
                    let block_like = match &e.kind {
                        ExprKind::If(..) | ExprKind::While(..) | ExprKind::Block(_) => true,
                        _ => false,
                    };
                    if self.eat(&Tok::Semi) {
                        stmts.push(Stmt::Expr(e));
                    } else if matches!(self.peek(), Tok::RBrace) {
                        tail = Some(Box::new(e));
                        break;
                    } else if block_like {
                        // `if ... {}` needs no `;`, as in Rust
                        stmts.push(Stmt::Expr(e));
                    } else {
                        let mut msg = String::new();
                        msg.append("expected `;` or `}` after expression");
                        return self.error(msg);
                    }
                }
            }
        }
        let hi = self.expect(&Tok::RBrace, "`}`")?.span;
        Ok(Block { stmts, tail, span: lo.to(hi) })
    }

    /// let_stmt := "let" "mut"? IDENT (":" IDENT)? "=" expr ";"
    fn let_stmt(&mut self) -> (r: PResult<Stmt>)
        requires old(self).wf(),
        ensures
            final(self).advanced(*old(self)),
            r is Ok ==> final(self).pos() > old(self).pos(),
            r is Ok <==> pe_let(old(self).tokens(), old(self).pos()) is Some,
            r is Ok ==> pe_let(old(self).tokens(), old(self).pos()) == Some(final(self).pos()),
        decreases old(self).tokens().len() - old(self).pos(), 2nat,
    {
        let lo = self.bump().span;
        let mutable = self.eat(&Tok::Mut);
        let (name, _) = self.ident()?;
        let ty = if self.eat(&Tok::Colon) { Some(self.ident()?.0) } else { None };
        self.expect(&Tok::Assign, "`=`")?;
        let init = self.expr()?;
        let hi = self.expect(&Tok::Semi, "`;`")?.span;
        Ok(Stmt::Let { name, mutable, ty, init, span: lo.to(hi) })
    }

    /// expr := assign
    pub fn expr(&mut self) -> (r: PResult<Expr>)
        requires old(self).wf(),
        ensures
            final(self).advanced(*old(self)),
            r is Ok ==> final(self).pos() > old(self).pos(),
            r matches Ok(e) ==> assign_ok(e),
            r is Ok <==> pe_expr(old(self).tokens(), old(self).pos()) is Some,
            r matches Ok(e) ==> pe_expr(old(self).tokens(), old(self).pos()) == Some((final(self).pos(), expr_class(e))),
        decreases old(self).tokens().len() - old(self).pos(), 21nat,
    {
        self.assign()
    }

    /// assign := or ("=" assign)?        right-associative: a = b = c is a = (b = c)
    fn assign(&mut self) -> (r: PResult<Expr>)
        requires old(self).wf(),
        ensures
            final(self).advanced(*old(self)),
            r is Ok ==> final(self).pos() > old(self).pos(),
            r matches Ok(e) ==> assign_ok(e),
            r is Ok <==> pe_assign(old(self).tokens(), old(self).pos()) is Some,
            r matches Ok(e) ==> pe_assign(old(self).tokens(), old(self).pos()) == Some((final(self).pos(), expr_class(e))),
        decreases old(self).tokens().len() - old(self).pos(), 20nat,
    {
        let lhs = self.or()?;
        if matches!(self.peek(), Tok::Assign) {
            self.bump();
            let rhs = self.assign()?;
            if !matches!(lhs.kind, ExprKind::Var(_)) {
                let mut msg = String::new();
                msg.append("invalid left-hand side of assignment");
                return Err(ParseError { span: lhs.span, msg });
            }
            let span = lhs.span.to(rhs.span);
            return Ok(Expr { kind: ExprKind::Assign(Box::new(lhs), Box::new(rhs)), span });
        }
        Ok(lhs)
    }

    /// The operand of a left-associative level.
    fn operand(&mut self, level: u8) -> (r: PResult<Expr>)
        requires old(self).wf(), level <= 3,
        ensures
            final(self).advanced(*old(self)),
            r is Ok ==> final(self).pos() > old(self).pos(),
            r matches Ok(e) ==> assign_ok(e),
            r is Ok <==> pe_operand(old(self).tokens(), old(self).pos(), level) is Some,
            r matches Ok(e) ==> pe_operand(old(self).tokens(), old(self).pos(), level) == Some((final(self).pos(), expr_class(e))),
        decreases old(self).tokens().len() - old(self).pos(), level_rank(level) - 1,
    {
        if level == 0 {
            self.and()
        } else if level == 1 {
            self.cmp()
        } else if level == 2 {
            self.mul()
        } else {
            self.unary()
        }
    }

    /// One left-associative precedence level: operand (op operand)*.
    fn left_assoc(&mut self, level: u8) -> (r: PResult<Expr>)
        requires old(self).wf(), level <= 3,
        ensures
            final(self).advanced(*old(self)),
            r is Ok ==> final(self).pos() > old(self).pos() && level_op(level, final(self).cur()) is None,
            r matches Ok(e) ==> assign_ok(e),
            r is Ok <==> pe_level(old(self).tokens(), old(self).pos(), level) is Some,
            r matches Ok(e) ==> pe_level(old(self).tokens(), old(self).pos(), level) == Some((final(self).pos(), expr_class(e))),
        decreases old(self).tokens().len() - old(self).pos(), level_rank(level),
    {
        let mut lhs = self.operand(level)?;
        loop
            invariant self.advanced(*old(self)), self.pos() > old(self).pos(), level <= 3, assign_ok(lhs),
                pe_level_rest(self.tokens(), self.pos(), level, expr_class(lhs)) == pe_level(old(self).tokens(), old(self).pos(), level),
            ensures level_op(level, self.cur()) is None,
            decreases self.tokens().len() - self.pos(),
        {
            let op = match level_op_of(level, self.peek()) {
                Some(op) => op,
                None => break,
            };
            self.bump();
            let rhs = self.operand(level)?;
            let span = lhs.span.to(rhs.span);
            lhs = Expr { kind: ExprKind::Binary(op, Box::new(lhs), Box::new(rhs)), span };
        }
        Ok(lhs)
    }

    fn or(&mut self) -> (r: PResult<Expr>)
        requires old(self).wf(),
        ensures final(self).advanced(*old(self)), r is Ok ==> final(self).pos() > old(self).pos(),
            r matches Ok(e) ==> assign_ok(e),
            r is Ok <==> pe_level(old(self).tokens(), old(self).pos(), 0) is Some,
            r matches Ok(e) ==> pe_level(old(self).tokens(), old(self).pos(), 0) == Some((final(self).pos(), expr_class(e))),
        decreases old(self).tokens().len() - old(self).pos(), 19nat,
    {
        self.left_assoc(0)
    }

    fn and(&mut self) -> (r: PResult<Expr>)
        requires old(self).wf(),
        ensures final(self).advanced(*old(self)), r is Ok ==> final(self).pos() > old(self).pos(),
            r matches Ok(e) ==> assign_ok(e),
            r is Ok <==> pe_level(old(self).tokens(), old(self).pos(), 1) is Some,
            r matches Ok(e) ==> pe_level(old(self).tokens(), old(self).pos(), 1) == Some((final(self).pos(), expr_class(e))),
        decreases old(self).tokens().len() - old(self).pos(), 16nat,
    {
        self.left_assoc(1)
    }

    /// cmp := add (cmp_op add)?          non-associative, as in Rust: a < b < c is an error
    fn cmp(&mut self) -> (r: PResult<Expr>)
        requires old(self).wf(),
        ensures
            final(self).advanced(*old(self)),
            r is Ok ==> final(self).pos() > old(self).pos() && !is_cmp_tok(final(self).cur()),
            r matches Ok(e) ==> assign_ok(e),
            r is Ok <==> pe_comparison(old(self).tokens(), old(self).pos()) is Some,
            r matches Ok(e) ==> pe_comparison(old(self).tokens(), old(self).pos()) == Some((final(self).pos(), expr_class(e))),
        decreases old(self).tokens().len() - old(self).pos(), 13nat,
    {
        let lhs = self.add()?;
        let op = match self.peek() {
            Tok::EqEq => BinOp::Eq, Tok::Ne => BinOp::Ne, Tok::Lt => BinOp::Lt,
            Tok::Le => BinOp::Le, Tok::Gt => BinOp::Gt, Tok::Ge => BinOp::Ge,
            _ => return Ok(lhs),
        };
        self.bump();
        let rhs = self.add()?;
        if matches!(self.peek(), Tok::EqEq | Tok::Ne | Tok::Lt | Tok::Le | Tok::Gt | Tok::Ge) {
            let mut msg = String::new();
            msg.append("comparison operators cannot be chained; use `&&`");
            return self.error(msg);
        }
        let span = lhs.span.to(rhs.span);
        Ok(Expr { kind: ExprKind::Binary(op, Box::new(lhs), Box::new(rhs)), span })
    }

    fn add(&mut self) -> (r: PResult<Expr>)
        requires old(self).wf(),
        ensures final(self).advanced(*old(self)), r is Ok ==> final(self).pos() > old(self).pos(),
            r matches Ok(e) ==> assign_ok(e),
            r is Ok <==> pe_level(old(self).tokens(), old(self).pos(), 2) is Some,
            r matches Ok(e) ==> pe_level(old(self).tokens(), old(self).pos(), 2) == Some((final(self).pos(), expr_class(e))),
        decreases old(self).tokens().len() - old(self).pos(), 12nat,
    {
        self.left_assoc(2)
    }

    fn mul(&mut self) -> (r: PResult<Expr>)
        requires old(self).wf(),
        ensures final(self).advanced(*old(self)), r is Ok ==> final(self).pos() > old(self).pos(),
            r matches Ok(e) ==> assign_ok(e),
            r is Ok <==> pe_level(old(self).tokens(), old(self).pos(), 3) is Some,
            r matches Ok(e) ==> pe_level(old(self).tokens(), old(self).pos(), 3) == Some((final(self).pos(), expr_class(e))),
        decreases old(self).tokens().len() - old(self).pos(), 9nat,
    {
        self.left_assoc(3)
    }

    /// unary := ("-" | "!") unary | postfix
    fn unary(&mut self) -> (r: PResult<Expr>)
        requires old(self).wf(),
        ensures final(self).advanced(*old(self)), r is Ok ==> final(self).pos() > old(self).pos(),
            r matches Ok(e) ==> assign_ok(e),
            r is Ok <==> pe_unary(old(self).tokens(), old(self).pos()) is Some,
            r matches Ok(e) ==> pe_unary(old(self).tokens(), old(self).pos()) == Some((final(self).pos(), expr_class(e))),
        decreases old(self).tokens().len() - old(self).pos(), 6nat,
    {
        let op = match self.peek() {
            Tok::Minus => UnOp::Neg,
            Tok::Bang => UnOp::Not,
            _ => return self.postfix(),
        };
        let lo = self.bump().span;
        let e = self.unary()?;
        let span = lo.to(e.span);
        Ok(Expr { kind: ExprKind::Unary(op, Box::new(e)), span })
    }

    /// postfix := primary ("(" args ")")*
    fn postfix(&mut self) -> (r: PResult<Expr>)
        requires old(self).wf(),
        ensures final(self).advanced(*old(self)), r is Ok ==> final(self).pos() > old(self).pos(),
            r matches Ok(e) ==> assign_ok(e),
            r is Ok <==> pe_postfix(old(self).tokens(), old(self).pos()) is Some,
            r matches Ok(e) ==> pe_postfix(old(self).tokens(), old(self).pos()) == Some((final(self).pos(), expr_class(e))),
        decreases old(self).tokens().len() - old(self).pos(), 5nat,
    {
        let mut e = self.primary()?;
        loop
            invariant self.advanced(*old(self)), self.pos() > old(self).pos(), assign_ok(e),
                pe_calls(self.tokens(), self.pos(), expr_class(e)) == pe_postfix(old(self).tokens(), old(self).pos()),
            ensures !(self.cur() is LParen),
            decreases self.tokens().len() - self.pos(),
        {
            let ghost p0 = self.pos();
            if !self.eat(&Tok::LParen) {
                break;
            }
            let mut args: Vec<Expr> = Vec::new();
            while !matches!(self.peek(), Tok::RParen)
                invariant_except_break
                    pe_args(self.tokens(), self.pos()) == pe_args(old(self).tokens(), p0 + 1),
                invariant self.advanced(*old(self)), self.pos() > p0, p0 > old(self).pos(),
                    pe_calls(old(self).tokens(), p0, expr_class(e)) == pe_postfix(old(self).tokens(), old(self).pos()),
                    old(self).tokens()[p0].tok is LParen,
                ensures pe_args(old(self).tokens(), p0 + 1) == Some(self.pos()),
                decreases self.tokens().len() - self.pos(),
            {
                let a = self.expr()?;
                args.push(a);
                if !self.eat(&Tok::Comma) {
                    break;
                }
            }
            let hi = self.expect(&Tok::RParen, "`)` after arguments")?.span;
            let span = e.span.to(hi);
            e = Expr { kind: ExprKind::Call(Box::new(e), args), span };
        }
        Ok(e)
    }

    fn primary(&mut self) -> (r: PResult<Expr>)
        requires old(self).wf(),
        ensures final(self).advanced(*old(self)), r is Ok ==> final(self).pos() > old(self).pos(),
            r matches Ok(e) ==> assign_ok(e),
            r is Ok <==> pe_primary(old(self).tokens(), old(self).pos()) is Some,
            r matches Ok(e) ==> pe_primary(old(self).tokens(), old(self).pos()) == Some((final(self).pos(), expr_class(e))),
        decreases old(self).tokens().len() - old(self).pos(), 4nat,
    {
        let span = self.span();
        let kind = match self.peek() {
            Tok::Int(n) => {
                let n = *n;
                self.bump();
                ExprKind::Int(n)
            }
            Tok::True => { self.bump(); ExprKind::Bool(true) }
            Tok::False => { self.bump(); ExprKind::Bool(false) }
            Tok::Ident(name) => {
                let name = name.clone();
                self.bump();
                ExprKind::Var(name)
            }
            Tok::LParen => {
                self.bump();
                let e = self.expr()?;
                self.expect(&Tok::RParen, "`)`")?;
                return Ok(e);
            }
            Tok::LBrace => {
                let b = self.block()?;
                return Ok(Expr { span: b.span, kind: ExprKind::Block(b) });
            }
            Tok::If => return self.if_expr(),
            Tok::While => {
                self.bump();
                let cond = self.expr()?;
                let body = self.block()?;
                return Ok(Expr { span: span.to(body.span), kind: ExprKind::While(Box::new(cond), body) });
            }
            Tok::Return => {
                self.bump();
                if matches!(self.peek(), Tok::Semi | Tok::RBrace) {
                    ExprKind::Return(None)
                } else {
                    let e = self.expr()?;
                    return Ok(Expr { span: span.to(e.span), kind: ExprKind::Return(Some(Box::new(e))) });
                }
            }
            _ => {
                let mut msg = String::new();
                msg.append("expected an expression");
                return self.error(msg);
            }
        };
        Ok(Expr { kind, span })
    }

    /// if_expr := "if" expr block ("else" (block | if_expr))?
    fn if_expr(&mut self) -> (r: PResult<Expr>)
        requires old(self).wf(), old(self).cur() is If,
        ensures final(self).advanced(*old(self)), r is Ok ==> final(self).pos() > old(self).pos(),
            r matches Ok(e) ==> assign_ok(e) && expr_class(e) == 2,
            r is Ok <==> pe_if(old(self).tokens(), old(self).pos()) is Some,
            r is Ok ==> pe_if(old(self).tokens(), old(self).pos()) == Some(final(self).pos()),
        decreases old(self).tokens().len() - old(self).pos(), 3nat,
    {
        let lo = self.bump().span;
        let cond = self.expr()?;
        let then = self.block()?;
        let mut span = lo.to(then.span);
        let els = if self.eat(&Tok::Else) {
            let e = if matches!(self.peek(), Tok::If) {
                self.if_expr()?
            } else {
                let b = self.block()?;
                Expr { span: b.span, kind: ExprKind::Block(b) }
            };
            span = span.to(e.span);
            Some(Box::new(e))
        } else {
            None
        };
        Ok(Expr { kind: ExprKind::If(Box::new(cond), then, els), span })
    }
}

} // verus!

verus! {

// ---------------- printing ----------------

pub open spec fn op_text(op: BinOp) -> Seq<char> {
    match op {
        BinOp::Add => "+"@, BinOp::Sub => "-"@, BinOp::Mul => "*"@, BinOp::Div => "/"@, BinOp::Rem => "%"@,
        BinOp::Eq => "=="@, BinOp::Ne => "!="@, BinOp::Lt => "<"@, BinOp::Le => "<="@, BinOp::Gt => ">"@,
        BinOp::Ge => ">="@, BinOp::And => "&&"@, BinOp::Or => "||"@,
    }
}

pub fn op_str(op: BinOp) -> (s: &'static str)
    ensures s@ == op_text(op),
{
    match op {
        BinOp::Add => "+", BinOp::Sub => "-", BinOp::Mul => "*", BinOp::Div => "/", BinOp::Rem => "%",
        BinOp::Eq => "==", BinOp::Ne => "!=", BinOp::Lt => "<", BinOp::Le => "<=", BinOp::Gt => ">",
        BinOp::Ge => ">=", BinOp::And => "&&", BinOp::Or => "||",
    }
}

/// The s-expression of an expression.
pub open spec fn expr_text(e: Expr) -> Seq<char>
    decreases e,
{
    match e.kind {
        ExprKind::Int(n) => ascii_chars(int_text(n as int)),
        ExprKind::Bool(b) => if b { "true"@ } else { "false"@ },
        ExprKind::Var(v) => v@,
        ExprKind::Unary(op, x) => "("@ + (if op == UnOp::Neg { "-"@ } else { "!"@ }) + " "@ + expr_text(*x) + ")"@,
        ExprKind::Binary(op, a, b) => "("@ + op_text(op) + " "@ + expr_text(*a) + " "@ + expr_text(*b) + ")"@,
        ExprKind::Assign(a, b) => "(= "@ + expr_text(*a) + " "@ + expr_text(*b) + ")"@,
        ExprKind::Call(f, args) => "(call "@ + expr_text(*f) + args_text(args@) + ")"@,
        ExprKind::If(c, t, els) => match els {
            Some(x) => "(if "@ + expr_text(*c) + " "@ + block_text(t) + " "@ + expr_text(*x) + ")"@,
            None => "(if "@ + expr_text(*c) + " "@ + block_text(t) + ")"@,
        },
        ExprKind::While(c, b) => "(while "@ + expr_text(*c) + " "@ + block_text(b) + ")"@,
        ExprKind::Block(b) => block_text(b),
        ExprKind::Return(v) => match v {
            Some(x) => "(return "@ + expr_text(*x) + ")"@,
            None => "(return)"@,
        },
    }
}

/// Each argument after a space.
pub open spec fn args_text(args: Seq<Expr>) -> Seq<char>
    decreases args,
{
    if args.len() == 0 { Seq::empty() } else { args_text(args.drop_last()) + " "@ + expr_text(args.last()) }
}

/// `(block` statements tail `)`.
pub open spec fn block_text(b: Block) -> Seq<char>
    decreases b,
{
    "(block"@ + stmts_text(b.stmts@) + match b.tail {
        Some(t) => " "@ + expr_text(*t),
        None => Seq::empty(),
    } + ")"@
}

pub open spec fn stmts_text(s: Seq<Stmt>) -> Seq<char>
    decreases s,
{
    if s.len() == 0 {
        Seq::empty()
    } else {
        stmts_text(s.drop_last()) + stmt_text(s.last())
    }
}

/// A statement, after a space.
pub open spec fn stmt_text(st: Stmt) -> Seq<char>
    decreases st,
{
    match st {
        Stmt::Let { name, mutable, ty, init, .. } =>
            " (let "@ + (if mutable { "mut "@ } else { Seq::empty() }) + name@
                + match ty { Some(t) => ":"@ + t@, None => Seq::empty() } + " "@ + expr_text(init) + ")"@,
        Stmt::Expr(x) => " "@ + expr_text(x),
    }
}

#[verifier::loop_isolation(false)]
pub fn sexpr(e: &Expr) -> (s: String)
    ensures s@ == expr_text(*e),
    decreases e,
{
    let mut s = String::new();
    match &e.kind {
        ExprKind::Int(n) => {
            let t = int_to_string(*n);
            s.append(t.as_str());
        }
        ExprKind::Bool(b) => {
            if *b { s.append("true"); } else { s.append("false"); }
        }
        ExprKind::Var(v) => {
            s.append(v.as_str());
        }
        ExprKind::Unary(op, x) => {
            s.append("(");
            if *op == UnOp::Neg { s.append("-"); } else { s.append("!"); }
            s.append(" ");
            let t = sexpr(x);
            s.append(t.as_str());
            s.append(")");
        }
        ExprKind::Binary(op, a, b) => {
            s.append("(");
            s.append(op_str(*op));
            s.append(" ");
            let ta = sexpr(a);
            s.append(ta.as_str());
            s.append(" ");
            let tb = sexpr(b);
            s.append(tb.as_str());
            s.append(")");
        }
        ExprKind::Assign(a, b) => {
            s.append("(= ");
            let ta = sexpr(a);
            s.append(ta.as_str());
            s.append(" ");
            let tb = sexpr(b);
            s.append(tb.as_str());
            s.append(")");
        }
        ExprKind::Call(f, args) => {
            s.append("(call ");
            let tf = sexpr(f);
            s.append(tf.as_str());
            let ghost prefix = s@;
            let mut i: usize = 0;
            while i < args.len()
                invariant
                    i <= args@.len(),
                    s@ == prefix + args_text(args@.subrange(0, i as int)),
                decreases args@.len() - i,
            {
                proof {
                    assert(decreases_to!(e => e.kind));
                    assert(decreases_to!(e.kind => e.kind->Call_1));
                    assert(e.kind->Call_1 == *args);
                    assert(decreases_to!(*args => args@));
                    assert(decreases_to!(args@ => args@[i as int]));
                }
                s.append(" ");
                let t = sexpr(&args[i]);
                s.append(t.as_str());
                assert(args@.subrange(0, (i + 1) as int).drop_last() =~= args@.subrange(0, i as int));
                i += 1;
            }
            assert(args@.subrange(0, args@.len() as int) =~= args@);
            s.append(")");
        }
        ExprKind::If(c, t, els) => {
            s.append("(if ");
            let tc = sexpr(c);
            s.append(tc.as_str());
            s.append(" ");
            let tt = block_str(t);
            s.append(tt.as_str());
            match els {
                Some(x) => {
                    s.append(" ");
                    let tx = sexpr(x);
                    s.append(tx.as_str());
                }
                None => {}
            }
            s.append(")");
        }
        ExprKind::While(c, b) => {
            s.append("(while ");
            let tc = sexpr(c);
            s.append(tc.as_str());
            s.append(" ");
            let tb = block_str(b);
            s.append(tb.as_str());
            s.append(")");
        }
        ExprKind::Block(b) => {
            let tb = block_str(b);
            s.append(tb.as_str());
        }
        ExprKind::Return(v) => match v {
            Some(x) => {
                s.append("(return ");
                let tx = sexpr(x);
                s.append(tx.as_str());
                s.append(")");
            }
            None => {
                s.append("(return)");
            }
        },
    }
    s
}

#[verifier::loop_isolation(false)]
pub fn block_str(b: &Block) -> (s: String)
    ensures s@ == block_text(*b),
    decreases b,
{
    let mut s = String::new();
    s.append("(block");
    let ghost prefix = s@;
    let mut i: usize = 0;
    while i < b.stmts.len()
        invariant
            i <= b.stmts@.len(),
            s@ == prefix + stmts_text(b.stmts@.subrange(0, i as int)),
        decreases b.stmts@.len() - i,
    {
        proof {
            assert(decreases_to!(b => b.stmts));
            assert(decreases_to!(b.stmts => b.stmts@));
            assert(decreases_to!(b.stmts@ => b.stmts@[i as int]));
        }
        let t = stmt_str(&b.stmts[i]);
        s.append(t.as_str());
        assert(b.stmts@.subrange(0, (i + 1) as int).drop_last() =~= b.stmts@.subrange(0, i as int));
        i += 1;
    }
    assert(b.stmts@.subrange(0, b.stmts@.len() as int) =~= b.stmts@);
    match &b.tail {
        Some(t) => {
            s.append(" ");
            let tt = sexpr(t);
            s.append(tt.as_str());
        }
        None => {}
    }
    s.append(")");
    s
}

fn stmt_str(st: &Stmt) -> (s: String)
    ensures s@ == stmt_text(*st),
    decreases st,
{
    let mut s = String::new();
    match st {
        Stmt::Let { name, mutable, ty, init, .. } => {
            s.append(" (let ");
            if *mutable { s.append("mut "); }
            s.append(name.as_str());
            match ty {
                Some(t) => { s.append(":"); s.append(t.as_str()); }
                None => {}
            }
            s.append(" ");
            let ti = sexpr(init);
            s.append(ti.as_str());
            s.append(")");
        }
        Stmt::Expr(x) => {
            s.append(" ");
            let tx = sexpr(x);
            s.append(tx.as_str());
        }
    }
    s
}

pub fn parse_program(src: &str) -> (r: PResult<Vec<FnDecl>>)
    requires src.spec_bytes().len() < u32::MAX,
    ensures
        r is Ok ==> lexes_ok(src.spec_bytes(), 0)
            && exists|toks: Seq<Token>| token_stream(src.spec_bytes(), toks) && #[trigger] pe_program(toks, 0),
        r matches Ok(v) ==> exists|toks: Seq<Token>| token_stream(src.spec_bytes(), toks)
            && #[trigger] pe_fn_count(toks, 0) == v@.len(),
        lexes_ok(src.spec_bytes(), 0)
            && (forall|toks: Seq<Token>| token_stream(src.spec_bytes(), toks) ==> #[trigger] pe_program(toks, 0))
            ==> r is Ok,
        r is Err && lexes_ok(src.spec_bytes(), 0)
            ==> exists|toks: Seq<Token>| token_stream(src.spec_bytes(), toks) && !#[trigger] pe_program(toks, 0),
{
    let toks = lex(src)?;
    let ghost tv = toks@;
    assert(token_stream(src.spec_bytes(), tv));
    proof { reveal(token_stream); }
    let mut p = Parser::new(toks);
    let r = p.program();
    assert(r is Ok <==> pe_program(tv, 0));
    assert(r matches Ok(v) ==> pe_fn_count(tv, 0) == v@.len());
    r
}

} // verus!
