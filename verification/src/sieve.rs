//! Sieve, a rule language for screening records: `amount > 100 && country == "DE"`. Every
//! stage reports errors with spans instead of panicking or guessing; names and types are
//! checked against the feature schema when a rule is compiled; `&&` and `||` short-circuit,
//! so a remote feature is only fetched when the rule needs it.

use vstd::prelude::*;
use vstd::string::{StringExecFns, StringSliceAdditionalSpecFns};
use crate::bytes::{is_ws, is_digit, is_alpha, is_ident_byte, ws, digit, alpha, ident_byte};
use crate::lexer::{char_width_of, code_point, push_codepoint};
use crate::ore::lex_number;
use crate::pipeline::{char_from_u32, char_debug, char_debug_text, char_val};
use crate::text::{ascii_chars, ascii_string, is_ascii_seq, string_from_bytes, decimal_string};
use vstd::utf8::{valid_utf8, decode_utf8, encode_utf8};

verus! {

#[derive(Debug, Clone, Copy, PartialEq, Eq, Structural)]
pub struct Span {
    pub lo: usize,
    pub hi: usize,
}

#[derive(Debug)]
pub struct Diag {
    pub span: Span,
    pub msg: String,
}

/// The operators, longest spelling first where two share a prefix.
#[derive(Debug, Clone, Copy, PartialEq, Eq, Structural)]
pub enum Op { Eq, Ne, Le, Ge, And, Or, Lt, Gt, Mul, Add }

pub open spec fn op_spelling(op: Op) -> Seq<char> {
    match op {
        Op::Eq => "=="@, Op::Ne => "!="@, Op::Le => "<="@, Op::Ge => ">="@, Op::And => "&&"@,
        Op::Or => "||"@, Op::Lt => "<"@, Op::Gt => ">"@, Op::Mul => "*"@, Op::Add => "+"@,
    }
}

pub fn op_str(op: Op) -> (s: &'static str)
    ensures s@ == op_spelling(op),
{
    match op {
        Op::Eq => "==", Op::Ne => "!=", Op::Le => "<=", Op::Ge => ">=", Op::And => "&&",
        Op::Or => "||", Op::Lt => "<", Op::Gt => ">", Op::Mul => "*", Op::Add => "+",
    }
}

#[derive(Debug)]
enum Tok {
    Ident(String),
    Int(i64),
    Str(String),
    Op(Op),
    LParen,
    RParen,
    Eof,
}

#[derive(Debug)]
struct Token {
    tok: Tok,
    span: Span,
}

fn diag(lo: usize, hi: usize, msg: String) -> (d: Diag)
    ensures d.span == (Span { lo, hi }), d.msg == msg,
{
    Diag { span: Span { lo, hi }, msg }
}

fn text(s: &str) -> (r: String)
    ensures r@ == s@,
{
    String::from_str(s)
}

/// The operator spelled at byte `c` followed by `n`, longest first, with its length.
pub open spec fn op_at_spec(c: u8, n: Option<u8>) -> Option<(Op, usize)> {
    let two = |d: u8| n == Some(d);
    if c == 61 && two(61) { Some((Op::Eq, 2usize)) }
    else if c == 33 && two(61) { Some((Op::Ne, 2usize)) }
    else if c == 60 && two(61) { Some((Op::Le, 2usize)) }
    else if c == 62 && two(61) { Some((Op::Ge, 2usize)) }
    else if c == 38 && two(38) { Some((Op::And, 2usize)) }
    else if c == 124 && two(124) { Some((Op::Or, 2usize)) }
    else if c == 60 { Some((Op::Lt, 1usize)) }
    else if c == 62 { Some((Op::Gt, 1usize)) }
    else if c == 42 { Some((Op::Mul, 1usize)) }
    else if c == 43 { Some((Op::Add, 1usize)) }
    else { None }
}

fn op_at(c: u8, n: Option<u8>) -> (r: Option<(Op, usize)>)
    ensures
        r == op_at_spec(c, n),
        r matches Some((_, len)) ==> 1 <= len <= 2 && (len == 2 ==> n is Some),
{
    let (has, n2) = match n { Some(x) => (true, x), None => (false, 0u8) };
    if c == 61 && has && n2 == 61 { Some((Op::Eq, 2)) }
    else if c == 33 && has && n2 == 61 { Some((Op::Ne, 2)) }
    else if c == 60 && has && n2 == 61 { Some((Op::Le, 2)) }
    else if c == 62 && has && n2 == 61 { Some((Op::Ge, 2)) }
    else if c == 38 && has && n2 == 38 { Some((Op::And, 2)) }
    else if c == 124 && has && n2 == 124 { Some((Op::Or, 2)) }
    else if c == 60 { Some((Op::Lt, 1)) }
    else if c == 62 { Some((Op::Gt, 1)) }
    else if c == 42 { Some((Op::Mul, 1)) }
    else if c == 43 { Some((Op::Add, 1)) }
    else { None }
}

/// Tokens of a rule whose source has `n` bytes: spans in range, ending in one `Eof`.
spec fn tokens_ok(toks: Seq<Token>, n: nat) -> bool {
    &&& toks.len() >= 1
    &&& toks.last().tok is Eof
    &&& forall|k: int| 0 <= k < toks.len() - 1 ==> !(#[trigger] toks[k].tok is Eof)
    &&& forall|k: int| 0 <= k < toks.len() ==> (#[trigger] toks[k]).span.lo <= toks[k].span.hi <= n
}

/// The message for a character no token starts with, at `p` and `w` bytes wide: the
/// character as `{:?}` shows it, when its code point is a scalar value.
pub open spec fn unexpected_is(b: Seq<u8>, p: int, w: int, m: Seq<char>) -> bool {
    let cp = crate::lexer::code_point_spec(b, p, w);
    ||| exists|ch: char| #[trigger] char_val(ch) == cp && m == "unexpected character "@ + char_debug_text(ch)
    ||| !(cp <= 0xD7FF || (0xE000 <= cp && cp <= 0x10FFFF)) && m == "unexpected character "@
}

/// The message for the character of `w` bytes at `b[p..]` that starts no token.
fn unexpected_msg_of(b: &[u8], p: usize, w: usize) -> (m: String)
    requires p + w <= b@.len(), 1 <= w <= 4,
    ensures unexpected_is(b@, p as int, w as int, m@),
{
    let cp = code_point(b, p, w);
    let mut m = text("unexpected character ");
    proof { reveal_strlit("unexpected character "); }
    match char_from_u32(cp) {
        Some(ch) => {
            let d = char_debug(ch);
            m.append(d.as_str());
            assert(char_val(ch) == cp);
            assert(m@ =~= "unexpected character "@ + char_debug_text(ch));
        },
        None => {},
    }
    m
}

/// The kinds of lexical error.
pub enum LexKind {
    /// A decimal integer that does not fit in `i64`.
    TooLarge,
    /// A string literal with no closing quote.
    Unterminated,
    /// A character above ASCII inside a string literal.
    NonAscii,
    /// A character no token starts with.
    Unexpected,
}

/// Where the string literal whose text starts at `q` has its closing quote, or the end.
pub open spec fn quote_end(b: Seq<u8>, q: int) -> int
    decreases b.len() - q,
{
    if 0 <= q < b.len() && b[q] != 34 { quote_end(b, q + 1) } else { q }
}

/// The first byte above ASCII in `b[q..hi]`.
pub open spec fn first_high(b: Seq<u8>, q: int, hi: int) -> Option<int>
    decreases hi - q,
{
    if q >= hi || q < 0 || q >= b.len() { None } else if b[q] >= 128 { Some(q) } else { first_high(b, q + 1, hi) }
}

proof fn lemma_quote_end(b: Seq<u8>, q: int)
    requires 0 <= q <= b.len(),
    ensures q <= quote_end(b, q) <= b.len(), quote_end(b, q) < b.len() ==> b[quote_end(b, q)] == 34,
        forall|k: int| q <= k < quote_end(b, q) ==> b[k] != 34,
    decreases b.len() - q,
{
    if q < b.len() && b[q] != 34 { lemma_quote_end(b, q + 1); }
}

proof fn lemma_first_high(b: Seq<u8>, q: int, hi: int)
    requires 0 <= q <= hi <= b.len(),
    ensures
        first_high(b, q, hi) matches Some(at) ==> q <= at < hi && b[at] >= 128,
        first_high(b, q, hi) is None ==> forall|k: int| q <= k < hi ==> b[k] < 128,
    decreases hi - q,
{
    if q < hi && b[q] < 128 { lemma_first_high(b, q + 1, hi); }
}

/// The lexical errors of `b` from `i` on, in order: each error's span and kind.
pub open spec fn lex_errs(b: Seq<u8>, i: int) -> Seq<(int, int, LexKind)>
    decreases b.len() - i,
{
    if i < 0 || i >= b.len() {
        Seq::empty()
    } else {
        let c = b[i];
        if is_ws(c) {
            lex_errs(b, i + 1)
        } else if is_digit(c) {
            let e = crate::ore::digits_end(b, i);
            if e <= i || e > b.len() {
                Seq::empty()
            } else {
                (if crate::ore::digits_value(b, i, e) > i64::MAX { seq![(i, e, LexKind::TooLarge)] } else { Seq::empty() })
                    + lex_errs(b, e)
            }
        } else if is_alpha(c) || c == 95 {
            let e = crate::lexer::ident_end(b, i);
            if e <= i || e > b.len() { Seq::empty() } else { lex_errs(b, e) }
        } else if c == 34 {
            let q = quote_end(b, i + 1);
            if q >= b.len() || q < i + 1 {
                seq![(i, b.len() as int, LexKind::Unterminated)]
            } else {
                match first_high(b, i + 1, q) {
                    Some(at) => seq![(at, at + crate::lexer::char_width(b[at], b.len() - at), LexKind::NonAscii)] + lex_errs(b, q + 1),
                    None => lex_errs(b, q + 1),
                }
            }
        } else if c == 40 || c == 41 {
            lex_errs(b, i + 1)
        } else {
            match op_at_spec(c, if i + 1 < b.len() { Some(b[i + 1]) } else { None }) {
                Some((_, len)) => if len >= 1 && i + len <= b.len() { lex_errs(b, i + len) } else { Seq::empty() },
                None => {
                    let w = crate::lexer::char_width(c, b.len() - i);
                    if w >= 1 && i + w <= b.len() {
                        seq![(i, i + w, LexKind::Unexpected)] + lex_errs(b, i + w)
                    } else {
                        Seq::empty()
                    }
                },
            }
        }
    }
}

/// The message bytes for a character above ASCII in a string literal.
pub open spec fn non_ascii_bytes(b: Seq<u8>, at: int, w: int) -> Seq<u8> {
    "non-ASCII character ".spec_bytes() + seq![85u8, 43u8]
        + crate::lexer::cp_digits(crate::lexer::code_point_spec(b, at, w), 20, false)
        + " in a string literal (Sieve literals are ASCII)".spec_bytes()
}

/// `d` reports lexical error `e` of `b`: its span, and its message.
pub open spec fn diag_is(d: Diag, b: Seq<u8>, e: (int, int, LexKind)) -> bool {
    &&& d.span.lo == e.0 && d.span.hi == e.1
    &&& match e.2 {
        LexKind::TooLarge => d.msg@ == "integer literal is too large"@,
        LexKind::Unterminated => d.msg@ == "unterminated string literal"@,
        LexKind::NonAscii => valid_utf8(non_ascii_bytes(b, e.0, e.1 - e.0))
            ==> d.msg@ == decode_utf8(non_ascii_bytes(b, e.0, e.1 - e.0)),
        LexKind::Unexpected => unexpected_is(b, e.0, e.1 - e.0, d.msg@),
    }
}

/// The diagnostics are exactly the lexical errors, in order.
pub open spec fn diags_are(ds: Seq<Diag>, b: Seq<u8>, es: Seq<(int, int, LexKind)>) -> bool {
    ds.len() == es.len() && forall|k: int| 0 <= k < ds.len() ==> diag_is(#[trigger] ds[k], b, es[k])
}

/// Splits a rule into tokens: ASCII identifiers, decimal integers that fit in `i64`, string
/// literals that are ASCII, parentheses and operators. Every error is kept, not just the
/// first; a rule with any error has no tokens.
fn lex(src: &str) -> (r: Result<Vec<Token>, Vec<Diag>>)
    ensures
        r matches Ok(t) ==> tokens_ok(t@, src.spec_bytes().len()),
        r matches Err(ds) ==> ds@.len() >= 1,
        r is Ok <==> lex_errs(src.spec_bytes(), 0).len() == 0,
        r matches Err(ds) ==> diags_are(ds@, src.spec_bytes(), lex_errs(src.spec_bytes(), 0)),
{
    let b = src.as_bytes();
    let n = b.len();
    let mut i: usize = 0;
    let mut out: Vec<Token> = Vec::new();
    let mut errs: Vec<Diag> = Vec::new();
    let ghost mut es: Seq<(int, int, LexKind)> = Seq::empty();
    assert(es + lex_errs(b@, 0) =~= lex_errs(b@, 0));
    while i < n
        invariant
            n == b@.len(), i <= n, b@ == src.spec_bytes(),
            lex_errs(b@, 0) == es + lex_errs(b@, i as int),
            diags_are(errs@, b@, es),
            forall|k: int| 0 <= k < out@.len() ==> !(#[trigger] out@[k].tok is Eof),
            forall|k: int| 0 <= k < out@.len() ==> (#[trigger] out@[k]).span.lo <= out@[k].span.hi <= n,
        decreases n - i,
    {
        let c = b[i];
        let lo = i;
        if ws(c) {
            i += 1;
        } else if digit(c) {
            let (v, e) = lex_number(b, i);
            i = e;
            match v {
                Some(x) => {
                    out.push(Token { tok: Tok::Int(x), span: Span { lo, hi: i } });
                    assert(es + Seq::<(int, int, LexKind)>::empty() + lex_errs(b@, e as int) =~= es + lex_errs(b@, e as int));
                },
                None => {
                    let ghost e0 = es;
                    let dg = diag(lo, i, text("integer literal is too large"));
                    proof {
                        es = es.push((lo as int, e as int, LexKind::TooLarge));
                        assert(e0 + (seq![(lo as int, e as int, LexKind::TooLarge)] + lex_errs(b@, e as int)) =~= es + lex_errs(b@, e as int));
                        assert(diag_is(dg, b@, (lo as int, e as int, LexKind::TooLarge)));
                    }
                    let ghost ds0 = errs@;
                    errs.push(dg);
                    proof {
                        assert forall|k: int| 0 <= k < errs@.len() implies diag_is(#[trigger] errs@[k], b@, es[k]) by {
                            if k < ds0.len() { assert(errs@[k] == ds0[k]); assert(es[k] == e0[k]); }
                        }
                    }
                },
            }
        } else if alpha(c) || c == 95 {
            while i < n && ident_byte(b[i])
                invariant n == b@.len(), lo <= i <= n, lo < n,
                    forall|k: int| lo <= k < i ==> is_ident_byte(#[trigger] b@[k]),
                    crate::lexer::ident_end(b@, i as int) == crate::lexer::ident_end(b@, lo as int),
                    i == lo ==> is_alpha(b@[lo as int]) || b@[lo as int] == 95,
                decreases n - i,
            {
                i += 1;
            }
            assert(is_ident_byte(b@[lo as int]));
            let word = &b[lo..i];
            assert(word@ == b@.subrange(lo as int, i as int));
            assert(is_ascii_seq(word@)) by {
                assert forall|k: int| 0 <= k < word@.len() implies #[trigger] word@[k] < 128 by {
                    if k > 0 { assert(is_ident_byte(b@[lo + k])); }
                }
            }
            out.push(Token { tok: Tok::Ident(ascii_string(word)), span: Span { lo, hi: i } });
        } else if c == 34 {
            i += 1;
            proof { lemma_quote_end(b@, lo + 1); }
            while i < n && b[i] != 34
                invariant n == b@.len(), lo < i <= n, quote_end(b@, i as int) == quote_end(b@, lo + 1),
                decreases n - i,
            {
                i += 1;
            }
            let ghost q = i as int;
            assert(q == quote_end(b@, lo + 1));
            if i == n {
                let ghost e0 = es;
                let dg = diag(lo, i, text("unterminated string literal"));
                proof {
                    es = es.push((lo as int, n as int, LexKind::Unterminated));
                    assert(lex_errs(b@, lo as int) == seq![(lo as int, n as int, LexKind::Unterminated)]);
                    assert(lex_errs(b@, n as int) =~= Seq::<(int, int, LexKind)>::empty());
                    assert(e0 + seq![(lo as int, n as int, LexKind::Unterminated)] =~= es + lex_errs(b@, n as int));
                }
                let ghost ds0 = errs@;
                errs.push(dg);
                proof {
                    assert forall|k: int| 0 <= k < errs@.len() implies diag_is(#[trigger] errs@[k], b@, es[k]) by {
                        if k < ds0.len() { assert(errs@[k] == ds0[k]); assert(es[k] == e0[k]); }
                    }
                }
            } else {
                i += 1;
                // The text between the quotes must be ASCII.
                let mut q = lo + 1;
                let mut bad: Option<usize> = None;
                while q < i - 1 && bad.is_none()
                    invariant lo + 1 <= q <= i - 1, i <= n, n == b@.len(),
                        bad is None ==> forall|k: int| lo + 1 <= k < q ==> #[trigger] b@[k] < 128,
                        bad matches Some(x) ==> lo + 1 <= x < i - 1,
                        bad is None ==> first_high(b@, lo + 1, i - 1) == first_high(b@, q as int, i - 1),
                        bad matches Some(x) ==> first_high(b@, lo + 1, i - 1) == Some(x as int),
                    decreases (i - 1 - q) as int + (if bad is None { 1int } else { 0int }),
                {
                    if b[q] >= 128 {
                        bad = Some(q);
                    } else {
                        q += 1;
                    }
                }
                match bad {
                    Some(at) => {
                        let w = char_width_of(b[at], n - at);
                        let cp = code_point(b, at, w);
                        let mut m: Vec<u8> = Vec::new();
                        crate::text::push_all(&mut m, "non-ASCII character ".as_bytes());
                        push_codepoint(&mut m, cp);
                        crate::text::push_all(&mut m, " in a string literal (Sieve literals are ASCII)".as_bytes());
                        let ghost e0 = es;
                        let dg = diag(at, at + w, string_from_bytes(m.as_slice()));
                        proof {
                            assert(m@ =~= non_ascii_bytes(b@, at as int, w as int));
                            es = es.push((at as int, (at + w) as int, LexKind::NonAscii));
                            assert(lex_errs(b@, lo as int) == seq![(at as int, (at + w) as int, LexKind::NonAscii)] + lex_errs(b@, i as int));
                            assert(e0 + (seq![(at as int, (at + w) as int, LexKind::NonAscii)] + lex_errs(b@, i as int)) =~= es + lex_errs(b@, i as int));
                        }
                        let ghost ds0 = errs@;
                        errs.push(dg);
                        proof {
                            assert forall|k: int| 0 <= k < errs@.len() implies diag_is(#[trigger] errs@[k], b@, es[k]) by {
                                if k < ds0.len() { assert(errs@[k] == ds0[k]); assert(es[k] == e0[k]); }
                            }
                        }
                    },
                    None => {
                        let inner = &b[lo + 1..i - 1];
                        assert(inner@ == b@.subrange(lo + 1, i - 1));
                        assert(is_ascii_seq(inner@)) by {
                            assert forall|k: int| 0 <= k < inner@.len() implies #[trigger] inner@[k] < 128 by {
                                assert(inner@[k] == b@[lo + 1 + k]);
                            }
                        }
                        out.push(Token { tok: Tok::Str(ascii_string(inner)), span: Span { lo, hi: i } });
                    },
                }
            }
        } else if c == 40 || c == 41 {
            i += 1;
            out.push(Token { tok: if c == 40 { Tok::LParen } else { Tok::RParen }, span: Span { lo, hi: i } });
        } else {
            let nx = if i + 1 < n { Some(b[i + 1]) } else { None };
            match op_at(c, nx) {
                Some((op, len)) => {
                    i += len;
                    out.push(Token { tok: Tok::Op(op), span: Span { lo, hi: i } });
                },
                None => {
                    let w = char_width_of(c, n - i);
                    let m = unexpected_msg_of(b, i, w);
                    i += w;
                    let ghost e0 = es;
                    let dg = diag(lo, i, m);
                    proof {
                        es = es.push((lo as int, i as int, LexKind::Unexpected));
                        assert(e0 + (seq![(lo as int, i as int, LexKind::Unexpected)] + lex_errs(b@, i as int)) =~= es + lex_errs(b@, i as int));
                    }
                    let ghost ds0 = errs@;
                    errs.push(dg);
                    proof {
                        assert forall|k: int| 0 <= k < errs@.len() implies diag_is(#[trigger] errs@[k], b@, es[k]) by {
                            if k < ds0.len() { assert(errs@[k] == ds0[k]); assert(es[k] == e0[k]); }
                        }
                    }
                },
            }
        }
    }
    out.push(Token { tok: Tok::Eof, span: Span { lo: n, hi: n } });
    if errs.len() == 0 { Ok(out) } else { Err(errs) }
}

// ---------------- parser: non-associative comparisons, `&&` tighter than `||`, a depth limit ----------------

#[derive(Debug)]
pub enum Expr {
    Int(i64),
    Str(String),
    Feature(String),
    Bin(Op, Box<Node>, Box<Node>),
}

/// Every node keeps its span, so later stages can point at the exact sub-expression.
#[derive(Debug)]
pub struct Node {
    pub e: Expr,
    pub span: Span,
}

pub const MAX_DEPTH: usize = 64;

/// Binding strength: `||` 1, `&&` 2, comparisons 3, `+` 4, `*` 5.
pub open spec fn prec_of(op: Op) -> u8 {
    match op {
        Op::Or => 1,
        Op::And => 2,
        Op::Eq | Op::Ne | Op::Lt | Op::Le | Op::Gt | Op::Ge => 3,
        Op::Add => 4,
        Op::Mul => 5,
    }
}

pub fn prec(op: Op) -> (p: u8)
    ensures p == prec_of(op),
{
    match op {
        Op::Or => 1,
        Op::And => 2,
        Op::Eq | Op::Ne | Op::Lt | Op::Le | Op::Gt | Op::Ge => 3,
        Op::Add => 4,
        Op::Mul => 5,
    }
}

/// How many tokens are left after position `p`.
spec fn toks_left(ts: Seq<Token>, p: int) -> nat {
    if p <= ts.len() { (ts.len() - p) as nat } else { 0 }
}

/// Where an expression of precedence at least `min` that starts at token `at` ends, for a
/// parser `d` levels deep; `None` where the tokens there are not one, or it nests too deep.
spec fn sx_expr(ts: Seq<Token>, at: int, d: int, min: u8) -> Option<int>
    decreases toks_left(ts, at), 0nat,
{
    if d >= MAX_DEPTH || !(0 <= at < ts.len()) {
        None
    } else {
        match ts[at].tok {
            Tok::Int(_) => sx_loop(ts, at + 1, d + 1, min),
            Tok::Str(_) => sx_loop(ts, at + 1, d + 1, min),
            Tok::Ident(_) => sx_loop(ts, at + 1, d + 1, min),
            Tok::LParen => match sx_expr(ts, at + 1, d + 1, 0) {
                Some(k) => if at + 1 < k < ts.len() && ts[k].tok is RParen { sx_loop(ts, k + 1, d + 1, min) } else { None },
                None => None,
            },
            _ => None,
        }
    }
}

/// Where the operators that follow an operand, from token `q` on, end.
spec fn sx_loop(ts: Seq<Token>, q: int, d: int, min: u8) -> Option<int>
    decreases toks_left(ts, q), 1nat,
{
    if !(0 <= q < ts.len()) {
        None
    } else {
        match ts[q].tok {
            Tok::Op(op) => if prec_of(op) < min {
                Some(q)
            } else {
                match sx_expr(ts, q + 1, d, (prec_of(op) + 1) as u8) {
                    Some(k) => if q + 1 < k < ts.len() {
                        if prec_of(op) == 3 && (ts[k].tok matches Tok::Op(o) && prec_of(o) == 3) {
                            None
                        } else {
                            sx_loop(ts, k, d, min)
                        }
                    } else {
                        None
                    },
                    None => None,
                }
            },
            _ => Some(q),
        }
    }
}

struct Parser {
    toks: Vec<Token>,
    at: usize,
    depth: usize,
}

impl Parser {
    spec fn wf(&self) -> bool {
        &&& self.toks@.len() >= 1
        &&& self.toks@.last().tok is Eof
        &&& forall|k: int| 0 <= k < self.toks@.len() - 1 ==> !(#[trigger] self.toks@[k].tok is Eof)
        &&& self.at < self.toks@.len()
    }

    fn expr(&mut self, min_prec: u8) -> (r: Result<Node, Diag>)
        requires old(self).wf(), min_prec <= 6,
        ensures final(self).wf(), final(self).toks@ == old(self).toks@, final(self).at >= old(self).at,
            r is Ok <==> sx_expr(old(self).toks@, old(self).at as int, old(self).depth as int, min_prec) is Some,
            r is Ok ==> sx_expr(old(self).toks@, old(self).at as int, old(self).depth as int, min_prec) == Some(final(self).at as int)
                && final(self).at > old(self).at && final(self).depth == old(self).depth,
        decreases old(self).toks@.len() - old(self).at,
    {
        let n = self.toks.len();
        if self.depth < usize::MAX {
            self.depth += 1;
        }
        if self.depth > MAX_DEPTH {
            let s = self.toks[self.at].span;
            let mut m = text("rule nested more than ");
            let d = decimal_string(MAX_DEPTH as u64);
            m.append(d.as_str());
            m.append(" levels deep");
            return Err(diag(s.lo, s.hi, m));
        }
        let at0 = self.at;
        let tspan = self.toks[at0].span;
        if matches!(self.toks[at0].tok, Tok::Eof) {
            let hi = if tspan.hi > tspan.lo { tspan.hi } else if tspan.lo < usize::MAX { tspan.lo + 1 } else { tspan.lo };
            return Err(diag(tspan.lo, hi, text("expected a value or a feature name")));
        }
        assert(at0 < n - 1);
        self.at = at0 + 1;
        let mut lhs = match &self.toks[at0].tok {
            Tok::Int(v) => Node { e: Expr::Int(*v), span: tspan },
            Tok::Str(x) => Node { e: Expr::Str(x.clone()), span: tspan },
            Tok::Ident(f) => Node { e: Expr::Feature(f.clone()), span: tspan },
            Tok::LParen => {
                let inner = self.expr(0)?;
                let close_span = self.toks[self.at].span;
                if !matches!(self.toks[self.at].tok, Tok::RParen) {
                    return Err(diag(close_span.lo, close_span.hi, text("expected `)`")));
                }
                assert(self.at < n - 1);
                self.at += 1;
                inner
            },
            _ => {
                let hi = if tspan.hi > tspan.lo { tspan.hi } else if tspan.lo < usize::MAX { tspan.lo + 1 } else { tspan.lo };
                return Err(diag(tspan.lo, hi, text("expected a value or a feature name")));
            },
        };
        loop
            invariant self.wf(), self.toks@ == old(self).toks@, self.at > old(self).at, n == self.toks@.len(),
                min_prec <= 6, old(self).depth < MAX_DEPTH, self.depth == old(self).depth + 1,
                sx_loop(self.toks@, self.at as int, self.depth as int, min_prec)
                    == sx_expr(old(self).toks@, old(self).at as int, old(self).depth as int, min_prec),
            ensures sx_loop(self.toks@, self.at as int, self.depth as int, min_prec) == Some(self.at as int),
            decreases n - self.at,
        {
            let op = match &self.toks[self.at].tok {
                Tok::Op(op) => *op,
                _ => break,
            };
            let p = prec(op);
            if p < min_prec {
                break;
            }
            assert(self.at < n - 1);
            self.at += 1;
            let rhs = self.expr(p + 1)?;
            let span = Span { lo: lhs.span.lo, hi: rhs.span.hi };
            lhs = Node { e: Expr::Bin(op, Box::new(lhs), Box::new(rhs)), span };
            if p == 3 {
                match &self.toks[self.at].tok {
                    Tok::Op(o) => {
                        if prec(*o) == 3 {
                            let s = self.toks[self.at].span;
                            return Err(diag(s.lo, s.hi, text("comparison operators cannot be chained; use `&&`")));
                        }
                    },
                    _ => {},
                }
            }
        }
        if self.depth > 0 {
            self.depth -= 1;
        }
        Ok(lhs)
    }
}

// ---------------- names and types, against the feature schema ----------------

#[derive(Debug, Clone, Copy, PartialEq, Eq, Structural)]
pub enum Ty {
    Int,
    Str,
    Bool,
}

/// The features a rule can read, with their types.
pub open spec fn schema_ty(name: Seq<char>) -> Option<Ty> {
    if name == "amount"@ { Some(Ty::Int) }
    else if name == "country"@ { Some(Ty::Str) }
    else if name == "velocity_1h"@ { Some(Ty::Int) }
    else if name == "graph_score"@ { Some(Ty::Int) }
    else { None }
}

fn schema_type(name: &String) -> (r: Option<Ty>)
    ensures r == schema_ty(name@),
{
    if *name == text("amount") { Some(Ty::Int) }
    else if *name == text("country") { Some(Ty::Str) }
    else if *name == text("velocity_1h") { Some(Ty::Int) }
    else if *name == text("graph_score") { Some(Ty::Int) }
    else { None }
}

/// The type an operator gives to operands of types `a` and `b`, if they fit it.
pub open spec fn op_type(op: Op, a: Ty, b: Ty) -> Option<Ty> {
    match op {
        Op::And | Op::Or => if a == Ty::Bool && b == Ty::Bool { Some(Ty::Bool) } else { None },
        Op::Eq | Op::Ne => if a == b { Some(Ty::Bool) } else { None },
        Op::Lt | Op::Le | Op::Gt | Op::Ge => if a == Ty::Int && b == Ty::Int { Some(Ty::Bool) } else { None },
        Op::Mul | Op::Add => if a == Ty::Int && b == Ty::Int { Some(Ty::Int) } else { None },
    }
}

/// The type of an expression over the schema, or `None` where it is ill-typed.
pub open spec fn type_of(n: Node) -> Option<Ty>
    decreases n,
{
    match n.e {
        Expr::Int(_) => Some(Ty::Int),
        Expr::Str(_) => Some(Ty::Str),
        Expr::Feature(f) => schema_ty(f@),
        Expr::Bin(op, a, b) => match (type_of(*a), type_of(*b)) {
            (Some(ta), Some(tb)) => op_type(op, ta, tb),
            _ => None,
        },
    }
}

fn op_result(op: Op, a: Ty, b: Ty) -> (r: Option<Ty>)
    ensures r == op_type(op, a, b),
{
    match op {
        Op::And | Op::Or => if a == Ty::Bool && b == Ty::Bool { Some(Ty::Bool) } else { None },
        Op::Eq | Op::Ne => if a == b { Some(Ty::Bool) } else { None },
        Op::Lt | Op::Le | Op::Gt | Op::Ge => if a == Ty::Int && b == Ty::Int { Some(Ty::Bool) } else { None },
        Op::Mul | Op::Add => if a == Ty::Int && b == Ty::Int { Some(Ty::Int) } else { None },
    }
}

pub fn ty_name(t: Ty) -> (s: &'static str)
    ensures s@ == (match t { Ty::Int => "Int"@, Ty::Str => "Str"@, Ty::Bool => "Bool"@ }),
{
    match t {
        Ty::Int => "Int",
        Ty::Str => "Str",
        Ty::Bool => "Bool",
    }
}

/// Edit distance (insertions, deletions, substitutions) between `a[..i]` and `b[..j]`.
pub open spec fn lev(a: Seq<u8>, b: Seq<u8>, i: int, j: int) -> nat
    decreases i + j,
{
    if i <= 0 {
        if j <= 0 { 0 } else { j as nat }
    } else if j <= 0 {
        i as nat
    } else {
        let sub = lev(a, b, i - 1, j - 1) + if a[i - 1] == b[j - 1] { 0nat } else { 1nat };
        let del = lev(a, b, i - 1, j) + 1;
        let ins = lev(a, b, i, j - 1) + 1;
        if sub <= del && sub <= ins { sub } else if del <= ins { del } else { ins }
    }
}

/// The edit distance between two byte strings, one row of the table at a time.
pub fn edit_distance(a: &[u8], b: &[u8]) -> (d: usize)
    requires a@.len() + b@.len() < usize::MAX,
    ensures d == lev(a@, b@, a@.len() as int, b@.len() as int),
{
    let m = b.len();
    let mut prev: Vec<usize> = Vec::new();
    let mut j: usize = 0;
    while j <= m
        invariant j <= m + 1, m == b@.len(), a@.len() + m < usize::MAX, prev@.len() == j,
            forall|k: int| 0 <= k < j ==> #[trigger] prev@[k] == lev(a@, b@, 0, k),
        decreases m + 1 - j,
    {
        prev.push(j);
        j += 1;
    }
    let mut i: usize = 0;
    while i < a.len()
        invariant
            i <= a@.len(), m == b@.len(), a@.len() + m < usize::MAX, prev@.len() == m + 1,
            forall|k: int| 0 <= k <= m ==> #[trigger] prev@[k] == lev(a@, b@, i as int, k),
            forall|k: int| 0 <= k <= m ==> prev@[k] <= i + k,
        decreases a@.len() - i,
    {
        let mut cur: Vec<usize> = Vec::new();
        cur.push(i + 1);
        let mut k: usize = 0;
        while k < m
            invariant
                i < a@.len(), m == b@.len(), a@.len() + m < usize::MAX, prev@.len() == m + 1, k <= m,
                cur@.len() == k + 1,
                forall|q: int| 0 <= q <= m ==> #[trigger] prev@[q] == lev(a@, b@, i as int, q),
                forall|q: int| 0 <= q <= m ==> prev@[q] <= i + q,
                forall|q: int| 0 <= q <= k ==> #[trigger] cur@[q] == lev(a@, b@, i + 1, q),
                forall|q: int| 0 <= q <= k ==> cur@[q] <= i + 1 + q,
            decreases m - k,
        {
            let sub = prev[k] + if a[i] == b[k] { 0 } else { 1 };
            let del = prev[k + 1] + 1;
            let ins = cur[k] + 1;
            let best = if sub <= del && sub <= ins { sub } else if del <= ins { del } else { ins };
            assert(best == lev(a@, b@, i + 1, k + 1));
            cur.push(best);
            k += 1;
        }
        prev = cur;
        i += 1;
    }
    prev[m]
}

/// The schema's field names, in alphabetical order.
pub open spec fn schema_name(k: int) -> Seq<char> {
    if k == 0 { "amount"@ } else if k == 1 { "country"@ } else if k == 2 { "graph_score"@ } else { "velocity_1h"@ }
}

/// The edit distance from `f` to schema name `k`, by bytes.
pub open spec fn name_dist(f: Seq<u8>, k: int) -> nat {
    let nb = encode_utf8(schema_name(k));
    lev(f, nb, f.len() as int, nb.len() as int)
}

/// Among the first `k` schema names, the closest to `f` (the first of equals) and its
/// distance.
pub open spec fn closest(f: Seq<u8>, k: int) -> Option<(nat, int)>
    decreases k,
{
    if k <= 0 {
        None
    } else {
        let d = name_dist(f, k - 1);
        match closest(f, k - 1) {
            Some((bd, bk)) => if d < bd { Some((d, k - 1)) } else { Some((bd, bk)) },
            None => Some((d, k - 1)),
        }
    }
}

/// The closer of `best` and `name` to `fb`; `None` where the lengths do not fit.
fn closer(fb: &[u8], name: &'static str, best: Option<(usize, &'static str)>) -> (r: Option<Option<(usize, &'static str)>>)
    requires fb@.len() < usize::MAX - 1,
    ensures
        fb@.len() >= usize::MAX - name.spec_bytes().len() ==> r is None,
        fb@.len() < usize::MAX - name.spec_bytes().len() ==> ({
            let d = lev(fb@, name.spec_bytes(), fb@.len() as int, name.spec_bytes().len() as int);
            &&& d <= usize::MAX
            &&& r == Some(match best {
                Some((bd, bn)) => if d < bd { Some((d as usize, name)) } else { best },
                None => Some((d as usize, name)),
            })
        }),
{
    let nb = name.as_bytes();
    if fb.len() >= usize::MAX - nb.len() {
        return None;
    }
    let d = edit_distance(fb, nb);
    match best {
        Some((bd, _)) => if d < bd { Some(Some((d, name))) } else { Some(best) },
        None => Some(Some((d, name))),
    }
}

/// The schema name closest to `f` by edit distance, if it is within 2 (ties go to the name
/// first in alphabetical order).
fn suggestion(f: &String) -> (r: Option<&'static str>)
    ensures ({
        let fb = encode_utf8(f@);
        (fb.len() < usize::MAX - 1 && forall|k: int| 0 <= k < 4 ==> fb.len() + encode_utf8(#[trigger] schema_name(k)).len() < usize::MAX)
            ==> match closest(fb, 4) {
                Some((d, k)) => if d <= 2 { r matches Some(n) && n@ == schema_name(k) } else { r is None },
                None => r is None,
            }
    }),
{
    let fb = f.as_str().as_bytes();
    if fb.len() >= usize::MAX - 1 {
        return None;
    }
    let mut best: Option<(usize, &'static str)> = None;
    proof { reveal_with_fuel(closest, 5); }
    assert(schema_name(0) == "amount"@ && schema_name(1) == "country"@ && schema_name(2) == "graph_score"@ && schema_name(3) == "velocity_1h"@);
    best = match closer(fb, "amount", best) { Some(b) => b, None => { return None; } };
    assert(best == Some(((closest(fb@, 1)->0).0 as usize, "amount")));
    best = match closer(fb, "country", best) { Some(b) => b, None => { return None; } };
    assert(best is Some && (best->0).0 == (closest(fb@, 2)->0).0 && (best->0).1@ == schema_name((closest(fb@, 2)->0).1));
    best = match closer(fb, "graph_score", best) { Some(b) => b, None => { return None; } };
    assert(best is Some && (best->0).0 == (closest(fb@, 3)->0).0 && (best->0).1@ == schema_name((closest(fb@, 3)->0).1));
    best = match closer(fb, "velocity_1h", best) { Some(b) => b, None => { return None; } };
    assert(best is Some && (best->0).0 == (closest(fb@, 4)->0).0 && (best->0).1@ == schema_name((closest(fb@, 4)->0).1));
    match best {
        Some((d, name)) => if d <= 2 { Some(name) } else { None },
        None => None,
    }
}

/// The value an expression folds to: a literal, or a sum or product of two folded operands
/// that fits in `i64`.
pub open spec fn const_val(n: Node) -> Option<int>
    decreases n,
{
    match n.e {
        Expr::Int(v) => Some(v as int),
        Expr::Bin(op, a, b) => match (const_val(*a), const_val(*b)) {
            (Some(x), Some(y)) =>
                if op == Op::Mul && i64::MIN <= x * y <= i64::MAX { Some(x * y) }
                else if op == Op::Add && i64::MIN <= x + y <= i64::MAX { Some(x + y) }
                else { None },
            _ => None,
        },
        _ => None,
    }
}

/// No sum or product of two folded operands leaves the range of `i64`.
pub open spec fn no_overflow(n: Node) -> bool
    decreases n,
{
    match n.e {
        Expr::Bin(op, a, b) => no_overflow(*a) && no_overflow(*b)
            && !((op == Op::Mul || op == Op::Add) && const_val(*a) is Some && const_val(*b) is Some
                && const_val(n) is None),
        _ => true,
    }
}

/// Type-checks and constant-folds (with overflow checking) in one bottom-up pass. On success
/// the expression is well typed, and its type is the one returned.
pub fn check(n: Node) -> (r: Result<(Node, Ty), Diag>)
    ensures
        r is Ok <==> (type_of(n) is Some && no_overflow(n)),
        r matches Ok((m, t)) ==> type_of(m) == Some(t) && type_of(n) == Some(t)
            && (m.e is Int <==> const_val(n) is Some)
            && (m.e matches Expr::Int(x) ==> const_val(n) == Some(x as int)),
    decreases n,
{
    let span = n.span;
    match n.e {
        Expr::Int(v) => Ok((Node { e: Expr::Int(v), span }, Ty::Int)),
        Expr::Str(x) => Ok((Node { e: Expr::Str(x), span }, Ty::Str)),
        Expr::Feature(f) => match schema_type(&f) {
            Some(t) => Ok((Node { e: Expr::Feature(f), span }, t)),
            None => {
                let mut m = text("unknown feature `");
                m.append(f.as_str());
                m.append("`");
                match suggestion(&f) {
                    Some(name) => {
                        m.append("; did you mean `");
                        m.append(name);
                        m.append("`?");
                    },
                    None => {},
                }
                Err(diag(span.lo, span.hi, m))
            },
        },
        Expr::Bin(op, a, b) => {
            let (ca, ta) = check(*a)?;
            let (cb, tb) = check(*b)?;
            let ty = match op_result(op, ta, tb) {
                Some(t) => t,
                None => {
                    let mut m = text("mismatched types: ");
                    m.append(ty_name(ta));
                    m.append(" ");
                    m.append(op_str(op));
                    m.append(" ");
                    m.append(ty_name(tb));
                    return Err(diag(span.lo, span.hi, m));
                },
            };
            match (&ca.e, &cb.e) {
                (Expr::Int(x), Expr::Int(y)) => {
                    let folded = match op {
                        Op::Mul => x.checked_mul(*y),
                        Op::Add => x.checked_add(*y),
                        _ => None,
                    };
                    match folded {
                        Some(v) => {
                            return Ok((Node { e: Expr::Int(v), span }, Ty::Int));
                        },
                        None => {
                            if op == Op::Mul || op == Op::Add {
                                return Err(diag(span.lo, span.hi, text("constant expression overflows i64")));
                            }
                        },
                    }
                },
                _ => {},
            }
            let m = Node { e: Expr::Bin(op, Box::new(ca), Box::new(cb)), span };
            Ok((m, ty))
        },
    }
}

// ---------------- the compiled rule ----------------

/// A record to screen. `graph_score` is remote: it is fetched by a call, and only when the
/// rule needs it.
pub struct Record<'a, F: Fn() -> i64 + ?Sized> {
    pub amount: i64,
    pub country: &'a str,
    pub velocity_1h: i64,
    pub graph_score: &'a F,
}

pub struct Rule {
    expr: Node,
}

/// A value during evaluation.
#[derive(Debug)]
pub enum V {
    Int(i64),
    Str(String),
    Bool(bool),
}

/// A value as mathematics sees it.
pub enum Value {
    Int(i64),
    Str(Seq<char>),
    Bool(bool),
}

pub open spec fn value_of(v: V) -> Value {
    match v {
        V::Int(x) => Value::Int(x),
        V::Str(s) => Value::Str(s@),
        V::Bool(b) => Value::Bool(b),
    }
}

/// What an expression evaluates to on a record whose remote graph score is `g`.
pub open spec fn eval_node(n: Node, amount: i64, country: Seq<char>, velocity: i64, g: i64) -> Value
    decreases n,
{
    match n.e {
        Expr::Int(x) => Value::Int(x),
        Expr::Str(s) => Value::Str(s@),
        Expr::Feature(f) =>
            if f@ == "amount"@ { Value::Int(amount) }
            else if f@ == "country"@ { Value::Str(country) }
            else if f@ == "velocity_1h"@ { Value::Int(velocity) }
            else { Value::Int(g) },
        Expr::Bin(op, a, b) => {
            let va = eval_node(*a, amount, country, velocity, g);
            let vb = eval_node(*b, amount, country, velocity, g);
            if op == Op::And {
                Value::Bool(va == Value::Bool(true) && vb == Value::Bool(true))
            } else if op == Op::Or {
                Value::Bool(va == Value::Bool(true) || vb == Value::Bool(true))
            } else {
                match (va, vb) {
                    (Value::Int(x), Value::Int(y)) => match op {
                        Op::Lt => Value::Bool(x < y),
                        Op::Le => Value::Bool(x <= y),
                        Op::Gt => Value::Bool(x > y),
                        Op::Ge => Value::Bool(x >= y),
                        Op::Eq => Value::Bool(x == y),
                        Op::Ne => Value::Bool(x != y),
                        Op::Mul => Value::Int(crate::wrap::wmul(x, y)),
                        _ => Value::Int(crate::wrap::wadd(x, y)),
                    },
                    (x, y) => Value::Bool(if op == Op::Eq { x == y } else { x != y }),
                }
            }
        },
    }
}

/// What a rule's comparisons and arithmetic mean when both sides are integers `x` and `y`:
/// a comparison is true exactly when the relation holds between them (and is a truth value),
/// and `+` and `*` are the sum and the product when those fit.
pub proof fn lemma_eval_on_integers(op: Op, a: Node, b: Node, span: Span, amount: i64, country: Seq<char>,
    velocity: i64, g: i64, x: i64, y: i64)
    requires
        eval_node(a, amount, country, velocity, g) == Value::Int(x),
        eval_node(b, amount, country, velocity, g) == Value::Int(y),
    ensures ({
        let v = eval_node(Node { e: Expr::Bin(op, Box::new(a), Box::new(b)), span }, amount, country, velocity, g);
        &&& op == Op::Lt ==> v is Bool && (v == Value::Bool(true) <==> x < y)
        &&& op == Op::Le ==> v is Bool && (v == Value::Bool(true) <==> x <= y)
        &&& op == Op::Gt ==> v is Bool && (v == Value::Bool(true) <==> x > y)
        &&& op == Op::Ge ==> v is Bool && (v == Value::Bool(true) <==> x >= y)
        &&& op == Op::Eq ==> v is Bool && (v == Value::Bool(true) <==> x == y)
        &&& op == Op::Ne ==> v is Bool && (v == Value::Bool(true) <==> x != y)
        &&& op == Op::Add && i64::MIN <= x + y <= i64::MAX ==> v == Value::Int((x + y) as i64)
        &&& op == Op::Mul && i64::MIN <= x * y <= i64::MAX ==> v == Value::Int((x * y) as i64)
    }),
{
    if i64::MIN <= x + y <= i64::MAX { crate::wrap::lemma_wadd_exact(x, y); }
    if i64::MIN <= x * y <= i64::MAX { crate::wrap::lemma_wmul_exact(x, y); }
}

/// What `&&`, `||` and comparisons of other values mean in a rule: `&&` is true exactly when
/// both sides are true, `||` when either is, and `==` / `!=` on values that are not both
/// integers compare them; each gives a truth value.
pub proof fn lemma_eval_logic(op: Op, a: Node, b: Node, span: Span, amount: i64, country: Seq<char>, velocity: i64, g: i64)
    ensures ({
        let va = eval_node(a, amount, country, velocity, g);
        let vb = eval_node(b, amount, country, velocity, g);
        let v = eval_node(Node { e: Expr::Bin(op, Box::new(a), Box::new(b)), span }, amount, country, velocity, g);
        &&& op == Op::And ==> v is Bool && (v == Value::Bool(true) <==> (va == Value::Bool(true) && vb == Value::Bool(true)))
        &&& op == Op::Or ==> v is Bool && (v == Value::Bool(true) <==> (va == Value::Bool(true) || vb == Value::Bool(true)))
        &&& (op == Op::Eq || op == Op::Ne) && !(va is Int && vb is Int) ==>
            v is Bool && (v == Value::Bool(true) <==> (if op == Op::Eq { va == vb } else { va != vb }))
    }),
{
}

fn v_eq(a: &V, b: &V) -> (r: bool)
    ensures r == (value_of(*a) == value_of(*b)),
{
    match (a, b) {
        (V::Int(x), V::Int(y)) => *x == *y,
        (V::Str(x), V::Str(y)) => *x == *y,
        (V::Bool(x), V::Bool(y)) => *x == *y,
        _ => false,
    }
}

fn is_true(v: &V) -> (r: bool)
    ensures r == (value_of(*v) == Value::Bool(true)),
{
    match v {
        V::Bool(b) => *b,
        _ => false,
    }
}

/// Evaluates an expression; the graph score is fetched only where the rule reaches it.
fn go<'a, F: Fn() -> i64 + ?Sized>(n: &Node, r: &Record<'a, F>) -> (v: V)
    requires r.graph_score.requires(()),
    ensures
        forall|g: i64| (forall|x: i64| r.graph_score.ensures((), x) ==> x == g)
            ==> value_of(v) == #[trigger] eval_node(*n, r.amount, r.country@, r.velocity_1h, g),
    decreases n,
{
    match &n.e {
        Expr::Int(x) => V::Int(*x),
        Expr::Str(s) => V::Str(s.clone()),
        Expr::Feature(f) => {
            if *f == text("amount") {
                V::Int(r.amount)
            } else if *f == text("country") {
                V::Str(String::from_str(r.country))
            } else if *f == text("velocity_1h") {
                V::Int(r.velocity_1h)
            } else {
                // Only reached when the rule actually needs it.
                let x = (r.graph_score)();
                V::Int(x)
            }
        },
        Expr::Bin(op, a, b) => {
            if *op == Op::And {
                let va = go(a, r);
                let res = if is_true(&va) {
                    let vb = go(b, r);
                    let t = is_true(&vb);
                    assert forall|g: i64| (forall|x: i64| r.graph_score.ensures((), x) ==> x == g) implies
                        value_of(V::Bool(t)) == #[trigger] eval_node(*n, r.amount, r.country@, r.velocity_1h, g) by {
                        assert(value_of(va) == eval_node(**a, r.amount, r.country@, r.velocity_1h, g));
                        assert(value_of(vb) == eval_node(**b, r.amount, r.country@, r.velocity_1h, g));
                    }
                    t
                } else {
                    assert forall|g: i64| (forall|x: i64| r.graph_score.ensures((), x) ==> x == g) implies
                        value_of(V::Bool(false)) == #[trigger] eval_node(*n, r.amount, r.country@, r.velocity_1h, g) by {
                        assert(value_of(va) == eval_node(**a, r.amount, r.country@, r.velocity_1h, g));
                    }
                    false
                };
                V::Bool(res)
            } else if *op == Op::Or {
                let va = go(a, r);
                let res = if is_true(&va) {
                    assert forall|g: i64| (forall|x: i64| r.graph_score.ensures((), x) ==> x == g) implies
                        value_of(V::Bool(true)) == #[trigger] eval_node(*n, r.amount, r.country@, r.velocity_1h, g) by {
                        assert(value_of(va) == eval_node(**a, r.amount, r.country@, r.velocity_1h, g));
                    }
                    true
                } else {
                    let vb = go(b, r);
                    let t = is_true(&vb);
                    assert forall|g: i64| (forall|x: i64| r.graph_score.ensures((), x) ==> x == g) implies
                        value_of(V::Bool(t)) == #[trigger] eval_node(*n, r.amount, r.country@, r.velocity_1h, g) by {
                        assert(value_of(va) == eval_node(**a, r.amount, r.country@, r.velocity_1h, g));
                        assert(value_of(vb) == eval_node(**b, r.amount, r.country@, r.velocity_1h, g));
                    }
                    t
                };
                V::Bool(res)
            } else {
                let va = go(a, r);
                let vb = go(b, r);
                let res = match (&va, &vb) {
                    (V::Int(x), V::Int(y)) => {
                        let (x, y) = (*x, *y);
                        match op {
                            Op::Lt => V::Bool(x < y),
                            Op::Le => V::Bool(x <= y),
                            Op::Gt => V::Bool(x > y),
                            Op::Ge => V::Bool(x >= y),
                            Op::Eq => V::Bool(x == y),
                            Op::Ne => V::Bool(x != y),
                            Op::Mul => V::Int(x.wrapping_mul(y)),
                            _ => V::Int(x.wrapping_add(y)),
                        }
                    },
                    _ => {
                        let same = v_eq(&va, &vb);
                        V::Bool(if *op == Op::Eq { same } else { !same })
                    },
                };
                assert forall|g: i64| (forall|x: i64| r.graph_score.ensures((), x) ==> x == g) implies
                    value_of(res) == #[trigger] eval_node(*n, r.amount, r.country@, r.velocity_1h, g) by {
                    assert(value_of(va) == eval_node(**a, r.amount, r.country@, r.velocity_1h, g));
                    assert(value_of(vb) == eval_node(**b, r.amount, r.country@, r.velocity_1h, g));
                }
                res
            }
        },
    }
}

impl Rule {
    /// The rule's expression, type-checked and constant-folded.
    pub closed spec fn body(&self) -> Node {
        self.expr
    }

    /// Compiles a rule once: lexing, parsing, name and type checking against the schema, and
    /// folding. A compiled rule is a well-typed condition.
    pub fn compile(src: &str) -> (r: Result<Rule, Vec<Diag>>)
        ensures
            r matches Ok(rule) ==> type_of(rule.body()) == Some(Ty::Bool),
            r matches Err(ds) ==> ds@.len() >= 1,
            r is Ok ==> lex_errs(src.spec_bytes(), 0).len() == 0,
            lex_errs(src.spec_bytes(), 0).len() > 0 ==> (r matches Err(ds)
                && diags_are(ds@, src.spec_bytes(), lex_errs(src.spec_bytes(), 0))),
    {
        let toks = lex(src)?;
        let mut p = Parser { toks, at: 0, depth: 0 };
        let node = match p.expr(0) {
            Ok(n) => n,
            Err(d) => {
                let mut v = Vec::new();
                v.push(d);
                return Err(v);
            },
        };
        if !matches!(p.toks[p.at].tok, Tok::Eof) {
            let s = p.toks[p.at].span;
            let mut v = Vec::new();
            v.push(Diag { span: s, msg: text("unexpected input after the rule") });
            return Err(v);
        }
        let span = node.span;
        let (expr, ty) = match check(node) {
            Ok(x) => x,
            Err(d) => {
                let mut v = Vec::new();
                v.push(d);
                return Err(v);
            },
        };
        if ty != Ty::Bool {
            let mut m = text("a rule must be a condition, found ");
            m.append(ty_name(ty));
            let mut v = Vec::new();
            v.push(Diag { span, msg: m });
            return Err(v);
        }
        Ok(Rule { expr })
    }

    /// Whether a record matches. `&&` and `||` short-circuit, so the remote graph score is
    /// fetched only when the rule needs it.
    pub fn eval<'a, F: Fn() -> i64 + ?Sized>(&self, r: &Record<'a, F>) -> (m: bool)
        requires r.graph_score.requires(()),
        ensures
            forall|g: i64| (forall|x: i64| r.graph_score.ensures((), x) ==> x == g)
                ==> m == (eval_node(self.body(), r.amount, r.country@, r.velocity_1h, g) == Value::Bool(true)),
    {
        let v = go(&self.expr, r);
        is_true(&v)
    }
}

// ---------------- reporting ----------------

/// A byte that starts a character (or the end of the text).
pub open spec fn starts_char(b: Seq<u8>, i: int) -> bool {
    i == b.len() || (0 <= i < b.len() && !(0x80 <= b[i] < 0xc0))
}

/// How many characters the bytes `b[lo..hi]` hold: the bytes that are not continuations.
pub open spec fn char_count(b: Seq<u8>, lo: int, hi: int) -> nat
    decreases hi - lo,
{
    if hi <= lo { 0 } else { char_count(b, lo, hi - 1) + if 0x80 <= b[hi - 1] < 0xc0 { 0nat } else { 1nat } }
}

fn count_chars(b: &[u8], lo: usize, hi: usize) -> (c: usize)
    requires lo <= hi <= b@.len(),
    ensures c == char_count(b@, lo as int, hi as int),
{
    let mut c: usize = 0;
    let mut i = lo;
    while i < hi
        invariant lo <= i <= hi, hi <= b@.len(), c == char_count(b@, lo as int, i as int), c <= i - lo,
        decreases hi - i,
    {
        if !(0x80 <= b[i] && b[i] < 0xc0) {
            c += 1;
        }
        i += 1;
    }
    c
}

pub open spec fn repeat(c: char, n: nat) -> Seq<char> {
    Seq::new(n, |_i: int| c)
}

fn push_repeat(s: &mut String, lit: &str, n: usize)
    requires lit@.len() == 1,
    ensures final(s)@ == old(s)@ + repeat(lit@[0], n as nat),
{
    let mut k: usize = 0;
    while k < n
        invariant k <= n, lit@.len() == 1, s@ == old(s)@ + repeat(lit@[0], k as nat),
        decreases n - k,
    {
        s.append(lit);
        k += 1;
        assert(s@ =~= old(s)@ + repeat(lit@[0], k as nat));
    }
}

/// A diagnostic with the rule underneath and carets under the span.
pub fn render(src: &str, d: &Diag) -> (out: String)
    requires
        d.span.lo <= src.spec_bytes().len(),
        starts_char(src.spec_bytes(), d.span.lo as int),
        starts_char(src.spec_bytes(), if d.span.hi < src.spec_bytes().len() { d.span.hi as int } else { src.spec_bytes().len() as int }),
    ensures ({
        let b = src.spec_bytes();
        let hi = if d.span.hi < b.len() { d.span.hi as int } else { b.len() as int };
        let lo = if d.span.lo < hi { d.span.lo as int } else { hi };
        let width = if char_count(b, lo, hi) > 1 { char_count(b, lo, hi) } else { 1 };
        let col = char_count(b, 0, d.span.lo as int);
        out@ == "error: "@ + d.msg@ + "\n      | "@ + src@ + "\n      | "@ + repeat(' ', col) + repeat('^', width)
    }),
{
    let b = src.as_bytes();
    let n = b.len();
    let hi = if d.span.hi < n { d.span.hi } else { n };
    let lo = if d.span.lo < hi { d.span.lo } else { hi };
    let w = count_chars(b, lo, hi);
    let width = if w > 1 { w } else { 1 };
    let col = count_chars(b, 0, d.span.lo);
    let mut out = text("error: ");
    out.append(d.msg.as_str());
    out.append("\n      | ");
    out.append(src);
    out.append("\n      | ");
    proof { reveal_strlit(" "); reveal_strlit("^"); }
    push_repeat(&mut out, " ", col);
    push_repeat(&mut out, "^", width);
    out
}

} // verus!
