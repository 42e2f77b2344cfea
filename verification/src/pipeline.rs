//! A whole compiler for a tiny subset of Ore, stage by stage: lex, parse, resolve names to
//! slots, type-check, lower to stack bytecode, and run on a stack machine. Every stage
//! reports the first error it meets, tagged with the stage and a byte position.

use vstd::prelude::*;
use vstd::string::{StringExecFns, StringSliceAdditionalSpecFns};
use crate::bytes::{is_digit, is_alpha, is_ident_byte, is_ws, byte_at, digit, alpha, ident_byte, ws, get, span_is};
use crate::lexer::{ident_end, lemma_scan_ends, char_width_of, code_point};
use crate::ore::{digits_end, digits_value, lemma_digits_end, lex_number};
use crate::text::{ascii_chars, ascii_string, is_ascii_seq, int_to_string, int_text, decimal, decimal_string};
use crate::wrap::{wadd, wsub, wmul, wneg, wdiv, wrem, b2i, wrapping_div, wrapping_rem, wrapping_neg, bool_to_i64};
use crate::wrap::{lemma_wadd_exact, lemma_wsub_exact, lemma_wmul_exact, lemma_wdiv_wrem_meaning};

verus! {

/// The first error of a compilation: the stage that found it, where, and what.
#[derive(Debug)]
pub struct CompileError {
    pub stage: &'static str,
    pub pos: usize,
    pub msg: String,
}

#[derive(Debug, Clone, PartialEq)]
pub enum Tok {
    Int(i64),
    Ident(String),
    Let, Mut, While, If, Else, True, False,
    Plus, Minus, Star, Slash, Percent,
    Lt, Le, Gt, Ge, EqEq, Ne, Assign, AndAnd, OrOr, Bang,
    Semi, LBrace, RBrace, LParen, RParen,
    Eof,
}

#[derive(Debug, Clone)]
pub struct Token {
    pub tok: Tok,
    /// The byte offset of the token's first byte.
    pub pos: usize,
}

// ---------------- the token grammar ----------------

/// The keyword a word spells, or `None` for an identifier.
pub open spec fn pl_keyword(w: Seq<u8>) -> Option<Tok> {
    if w == seq![108u8, 101, 116] { Some(Tok::Let) }
    else if w == seq![109u8, 117, 116] { Some(Tok::Mut) }
    else if w == seq![119u8, 104, 105, 108, 101] { Some(Tok::While) }
    else if w == seq![105u8, 102] { Some(Tok::If) }
    else if w == seq![101u8, 108, 115, 101] { Some(Tok::Else) }
    else if w == seq![116u8, 114, 117, 101] { Some(Tok::True) }
    else if w == seq![102u8, 97, 108, 115, 101] { Some(Tok::False) }
    else { None }
}

/// Operators and punctuation by maximal munch: a two-byte operator wins over its
/// one-byte prefix.
pub open spec fn pl_punct(c: u8, n: Option<u8>) -> Option<(Tok, int)> {
    if c == 60 && n == Some(61u8) { Some((Tok::Le, 2)) }
    else if c == 62 && n == Some(61u8) { Some((Tok::Ge, 2)) }
    else if c == 61 && n == Some(61u8) { Some((Tok::EqEq, 2)) }
    else if c == 33 && n == Some(61u8) { Some((Tok::Ne, 2)) }
    else if c == 38 && n == Some(38u8) { Some((Tok::AndAnd, 2)) }
    else if c == 124 && n == Some(124u8) { Some((Tok::OrOr, 2)) }
    else if c == 43 { Some((Tok::Plus, 1)) }
    else if c == 45 { Some((Tok::Minus, 1)) }
    else if c == 42 { Some((Tok::Star, 1)) }
    else if c == 47 { Some((Tok::Slash, 1)) }
    else if c == 37 { Some((Tok::Percent, 1)) }
    else if c == 60 { Some((Tok::Lt, 1)) }
    else if c == 62 { Some((Tok::Gt, 1)) }
    else if c == 61 { Some((Tok::Assign, 1)) }
    else if c == 33 { Some((Tok::Bang, 1)) }
    else if c == 59 { Some((Tok::Semi, 1)) }
    else if c == 123 { Some((Tok::LBrace, 1)) }
    else if c == 125 { Some((Tok::RBrace, 1)) }
    else if c == 40 { Some((Tok::LParen, 1)) }
    else if c == 41 { Some((Tok::RParen, 1)) }
    else { None }
}

/// The token that starts at `p` (not whitespace, before the end) and where it ends, or
/// `None` when there is none: a numeral too large for `i64`, or a byte that starts no token.
pub open spec fn pl_token(b: Seq<u8>, p: int) -> Option<(Tok, int)> {
    let c = b[p];
    if is_digit(c) {
        let e = digits_end(b, p);
        if digits_value(b, p, e) <= i64::MAX { Some((Tok::Int(digits_value(b, p, e) as i64), e)) } else { None }
    } else if is_alpha(c) || c == 95 {
        let e = ident_end(b, p);
        match pl_keyword(b.subrange(p, e)) {
            Some(k) => Some((k, e)),
            None => Some((Tok::Ident(arbitrary()), e)),
        }
    } else {
        match pl_punct(c, byte_at(b, p + 1)) {
            Some((t, len)) => Some((t, p + len)),
            None => None,
        }
    }
}

/// The tokens of `b` from `i` on, with their positions and a final `Eof`, or the position
/// of the first byte that starts no token.
pub open spec fn pl_lex(b: Seq<u8>, i: int) -> Result<Seq<(Tok, int)>, int>
    decreases b.len() - i,
{
    if i < 0 || i >= b.len() {
        Ok(seq![(Tok::Eof, b.len() as int)])
    } else if is_ws(b[i]) {
        pl_lex(b, i + 1)
    } else {
        match pl_token(b, i) {
            Some((t, e)) => if i < e <= b.len() {
                match pl_lex(b, e) {
                    Ok(rest) => Ok(seq![(t, i)] + rest),
                    Err(p) => Err(p),
                }
            } else {
                Err(i)
            },
            None => Err(i),
        }
    }
}

/// `t` is the token that the grammar describes at `p`; an identifier holds its text.
pub open spec fn tok_is(t: Tok, b: Seq<u8>, p: int, g: Tok) -> bool {
    match g {
        Tok::Ident(_) => t matches Tok::Ident(name) && name@ == ascii_chars(b.subrange(p, ident_end(b, p))),
        _ => t == g,
    }
}

/// The lexed tokens are the grammar's tokens, one for one.
pub open spec fn toks_are(toks: Seq<Token>, b: Seq<u8>, g: Seq<(Tok, int)>) -> bool {
    &&& toks.len() == g.len()
    &&& forall|k: int| 0 <= k < toks.len() ==> (#[trigger] toks[k]).pos == g[k].1
            && tok_is(toks[k].tok, b, g[k].1, g[k].0)
}

/// `char::from_u32`: the character with this scalar value, if it is one.
#[verifier::external_body]
pub(crate) fn char_from_u32(c: u32) -> (r: Option<char>)
    ensures
        r matches Some(ch) ==> ch as u32 == c,
        r is None ==> !((c <= 0xD7FF) || (0xE000 <= c && c <= 0x10FFFF)),
{
    char::from_u32(c)
}

/// What `{:?}` prints for a character (quoted, with escapes).
pub uninterp spec fn char_debug_text(c: char) -> Seq<char>;

#[verifier::external_body]
pub(crate) fn char_debug(c: char) -> (s: String)
    ensures s@ == char_debug_text(c),
{
    format!("{:?}", c)
}

/// A word at `start`: a keyword, or an identifier holding its text.
fn lex_word(b: &[u8], start: usize) -> (r: (Tok, usize))
    requires start < b@.len(), is_alpha(b@[start as int]) || b@[start as int] == 95,
    ensures
        r.1 == ident_end(b@, start as int),
        start < r.1 <= b@.len(),
        ({
            let w = b@.subrange(start as int, r.1 as int);
            match pl_keyword(w) {
                Some(k) => r.0 == k,
                None => r.0 matches Tok::Ident(name) && name@ == ascii_chars(w),
            }
        }),
{
    let n = b.len();
    let mut i = start;
    proof { lemma_scan_ends(b@, start as int); }
    while i < n && ident_byte(b[i])
        invariant
            n == b@.len(), start <= i <= n,
            ident_end(b@, i as int) == ident_end(b@, start as int),
            forall|k: int| start <= k < i ==> is_ident_byte(#[trigger] b@[k]),
        decreases n - i,
    {
        i += 1;
    }
    let t = if span_is(b, start, i, &[108u8, 101, 116]) { Tok::Let }
    else if span_is(b, start, i, &[109u8, 117, 116]) { Tok::Mut }
    else if span_is(b, start, i, &[119u8, 104, 105, 108, 101]) { Tok::While }
    else if span_is(b, start, i, &[105u8, 102]) { Tok::If }
    else if span_is(b, start, i, &[101u8, 108, 115, 101]) { Tok::Else }
    else if span_is(b, start, i, &[116u8, 114, 117, 101]) { Tok::True }
    else if span_is(b, start, i, &[102u8, 97, 108, 115, 101]) { Tok::False }
    else {
        let word = &b[start..i];
        assert(word@ == b@.subrange(start as int, i as int));
        assert(is_ascii_seq(word@)) by {
            assert forall|k: int| 0 <= k < word@.len() implies #[trigger] word@[k] < 128 by {
                assert(is_ident_byte(b@[start + k]));
            }
        }
        Tok::Ident(ascii_string(word))
    };
    (t, i)
}

fn punct_tok(c: u8, n: Option<u8>) -> (r: Option<(Tok, usize)>)
    ensures
        r is None <==> pl_punct(c, n) is None,
        r matches Some((t, len)) ==> pl_punct(c, n) == Some((t, len as int)) && 1 <= len <= 2,
{
    let (has, n2) = match n { Some(x) => (true, x), None => (false, 0u8) };
    if c == 60 && has && n2 == 61 { Some((Tok::Le, 2)) }
    else if c == 62 && has && n2 == 61 { Some((Tok::Ge, 2)) }
    else if c == 61 && has && n2 == 61 { Some((Tok::EqEq, 2)) }
    else if c == 33 && has && n2 == 61 { Some((Tok::Ne, 2)) }
    else if c == 38 && has && n2 == 38 { Some((Tok::AndAnd, 2)) }
    else if c == 124 && has && n2 == 124 { Some((Tok::OrOr, 2)) }
    else if c == 43 { Some((Tok::Plus, 1)) }
    else if c == 45 { Some((Tok::Minus, 1)) }
    else if c == 42 { Some((Tok::Star, 1)) }
    else if c == 47 { Some((Tok::Slash, 1)) }
    else if c == 37 { Some((Tok::Percent, 1)) }
    else if c == 60 { Some((Tok::Lt, 1)) }
    else if c == 62 { Some((Tok::Gt, 1)) }
    else if c == 61 { Some((Tok::Assign, 1)) }
    else if c == 33 { Some((Tok::Bang, 1)) }
    else if c == 59 { Some((Tok::Semi, 1)) }
    else if c == 123 { Some((Tok::LBrace, 1)) }
    else if c == 125 { Some((Tok::RBrace, 1)) }
    else if c == 40 { Some((Tok::LParen, 1)) }
    else if c == 41 { Some((Tok::RParen, 1)) }
    else { None }
}

/// A character's scalar value.
pub open spec fn char_val(ch: char) -> u32 {
    ch as u32
}

/// The message for a lexical error at `p` is `m`: a numeral too large, or a character no
/// token starts with, shown as `{:?}` shows it when its code point is a scalar value.
pub open spec fn pl_lex_msg(b: Seq<u8>, p: int, m: Seq<char>) -> bool {
    if is_digit(b[p]) {
        m == "integer literal too large"@
    } else {
        let cp = crate::lexer::code_point_spec(b, p, crate::lexer::char_width(b[p], b.len() - p));
        ||| exists|ch: char| #[trigger] char_val(ch) == cp && m == "unexpected character"@ + " "@ + char_debug_text(ch)
        ||| !(cp <= 0xD7FF || (0xE000 <= cp && cp <= 0x10FFFF)) && m == "unexpected character"@
    }
}

fn lex_error(start: usize, msg: String) -> (e: CompileError)
    ensures e.stage@ == "lexer"@, e.pos == start, e.msg == msg,
{
    CompileError { stage: "lexer", pos: start, msg }
}

/// Stage 1: bytes to tokens. Whitespace separates tokens; a numeral too large for `i64`
/// or a byte that starts no token is an error at its position.
pub fn lex(src: &str) -> (r: Result<Vec<Token>, CompileError>)
    ensures
        match pl_lex(src.spec_bytes(), 0) {
            Ok(g) => r matches Ok(toks) && toks_are(toks@, src.spec_bytes(), g),
            Err(p) => r matches Err(e) && e.stage@ == "lexer"@ && e.pos == p && pl_lex_msg(src.spec_bytes(), p, e.msg@),
        },
{
    let b = src.as_bytes();
    let n = b.len();
    let mut i: usize = 0;
    let mut out: Vec<Token> = Vec::new();
    let ghost mut g: Seq<(Tok, int)> = Seq::empty();
    while i < n
        invariant
            n == b@.len(), i <= n, b@ == src.spec_bytes(),
            toks_are(out@, b@, g),
            match pl_lex(b@, i as int) {
                Ok(rest) => pl_lex(b@, 0) == Ok::<Seq<(Tok, int)>, int>(g + rest),
                Err(p) => pl_lex(b@, 0) == Err::<Seq<(Tok, int)>, int>(p),
            },
        decreases n - i,
    {
        let c = b[i];
        let start = i;
        if ws(c) {
            i += 1;
            continue;
        }
        let (tok, e) = if digit(c) {
            match lex_number(b, start) {
                (Some(v), e) => (Tok::Int(v), e),
                (None, _) => {
                    let mut msg = String::new();
                    msg.append("integer literal too large");
                    assert(pl_lex_msg(b@, start as int, msg@));
                    return Err(lex_error(start, msg));
                },
            }
        } else if alpha(c) || c == 95 {
            lex_word(b, start)
        } else {
            match punct_tok(c, get(b, start + 1)) {
                Some((t, len)) => (t, start + len),
                None => {
                    let w = char_width_of(c, n - start);
                    let cp = code_point(b, start, w);
                    let mut msg = String::new();
                    msg.append("unexpected character");
                    match char_from_u32(cp) {
                        Some(ch) => {
                            msg.append(" ");
                            let d = char_debug(ch);
                            msg.append(d.as_str());
                            assert(char_val(ch) == cp);
                            assert(msg@ =~= "unexpected character"@ + " "@ + char_debug_text(ch));
                        },
                        None => {},
                    }
                    assert(pl_lex_msg(b@, start as int, msg@));
                    return Err(lex_error(start, msg));
                },
            }
        };
        proof {
            lemma_digits_end(b@, start as int);
            let gt = pl_token(b@, start as int)->Some_0;
            assert(pl_token(b@, start as int) == Some((gt.0, e as int)));
            assert(tok_is(tok, b@, start as int, gt.0));
            let ghost g2 = g.push((gt.0, start as int));
            match pl_lex(b@, e as int) {
                Ok(rest) => {
                    assert(g + (seq![(gt.0, start as int)] + rest) == g2 + rest);
                },
                Err(_) => {},
            }
            g = g2;
        }
        let ghost out0 = out@;
        out.push(Token { tok, pos: start });
        i = e;
        proof {
            assert forall|k: int| 0 <= k < out@.len() implies (#[trigger] out@[k]).pos == g[k].1
                && tok_is(out@[k].tok, b@, g[k].1, g[k].0) by {
                if k < out@.len() - 1 { assert(out@[k] == out0[k]); }
            }
        }
    }
    let ghost out0 = out@;
    out.push(Token { tok: Tok::Eof, pos: n });
    proof {
        assert(pl_lex(b@, n as int) == Ok::<Seq<(Tok, int)>, int>(seq![(Tok::Eof, n as int)]));
        g = g.push((Tok::Eof, n as int));
        assert forall|k: int| 0 <= k < out@.len() implies (#[trigger] out@[k]).pos == g[k].1
            && tok_is(out@[k].tok, b@, g[k].1, g[k].0) by {
            if k < out@.len() - 1 { assert(out@[k] == out0[k]); }
        }
    }
    Ok(out)
}

} // verus!

verus! {

// ---------------- stage 2: the parser ----------------

#[derive(Debug, Clone, Copy, PartialEq, Eq, Structural)]
pub enum BinOp { Add, Sub, Mul, Div, Rem, Lt, Le, Gt, Ge, Eq, Ne, And, Or }

#[derive(Debug, Clone, Copy, PartialEq, Eq, Structural)]
pub enum UnOp { Neg, Not }

#[derive(Debug)]
pub enum Expr {
    Int(i64),
    Bool(bool),
    /// A name and its position: the key of the resolver's side table.
    Var(String, usize),
    Unary(UnOp, Box<Expr>, usize),
    Binary(BinOp, Box<Expr>, Box<Expr>, usize),
}

#[derive(Debug)]
pub enum Stmt {
    Let { name: String, mutable: bool, init: Expr, pos: usize },
    Assign { name: String, value: Expr, pos: usize },
    While { cond: Expr, body: Vec<Stmt> },
    If { cond: Expr, then_body: Vec<Stmt>, else_body: Vec<Stmt> },
}

pub struct Program {
    pub stmts: Vec<Stmt>,
    pub result: Expr,
}

pub struct Parser {
    toks: Vec<Token>,
    at: usize,
}

/// Binary operators by precedence level: 0 is `||` (loosest) up to 4, `* / %` (tightest).
pub open spec fn binop_spec(t: Tok) -> Option<(u8, BinOp)> {
    match t {
        Tok::OrOr => Some((0u8, BinOp::Or)),
        Tok::AndAnd => Some((1u8, BinOp::And)),
        Tok::EqEq => Some((2u8, BinOp::Eq)),
        Tok::Ne => Some((2u8, BinOp::Ne)),
        Tok::Lt => Some((2u8, BinOp::Lt)),
        Tok::Le => Some((2u8, BinOp::Le)),
        Tok::Gt => Some((2u8, BinOp::Gt)),
        Tok::Ge => Some((2u8, BinOp::Ge)),
        Tok::Plus => Some((3u8, BinOp::Add)),
        Tok::Minus => Some((3u8, BinOp::Sub)),
        Tok::Star => Some((4u8, BinOp::Mul)),
        Tok::Slash => Some((4u8, BinOp::Div)),
        Tok::Percent => Some((4u8, BinOp::Rem)),
        _ => None,
    }
}

pub fn binop_of(t: &Tok) -> (r: Option<(u8, BinOp)>)
    ensures r == binop_spec(*t),
{
    match t {
        Tok::OrOr => Some((0, BinOp::Or)),
        Tok::AndAnd => Some((1, BinOp::And)),
        Tok::EqEq => Some((2, BinOp::Eq)),
        Tok::Ne => Some((2, BinOp::Ne)),
        Tok::Lt => Some((2, BinOp::Lt)),
        Tok::Le => Some((2, BinOp::Le)),
        Tok::Gt => Some((2, BinOp::Gt)),
        Tok::Ge => Some((2, BinOp::Ge)),
        Tok::Plus => Some((3, BinOp::Add)),
        Tok::Minus => Some((3, BinOp::Sub)),
        Tok::Star => Some((4, BinOp::Mul)),
        Tok::Slash => Some((4, BinOp::Div)),
        Tok::Percent => Some((4, BinOp::Rem)),
        _ => None,
    }
}

/// Tokens equal as the parser compares them.
pub open spec fn tok_same(a: Tok, b: Tok) -> bool {
    match (a, b) {
        (Tok::Int(x), Tok::Int(y)) => x == y,
        (Tok::Ident(x), Tok::Ident(y)) => x@ == y@,
        (Tok::Int(_), _) => false,
        (Tok::Ident(_), _) => false,
        (_, Tok::Int(_)) => false,
        (_, Tok::Ident(_)) => false,
        _ => a == b,
    }
}

pub fn tok_eq(a: &Tok, b: &Tok) -> (r: bool)
    ensures r == tok_same(*a, *b),
{
    match (a, b) {
        (Tok::Int(x), Tok::Int(y)) => *x == *y,
        (Tok::Ident(x), Tok::Ident(y)) => *x == *y,
        (Tok::Int(_), _) | (Tok::Ident(_), _) | (_, Tok::Int(_)) | (_, Tok::Ident(_)) => false,
        (Tok::Let, Tok::Let) | (Tok::Mut, Tok::Mut) | (Tok::While, Tok::While) | (Tok::If, Tok::If)
        | (Tok::Else, Tok::Else) | (Tok::True, Tok::True) | (Tok::False, Tok::False)
        | (Tok::Plus, Tok::Plus) | (Tok::Minus, Tok::Minus) | (Tok::Star, Tok::Star)
        | (Tok::Slash, Tok::Slash) | (Tok::Percent, Tok::Percent) | (Tok::Lt, Tok::Lt)
        | (Tok::Le, Tok::Le) | (Tok::Gt, Tok::Gt) | (Tok::Ge, Tok::Ge) | (Tok::EqEq, Tok::EqEq)
        | (Tok::Ne, Tok::Ne) | (Tok::Assign, Tok::Assign) | (Tok::AndAnd, Tok::AndAnd)
        | (Tok::OrOr, Tok::OrOr) | (Tok::Bang, Tok::Bang) | (Tok::Semi, Tok::Semi)
        | (Tok::LBrace, Tok::LBrace) | (Tok::RBrace, Tok::RBrace) | (Tok::LParen, Tok::LParen)
        | (Tok::RParen, Tok::RParen) | (Tok::Eof, Tok::Eof) => true,
        _ => false,
    }
}

/// A copy of a token.
pub fn tok_clone(t: &Tok) -> (r: Tok)
    ensures tok_same(r, *t),
{
    match t {
        Tok::Int(n) => Tok::Int(*n),
        Tok::Ident(s) => Tok::Ident(s.clone()),
        Tok::Let => Tok::Let, Tok::Mut => Tok::Mut, Tok::While => Tok::While, Tok::If => Tok::If,
        Tok::Else => Tok::Else, Tok::True => Tok::True, Tok::False => Tok::False,
        Tok::Plus => Tok::Plus, Tok::Minus => Tok::Minus, Tok::Star => Tok::Star,
        Tok::Slash => Tok::Slash, Tok::Percent => Tok::Percent, Tok::Lt => Tok::Lt,
        Tok::Le => Tok::Le, Tok::Gt => Tok::Gt, Tok::Ge => Tok::Ge, Tok::EqEq => Tok::EqEq,
        Tok::Ne => Tok::Ne, Tok::Assign => Tok::Assign, Tok::AndAnd => Tok::AndAnd,
        Tok::OrOr => Tok::OrOr, Tok::Bang => Tok::Bang, Tok::Semi => Tok::Semi,
        Tok::LBrace => Tok::LBrace, Tok::RBrace => Tok::RBrace, Tok::LParen => Tok::LParen,
        Tok::RParen => Tok::RParen, Tok::Eof => Tok::Eof,
    }
}

/// The text `{:?}` gives for a token.
pub open spec fn tok_debug_text(t: Tok) -> Seq<char> {
    match t {
        Tok::Int(n) => "Int("@ + ascii_chars(int_text(n as int)) + ")"@,
        Tok::Ident(name) => "Ident(\""@ + name@ + "\")"@,
        Tok::Let => "Let"@,
        Tok::Mut => "Mut"@,
        Tok::While => "While"@,
        Tok::If => "If"@,
        Tok::Else => "Else"@,
        Tok::True => "True"@,
        Tok::False => "False"@,
        Tok::Plus => "Plus"@,
        Tok::Minus => "Minus"@,
        Tok::Star => "Star"@,
        Tok::Slash => "Slash"@,
        Tok::Percent => "Percent"@,
        Tok::Lt => "Lt"@,
        Tok::Le => "Le"@,
        Tok::Gt => "Gt"@,
        Tok::Ge => "Ge"@,
        Tok::EqEq => "EqEq"@,
        Tok::Ne => "Ne"@,
        Tok::Assign => "Assign"@,
        Tok::AndAnd => "AndAnd"@,
        Tok::OrOr => "OrOr"@,
        Tok::Bang => "Bang"@,
        Tok::Semi => "Semi"@,
        Tok::LBrace => "LBrace"@,
        Tok::RBrace => "RBrace"@,
        Tok::LParen => "LParen"@,
        Tok::RParen => "RParen"@,
        Tok::Eof => "Eof"@,
    }
}

/// The token as `{:?}` prints it.
pub fn tok_debug(t: &Tok) -> (r: String)
    ensures r@ == tok_debug_text(*t),
{
    let mut s = String::new();
    match t {
        Tok::Int(n) => {
            s.append("Int(");
            let d = int_to_string(*n);
            s.append(d.as_str());
            s.append(")");
        }
        Tok::Ident(name) => {
            s.append("Ident(\"");
            s.append(name.as_str());
            s.append("\")");
        }
        Tok::Let => s.append("Let"), Tok::Mut => s.append("Mut"), Tok::While => s.append("While"),
        Tok::If => s.append("If"), Tok::Else => s.append("Else"), Tok::True => s.append("True"),
        Tok::False => s.append("False"), Tok::Plus => s.append("Plus"), Tok::Minus => s.append("Minus"),
        Tok::Star => s.append("Star"), Tok::Slash => s.append("Slash"), Tok::Percent => s.append("Percent"),
        Tok::Lt => s.append("Lt"), Tok::Le => s.append("Le"), Tok::Gt => s.append("Gt"), Tok::Ge => s.append("Ge"),
        Tok::EqEq => s.append("EqEq"), Tok::Ne => s.append("Ne"), Tok::Assign => s.append("Assign"),
        Tok::AndAnd => s.append("AndAnd"), Tok::OrOr => s.append("OrOr"), Tok::Bang => s.append("Bang"),
        Tok::Semi => s.append("Semi"), Tok::LBrace => s.append("LBrace"), Tok::RBrace => s.append("RBrace"),
        Tok::LParen => s.append("LParen"), Tok::RParen => s.append("RParen"), Tok::Eof => s.append("Eof"),
    }
    assert(s@ =~= tok_debug_text(*t));
    s
}

fn parse_error(pos: usize, msg: String) -> (e: CompileError)
    ensures e.stage@ == "parser"@, e.pos == pos,
{
    CompileError { stage: "parser", pos, msg }
}

/// `expected {what}, found {tok:?}`
fn expected(what: &str, t: &Tok) -> (m: String)
    ensures m@ == "expected "@ + what@ + ", found "@ + tok_debug_text(*t),
{
    let mut m = String::from_str("expected ");
    m.append(what);
    m.append(", found ");
    let d = tok_debug(t);
    m.append(d.as_str());
    m
}

impl Parser {
    pub closed spec fn tokens(&self) -> Seq<Token> {
        self.toks@
    }

    pub closed spec fn pos(&self) -> int {
        self.at as int
    }

    /// Tokens end with `Eof`, and the position is on a token.
    pub open spec fn wf(&self) -> bool {
        &&& self.tokens().len() >= 1
        &&& self.tokens().last().tok is Eof
        &&& 0 <= self.pos() < self.tokens().len()
    }

    pub open spec fn cur(&self) -> Tok {
        self.tokens()[self.pos()].tok
    }

    /// Parsing keeps the tokens and never moves backward.
    pub open spec fn advanced(&self, old: Parser) -> bool {
        &&& self.wf()
        &&& self.tokens() == old.tokens()
        &&& old.pos() <= self.pos()
    }

    pub fn new(toks: Vec<Token>) -> (p: Self)
        requires toks@.len() >= 1, toks@.last().tok is Eof,
        ensures p.wf(), p.tokens() == toks@, p.pos() == 0,
    {
        Parser { toks, at: 0 }
    }

    fn peek(&self) -> (t: &Token)
        requires self.wf(),
        ensures *t == self.tokens()[self.pos()],
    {
        &self.toks[self.at]
    }

    /// Consumes the current token; `Eof` is never consumed.
    fn bump(&mut self) -> (t: Token)
        requires old(self).wf(),
        ensures
            final(self).advanced(*old(self)),
            tok_same(t.tok, old(self).cur()),
            t.pos == old(self).tokens()[old(self).pos()].pos,
            final(self).pos() == if old(self).cur() is Eof { old(self).pos() } else { old(self).pos() + 1 },
    {
        let t = Token { tok: tok_clone(&self.toks[self.at].tok), pos: self.toks[self.at].pos };
        let is_eof = match &self.toks[self.at].tok { Tok::Eof => true, _ => false };
        let n = self.toks.len();
        if !is_eof {
            assert(self.at as int != self.toks@.len() - 1);
            self.at += 1;
        }
        t
    }

    fn expect(&mut self, want: &Tok, what: &str) -> (r: Result<Token, CompileError>)
        requires old(self).wf(),
        ensures
            final(self).advanced(*old(self)),
            r is Ok <==> tok_same(old(self).cur(), *want),
            r is Ok && !(*want is Eof) ==> final(self).pos() == old(self).pos() + 1,
            r is Ok && *want is Eof ==> final(self).pos() == old(self).pos(),
            r matches Err(e) ==> e.stage@ == "parser"@,
    {
        if tok_eq(&self.peek().tok, want) {
            Ok(self.bump())
        } else {
            let t = self.peek();
            Err(parse_error(t.pos, expected(what, &t.tok)))
        }
    }

    fn ident(&mut self) -> (r: Result<(String, usize), CompileError>)
        requires old(self).wf(),
        ensures
            final(self).advanced(*old(self)),
            r is Ok <==> old(self).cur() is Ident,
            r is Ok ==> final(self).pos() == old(self).pos() + 1,
            r matches Err(e) ==> e.stage@ == "parser"@,
    {
        let t = self.bump();
        match t.tok {
            Tok::Ident(name) => Ok((name, t.pos)),
            other => {
                let mut m = String::from_str("expected a name, found ");
                let d = tok_debug(&other);
                m.append(d.as_str());
                Err(parse_error(t.pos, m))
            },
        }
    }

    /// program := stmt* expr EOF, where a statement starts with `let`, `while`, `if`, or a
    /// name followed by `=`.
    pub fn program(&mut self) -> (r: Result<Program, CompileError>)
        requires old(self).wf(),
        ensures
            final(self).advanced(*old(self)),
            r is Ok ==> final(self).cur() is Eof,
            r matches Err(e) ==> e.stage@ == "parser"@,
    {
        let mut stmts: Vec<Stmt> = Vec::new();
        loop
            invariant self.advanced(*old(self)),
            decreases self.tokens().len() - self.pos(),
        {
            let starts_stmt = match &self.peek().tok {
                Tok::Let | Tok::While | Tok::If => true,
                Tok::Ident(_) => {
                    let n = self.toks.len();
                    assert(self.pos() + 1 < self.tokens().len());
                    match &self.toks[self.at + 1].tok { Tok::Assign => true, _ => false }
                },
                _ => false,
            };
            if starts_stmt {
                let s = self.stmt()?;
                stmts.push(s);
            } else {
                let result = self.expr(0)?;
                self.expect(&Tok::Eof, "end of program")?;
                return Ok(Program { stmts, result });
            }
        }
    }
}

impl Parser {
    /// block := "{" stmt* "}"
    fn block(&mut self) -> (r: Result<Vec<Stmt>, CompileError>)
        requires old(self).wf(),
        ensures
            final(self).advanced(*old(self)),
            r is Ok ==> final(self).pos() > old(self).pos(),
            r matches Err(e) ==> e.stage@ == "parser"@,
        decreases old(self).tokens().len() - old(self).pos(), 9nat,
    {
        self.expect(&Tok::LBrace, "`{`")?;
        let mut body: Vec<Stmt> = Vec::new();
        while !matches!(self.peek().tok, Tok::RBrace)
            invariant self.advanced(*old(self)), self.pos() > old(self).pos(),
            decreases self.tokens().len() - self.pos(),
        {
            let s = self.stmt()?;
            body.push(s);
        }
        self.bump();
        Ok(body)
    }

    fn stmt(&mut self) -> (r: Result<Stmt, CompileError>)
        requires old(self).wf(),
        ensures
            final(self).advanced(*old(self)),
            r is Ok ==> final(self).pos() > old(self).pos(),
            r matches Err(e) ==> e.stage@ == "parser"@,
        decreases old(self).tokens().len() - old(self).pos(), 8nat,
    {
        match &self.peek().tok {
            Tok::Let => {
                self.bump();
                let mutable = matches!(self.peek().tok, Tok::Mut);
                if mutable {
                    self.bump();
                }
                let (name, pos) = self.ident()?;
                self.expect(&Tok::Assign, "`=`")?;
                let init = self.expr(0)?;
                self.expect(&Tok::Semi, "`;`")?;
                Ok(Stmt::Let { name, mutable, init, pos })
            },
            Tok::While => {
                self.bump();
                let cond = self.expr(0)?;
                let body = self.block()?;
                Ok(Stmt::While { cond, body })
            },
            Tok::If => {
                self.bump();
                let cond = self.expr(0)?;
                let then_body = self.block()?;
                self.expect(&Tok::Else, "`else`")?;
                let else_body = self.block()?;
                Ok(Stmt::If { cond, then_body, else_body })
            },
            _ => {
                let (name, pos) = self.ident()?;
                self.expect(&Tok::Assign, "`=`")?;
                let value = self.expr(0)?;
                self.expect(&Tok::Semi, "`;`")?;
                Ok(Stmt::Assign { name, value, pos })
            },
        }
    }

    /// Precedence climbing by levels: operands one level tighter, then a loop over the
    /// operators of this level (all left-associative).
    pub fn expr(&mut self, level: u8) -> (r: Result<Expr, CompileError>)
        requires old(self).wf(), level <= 5,
        ensures
            final(self).advanced(*old(self)),
            r is Ok ==> final(self).pos() > old(self).pos(),
            r matches Err(e) ==> e.stage@ == "parser"@,
        decreases old(self).tokens().len() - old(self).pos(), 7 - level,
    {
        if level == 5 {
            return self.unary();
        }
        let mut lhs = self.expr(level + 1)?;
        loop
            invariant self.advanced(*old(self)), self.pos() > old(self).pos(), level < 5,
            decreases self.tokens().len() - self.pos(),
        {
            let (l, op) = match binop_of(&self.peek().tok) {
                Some(x) => x,
                None => break,
            };
            if l != level {
                break;
            }
            let pos = self.bump().pos;
            let rhs = self.expr(level + 1)?;
            lhs = Expr::Binary(op, Box::new(lhs), Box::new(rhs), pos);
        }
        Ok(lhs)
    }

    fn unary(&mut self) -> (r: Result<Expr, CompileError>)
        requires old(self).wf(),
        ensures
            final(self).advanced(*old(self)),
            r is Ok ==> final(self).pos() > old(self).pos(),
            r matches Err(e) ==> e.stage@ == "parser"@,
        decreases old(self).tokens().len() - old(self).pos(), 1nat,
    {
        let t = self.bump();
        match t.tok {
            Tok::Minus => {
                let x = self.unary()?;
                Ok(Expr::Unary(UnOp::Neg, Box::new(x), t.pos))
            },
            Tok::Bang => {
                let x = self.unary()?;
                Ok(Expr::Unary(UnOp::Not, Box::new(x), t.pos))
            },
            Tok::Int(n) => Ok(Expr::Int(n)),
            Tok::True => Ok(Expr::Bool(true)),
            Tok::False => Ok(Expr::Bool(false)),
            Tok::Ident(name) => Ok(Expr::Var(name, t.pos)),
            Tok::LParen => {
                let e = self.expr(0)?;
                self.expect(&Tok::RParen, "`)`")?;
                Ok(e)
            },
            other => {
                let mut m = String::from_str("expected an expression, found ");
                let d = tok_debug(&other);
                m.append(d.as_str());
                Err(parse_error(t.pos, m))
            },
        }
    }
}

} // verus!

verus! {

/// The operator as the s-expression printer spells it.
pub open spec fn op_text(op: BinOp) -> Seq<char> {
    match op {
        BinOp::Add => "+"@, BinOp::Sub => "-"@, BinOp::Mul => "*"@, BinOp::Div => "/"@,
        BinOp::Rem => "%"@, BinOp::Lt => "<"@, BinOp::Le => "<="@, BinOp::Gt => ">"@,
        BinOp::Ge => ">="@, BinOp::Eq => "=="@, BinOp::Ne => "!="@, BinOp::And => "&&"@,
        BinOp::Or => "||"@,
    }
}

pub fn op_str(op: BinOp) -> (s: &'static str)
    ensures s@ == op_text(op),
{
    match op {
        BinOp::Add => "+", BinOp::Sub => "-", BinOp::Mul => "*", BinOp::Div => "/",
        BinOp::Rem => "%", BinOp::Lt => "<", BinOp::Le => "<=", BinOp::Gt => ">",
        BinOp::Ge => ">=", BinOp::Eq => "==", BinOp::Ne => "!=", BinOp::And => "&&",
        BinOp::Or => "||",
    }
}

/// An expression as an s-expression: `(op lhs rhs)`, `(- x)`, `(! x)`, or a leaf.
pub open spec fn sexpr_text(e: Expr) -> Seq<char>
    decreases e,
{
    match e {
        Expr::Int(n) => ascii_chars(int_text(n as int)),
        Expr::Bool(b) => if b { "true"@ } else { "false"@ },
        Expr::Var(name, _) => name@,
        Expr::Unary(op, x, _) => "("@ + (if op == UnOp::Neg { "-"@ } else { "!"@ }) + " "@ + sexpr_text(*x) + ")"@,
        Expr::Binary(op, a, b, _) => "("@ + op_text(op) + " "@ + sexpr_text(*a) + " "@ + sexpr_text(*b) + ")"@,
    }
}

pub fn sexpr(e: &Expr) -> (s: String)
    ensures s@ == sexpr_text(*e),
    decreases e,
{
    match e {
        Expr::Int(n) => int_to_string(*n),
        Expr::Bool(b) => if *b { String::from_str("true") } else { String::from_str("false") },
        Expr::Var(name, _) => name.clone(),
        Expr::Unary(op, x, _) => {
            let mut s = String::from_str("(");
            s.append(if *op == UnOp::Neg { "-" } else { "!" });
            s.append(" ");
            let inner = sexpr(x);
            s.append(inner.as_str());
            s.append(")");
            s
        },
        Expr::Binary(op, a, b, _) => {
            let mut s = String::from_str("(");
            s.append(op_str(*op));
            s.append(" ");
            let l = sexpr(a);
            s.append(l.as_str());
            s.append(" ");
            let r = sexpr(b);
            s.append(r.as_str());
            s.append(")");
            s
        },
    }
}

/// Two spaces per level of indentation.
pub open spec fn pad_text(indent: nat) -> Seq<char>
    decreases indent,
{
    if indent == 0 { Seq::empty() } else { pad_text((indent - 1) as nat) + "  "@ }
}

/// The statements as the compiler's trace shows them, one line each, bodies indented one
/// level deeper.
pub open spec fn stmts_lines(ss: Seq<Stmt>, indent: nat) -> Seq<Seq<char>>
    decreases ss,
{
    if ss.len() == 0 {
        Seq::empty()
    } else {
        let pad = pad_text(indent);
        let first = match ss[0] {
            Stmt::Let { name, mutable, init, .. } =>
                seq![pad + "(let"@ + (if mutable { " mut"@ } else { ""@ }) + " "@ + name@ + " "@ + sexpr_text(init) + ")"@],
            Stmt::Assign { name, value, .. } => seq![pad + "(set "@ + name@ + " "@ + sexpr_text(value) + ")"@],
            Stmt::While { cond, body } =>
                seq![pad + "(while "@ + sexpr_text(cond)] + stmts_lines(body@, indent + 1) + seq![pad + ")"@],
            Stmt::If { cond, then_body, else_body } =>
                seq![pad + "(if "@ + sexpr_text(cond)] + stmts_lines(then_body@, indent + 1)
                    + seq![pad + " else"@] + stmts_lines(else_body@, indent + 1) + seq![pad + ")"@],
        };
        first + stmts_lines(ss.subrange(1, ss.len() as int), indent)
    }
}

/// How deeply statement bodies nest.
pub open spec fn stmt_depth(s: Stmt) -> nat
    decreases s,
{
    match s {
        Stmt::While { body, .. } => 1 + seq_depth(body@),
        Stmt::If { then_body, else_body, .. } => {
            let a = seq_depth(then_body@);
            let b = seq_depth(else_body@);
            1 + if a > b { a } else { b }
        },
        _ => 0,
    }
}

pub open spec fn seq_depth(ss: Seq<Stmt>) -> nat
    decreases ss,
{
    if ss.len() == 0 {
        0
    } else {
        let a = stmt_depth(ss[0]);
        let b = seq_depth(ss.subrange(1, ss.len() as int));
        if a > b { a } else { b }
    }
}

pub open spec fn views(v: Seq<String>) -> Seq<Seq<char>> {
    v.map_values(|s: String| s@)
}

fn pad_string(indent: usize) -> (s: String)
    ensures s@ == pad_text(indent as nat),
{
    let mut s = String::new();
    let mut i: usize = 0;
    while i < indent
        invariant i <= indent, s@ == pad_text(i as nat),
        decreases indent - i,
    {
        s.append("  ");
        i += 1;
    }
    s
}

fn push_line(out: &mut Vec<String>, s: String)
    ensures views(final(out)@) == views(old(out)@).push(s@),
{
    out.push(s);
    assert(views(out@) =~= views(old(out)@).push(s@));
}

/// Appends the trace lines of the statements.
pub fn stmts_text(stmts: &[Stmt], indent: usize, out: &mut Vec<String>)
    requires indent + seq_depth(stmts@) < usize::MAX,
    ensures views(final(out)@) == views(old(out)@) + stmts_lines(stmts@, indent as nat),
    decreases stmts@,
{
    let mut i: usize = 0;
    let ghost o0 = views(out@);
    let ghost all = stmts@;
    assert(all.subrange(0, all.len() as int) =~= all);
    while i < stmts.len()
        invariant
            i <= stmts@.len(), all == stmts@,
            indent + seq_depth(stmts@.subrange(i as int, stmts@.len() as int)) < usize::MAX,
            views(out@) + stmts_lines(stmts@.subrange(i as int, stmts@.len() as int), indent as nat)
                == o0 + stmts_lines(stmts@, indent as nat),
        decreases stmts@.len() - i,
    {
        let ghost rest = stmts@.subrange(i as int, stmts@.len() as int);
        let ghost o1 = views(out@);
        assert(rest[0] == stmts@[i as int]);
        assert(rest.subrange(1, rest.len() as int) =~= stmts@.subrange(i + 1, stmts@.len() as int));
        assert(stmt_depth(stmts@[i as int]) <= seq_depth(rest));
        assert(seq_depth(stmts@.subrange(i + 1, stmts@.len() as int)) <= seq_depth(rest));
        let pad = pad_string(indent);
        match &stmts[i] {
            Stmt::Let { name, mutable, init, .. } => {
                let mut l = pad.clone();
                l.append("(let");
                l.append(if *mutable { " mut" } else { "" });
                l.append(" ");
                l.append(name.as_str());
                l.append(" ");
                let e = sexpr(init);
                l.append(e.as_str());
                l.append(")");
                push_line(out, l);
                proof { reveal_strlit(""); }
            },
            Stmt::Assign { name, value, .. } => {
                let mut l = pad.clone();
                l.append("(set ");
                l.append(name.as_str());
                l.append(" ");
                let e = sexpr(value);
                l.append(e.as_str());
                l.append(")");
                push_line(out, l);
            },
            Stmt::While { cond, body } => {
                let mut l = pad.clone();
                l.append("(while ");
                let e = sexpr(cond);
                l.append(e.as_str());
                push_line(out, l);
                stmts_text(body.as_slice(), indent + 1, out);
                let mut c = pad.clone();
                c.append(")");
                push_line(out, c);
            },
            Stmt::If { cond, then_body, else_body } => {
                let mut l = pad.clone();
                l.append("(if ");
                let e = sexpr(cond);
                l.append(e.as_str());
                push_line(out, l);
                stmts_text(then_body.as_slice(), indent + 1, out);
                let mut m = pad.clone();
                m.append(" else");
                push_line(out, m);
                stmts_text(else_body.as_slice(), indent + 1, out);
                let mut c = pad.clone();
                c.append(")");
                push_line(out, c);
            },
        }
        proof {
            let first = views(out@).subrange(o1.len() as int, views(out@).len() as int);
            assert(views(out@) =~= o1 + first);
            assert(stmts_lines(rest, indent as nat) == first + stmts_lines(rest.subrange(1, rest.len() as int), indent as nat));
        }
        i += 1;
    }
}

} // verus!

verus! {

// ---------------- stage 3: name resolution ----------------

pub struct Slot {
    pub name: String,
    pub mutable: bool,
}

/// Scopes map names to slots (innermost scope last); `uses` is the side table from the
/// position of each name in the source to its slot.
pub struct Resolver {
    scopes: Vec<Vec<(String, usize)>>,
    slots: Vec<Slot>,
    uses: Vec<(usize, usize)>,
}

pub type Scopes = Seq<Seq<(Seq<char>, usize)>>;

/// The slot a name has in one scope: the last binding wins, as a map's `insert` does.
pub open spec fn scope_find(sc: Seq<(Seq<char>, usize)>, name: Seq<char>) -> Option<usize>
    decreases sc.len(),
{
    if sc.len() == 0 {
        None
    } else if sc.last().0 == name {
        Some(sc.last().1)
    } else {
        scope_find(sc.drop_last(), name)
    }
}

/// The slot a name has in the innermost scope that binds it.
pub open spec fn scopes_find(scs: Scopes, name: Seq<char>) -> Option<usize>
    decreases scs.len(),
{
    if scs.len() == 0 {
        None
    } else {
        match scope_find(scs.last(), name) {
            Some(s) => Some(s),
            None => scopes_find(scs.drop_last(), name),
        }
    }
}

/// Every name in the expression is bound.
pub open spec fn expr_bound(e: Expr, scs: Scopes) -> bool
    decreases e,
{
    match e {
        Expr::Var(name, _) => scopes_find(scs, name@) is Some,
        Expr::Unary(_, x, _) => expr_bound(*x, scs),
        Expr::Binary(_, a, b, _) => expr_bound(*a, scs) && expr_bound(*b, scs),
        _ => true,
    }
}

/// Name resolution of a statement list from scopes `scs` and slot mutabilities `sl`: the
/// scopes and slots after it, or `None` at the first unbound name or assignment to an
/// immutable binding. An initializer is resolved before its name is in scope; a body gets
/// a scope of its own, dropped at its end (its slots stay allocated).
pub open spec fn res_run(ss: Seq<Stmt>, scs: Scopes, sl: Seq<bool>) -> Option<(Scopes, Seq<bool>)>
    decreases ss,
{
    if ss.len() == 0 {
        Some((scs, sl))
    } else {
        let rest = ss.subrange(1, ss.len() as int);
        match ss[0] {
            Stmt::Let { name, mutable, init, .. } =>
                if !expr_bound(init, scs) || scs.len() == 0 {
                    None
                } else {
                    res_run(rest, scs.update(scs.len() - 1, scs.last().push((name@, sl.len() as usize))), sl.push(mutable))
                },
            Stmt::Assign { name, value, .. } =>
                if !expr_bound(value, scs) {
                    None
                } else {
                    match scopes_find(scs, name@) {
                        Some(s) => if 0 <= s < sl.len() && sl[s as int] { res_run(rest, scs, sl) } else { None },
                        None => None,
                    }
                },
            Stmt::While { cond, body } =>
                if !expr_bound(cond, scs) {
                    None
                } else {
                    match res_run(body@, scs.push(Seq::empty()), sl) {
                        Some((_, sl2)) => res_run(rest, scs, sl2),
                        None => None,
                    }
                },
            Stmt::If { cond, then_body, else_body } =>
                if !expr_bound(cond, scs) {
                    None
                } else {
                    match res_run(then_body@, scs.push(Seq::empty()), sl) {
                        Some((_, sl2)) => match res_run(else_body@, scs.push(Seq::empty()), sl2) {
                            Some((_, sl3)) => res_run(rest, scs, sl3),
                            None => None,
                        },
                        None => None,
                    }
                },
        }
    }
}

/// The slot recorded for a position: the last entry wins.
pub open spec fn use_get(u: Seq<(usize, usize)>, pos: usize) -> Option<usize>
    decreases u.len(),
{
    if u.len() == 0 {
        None
    } else if u.last().0 == pos {
        Some(u.last().1)
    } else {
        use_get(u.drop_last(), pos)
    }
}

/// Every name in the expression has a slot below `n` in the side table.
pub open spec fn expr_resolved(e: Expr, u: Seq<(usize, usize)>, n: nat) -> bool
    decreases e,
{
    match e {
        Expr::Var(_, pos) => use_get(u, pos) matches Some(s) && s < n,
        Expr::Unary(_, x, _) => expr_resolved(*x, u, n),
        Expr::Binary(_, a, b, _) => expr_resolved(*a, u, n) && expr_resolved(*b, u, n),
        _ => true,
    }
}

/// Every name in the statement, bound or assigned, has a slot below `n`.
pub open spec fn stmt_resolved(st: Stmt, u: Seq<(usize, usize)>, n: nat) -> bool
    decreases st,
{
    match st {
        Stmt::Let { init, pos, .. } => expr_resolved(init, u, n) && (use_get(u, pos) matches Some(s) && s < n),
        Stmt::Assign { value, pos, .. } => expr_resolved(value, u, n) && (use_get(u, pos) matches Some(s) && s < n),
        Stmt::While { cond, body } => expr_resolved(cond, u, n) && stmts_resolved(body@, u, n),
        Stmt::If { cond, then_body, else_body } =>
            expr_resolved(cond, u, n) && stmts_resolved(then_body@, u, n) && stmts_resolved(else_body@, u, n),
    }
}

pub open spec fn stmts_resolved(ss: Seq<Stmt>, u: Seq<(usize, usize)>, n: nat) -> bool
    decreases ss,
{
    forall|k: int| 0 <= k < ss.len() ==> stmt_resolved(#[trigger] ss[k], u, n)
}

proof fn lemma_use_get_bound(u: Seq<(usize, usize)>, n: nat, pos: usize)
    requires forall|k: int| 0 <= k < u.len() ==> (#[trigger] u[k]).1 < n,
    ensures use_get(u, pos) matches Some(s) ==> s < n,
    decreases u.len(),
{
    if u.len() > 0 {
        assert(u.last() == u[u.len() - 1]);
        lemma_use_get_bound(u.drop_last(), n, pos);
    }
}

proof fn lemma_use_get_push(u: Seq<(usize, usize)>, e: (usize, usize), pos: usize)
    ensures use_get(u.push(e), pos) == if e.0 == pos { Some(e.1) } else { use_get(u, pos) },
{
    assert(u.push(e).drop_last() == u);
}

/// Entries only ever get added, with slots below `n2`: what was resolved stays resolved.
proof fn lemma_expr_resolved_grow(e: Expr, u: Seq<(usize, usize)>, u2: Seq<(usize, usize)>, n: nat, n2: nat)
    requires
        expr_resolved(e, u, n), n <= n2,
        forall|pos: usize| #[trigger] use_get(u, pos) is Some ==> use_get(u2, pos) is Some,
        forall|pos: usize| #[trigger] use_get(u2, pos) matches Some(s) ==> s < n2,
    ensures expr_resolved(e, u2, n2),
    decreases e,
{
    match e {
        Expr::Var(_, pos) => {},
        Expr::Unary(_, x, _) => { lemma_expr_resolved_grow(*x, u, u2, n, n2); },
        Expr::Binary(_, a, b, _) => {
            lemma_expr_resolved_grow(*a, u, u2, n, n2);
            lemma_expr_resolved_grow(*b, u, u2, n, n2);
        },
        _ => {},
    }
}

proof fn lemma_stmt_resolved_grow(st: Stmt, u: Seq<(usize, usize)>, u2: Seq<(usize, usize)>, n: nat, n2: nat)
    requires
        stmt_resolved(st, u, n), n <= n2,
        forall|pos: usize| #[trigger] use_get(u, pos) is Some ==> use_get(u2, pos) is Some,
        forall|pos: usize| #[trigger] use_get(u2, pos) matches Some(s) ==> s < n2,
    ensures stmt_resolved(st, u2, n2),
    decreases st,
{
    match st {
        Stmt::Let { init, pos, .. } => { lemma_expr_resolved_grow(init, u, u2, n, n2); },
        Stmt::Assign { value, pos, .. } => { lemma_expr_resolved_grow(value, u, u2, n, n2); },
        Stmt::While { cond, body } => {
            lemma_expr_resolved_grow(cond, u, u2, n, n2);
            assert forall|k: int| 0 <= k < body@.len() implies stmt_resolved(#[trigger] body@[k], u2, n2) by {
                lemma_stmt_resolved_grow(body@[k], u, u2, n, n2);
            }
        },
        Stmt::If { cond, then_body, else_body } => {
            lemma_expr_resolved_grow(cond, u, u2, n, n2);
            assert forall|k: int| 0 <= k < then_body@.len() implies stmt_resolved(#[trigger] then_body@[k], u2, n2) by {
                lemma_stmt_resolved_grow(then_body@[k], u, u2, n, n2);
            }
            assert forall|k: int| 0 <= k < else_body@.len() implies stmt_resolved(#[trigger] else_body@[k], u2, n2) by {
                lemma_stmt_resolved_grow(else_body@[k], u, u2, n, n2);
            }
        },
    }
}

/// Resolution changes only the innermost scope.
proof fn lemma_res_run_scopes(ss: Seq<Stmt>, scs: Scopes, sl: Seq<bool>)
    requires res_run(ss, scs, sl) is Some,
    ensures ({
        let scs2 = res_run(ss, scs, sl)->Some_0.0;
        &&& scs2.len() == scs.len()
        &&& scs2.drop_last() == scs.drop_last()
        &&& sl.len() <= res_run(ss, scs, sl)->Some_0.1.len()
    }),
    decreases ss,
{
    if ss.len() > 0 {
        let rest = ss.subrange(1, ss.len() as int);
        match ss[0] {
            Stmt::Let { name, mutable, init, .. } => {
                let scs1 = scs.update(scs.len() - 1, scs.last().push((name@, sl.len() as usize)));
                lemma_res_run_scopes(rest, scs1, sl.push(mutable));
                assert(scs1.drop_last() =~= scs.drop_last());
            },
            Stmt::Assign { .. } => { lemma_res_run_scopes(rest, scs, sl); },
            Stmt::While { cond, body } => {
                lemma_res_run_scopes(body@, scs.push(Seq::empty()), sl);
                let sl2 = res_run(body@, scs.push(Seq::empty()), sl)->Some_0.1;
                lemma_res_run_scopes(rest, scs, sl2);
            },
            Stmt::If { cond, then_body, else_body } => {
                lemma_res_run_scopes(then_body@, scs.push(Seq::empty()), sl);
                let sl2 = res_run(then_body@, scs.push(Seq::empty()), sl)->Some_0.1;
                lemma_res_run_scopes(else_body@, scs.push(Seq::empty()), sl2);
                let sl3 = res_run(else_body@, scs.push(Seq::empty()), sl2)->Some_0.1;
                lemma_res_run_scopes(rest, scs, sl3);
            },
        }
    }
}

proof fn lemma_prefix_grow(ss: Seq<Stmt>, i: int, u: Seq<(usize, usize)>, u2: Seq<(usize, usize)>, n: nat, n2: nat)
    requires
        forall|k: int| 0 <= k < i ==> stmt_resolved(#[trigger] ss[k], u, n),
        n <= n2, 0 <= i <= ss.len(),
        forall|pos: usize| #[trigger] use_get(u, pos) is Some ==> use_get(u2, pos) is Some,
        forall|k: int| 0 <= k < u2.len() ==> (#[trigger] u2[k]).1 < n2,
    ensures forall|k: int| 0 <= k < i ==> stmt_resolved(#[trigger] ss[k], u2, n2),
{
    assert forall|pos: usize| #[trigger] use_get(u2, pos) matches Some(s) ==> s < n2 by {
        lemma_use_get_bound(u2, n2, pos);
    }
    assert forall|k: int| 0 <= k < i implies stmt_resolved(#[trigger] ss[k], u2, n2) by {
        lemma_stmt_resolved_grow(ss[k], u, u2, n, n2);
    }
}

fn resolve_error(pos: usize, msg: String) -> (e: CompileError)
    ensures e.stage@ == "resolver"@, e.pos == pos,
{
    CompileError { stage: "resolver", pos, msg }
}

pub open spec fn scope_view(v: Seq<(String, usize)>) -> Seq<(Seq<char>, usize)> {
    v.map_values(|e: (String, usize)| (e.0@, e.1))
}

impl Resolver {
    pub closed spec fn scopes_view(&self) -> Scopes {
        self.scopes@.map_values(|v: Vec<(String, usize)>| scope_view(v@))
    }

    pub closed spec fn slots_view(&self) -> Seq<bool> {
        self.slots@.map_values(|s: Slot| s.mutable)
    }

    pub closed spec fn uses_view(&self) -> Seq<(usize, usize)> {
        self.uses@
    }

    /// Every slot named in a scope or in the side table exists.
    pub closed spec fn wf(&self) -> bool {
        &&& self.scopes@.len() >= 1
        &&& forall|i: int, j: int| 0 <= i < self.scopes@.len() && 0 <= j < self.scopes@[i]@.len()
                ==> (#[trigger] self.scopes@[i]@[j]).1 < self.slots@.len()
        &&& forall|k: int| 0 <= k < self.uses@.len() ==> (#[trigger] self.uses@[k]).1 < self.slots@.len()
    }

    /// A resolver with one empty scope.
    pub fn new() -> (r: Self)
        ensures r.wf(), r.scopes_view() == seq![Seq::<(Seq<char>, usize)>::empty()],
            r.slots_view() == Seq::<bool>::empty(), r.uses_view() == Seq::<(usize, usize)>::empty(),
    {
        let first: Vec<(String, usize)> = Vec::new();
        let mut scopes: Vec<Vec<(String, usize)>> = Vec::new();
        scopes.push(first);
        let r = Resolver { scopes, slots: Vec::new(), uses: Vec::new() };
        assert(scope_view(r.scopes@[0]@) =~= Seq::<(Seq<char>, usize)>::empty());
        assert(r.scopes_view() =~= seq![Seq::<(Seq<char>, usize)>::empty()]);
        assert(r.slots_view() =~= Seq::<bool>::empty());
        r
    }

    pub fn num_slots(&self) -> (n: usize)
        ensures n == self.slots_view().len(),
    {
        self.slots.len()
    }

    pub fn slot_name(&self, i: usize) -> (s: String)
        requires i < self.slots_view().len(),
    {
        self.slots[i].name.clone()
    }

    /// The slot recorded for a position.
    pub fn use_of(&self, pos: usize) -> (r: Option<usize>)
        ensures r == use_get(self.uses_view(), pos),
    {
        let mut i: usize = self.uses.len();
        assert(self.uses@.subrange(0, self.uses@.len() as int) =~= self.uses@);
        while i > 0
            invariant
                i <= self.uses@.len(),
                use_get(self.uses@, pos) == use_get(self.uses@.subrange(0, i as int), pos),
            decreases i,
        {
            assert(self.uses@.subrange(0, i as int).drop_last() =~= self.uses@.subrange(0, i - 1));
            if self.uses[i - 1].0 == pos {
                return Some(self.uses[i - 1].1);
            }
            i -= 1;
        }
        assert(self.uses@.subrange(0, 0) =~= Seq::<(usize, usize)>::empty());
        None
    }

    /// The number of positions resolved.
    pub fn num_uses(&self) -> (n: usize)
        ensures n == self.uses_view().len(),
    {
        self.uses.len()
    }
}

impl Resolver {
    /// The slot of the innermost binding of `name`.
    fn lookup(&self, name: &String, pos: usize) -> (r: Result<usize, CompileError>)
        requires self.wf(),
        ensures
            match scopes_find(self.scopes_view(), name@) {
                Some(s) => r == Ok::<usize, CompileError>(s) && s < self.slots_view().len(),
                None => r matches Err(e) && e.stage@ == "resolver"@ && e.pos == pos,
            },
    {
        let ghost scs = self.scopes_view();
        let mut i: usize = self.scopes.len();
        assert(scs.subrange(0, scs.len() as int) =~= scs);
        while i > 0
            invariant
                i <= self.scopes@.len(), self.wf(), scs == self.scopes_view(),
                scopes_find(scs, name@) == scopes_find(scs.subrange(0, i as int), name@),
            decreases i,
        {
            let sc = &self.scopes[i - 1];
            let ghost v = scope_view(sc@);
            assert(scs[i - 1] == v);
            assert(scs.subrange(0, i as int).last() == v);
            assert(scs.subrange(0, i as int).drop_last() =~= scs.subrange(0, i - 1));
            let mut j: usize = sc.len();
            assert(v.subrange(0, v.len() as int) =~= v);
            while j > 0
                invariant
                    j <= sc@.len(), v == scope_view(sc@), 0 < i <= self.scopes@.len(), self.wf(),
                    sc@ == self.scopes@[i - 1]@, scs == self.scopes_view(),
                    scopes_find(scs, name@) == scopes_find(scs.subrange(0, i as int), name@),
                    scs.subrange(0, i as int).last() == v,
                    scope_find(v, name@) == scope_find(v.subrange(0, j as int), name@),
                decreases j,
            {
                assert(v.subrange(0, j as int).drop_last() =~= v.subrange(0, j - 1));
                assert(v[j - 1] == (sc@[j - 1].0@, sc@[j - 1].1));
                if sc[j - 1].0 == *name {
                    proof { assert(self.scopes@[i - 1]@[j - 1].1 < self.slots@.len()); }
                    return Ok(sc[j - 1].1);
                }
                j -= 1;
            }
            assert(v.subrange(0, 0) =~= Seq::<(Seq<char>, usize)>::empty());
            i -= 1;
        }
        assert(scs.subrange(0, 0) =~= Seq::<Seq<(Seq<char>, usize)>>::empty());
        let mut m = String::from_str("cannot find `");
        m.append(name.as_str());
        m.append("` in this scope");
        Err(resolve_error(pos, m))
    }

    /// Resolves the names of an expression into the side table.
    pub fn expr(&mut self, e: &Expr) -> (r: Result<(), CompileError>)
        requires old(self).wf(),
        ensures
            final(self).wf(),
            final(self).scopes_view() == old(self).scopes_view(),
            final(self).slots_view() == old(self).slots_view(),
            final(self).slots_view().len() == old(self).slots_view().len(),
            forall|pos: usize| #[trigger] use_get(old(self).uses_view(), pos) is Some ==> use_get(final(self).uses_view(), pos) is Some,
            r is Ok <==> expr_bound(*e, old(self).scopes_view()),
            r is Ok ==> expr_resolved(*e, final(self).uses_view(), final(self).slots_view().len()),
            r matches Err(err) ==> err.stage@ == "resolver"@,
        decreases e,
    {
        match e {
            Expr::Int(_) | Expr::Bool(_) => Ok(()),
            Expr::Var(name, pos) => {
                let slot = self.lookup(name, *pos)?;
                let ghost u0 = self.uses@;
                self.uses.push((*pos, slot));
                proof {
                    assert forall|p: usize| #[trigger] use_get(u0, p) is Some implies use_get(self.uses@, p) is Some by {
                        lemma_use_get_push(u0, (*pos, slot), p);
                    }
                    lemma_use_get_push(u0, (*pos, slot), *pos);
                    assert forall|k: int| 0 <= k < self.uses@.len() implies (#[trigger] self.uses@[k]).1 < self.slots@.len() by {
                        if k < u0.len() { assert(self.uses@[k] == u0[k]); }
                    }
                }
                Ok(())
            },
            Expr::Unary(_, x, _) => self.expr(x),
            Expr::Binary(_, a, b, _) => {
                let ghost u0 = self.uses@;
                self.expr(a)?;
                let ghost u1 = self.uses@;
                self.expr(b)?;
                proof {
                    assert forall|p: usize| #[trigger] use_get(self.uses@, p) matches Some(s) ==> s < self.slots@.len() by {
                        lemma_use_get_bound(self.uses@, self.slots@.len() as nat, p);
                    }
                    lemma_expr_resolved_grow(**a, u1, self.uses@, self.slots@.len() as nat, self.slots@.len() as nat);
                }
                Ok(())
            },
        }
    }
}

impl Resolver {
    proof fn lemma_chain(&self, u0: Seq<(usize, usize)>, u1: Seq<(usize, usize)>, n0: nat)
        requires
            forall|pos: usize| #[trigger] use_get(u0, pos) is Some ==> use_get(u1, pos) is Some,
            forall|pos: usize| #[trigger] use_get(u1, pos) is Some ==> use_get(self.uses@, pos) is Some,
            n0 <= self.slots@.len(),
        ensures
            forall|pos: usize| #[trigger] use_get(u0, pos) is Some ==> use_get(self.uses_view(), pos) is Some,
            n0 <= self.slots_view().len(),
    {
        assert forall|pos: usize| #[trigger] use_get(u0, pos) is Some implies use_get(self.uses_view(), pos) is Some by {
            assert(use_get(u1, pos) is Some);
        }
    }

    /// Resolves a statement list: see `res_run`. Names get slots in the side table.
    pub fn stmts(&mut self, stmts: &[Stmt]) -> (r: Result<(), CompileError>)
        requires old(self).wf(),
        ensures
            final(self).wf(),
            old(self).slots_view().len() <= final(self).slots_view().len(),
            forall|pos: usize| #[trigger] use_get(old(self).uses_view(), pos) is Some ==> use_get(final(self).uses_view(), pos) is Some,
            match res_run(stmts@, old(self).scopes_view(), old(self).slots_view()) {
                Some((scs2, sl2)) => r is Ok && final(self).scopes_view() == scs2 && final(self).slots_view() == sl2
                    && stmts_resolved(stmts@, final(self).uses_view(), final(self).slots_view().len()),
                None => r matches Err(e) && e.stage@ == "resolver"@,
            },
        decreases stmts@,
    {
        let ghost scs0 = self.scopes_view();
        let ghost sl0 = self.slots_view();
        let ghost u0 = self.uses@;
        let ghost n0 = self.slots@.len();
        let mut i: usize = 0;
        assert(stmts@.subrange(0, stmts@.len() as int) =~= stmts@);
        while i < stmts.len()
            invariant
                i <= stmts@.len(), self.wf(), n0 <= self.slots@.len(),
                u0 == old(self).uses_view(), n0 == old(self).slots_view().len(),
                scs0 == old(self).scopes_view(), sl0 == old(self).slots_view(),
                forall|pos: usize| #[trigger] use_get(u0, pos) is Some ==> use_get(self.uses@, pos) is Some,
                res_run(stmts@, scs0, sl0) == res_run(stmts@.subrange(i as int, stmts@.len() as int), self.scopes_view(), self.slots_view()),
                forall|k: int| 0 <= k < i ==> stmt_resolved(#[trigger] stmts@[k], self.uses@, self.slots@.len() as nat),
            decreases stmts@.len() - i,
        {
            let ghost rest = stmts@.subrange(i as int, stmts@.len() as int);
            assert(rest[0] == stmts@[i as int]);
            assert(rest.subrange(1, rest.len() as int) =~= stmts@.subrange(i + 1, stmts@.len() as int));
            let ghost u1 = self.uses@;
            let ghost n1 = self.slots@.len();
            let ghost scs1 = self.scopes_view();
            let ghost sl1 = self.slots_view();
            match &stmts[i] {
                Stmt::Let { name, mutable, init, pos } => {
                    match self.expr(init) { Ok(_) => {}, Err(e) => { proof { self.lemma_chain(u0, u1, n0); } return Err(e); } }
                    let ghost ua = self.uses@;
                    let slot = self.slots.len();
                    self.slots.push(Slot { name: name.clone(), mutable: *mutable });
                    let last = self.scopes.len() - 1;
                    let ghost sc_before = self.scopes@[last as int]@;
                    self.scopes[last].push((name.clone(), slot));
                    self.uses.push((*pos, slot));
                    proof {
                        assert(self.slots_view() =~= sl1.push(*mutable));
                        assert(scope_view(self.scopes@[last as int]@) =~= scope_view(sc_before).push((name@, slot)));
                        assert(self.scopes_view() =~= scs1.update(scs1.len() - 1, scs1.last().push((name@, sl1.len() as usize))));
                        assert forall|a: int, b: int| 0 <= a < self.scopes@.len() && 0 <= b < self.scopes@[a]@.len()
                            implies (#[trigger] self.scopes@[a]@[b]).1 < self.slots@.len() by {
                            if a == last && b < sc_before.len() {
                                assert(self.scopes@[a]@[b] == sc_before[b]);
                            }
                        }
                        assert forall|k: int| 0 <= k < self.uses@.len() implies (#[trigger] self.uses@[k]).1 < self.slots@.len() by {
                            if k < ua.len() { assert(self.uses@[k] == ua[k]); }
                        }
                        assert forall|p: usize| #[trigger] use_get(ua, p) is Some implies use_get(self.uses@, p) is Some by {
                            lemma_use_get_push(ua, (*pos, slot), p);
                        }
                        lemma_use_get_push(ua, (*pos, slot), *pos);
                        assert forall|p: usize| #[trigger] use_get(self.uses@, p) matches Some(s) ==> s < self.slots@.len() by {
                            lemma_use_get_bound(self.uses@, self.slots@.len() as nat, p);
                        }
                        lemma_expr_resolved_grow(*init, ua, self.uses@, n1 as nat, self.slots@.len() as nat);
                        lemma_prefix_grow(stmts@, i as int, u1, self.uses@, n1 as nat, self.slots@.len() as nat);
                    }
                },
                Stmt::Assign { name, value, pos } => {
                    match self.expr(value) { Ok(_) => {}, Err(e) => { proof { self.lemma_chain(u0, u1, n0); } return Err(e); } }
                    let ghost ua = self.uses@;
                    let slot = match self.lookup(name, *pos) { Ok(x) => x, Err(e) => { proof { self.lemma_chain(u0, u1, n0); } return Err(e); } };
                    if !self.slots[slot].mutable {
                        let mut m = String::from_str("cannot assign twice to immutable `");
                        m.append(name.as_str());
                        m.append("`");
                        return Err(resolve_error(*pos, m));
                    }
                    self.uses.push((*pos, slot));
                    proof {
                        assert forall|k: int| 0 <= k < self.uses@.len() implies (#[trigger] self.uses@[k]).1 < self.slots@.len() by {
                            if k < ua.len() { assert(self.uses@[k] == ua[k]); }
                        }
                        assert forall|p: usize| #[trigger] use_get(ua, p) is Some implies use_get(self.uses@, p) is Some by {
                            lemma_use_get_push(ua, (*pos, slot), p);
                        }
                        lemma_use_get_push(ua, (*pos, slot), *pos);
                        assert forall|p: usize| #[trigger] use_get(self.uses@, p) matches Some(s) ==> s < self.slots@.len() by {
                            lemma_use_get_bound(self.uses@, self.slots@.len() as nat, p);
                        }
                        lemma_expr_resolved_grow(*value, ua, self.uses@, n1 as nat, n1 as nat);
                        lemma_prefix_grow(stmts@, i as int, u1, self.uses@, n1 as nat, n1 as nat);
                    }
                },
                Stmt::While { cond, body } => {
                    match self.expr(cond) { Ok(_) => {}, Err(e) => { proof { self.lemma_chain(u0, u1, n0); } return Err(e); } }
                    let ghost ua = self.uses@;
                    self.scopes.push(Vec::new());
                    proof {
                        assert(scope_view(self.scopes@.last()@) =~= Seq::<(Seq<char>, usize)>::empty());
                        assert(self.scopes_view() =~= scs1.push(Seq::empty()));
                    }
                    match self.stmts(body) { Ok(_) => {}, Err(e) => { proof { self.lemma_chain(u0, u1, n0); } return Err(e); } }
                    proof { lemma_res_run_scopes(body@, scs1.push(Seq::empty()), sl1); }
                    let ghost before_pop = self.scopes_view();
                    self.scopes.pop();
                    proof {
                        assert(self.scopes_view() =~= before_pop.drop_last());
                        assert(scs1.push(Seq::empty()).drop_last() =~= scs1);
                        assert(self.scopes_view() =~= scs1);
                        assert forall|p: usize| #[trigger] use_get(self.uses@, p) matches Some(s) ==> s < self.slots@.len() by {
                            lemma_use_get_bound(self.uses@, self.slots@.len() as nat, p);
                        }
                        lemma_expr_resolved_grow(*cond, ua, self.uses@, n1 as nat, self.slots@.len() as nat);
                        lemma_prefix_grow(stmts@, i as int, u1, self.uses@, n1 as nat, self.slots@.len() as nat);
                    }
                },
                Stmt::If { cond, then_body, else_body } => {
                    match self.expr(cond) { Ok(_) => {}, Err(e) => { proof { self.lemma_chain(u0, u1, n0); } return Err(e); } }
                    let ghost ua = self.uses@;
                    self.scopes.push(Vec::new());
                    proof {
                        assert(scope_view(self.scopes@.last()@) =~= Seq::<(Seq<char>, usize)>::empty());
                        assert(self.scopes_view() =~= scs1.push(Seq::empty()));
                    }
                    match self.stmts(then_body) { Ok(_) => {}, Err(e) => { proof { self.lemma_chain(u0, u1, n0); } return Err(e); } }
                    proof { lemma_res_run_scopes(then_body@, scs1.push(Seq::empty()), sl1); }
                    let ghost before_pop = self.scopes_view();
                    self.scopes.pop();
                    proof {
                        assert(self.scopes_view() =~= before_pop.drop_last());
                        assert(scs1.push(Seq::empty()).drop_last() =~= scs1);
                    }
                    let ghost ub = self.uses@;
                    let ghost nb = self.slots@.len();
                    let ghost sl2 = self.slots_view();
                    self.scopes.push(Vec::new());
                    proof {
                        assert(self.scopes_view().drop_last() =~= before_pop.drop_last());
                        assert(scope_view(self.scopes@.last()@) =~= Seq::<(Seq<char>, usize)>::empty());
                        assert(self.scopes_view() =~= scs1.push(Seq::empty()));
                    }
                    match self.stmts(else_body) { Ok(_) => {}, Err(e) => { proof { self.lemma_chain(u0, u1, n0); } return Err(e); } }
                    proof { lemma_res_run_scopes(else_body@, scs1.push(Seq::empty()), sl2); }
                    let ghost before_pop2 = self.scopes_view();
                    self.scopes.pop();
                    proof {
                        assert(self.scopes_view() =~= before_pop2.drop_last());
                    }
                    proof {
                        assert(self.scopes_view() =~= scs1);
                        assert forall|p: usize| #[trigger] use_get(self.uses@, p) matches Some(s) ==> s < self.slots@.len() by {
                            lemma_use_get_bound(self.uses@, self.slots@.len() as nat, p);
                        }
                        assert forall|p: usize| #[trigger] use_get(ub, p) matches Some(s) ==> s < nb by {
                            lemma_use_get_bound(ub, nb as nat, p);
                        }
                        lemma_expr_resolved_grow(*cond, ua, self.uses@, n1 as nat, self.slots@.len() as nat);
                        assert forall|k: int| 0 <= k < then_body@.len() implies stmt_resolved(#[trigger] then_body@[k], self.uses@, self.slots@.len() as nat) by {
                            lemma_stmt_resolved_grow(then_body@[k], ub, self.uses@, nb as nat, self.slots@.len() as nat);
                        }
                        lemma_prefix_grow(stmts@, i as int, u1, self.uses@, n1 as nat, self.slots@.len() as nat);
                    }
                },
            }
            i += 1;
        }
        Ok(())
    }
}

} // verus!

verus! {

// ---------------- stage 4: type checking ----------------

#[derive(Debug, Clone, Copy, PartialEq, Eq, Structural)]
pub enum Ty { Int, Bool }

pub open spec fn ty_text(t: Ty) -> Seq<char> {
    if t == Ty::Int { "Int"@ } else { "Bool"@ }
}

pub fn ty_str(t: Ty) -> (s: &'static str)
    ensures s@ == ty_text(t),
{
    match t { Ty::Int => "Int", Ty::Bool => "Bool" }
}

/// The operand and result types of a binary operator other than `==` and `!=`.
pub open spec fn op_sig(op: BinOp) -> (Ty, Ty) {
    match op {
        BinOp::Lt | BinOp::Le | BinOp::Gt | BinOp::Ge => (Ty::Int, Ty::Bool),
        BinOp::And | BinOp::Or => (Ty::Bool, Ty::Bool),
        _ => (Ty::Int, Ty::Int),
    }
}

/// The type of an expression given the types of the slots, or `None` at a type error.
pub open spec fn expr_ty(e: Expr, st: Seq<Option<Ty>>, u: Seq<(usize, usize)>) -> Option<Ty>
    decreases e,
{
    match e {
        Expr::Int(_) => Some(Ty::Int),
        Expr::Bool(_) => Some(Ty::Bool),
        Expr::Var(_, pos) => match use_get(u, pos) {
            Some(s) => if s < st.len() { st[s as int] } else { None },
            None => None,
        },
        Expr::Unary(op, x, _) => {
            let want = if op == UnOp::Neg { Ty::Int } else { Ty::Bool };
            match expr_ty(*x, st, u) {
                Some(t) => if t == want { Some(want) } else { None },
                None => None,
            }
        },
        Expr::Binary(op, a, b, _) => match (expr_ty(*a, st, u), expr_ty(*b, st, u)) {
            (Some(ta), Some(tb)) =>
                if op == BinOp::Eq || op == BinOp::Ne {
                    if ta == tb { Some(Ty::Bool) } else { None }
                } else if ta == op_sig(op).0 && tb == op_sig(op).0 {
                    Some(op_sig(op).1)
                } else {
                    None
                },
            _ => None,
        },
    }
}

/// Type checking of statements: the slot types after them, or `None` at the first type
/// error. A `let` gives its slot the type of its initializer; an assignment must keep the
/// slot's type; conditions are `Bool`.
pub open spec fn stmts_ty(ss: Seq<Stmt>, st: Seq<Option<Ty>>, u: Seq<(usize, usize)>) -> Option<Seq<Option<Ty>>>
    decreases ss,
{
    if ss.len() == 0 {
        Some(st)
    } else {
        let rest = ss.subrange(1, ss.len() as int);
        match ss[0] {
            Stmt::Let { init, pos, .. } => match (expr_ty(init, st, u), use_get(u, pos)) {
                (Some(t), Some(s)) => if s < st.len() { stmts_ty(rest, st.update(s as int, Some(t)), u) } else { None },
                _ => None,
            },
            Stmt::Assign { value, pos, .. } => match (expr_ty(value, st, u), use_get(u, pos)) {
                (Some(t), Some(s)) => if s < st.len() && st[s as int] == Some(t) { stmts_ty(rest, st, u) } else { None },
                _ => None,
            },
            Stmt::While { cond, body } => if expr_ty(cond, st, u) == Some(Ty::Bool) {
                match stmts_ty(body@, st, u) {
                    Some(st2) => stmts_ty(rest, st2, u),
                    None => None,
                }
            } else {
                None
            },
            Stmt::If { cond, then_body, else_body } => if expr_ty(cond, st, u) == Some(Ty::Bool) {
                match stmts_ty(then_body@, st, u) {
                    Some(st2) => match stmts_ty(else_body@, st2, u) {
                        Some(st3) => stmts_ty(rest, st3, u),
                        None => None,
                    },
                    None => None,
                }
            } else {
                None
            },
        }
    }
}

pub struct Checker<'r> {
    pub res: &'r Resolver,
    pub slot_ty: Vec<Option<Ty>>,
}

fn type_error(pos: usize, msg: String) -> (e: CompileError)
    ensures e.stage@ == "types"@, e.pos == pos,
{
    CompileError { stage: "types", pos, msg }
}

/// The name `{:?}` gives an operator.
pub open spec fn binop_name_text(op: BinOp) -> Seq<char> {
    match op {
        BinOp::Add => "Add"@, BinOp::Sub => "Sub"@, BinOp::Mul => "Mul"@, BinOp::Div => "Div"@,
        BinOp::Rem => "Rem"@, BinOp::Lt => "Lt"@, BinOp::Le => "Le"@, BinOp::Gt => "Gt"@,
        BinOp::Ge => "Ge"@, BinOp::Eq => "Eq"@, BinOp::Ne => "Ne"@, BinOp::And => "And"@,
        BinOp::Or => "Or"@,
    }
}

fn binop_name(op: BinOp) -> (s: &'static str)
    ensures s@ == binop_name_text(op),
{
    match op {
        BinOp::Add => "Add", BinOp::Sub => "Sub", BinOp::Mul => "Mul", BinOp::Div => "Div",
        BinOp::Rem => "Rem", BinOp::Lt => "Lt", BinOp::Le => "Le", BinOp::Gt => "Gt",
        BinOp::Ge => "Ge", BinOp::Eq => "Eq", BinOp::Ne => "Ne", BinOp::And => "And",
        BinOp::Or => "Or",
    }
}

/// The slot of a resolved position, or an error for a position the resolver never saw.
fn slot_of(res: &Resolver, pos: usize) -> (r: Result<usize, CompileError>)
    ensures
        match use_get(res.uses_view(), pos) {
            Some(s) => r == Ok::<usize, CompileError>(s),
            None => r is Err,
        },
        r matches Err(e) ==> e.stage@ == "types"@,
{
    match res.use_of(pos) {
        Some(s) => Ok(s),
        None => {
            let m = String::from_str("name was not resolved");
            Err(type_error(pos, m))
        },
    }
}

impl<'r> Checker<'r> {
    /// The type of an expression: see `expr_ty`.
    pub fn expr(&self, e: &Expr) -> (r: Result<Ty, CompileError>)
        ensures
            match expr_ty(*e, self.slot_ty@, self.res.uses_view()) {
                Some(t) => r == Ok::<Ty, CompileError>(t),
                None => r matches Err(err) && err.stage@ == "types"@,
            },
        decreases e,
    {
        match e {
            Expr::Int(_) => Ok(Ty::Int),
            Expr::Bool(_) => Ok(Ty::Bool),
            Expr::Var(name, pos) => {
                let s = slot_of(self.res, *pos)?;
                if s < self.slot_ty.len() {
                    match self.slot_ty[s] {
                        Some(t) => Ok(t),
                        None => {
                            let mut m = String::from_str("`");
                            m.append(name.as_str());
                            m.append("` is used before it has a type");
                            Err(type_error(*pos, m))
                        },
                    }
                } else {
                    let m = String::from_str("name has no slot");
                    Err(type_error(*pos, m))
                }
            },
            Expr::Unary(op, x, pos) => {
                let want = if *op == UnOp::Neg { Ty::Int } else { Ty::Bool };
                let t = self.expr(x)?;
                if t != want {
                    let mut m = String::from_str("operand must be ");
                    m.append(ty_str(want));
                    m.append(", found ");
                    m.append(ty_str(t));
                    return Err(type_error(*pos, m));
                }
                Ok(want)
            },
            Expr::Binary(op, a, b, pos) => {
                let ta = self.expr(a)?;
                let tb = self.expr(b)?;
                let (operand, result) = match op {
                    BinOp::Add | BinOp::Sub | BinOp::Mul | BinOp::Div | BinOp::Rem => (Ty::Int, Ty::Int),
                    BinOp::Lt | BinOp::Le | BinOp::Gt | BinOp::Ge => (Ty::Int, Ty::Bool),
                    BinOp::And | BinOp::Or => (Ty::Bool, Ty::Bool),
                    BinOp::Eq | BinOp::Ne => {
                        if ta != tb {
                            let mut m = String::from_str("cannot compare ");
                            m.append(ty_str(ta));
                            m.append(" with ");
                            m.append(ty_str(tb));
                            return Err(type_error(*pos, m));
                        }
                        (ta, Ty::Bool)
                    },
                };
                if ta != operand || tb != operand {
                    let mut m = String::from_str(binop_name(*op));
                    m.append(" needs ");
                    m.append(ty_str(operand));
                    m.append(" operands, found ");
                    m.append(ty_str(ta));
                    m.append(" and ");
                    m.append(ty_str(tb));
                    return Err(type_error(*pos, m));
                }
                Ok(result)
            },
        }
    }

    /// Checks statements in order, recording the type of each `let`: see `stmts_ty`.
    pub fn stmts(&mut self, stmts: &[Stmt]) -> (r: Result<(), CompileError>)
        ensures
            final(self).res == old(self).res,
            match stmts_ty(stmts@, old(self).slot_ty@, old(self).res.uses_view()) {
                Some(st) => r is Ok && final(self).slot_ty@ == st,
                None => r matches Err(e) && e.stage@ == "types"@,
            },
        decreases stmts@,
    {
        let ghost st0 = self.slot_ty@;
        let mut i: usize = 0;
        assert(stmts@.subrange(0, stmts@.len() as int) =~= stmts@);
        while i < stmts.len()
            invariant
                i <= stmts@.len(), self.res == old(self).res, st0 == old(self).slot_ty@,
                stmts_ty(stmts@, st0, self.res.uses_view())
                    == stmts_ty(stmts@.subrange(i as int, stmts@.len() as int), self.slot_ty@, self.res.uses_view()),
            decreases stmts@.len() - i,
        {
            let ghost rest = stmts@.subrange(i as int, stmts@.len() as int);
            assert(rest[0] == stmts@[i as int]);
            assert(rest.subrange(1, rest.len() as int) =~= stmts@.subrange(i + 1, stmts@.len() as int));
            match &stmts[i] {
                Stmt::Let { init, pos, .. } => {
                    let t = self.expr(init)?;
                    let s = slot_of(self.res, *pos)?;
                    if s >= self.slot_ty.len() {
                        let m = String::from_str("name has no slot");
                        return Err(type_error(*pos, m));
                    }
                    self.slot_ty.set(s, Some(t));
                },
                Stmt::Assign { value, pos, name } => {
                    let t = self.expr(value)?;
                    let s = slot_of(self.res, *pos)?;
                    if s >= self.slot_ty.len() {
                        let m = String::from_str("name has no slot");
                        return Err(type_error(*pos, m));
                    }
                    match self.slot_ty[s] {
                        Some(slot_t) => {
                            if t != slot_t {
                                let mut m = String::from_str("`");
                                m.append(name.as_str());
                                m.append("` is ");
                                m.append(ty_str(slot_t));
                                m.append(", cannot assign ");
                                m.append(ty_str(t));
                                return Err(type_error(*pos, m));
                            }
                        },
                        None => {
                            let mut m = String::from_str("`");
                            m.append(name.as_str());
                            m.append("` is assigned before it has a type");
                            return Err(type_error(*pos, m));
                        },
                    }
                },
                Stmt::While { cond, body } => {
                    let c = self.expr(cond)?;
                    if c != Ty::Bool {
                        let m = String::from_str("condition must be Bool");
                        return Err(type_error(0, m));
                    }
                    self.stmts(body)?;
                },
                Stmt::If { cond, then_body, else_body } => {
                    let c = self.expr(cond)?;
                    if c != Ty::Bool {
                        let m = String::from_str("condition must be Bool");
                        return Err(type_error(0, m));
                    }
                    self.stmts(then_body)?;
                    self.stmts(else_body)?;
                },
            }
            i += 1;
        }
        Ok(())
    }
}

} // verus!

verus! {

// ---------------- stage 5: lowering to stack bytecode ----------------

#[derive(Debug, Clone, Copy, PartialEq, Eq, Structural)]
pub enum Op {
    Push(i64),
    Load(usize),
    Store(usize),
    /// Never `And` or `Or`: those become jumps.
    Bin(BinOp),
    Neg,
    Not,
    Jump(usize),
    JumpIfFalse(usize),
    Halt,
}

/// An instruction fits code of length `len` with `n` slots: jumps land inside or just past
/// the end, slots exist, and short-circuit operators were lowered to jumps.
pub open spec fn op_ok(op: Op, len: nat, n: nat) -> bool {
    match op {
        Op::Load(s) => s < n,
        Op::Store(s) => s < n,
        Op::Bin(b) => b != BinOp::And && b != BinOp::Or,
        Op::Jump(t) => t <= len,
        Op::JumpIfFalse(t) => t <= len,
        _ => true,
    }
}

pub open spec fn code_ok(code: Seq<Op>, n: nat) -> bool {
    forall|k: int| 0 <= k < code.len() ==> op_ok(#[trigger] code[k], code.len() as nat, n)
}

/// The code `Lowerer::expr` appends for `e`, placed at position `base`: operands first,
/// then the operator; `&&` and `||` test the left operand and jump past the right one to a
/// constant.
pub open spec fn expr_code(e: Expr, u: Seq<(usize, usize)>, base: int) -> Seq<Op>
    decreases e,
{
    match e {
        Expr::Int(v) => seq![Op::Push(v)],
        Expr::Bool(b) => seq![Op::Push(if b { 1 } else { 0 })],
        Expr::Var(_, pos) => seq![Op::Load(use_get(u, pos)->Some_0)],
        Expr::Unary(op, x, _) => expr_code(*x, u, base) + seq![if op == UnOp::Neg { Op::Neg } else { Op::Not }],
        Expr::Binary(op, a, b, _) => {
            let ca = expr_code(*a, u, base);
            if op == BinOp::And || op == BinOp::Or {
                let neg: Seq<Op> = if op == BinOp::Or { seq![Op::Not] } else { Seq::empty() };
                let jpos = base + ca.len() + neg.len();
                let cb = expr_code(*b, u, jpos + 1);
                let short = jpos + 1 + cb.len() + 1;
                ca + neg + seq![Op::JumpIfFalse(short as usize)] + cb + seq![Op::Jump((short + 1) as usize)]
                    + seq![Op::Push(if op == BinOp::Or { 1 } else { 0 })]
            } else {
                ca + expr_code(*b, u, base + ca.len()) + seq![Op::Bin(op)]
            }
        },
    }
}

/// The code `Lowerer::stmts` appends for `s`, placed at `base`.
pub open spec fn stmts_code(s: Seq<Stmt>, u: Seq<(usize, usize)>, base: int) -> Seq<Op>
    decreases s,
{
    if s.len() == 0 {
        Seq::empty()
    } else {
        let p = stmts_code(s.drop_last(), u, base);
        p + stmt_code(s.last(), u, base + p.len())
    }
}

/// The code for one statement at `base`: a store after its value; a `while` tests at the
/// top, exits past its body and jumps back; an `if` jumps to its else branch or, after the
/// then branch, past it.
pub open spec fn stmt_code(st: Stmt, u: Seq<(usize, usize)>, base: int) -> Seq<Op>
    decreases st,
{
    match st {
        Stmt::Let { init, pos, .. } => expr_code(init, u, base) + seq![Op::Store(use_get(u, pos)->Some_0)],
        Stmt::Assign { value, pos, .. } => expr_code(value, u, base) + seq![Op::Store(use_get(u, pos)->Some_0)],
        Stmt::While { cond, body } => {
            let cc = expr_code(cond, u, base);
            let exit = base + cc.len();
            let cb = stmts_code(body@, u, exit + 1);
            cc + seq![Op::JumpIfFalse((exit + 1 + cb.len() + 1) as usize)] + cb + seq![Op::Jump(base as usize)]
        },
        Stmt::If { cond, then_body, else_body } => {
            let cc = expr_code(cond, u, base);
            let to_else = base + cc.len();
            let ct = stmts_code(then_body@, u, to_else + 1);
            let else_start = to_else + 1 + ct.len() + 1;
            let ce = stmts_code(else_body@, u, else_start);
            cc + seq![Op::JumpIfFalse(else_start as usize)] + ct + seq![Op::Jump((else_start + ce.len()) as usize)] + ce
        },
    }
}

pub struct Lowerer<'r> {
    pub res: &'r Resolver,
    pub code: Vec<Op>,
}

impl<'r> Lowerer<'r> {
    /// Lowering only appends (placeholders are patched within what was appended), and what
    /// it appends fits.
    pub open spec fn grew(&self, old: Lowerer<'r>, n: nat) -> bool {
        &&& self.res == old.res
        &&& old.code@.len() <= self.code@.len()
        &&& self.code@.subrange(0, old.code@.len() as int) == old.code@
        &&& forall|k: int| old.code@.len() <= k < self.code@.len() ==> op_ok(#[trigger] self.code@[k], self.code@.len() as nat, n)
    }

    fn emit(&mut self, op: Op)
        ensures final(self).res == old(self).res, final(self).code@ == old(self).code@.push(op),
    {
        self.code.push(op);
    }

    proof fn lemma_grew_trans(a: Lowerer<'r>, b: Lowerer<'r>, c: Lowerer<'r>, n: nat)
        requires b.grew(a, n), c.grew(b, n),
        ensures c.grew(a, n),
    {
        assert(c.code@.subrange(0, a.code@.len() as int) =~= b.code@.subrange(0, a.code@.len() as int));
        assert forall|k: int| a.code@.len() <= k < c.code@.len() implies op_ok(#[trigger] c.code@[k], c.code@.len() as nat, n) by {
            if k < b.code@.len() {
                assert(c.code@[k] == c.code@.subrange(0, b.code@.len() as int)[k]);
                assert(op_ok(b.code@[k], b.code@.len() as nat, n));
            }
        }
    }

    proof fn lemma_emit_grew(a: Lowerer<'r>, b: Lowerer<'r>, op: Op, n: nat)
        requires b.res == a.res, b.code@ == a.code@.push(op), op_ok(op, b.code@.len() as nat, n),
        ensures b.grew(a, n),
    {
        assert(b.code@.subrange(0, a.code@.len() as int) =~= a.code@);
    }

    /// Code that leaves the value of the expression on the stack; `&&` and `||` jump
    /// around their right operand.
    pub fn expr(&mut self, e: &Expr)
        requires
            expr_resolved(*e, old(self).res.uses_view(), old(self).res.slots_view().len()),
        ensures
            final(self).grew(*old(self), old(self).res.slots_view().len()),
            final(self).code@ == old(self).code@ + expr_code(*e, old(self).res.uses_view(), old(self).code@.len() as int),
        decreases e,
    {
        let ghost n = self.res.slots_view().len();
        let ghost s0 = *self;
        match e {
            Expr::Int(v) => {
                self.emit(Op::Push(*v));
                proof { Self::lemma_emit_grew(s0, *self, Op::Push(*v), n); }
            },
            Expr::Bool(b) => {
                let op = Op::Push(if *b { 1 } else { 0 });
                self.emit(op);
                proof { Self::lemma_emit_grew(s0, *self, op, n); }
            },
            Expr::Var(_, pos) => {
                let s = self.res.use_of(*pos).unwrap();
                self.emit(Op::Load(s));
                proof { Self::lemma_emit_grew(s0, *self, Op::Load(s), n); }
            },
            Expr::Unary(op, x, _) => {
                self.expr(x);
                let ghost s1 = *self;
                let o = if *op == UnOp::Neg { Op::Neg } else { Op::Not };
                self.emit(o);
                proof {
                    Self::lemma_emit_grew(s1, *self, o, n);
                    Self::lemma_grew_trans(s0, s1, *self, n);
                }
            },
            Expr::Binary(op, a, b, _) => {
                if *op == BinOp::And || *op == BinOp::Or {
                    self.expr(a);
                    let ghost s1 = *self;
                    if *op == BinOp::Or {
                        self.emit(Op::Not);
                        proof { Self::lemma_emit_grew(s1, *self, Op::Not, n); }
                    }
                    let ghost s2 = *self;
                    proof { if *op == BinOp::Or { Self::lemma_grew_trans(s0, s1, s2, n); } }
                    let jump_short = self.code.len();
                    self.emit(Op::JumpIfFalse(0));
                    proof { Self::lemma_emit_grew(s2, *self, Op::JumpIfFalse(0), n); Self::lemma_grew_trans(s0, s2, *self, n); }
                    let ghost s3 = *self;
                    self.expr(b);
                    proof { Self::lemma_grew_trans(s0, s3, *self, n); }
                    let jump_end = self.code.len();
                    let ghost s4 = *self;
                    self.emit(Op::Jump(0));
                    proof { Self::lemma_emit_grew(s4, *self, Op::Jump(0), n); Self::lemma_grew_trans(s0, s4, *self, n); }
                    let short = self.code.len();
                    let ghost s5 = *self;
                    let pv = Op::Push(if *op == BinOp::Or { 1 } else { 0 });
                    self.emit(pv);
                    proof { Self::lemma_emit_grew(s5, *self, pv, n); Self::lemma_grew_trans(s0, s5, *self, n); }
                    let end = self.code.len();
                    let ghost s6 = *self;
                    self.code.set(jump_short, Op::JumpIfFalse(short));
                    self.code.set(jump_end, Op::Jump(end));
                    proof {
                        assert(self.code@.subrange(0, s0.code@.len() as int) =~= s6.code@.subrange(0, s0.code@.len() as int));
                        assert forall|k: int| s0.code@.len() <= k < self.code@.len() implies op_ok(#[trigger] self.code@[k], self.code@.len() as nat, n) by {
                            if k != jump_short && k != jump_end {
                                assert(self.code@[k] == s6.code@[k]);
                            }
                        }
                    }
                } else {
                    self.expr(a);
                    let ghost s1 = *self;
                    self.expr(b);
                    let ghost s2 = *self;
                    self.emit(Op::Bin(*op));
                    proof {
                        Self::lemma_grew_trans(s0, s1, s2, n);
                        Self::lemma_emit_grew(s2, *self, Op::Bin(*op), n);
                        Self::lemma_grew_trans(s0, s2, *self, n);
                    }
                }
            },
        }
    }
}

} // verus!

verus! {

impl<'r> Lowerer<'r> {
    /// Code for statements: `while` tests at the top and jumps back; `if` jumps over the
    /// branch not taken.
    pub fn stmts(&mut self, stmts: &[Stmt])
        requires
            stmts_resolved(stmts@, old(self).res.uses_view(), old(self).res.slots_view().len()),
        ensures
            final(self).grew(*old(self), old(self).res.slots_view().len()),
            final(self).code@ == old(self).code@ + stmts_code(stmts@, old(self).res.uses_view(), old(self).code@.len() as int),
        decreases stmts@,
    {
        let ghost n = self.res.slots_view().len();
        let ghost s0 = *self;
        let ghost u = self.res.uses_view();
        let mut i: usize = 0;
        assert(stmts@.subrange(0, stmts@.len() as int) =~= stmts@);
        proof { assert(self.code@.subrange(0, s0.code@.len() as int) =~= s0.code@); }
        while i < stmts.len()
            invariant
                i <= stmts@.len(), self.res == s0.res, n == s0.res.slots_view().len(), u == s0.res.uses_view(),
                stmts_resolved(stmts@, u, n),
                self.grew(s0, n),
                self.code@ == s0.code@ + stmts_code(stmts@.subrange(0, i as int), u, s0.code@.len() as int),
            decreases stmts@.len() - i,
        {
            proof {
                assert(stmts@.subrange(0, i + 1).drop_last() =~= stmts@.subrange(0, i as int));
                assert(stmts@.subrange(0, i + 1).last() == stmts@[i as int]);
            }
            let ghost rest = stmts@.subrange(i as int, stmts@.len() as int);
            assert(rest[0] == stmts@[i as int]);
            assert(rest.subrange(1, rest.len() as int) =~= stmts@.subrange(i + 1, stmts@.len() as int));
            assert(stmt_resolved(stmts@[i as int], u, n));
            let ghost s1 = *self;
            match &stmts[i] {
                Stmt::Let { init: v, pos, .. } | Stmt::Assign { value: v, pos, .. } => {
                    self.expr(v);
                    let ghost s2 = *self;
                    let s = self.res.use_of(*pos).unwrap();
                    self.emit(Op::Store(s));
                    proof {
                        Self::lemma_emit_grew(s2, *self, Op::Store(s), n);
                        Self::lemma_grew_trans(s1, s2, *self, n);
                    }
                },
                Stmt::While { cond, body } => {
                    let top = self.code.len();
                    self.expr(cond);
                    let ghost s2 = *self;
                    let exit = self.code.len();
                    self.emit(Op::JumpIfFalse(0));
                    proof { Self::lemma_emit_grew(s2, *self, Op::JumpIfFalse(0), n); Self::lemma_grew_trans(s1, s2, *self, n); }
                    let ghost s3 = *self;
                    self.stmts(body);
                    proof { Self::lemma_grew_trans(s1, s3, *self, n); }
                    let ghost s4 = *self;
                    self.emit(Op::Jump(top));
                    proof { Self::lemma_emit_grew(s4, *self, Op::Jump(top), n); Self::lemma_grew_trans(s1, s4, *self, n); }
                    let end = self.code.len();
                    let ghost s5 = *self;
                    self.code.set(exit, Op::JumpIfFalse(end));
                    proof {
                        assert(self.code@.subrange(0, s1.code@.len() as int) =~= s5.code@.subrange(0, s1.code@.len() as int));
                        assert forall|k: int| s1.code@.len() <= k < self.code@.len() implies op_ok(#[trigger] self.code@[k], self.code@.len() as nat, n) by {
                            if k != exit { assert(self.code@[k] == s5.code@[k]); }
                        }
                    }
                },
                Stmt::If { cond, then_body, else_body } => {
                    self.expr(cond);
                    let ghost s2 = *self;
                    let to_else = self.code.len();
                    self.emit(Op::JumpIfFalse(0));
                    proof { Self::lemma_emit_grew(s2, *self, Op::JumpIfFalse(0), n); Self::lemma_grew_trans(s1, s2, *self, n); }
                    let ghost s3 = *self;
                    self.stmts(then_body);
                    proof { Self::lemma_grew_trans(s1, s3, *self, n); }
                    let to_end = self.code.len();
                    let ghost s4 = *self;
                    self.emit(Op::Jump(0));
                    proof { Self::lemma_emit_grew(s4, *self, Op::Jump(0), n); Self::lemma_grew_trans(s1, s4, *self, n); }
                    let else_start = self.code.len();
                    let ghost s5 = *self;
                    self.stmts(else_body);
                    proof { Self::lemma_grew_trans(s1, s5, *self, n); }
                    let end = self.code.len();
                    let ghost s6 = *self;
                    self.code.set(to_else, Op::JumpIfFalse(else_start));
                    self.code.set(to_end, Op::Jump(end));
                    proof {
                        assert(self.code@.subrange(0, s1.code@.len() as int) =~= s6.code@.subrange(0, s1.code@.len() as int));
                        assert forall|k: int| s1.code@.len() <= k < self.code@.len() implies op_ok(#[trigger] self.code@[k], self.code@.len() as nat, n) by {
                            if k != to_else && k != to_end { assert(self.code@[k] == s6.code@[k]); }
                        }
                    }
                },
            }
            proof {
                Self::lemma_grew_trans(s0, s1, *self, n);
                assert(self.code@ =~= s1.code@ + stmt_code(stmts@[i as int], u, s1.code@.len() as int));
                assert(self.code@ =~= s0.code@ + stmts_code(stmts@.subrange(0, i + 1), u, s0.code@.len() as int));
            }
            i += 1;
        }
        assert(stmts@.subrange(0, stmts@.len() as int) =~= stmts@);
    }
}


// ---------------- stage 6: the stack machine ----------------

/// How a run of the stack machine ends.
pub enum VmEnd {
    /// `Halt` with this value on top, after this many instructions.
    Done(i64, nat),
    /// Division or remainder by zero at this instruction.
    DivZero(int),
    /// Code the lowering never produces: an empty stack, a missing slot, a jump outside
    /// the code, or a short-circuit operator left as arithmetic.
    Fault(int),
    /// The step budget ran out.
    OutOfSteps,
}

/// What a binary instruction computes; `None` for division by zero, and for `&&` and `||`,
/// which the machine does not have.
pub open spec fn vm_bin(op: BinOp, a: i64, b: i64) -> Option<i64> {
    match op {
        BinOp::Add => Some(wadd(a, b)),
        BinOp::Sub => Some(wsub(a, b)),
        BinOp::Mul => Some(wmul(a, b)),
        BinOp::Div => if b == 0 { None } else { Some(wdiv(a, b)) },
        BinOp::Rem => if b == 0 { None } else { Some(wrem(a, b)) },
        BinOp::Lt => Some(b2i(a < b)),
        BinOp::Le => Some(b2i(a <= b)),
        BinOp::Gt => Some(b2i(a > b)),
        BinOp::Ge => Some(b2i(a >= b)),
        BinOp::Eq => Some(b2i(a == b)),
        BinOp::Ne => Some(b2i(a != b)),
        _ => None,
    }
}

/// What the stack machine's binary instructions mean: a comparison gives 1 exactly when the relation holds between the
/// integers and 0 otherwise; a sum, difference or product that fits is exact; division and
/// remainder by zero have no value, and otherwise (but for `i64::MIN / -1`) the dividend is
/// quotient times divisor plus a remainder smaller than the divisor and of the dividend's
/// sign; `&&` and `||` are not arithmetic.
pub proof fn lemma_vm_bin_meaning(x: i64, y: i64)
    ensures
        vm_bin(BinOp::Lt, x, y) == Some(if x < y { 1i64 } else { 0i64 }),
        vm_bin(BinOp::Le, x, y) == Some(if x <= y { 1i64 } else { 0i64 }),
        vm_bin(BinOp::Gt, x, y) == Some(if x > y { 1i64 } else { 0i64 }),
        vm_bin(BinOp::Ge, x, y) == Some(if x >= y { 1i64 } else { 0i64 }),
        vm_bin(BinOp::Eq, x, y) == Some(if x == y { 1i64 } else { 0i64 }),
        vm_bin(BinOp::Ne, x, y) == Some(if x != y { 1i64 } else { 0i64 }),
        i64::MIN <= x + y <= i64::MAX ==> vm_bin(BinOp::Add, x, y) == Some((x + y) as i64),
        i64::MIN <= x - y <= i64::MAX ==> vm_bin(BinOp::Sub, x, y) == Some((x - y) as i64),
        i64::MIN <= x * y <= i64::MAX ==> vm_bin(BinOp::Mul, x, y) == Some((x * y) as i64),
        y == 0 ==> vm_bin(BinOp::Div, x, y) is None && vm_bin(BinOp::Rem, x, y) is None,
        y != 0 && !(x == i64::MIN && y == -1) ==> (vm_bin(BinOp::Div, x, y) matches Some(q)
            && vm_bin(BinOp::Rem, x, y) matches Some(r) && x == q * y + r
            && (if r < 0 { -r } else { r as int }) < (if y < 0 { -y } else { y as int })
            && (r == 0 || ((r < 0) == (x < 0)))),
        vm_bin(BinOp::And, x, y) is None && vm_bin(BinOp::Or, x, y) is None,
{
    if i64::MIN <= x + y <= i64::MAX { lemma_wadd_exact(x, y); }
    if i64::MIN <= x - y <= i64::MAX { lemma_wsub_exact(x, y); }
    if i64::MIN <= x * y <= i64::MAX { lemma_wmul_exact(x, y); }
    if y != 0 && !(x == i64::MIN && y == -1) { lemma_wdiv_wrem_meaning(x, y); }
}

/// What the stack machine's unary instructions mean: `Neg` replaces the top of the stack by
/// its negation (which fits for every value but `i64::MIN`), and `Not` by 1 if it was 0 and
/// by 0 otherwise.
pub proof fn lemma_vm_unary_meaning(code: Seq<Op>, stack: Seq<i64>, slots: Seq<i64>, pc: int, steps: nat, fuel: nat)
    requires 0 <= pc < code.len(), stack.len() > 0, fuel >= 1,
    ensures
        code[pc] == Op::Neg && stack.last() != i64::MIN ==> vm_run(code, stack, slots, pc, steps, fuel)
            == vm_run(code, stack.drop_last().push((-stack.last()) as i64), slots, pc + 1, steps + 1, (fuel - 1) as nat),
        code[pc] == Op::Not ==> vm_run(code, stack, slots, pc, steps, fuel)
            == vm_run(code, stack.drop_last().push(if stack.last() == 0 { 1i64 } else { 0i64 }), slots, pc + 1, steps + 1, (fuel - 1) as nat),
{
}

/// The machine from instruction `pc` with `stack` and `slots`, having executed `steps`
/// instructions, with at most `fuel` more.
pub open spec fn vm_run(code: Seq<Op>, stack: Seq<i64>, slots: Seq<i64>, pc: int, steps: nat, fuel: nat) -> VmEnd
    decreases fuel,
{
    if fuel == 0 {
        VmEnd::OutOfSteps
    } else if pc < 0 || pc >= code.len() {
        VmEnd::Fault(pc)
    } else {
        let f = (fuel - 1) as nat;
        let st = steps + 1;
        let n = stack.len();
        match code[pc] {
            Op::Push(v) => vm_run(code, stack.push(v), slots, pc + 1, st, f),
            Op::Load(s) => if s < slots.len() { vm_run(code, stack.push(slots[s as int]), slots, pc + 1, st, f) } else { VmEnd::Fault(pc) },
            Op::Store(s) => if s < slots.len() && n > 0 {
                vm_run(code, stack.drop_last(), slots.update(s as int, stack.last()), pc + 1, st, f)
            } else { VmEnd::Fault(pc) },
            Op::Neg => if n > 0 { vm_run(code, stack.drop_last().push(wneg(stack.last())), slots, pc + 1, st, f) } else { VmEnd::Fault(pc) },
            Op::Not => if n > 0 { vm_run(code, stack.drop_last().push(b2i(stack.last() == 0)), slots, pc + 1, st, f) } else { VmEnd::Fault(pc) },
            Op::Bin(op) => if n >= 2 {
                let b = stack[n - 1];
                let a = stack[n - 2];
                if (op == BinOp::Div || op == BinOp::Rem) && b == 0 {
                    VmEnd::DivZero(pc)
                } else {
                    match vm_bin(op, a, b) {
                        Some(v) => vm_run(code, stack.subrange(0, n - 2).push(v), slots, pc + 1, st, f),
                        None => VmEnd::Fault(pc),
                    }
                }
            } else { VmEnd::Fault(pc) },
            Op::Jump(t) => vm_run(code, stack, slots, t as int, st, f),
            Op::JumpIfFalse(t) => if n > 0 {
                if stack.last() == 0 { vm_run(code, stack.drop_last(), slots, t as int, st, f) }
                else { vm_run(code, stack.drop_last(), slots, pc + 1, st, f) }
            } else { VmEnd::Fault(pc) },
            Op::Halt => if n > 0 { VmEnd::Done(stack.last(), st) } else { VmEnd::Fault(pc) },
        }
    }
}

/// Every variable of `e` has a slot below `n`.
pub open spec fn loads_ok(e: Expr, u: Seq<(usize, usize)>, n: nat) -> bool
    decreases e,
{
    match e {
        Expr::Var(_, pos) => use_get(u, pos)->Some_0 < n,
        Expr::Unary(_, x, _) => loads_ok(*x, u, n),
        Expr::Binary(_, a, b, _) => loads_ok(*a, u, n) && loads_ok(*b, u, n),
        _ => true,
    }
}

/// The value of an expression with the variables in `slots`, as the machine computes it:
/// wrapping arithmetic, 1 and 0 for truth, `&&` giving 0 or the right operand, `||` giving 1
/// or the right operand; `None` where a division by zero is reached.
pub open spec fn expr_value(e: Expr, u: Seq<(usize, usize)>, slots: Seq<i64>) -> Option<i64>
    decreases e,
{
    match e {
        Expr::Int(v) => Some(v),
        Expr::Bool(b) => Some(if b { 1i64 } else { 0i64 }),
        Expr::Var(_, pos) => Some(slots[use_get(u, pos)->Some_0 as int]),
        Expr::Unary(op, x, _) => match expr_value(*x, u, slots) {
            Some(v) => Some(if op == UnOp::Neg { wneg(v) } else { b2i(v == 0) }),
            None => None,
        },
        Expr::Binary(op, a, b, _) => match expr_value(*a, u, slots) {
            Some(va) => if op == BinOp::And && va == 0 {
                Some(0i64)
            } else if op == BinOp::Or && va != 0 {
                Some(1i64)
            } else {
                match expr_value(*b, u, slots) {
                    Some(vb) => if op == BinOp::And || op == BinOp::Or { Some(vb) } else { vm_bin(op, va, vb) },
                    None => None,
                }
            },
            None => None,
        },
    }
}

/// How many instructions the machine executes for `expr_code(e, ..)` when the value exists.
pub open spec fn expr_steps(e: Expr, u: Seq<(usize, usize)>, slots: Seq<i64>) -> nat
    decreases e,
{
    match e {
        Expr::Unary(_, x, _) => expr_steps(*x, u, slots) + 1,
        Expr::Binary(op, a, b, _) => {
            let sa = expr_steps(*a, u, slots);
            let va = expr_value(*a, u, slots)->Some_0;
            if op == BinOp::And {
                if va == 0 { sa + 2 } else { sa + 1 + expr_steps(*b, u, slots) + 1 }
            } else if op == BinOp::Or {
                if va != 0 { sa + 3 } else { sa + 2 + expr_steps(*b, u, slots) + 1 }
            } else {
                sa + expr_steps(*b, u, slots) + 1
            }
        },
        _ => 1,
    }
}

/// Running the code generated for an expression pushes the expression's value: from the
/// code's first instruction the machine reaches the instruction just past it, with the value
/// on top of the stack it started with and the slots unchanged, after `expr_steps`
/// instructions, wherever the code is placed and whatever stack it starts with.
pub proof fn lemma_expr_code_runs(e: Expr, u: Seq<(usize, usize)>, code: Seq<Op>, base: int,
    stack: Seq<i64>, slots: Seq<i64>, steps: nat, fuel: nat)
    requires
        0 <= base,
        base + expr_code(e, u, base).len() <= code.len() <= usize::MAX,
        code.subrange(base, base + expr_code(e, u, base).len()) == expr_code(e, u, base),
        loads_ok(e, u, slots.len()),
        expr_value(e, u, slots) is Some,
        expr_steps(e, u, slots) <= fuel,
    ensures
        vm_run(code, stack, slots, base, steps, fuel) == vm_run(code, stack.push(expr_value(e, u, slots)->Some_0), slots,
            base + expr_code(e, u, base).len(), steps + expr_steps(e, u, slots), (fuel - expr_steps(e, u, slots)) as nat),
    decreases e, 1nat,
{
    match e {
        Expr::Unary(..) => lemma_unary_code_runs(e, u, code, base, stack, slots, steps, fuel),
        Expr::Binary(op, ..) => if op == BinOp::And || op == BinOp::Or {
            lemma_logic_code_runs(e, u, code, base, stack, slots, steps, fuel)
        } else {
            lemma_arith_code_runs(e, u, code, base, stack, slots, steps, fuel)
        },
        _ => {
            let c = expr_code(e, u, base);
            assert(code[base] == c[0]) by { assert(code.subrange(base, base + c.len())[0] == code[base]); }
        },
    }
}

#[verifier::spinoff_prover]
proof fn lemma_unary_code_runs(e: Expr, u: Seq<(usize, usize)>, code: Seq<Op>, base: int,
    stack: Seq<i64>, slots: Seq<i64>, steps: nat, fuel: nat)
    requires
        e is Unary,
        0 <= base,
        base + expr_code(e, u, base).len() <= code.len() <= usize::MAX,
        code.subrange(base, base + expr_code(e, u, base).len()) == expr_code(e, u, base),
        loads_ok(e, u, slots.len()),
        expr_value(e, u, slots) is Some,
        expr_steps(e, u, slots) <= fuel,
    ensures
        vm_run(code, stack, slots, base, steps, fuel) == vm_run(code, stack.push(expr_value(e, u, slots)->Some_0), slots,
            base + expr_code(e, u, base).len(), steps + expr_steps(e, u, slots), (fuel - expr_steps(e, u, slots)) as nat),
    decreases e, 0nat,
{
    let c = expr_code(e, u, base);
    assert(code[base] == c[0]) by { assert(code.subrange(base, base + c.len())[0] == code[base]); }
    match e {
        Expr::Unary(op, x, _) => {
            let cx = expr_code(*x, u, base);
            assert(code.subrange(base, base + cx.len()) =~= cx) by {
                assert forall|k: int| 0 <= k < cx.len() implies code.subrange(base, base + cx.len())[k] == cx[k] by {
                    assert(code.subrange(base, base + c.len())[k] == c[k]);
                }
            }
            lemma_expr_code_runs(*x, u, code, base, stack, slots, steps, fuel);
            let vx = expr_value(*x, u, slots)->Some_0;
            let sx = expr_steps(*x, u, slots);
            assert(code[base + cx.len()] == c[cx.len() as int]) by {
                assert(code.subrange(base, base + c.len())[cx.len() as int] == code[base + cx.len()]);
            }
            assert(stack.push(vx).drop_last() =~= stack);
        },
        _ => {},
    }
}

/// An expression compiled on its own and followed by `Halt` runs to its value: from an empty
/// stack the machine ends with the value on top, after the expression's instructions and the
/// `Halt`.
pub proof fn lemma_expr_program_value(e: Expr, u: Seq<(usize, usize)>, slots: Seq<i64>, fuel: nat)
    requires
        expr_code(e, u, 0).len() + 1 <= usize::MAX,
        loads_ok(e, u, slots.len()),
        expr_value(e, u, slots) is Some,
        expr_steps(e, u, slots) < fuel,
    ensures
        vm_run(expr_code(e, u, 0).push(Op::Halt), Seq::empty(), slots, 0, 0, fuel)
            == VmEnd::Done(expr_value(e, u, slots)->Some_0, expr_steps(e, u, slots) + 1),
{
    let c = expr_code(e, u, 0);
    let code = c.push(Op::Halt);
    assert(code.subrange(0, c.len() as int) =~= c);
    lemma_expr_code_runs(e, u, code, 0, Seq::empty(), slots, 0, fuel);
    let st = Seq::<i64>::empty().push(expr_value(e, u, slots)->Some_0);
    assert(code[c.len() as int] == Op::Halt);
    assert(st.last() == expr_value(e, u, slots)->Some_0);
}

/// One step of the machine: `vm_run` unfolded at a `Not`, a conditional jump, a jump and a
/// push.
proof fn lemma_vm_step(code: Seq<Op>, stack: Seq<i64>, slots: Seq<i64>, pc: int, steps: nat, fuel: nat)
    requires 0 <= pc < code.len(), fuel >= 1,
    ensures
        code[pc] == Op::Not && stack.len() > 0 ==> vm_run(code, stack, slots, pc, steps, fuel)
            == vm_run(code, stack.drop_last().push(b2i(stack.last() == 0)), slots, pc + 1, steps + 1, (fuel - 1) as nat),
        code[pc] matches Op::JumpIfFalse(t) ==> (stack.len() > 0 && stack.last() == 0 ==> vm_run(code, stack, slots, pc, steps, fuel)
            == vm_run(code, stack.drop_last(), slots, t as int, steps + 1, (fuel - 1) as nat)),
        code[pc] is JumpIfFalse && stack.len() > 0 && stack.last() != 0 ==> vm_run(code, stack, slots, pc, steps, fuel)
            == vm_run(code, stack.drop_last(), slots, pc + 1, steps + 1, (fuel - 1) as nat),
        code[pc] matches Op::Jump(t) ==> vm_run(code, stack, slots, pc, steps, fuel)
            == vm_run(code, stack, slots, t as int, steps + 1, (fuel - 1) as nat),
        code[pc] matches Op::Push(v) ==> vm_run(code, stack, slots, pc, steps, fuel)
            == vm_run(code, stack.push(v), slots, pc + 1, steps + 1, (fuel - 1) as nat),
{
}

#[verifier::spinoff_prover]
#[verifier::rlimit(50)]
proof fn lemma_logic_code_runs(e: Expr, u: Seq<(usize, usize)>, code: Seq<Op>, base: int,
    stack: Seq<i64>, slots: Seq<i64>, steps: nat, fuel: nat)
    requires
        e matches Expr::Binary(op, ..) && (op == BinOp::And || op == BinOp::Or),
        0 <= base,
        base + expr_code(e, u, base).len() <= code.len() <= usize::MAX,
        code.subrange(base, base + expr_code(e, u, base).len()) == expr_code(e, u, base),
        loads_ok(e, u, slots.len()),
        expr_value(e, u, slots) is Some,
        expr_steps(e, u, slots) <= fuel,
    ensures
        vm_run(code, stack, slots, base, steps, fuel) == vm_run(code, stack.push(expr_value(e, u, slots)->Some_0), slots,
            base + expr_code(e, u, base).len(), steps + expr_steps(e, u, slots), (fuel - expr_steps(e, u, slots)) as nat),
    decreases e, 0nat,
{
    let c = expr_code(e, u, base);
    match e {
        Expr::Binary(op, a, b, _) => {
            let ca = expr_code(*a, u, base);
            let is_or = op == BinOp::Or;
            let neg: Seq<Op> = if is_or { seq![Op::Not] } else { Seq::empty() };
            let pa = base + ca.len();
            let jpos = pa + neg.len();
            let cb = expr_code(*b, u, jpos + 1);
            let short = jpos + 1 + cb.len() + 1;
            let k: i64 = if is_or { 1 } else { 0 };
            let tail = seq![Op::JumpIfFalse(short as usize)] + cb + seq![Op::Jump((short + 1) as usize)] + seq![Op::Push(k)];
            assert(c =~= ca + neg + tail);
            assert forall|q: int| 0 <= q < c.len() implies code[base + q] == #[trigger] c[q] by {
                assert(code.subrange(base, base + c.len())[q] == c[q]);
            }
            assert(code.subrange(base, base + ca.len()) =~= ca) by {
                assert forall|q: int| 0 <= q < ca.len() implies code.subrange(base, base + ca.len())[q] == ca[q] by {
                    assert(c[q] == ca[q]);
                }
            }
            lemma_expr_code_runs(*a, u, code, base, stack, slots, steps, fuel);
            let va = expr_value(*a, u, slots)->Some_0;
            let sa = expr_steps(*a, u, slots);
            let t = if is_or { b2i(va == 0) } else { va };
            let st1 = steps + sa + neg.len();
            let f1 = (fuel - sa - neg.len()) as nat;
            let r0 = vm_run(code, stack, slots, base, steps, fuel);
            assert(r0 == vm_run(code, stack.push(va), slots, pa, steps + sa, (fuel - sa) as nat));
            if is_or {
                assert(code[pa] == c[ca.len() as int]);
                assert(c[ca.len() as int] == Op::Not);
                lemma_vm_step(code, stack.push(va), slots, pa, steps + sa, (fuel - sa) as nat);
                assert(stack.push(va).drop_last().push(b2i(va == 0)) =~= stack.push(t));
            } else {
                assert(stack.push(va) == stack.push(t));
            }
            assert(r0 == vm_run(code, stack.push(t), slots, jpos, st1, f1));
            assert(base + c.len() == short + 1);
            // here: vm_run(code, stack.push(t), slots, jpos, st1, f1)
            assert(code[jpos] == c[(ca.len() + neg.len()) as int]);
            assert(c[(ca.len() + neg.len()) as int] == Op::JumpIfFalse(short as usize));
            assert(stack.push(t).drop_last() =~= stack);
            assert(stack.push(t).last() == t);
            lemma_vm_step(code, stack.push(t), slots, jpos, st1, f1);
            assert(short == base + c.len() - 1);
            if t == 0 {
                assert(code[short] == c[c.len() - 1]);
                assert(c[c.len() - 1] == Op::Push(k));
                lemma_vm_step(code, stack, slots, short, st1 + 1, (f1 - 1) as nat);
                assert(r0 == vm_run(code, stack, slots, short, st1 + 1, (f1 - 1) as nat));
                assert(r0 == vm_run(code, stack.push(k), slots, short + 1, st1 + 2, (f1 - 2) as nat));
                assert(expr_value(e, u, slots) == Some(k));
                assert(expr_steps(e, u, slots) == sa + neg.len() + 2);
            } else {
                assert(code.subrange(jpos + 1, jpos + 1 + cb.len()) =~= cb) by {
                    assert forall|q: int| 0 <= q < cb.len() implies code.subrange(jpos + 1, jpos + 1 + cb.len())[q] == cb[q] by {
                        assert(code[jpos + 1 + q] == c[ca.len() + neg.len() + 1 + q]);
                        assert(c[ca.len() + neg.len() + 1 + q] == tail[1 + q]);
                    }
                }
                lemma_expr_code_runs(*b, u, code, jpos + 1, stack, slots, st1 + 1, (f1 - 1) as nat);
                let vb = expr_value(*b, u, slots)->Some_0;
                let sb = expr_steps(*b, u, slots);
                assert(code[short - 1] == c[c.len() - 2]);
                assert(c[c.len() - 2] == Op::Jump((short + 1) as usize));
                lemma_vm_step(code, stack.push(vb), slots, short - 1, st1 + 1 + sb, (f1 - 1 - sb) as nat);
                assert(jpos + 1 + cb.len() == short - 1);
                assert(r0 == vm_run(code, stack, slots, jpos + 1, st1 + 1, (f1 - 1) as nat));
                assert(r0 == vm_run(code, stack.push(vb), slots, short - 1, st1 + 1 + sb, (f1 - 1 - sb) as nat));
                assert(r0 == vm_run(code, stack.push(vb), slots, short + 1, st1 + 2 + sb, (f1 - 2 - sb) as nat));
                assert(expr_value(e, u, slots) == Some(vb));
                assert(expr_steps(e, u, slots) == sa + neg.len() + 2 + sb);
            }
        },
        _ => {},
    }
}

/// One step of the machine at a binary instruction whose result exists.
proof fn lemma_vm_bin_step(code: Seq<Op>, s: Seq<i64>, a: i64, b: i64, slots: Seq<i64>, pc: int, steps: nat, fuel: nat)
    requires
        0 <= pc < code.len(), fuel >= 1,
        code[pc] matches Op::Bin(op) && vm_bin(op, a, b) is Some,
    ensures
        code[pc] matches Op::Bin(op) && vm_run(code, s.push(a).push(b), slots, pc, steps, fuel)
            == vm_run(code, s.push(vm_bin(op, a, b)->Some_0), slots, pc + 1, steps + 1, (fuel - 1) as nat),
{
    let st = s.push(a).push(b);
    assert(st[st.len() - 1] == b);
    assert(st[st.len() - 2] == a);
    assert(st.subrange(0, st.len() - 2) =~= s);
}

#[verifier::spinoff_prover]
#[verifier::rlimit(50)]
proof fn lemma_arith_code_runs(e: Expr, u: Seq<(usize, usize)>, code: Seq<Op>, base: int,
    stack: Seq<i64>, slots: Seq<i64>, steps: nat, fuel: nat)
    requires
        e matches Expr::Binary(op, ..) && op != BinOp::And && op != BinOp::Or,
        0 <= base,
        base + expr_code(e, u, base).len() <= code.len() <= usize::MAX,
        code.subrange(base, base + expr_code(e, u, base).len()) == expr_code(e, u, base),
        loads_ok(e, u, slots.len()),
        expr_value(e, u, slots) is Some,
        expr_steps(e, u, slots) <= fuel,
    ensures
        vm_run(code, stack, slots, base, steps, fuel) == vm_run(code, stack.push(expr_value(e, u, slots)->Some_0), slots,
            base + expr_code(e, u, base).len(), steps + expr_steps(e, u, slots), (fuel - expr_steps(e, u, slots)) as nat),
    decreases e, 0nat,
{
    let c = expr_code(e, u, base);
    match e {
        Expr::Binary(op, a, b, _) => {
            let ca = expr_code(*a, u, base);
            let pa = base + ca.len();
            let cb = expr_code(*b, u, pa);
            assert(c =~= ca + cb + seq![Op::Bin(op)]);
            assert forall|q: int| 0 <= q < c.len() implies code[base + q] == #[trigger] c[q] by {
                assert(code.subrange(base, base + c.len())[q] == c[q]);
            }
            assert(code.subrange(base, base + ca.len()) =~= ca) by {
                assert forall|q: int| 0 <= q < ca.len() implies code.subrange(base, base + ca.len())[q] == ca[q] by {
                    assert(c[q] == ca[q]);
                }
            }
            lemma_expr_code_runs(*a, u, code, base, stack, slots, steps, fuel);
            let va = expr_value(*a, u, slots)->Some_0;
            let sa = expr_steps(*a, u, slots);
            assert(code.subrange(pa, pa + cb.len()) =~= cb) by {
                assert forall|q: int| 0 <= q < cb.len() implies code.subrange(pa, pa + cb.len())[q] == cb[q] by {
                    assert(code[pa + q] == c[ca.len() + q]);
                    assert(c[ca.len() + q] == cb[q]);
                }
            }
            lemma_expr_code_runs(*b, u, code, pa, stack.push(va), slots, steps + sa, (fuel - sa) as nat);
            let vb = expr_value(*b, u, slots)->Some_0;
            let sb = expr_steps(*b, u, slots);
            let pb = pa + cb.len();
            assert(code[pb] == c[(ca.len() + cb.len()) as int]);
            assert(c[(ca.len() + cb.len()) as int] == Op::Bin(op));
            assert(expr_value(e, u, slots) == vm_bin(op, va, vb));
            lemma_vm_bin_step(code, stack, va, vb, slots, pb, steps + sa + sb, (fuel - sa - sb) as nat);
        },
        _ => {},
    }
}

fn at_pc(prefix: &str, pc: usize) -> (s: String)
    ensures s@ == prefix@ + ascii_chars(decimal(pc as nat)),
{
    let mut m = String::from_str(prefix);
    let d = decimal_string(pc as u64);
    m.append(d.as_str());
    m
}

fn vm_binop(op: BinOp, a: i64, b: i64) -> (r: Option<i64>)
    ensures r == vm_bin(op, a, b),
{
    match op {
        BinOp::Add => Some(a.wrapping_add(b)),
        BinOp::Sub => Some(a.wrapping_sub(b)),
        BinOp::Mul => Some(a.wrapping_mul(b)),
        BinOp::Div => if b == 0 { None } else { Some(wrapping_div(a, b)) },
        BinOp::Rem => if b == 0 { None } else { Some(wrapping_rem(a, b)) },
        BinOp::Lt => Some(bool_to_i64(a < b)),
        BinOp::Le => Some(bool_to_i64(a <= b)),
        BinOp::Gt => Some(bool_to_i64(a > b)),
        BinOp::Ge => Some(bool_to_i64(a >= b)),
        BinOp::Eq => Some(bool_to_i64(a == b)),
        BinOp::Ne => Some(bool_to_i64(a != b)),
        _ => None,
    }
}

/// Runs bytecode with `nslots` zeroed slots for at most `fuel` instructions: the value on
/// top at `Halt` and the number of instructions executed, or a runtime error.
pub fn run(code: &[Op], nslots: usize, fuel: usize) -> (r: Result<(i64, usize), String>)
    ensures
        match vm_run(code@, Seq::empty(), Seq::new(nslots as nat, |i: int| 0i64), 0, 0, fuel as nat) {
            VmEnd::Done(v, st) => r == Ok::<(i64, usize), String>((v, st as usize)),
            VmEnd::DivZero(pc) => r matches Err(m) && m@ == "division by zero at pc "@ + ascii_chars(decimal(pc as nat)),
            VmEnd::Fault(pc) => r matches Err(m) && m@ == "malformed bytecode at pc "@ + ascii_chars(decimal(pc as nat)),
            VmEnd::OutOfSteps => r matches Err(m) && m@ == "step limit reached"@,
        },
{
    let mut stack: Vec<i64> = Vec::new();
    let mut slots: Vec<i64> = Vec::new();
    let mut k: usize = 0;
    while k < nslots
        invariant k <= nslots, slots@ == Seq::new(k as nat, |i: int| 0i64),
        decreases nslots - k,
    {
        slots.push(0);
        k += 1;
        assert(slots@ =~= Seq::new(k as nat, |i: int| 0i64));
    }
    let mut pc: usize = 0;
    let mut steps: usize = 0;
    let mut left: usize = fuel;
    let ghost goal = vm_run(code@, Seq::empty(), slots@, 0, 0, fuel as nat);
    while left > 0
        invariant
            steps + left == fuel,
            goal == vm_run(code@, Seq::empty(), Seq::new(nslots as nat, |i: int| 0i64), 0, 0, fuel as nat),
            vm_run(code@, stack@, slots@, pc as int, steps as nat, left as nat) == goal,
        decreases left,
    {
        if pc >= code.len() {
            return Err(at_pc("malformed bytecode at pc ", pc));
        }
        let ghost s0 = stack@;
        let ghost sl0 = slots@;
        let ghost pc0 = pc as int;
        let here = pc;
        steps += 1;
        left -= 1;
        let n = stack.len();
        match code[pc] {
            Op::Push(v) => { stack.push(v); pc += 1; },
            Op::Load(s) => {
                if s >= slots.len() { return Err(at_pc("malformed bytecode at pc ", here)); }
                stack.push(slots[s]);
                pc += 1;
            },
            Op::Store(s) => {
                if s >= slots.len() || n == 0 { return Err(at_pc("malformed bytecode at pc ", here)); }
                let v = stack.pop().unwrap();
                slots.set(s, v);
                pc += 1;
            },
            Op::Neg => {
                if n == 0 { return Err(at_pc("malformed bytecode at pc ", here)); }
                let v = stack.pop().unwrap();
                stack.push(wrapping_neg(v));
                pc += 1;
            },
            Op::Not => {
                if n == 0 { return Err(at_pc("malformed bytecode at pc ", here)); }
                let v = stack.pop().unwrap();
                stack.push(bool_to_i64(v == 0));
                pc += 1;
            },
            Op::Bin(op) => {
                if n < 2 { return Err(at_pc("malformed bytecode at pc ", here)); }
                let b = stack.pop().unwrap();
                let a = stack.pop().unwrap();
                if (op == BinOp::Div || op == BinOp::Rem) && b == 0 {
                    return Err(at_pc("division by zero at pc ", here));
                }
                match vm_binop(op, a, b) {
                    Some(v) => {
                        proof { assert(stack@ =~= s0.subrange(0, n - 2)); }
                        stack.push(v);
                    },
                    None => { return Err(at_pc("malformed bytecode at pc ", here)); },
                }
                pc += 1;
            },
            Op::Jump(t) => { pc = t; },
            Op::JumpIfFalse(t) => {
                if n == 0 { return Err(at_pc("malformed bytecode at pc ", here)); }
                let v = stack.pop().unwrap();
                if v == 0 { pc = t; } else { pc += 1; }
            },
            Op::Halt => {
                if n == 0 { return Err(at_pc("malformed bytecode at pc ", here)); }
                let v = stack.pop().unwrap();
                return Ok((v, steps));
            },
        }
    }
    Err(String::from_str("step limit reached"))
}

} // verus!

verus! {

// ---------------- the driver ----------------

pub struct Compiled {
    pub code: Vec<Op>,
    pub nslots: usize,
}

/// A successful lexing ends with `Eof`.
proof fn lemma_lex_ends_eof(b: Seq<u8>, i: int)
    requires pl_lex(b, i) is Ok,
    ensures pl_lex(b, i)->Ok_0.len() >= 1, pl_lex(b, i)->Ok_0.last().0 == Tok::Eof,
    decreases b.len() - i,
{
    if 0 <= i < b.len() {
        if is_ws(b[i]) {
            lemma_lex_ends_eof(b, i + 1);
        } else {
            let (t, e) = pl_token(b, i)->Some_0;
            lemma_lex_ends_eof(b, e);
            let rest = pl_lex(b, e)->Ok_0;
            assert((seq![(t, i)] + rest).last() == rest.last());
        }
    }
}

/// Lexing, parsing, name resolution, type checking and lowering, stopping at the first
/// error. The bytecode ends with `Halt`, and every instruction in it fits: jumps stay in
/// the code, and slots exist.
pub fn compile(src: &str) -> (r: Result<Compiled, CompileError>)
    ensures
        pl_lex(src.spec_bytes(), 0) matches Err(p) ==> r matches Err(e) && e.stage@ == "lexer"@ && e.pos == p,
        r matches Ok(c) ==> code_ok(c.code@, c.nslots as nat) && c.code@.len() >= 1 && c.code@.last() == Op::Halt,
        r matches Err(e) ==> e.stage@ == "lexer"@ || e.stage@ == "parser"@ || e.stage@ == "resolver"@ || e.stage@ == "types"@,
{
    let toks = lex(src)?;
    proof {
        lemma_lex_ends_eof(src.spec_bytes(), 0);
        let g = pl_lex(src.spec_bytes(), 0)->Ok_0;
        assert(toks@[toks@.len() - 1].tok == g[g.len() - 1].0);
    }
    let mut p = Parser::new(toks);
    let program = p.program()?;
    let mut res = Resolver::new();
    res.stmts(&program.stmts)?;
    let ghost u1 = res.uses_view();
    res.expr(&program.result)?;
    proof {
        lemma_prefix_grow_all(program.stmts@, u1, res.uses_view(), res.slots_view().len(), &res);
    }
    let n = res.num_slots();
    let mut slot_ty: Vec<Option<Ty>> = Vec::new();
    let mut k: usize = 0;
    while k < n
        invariant k <= n, slot_ty@.len() == k,
        decreases n - k,
    {
        slot_ty.push(None);
        k += 1;
    }
    let mut checker = Checker { res: &res, slot_ty };
    checker.stmts(&program.stmts)?;
    checker.expr(&program.result)?;
    let mut low = Lowerer { res: &res, code: Vec::new() };
    let ghost l0 = low;
    low.stmts(&program.stmts);
    let ghost l1 = low;
    low.expr(&program.result);
    proof { Lowerer::lemma_grew_trans(l0, l1, low, n as nat); }
    let ghost before = low.code@;
    low.code.push(Op::Halt);
    proof {
        assert forall|k: int| 0 <= k < low.code@.len() implies op_ok(#[trigger] low.code@[k], low.code@.len() as nat, n as nat) by {
            if k < before.len() {
                assert(low.code@[k] == before[k]);
                assert(op_ok(before[k], before.len() as nat, n as nat));
            }
        }
    }
    Ok(Compiled { code: low.code, nslots: n })
}

/// What was resolved before the result expression stays resolved after it.
proof fn lemma_prefix_grow_all(ss: Seq<Stmt>, u: Seq<(usize, usize)>, u2: Seq<(usize, usize)>, n: nat, res: &Resolver)
    requires
        stmts_resolved(ss, u, n), res.wf(), u2 == res.uses_view(), n == res.slots_view().len(),
        forall|pos: usize| #[trigger] use_get(u, pos) is Some ==> use_get(u2, pos) is Some,
    ensures stmts_resolved(ss, u2, n),
{
    assert forall|pos: usize| #[trigger] use_get(u2, pos) matches Some(s) ==> s < n by {
        res.lemma_uses_bound(pos);
    }
    assert forall|k: int| 0 <= k < ss.len() implies stmt_resolved(#[trigger] ss[k], u2, n) by {
        lemma_stmt_resolved_grow(ss[k], u, u2, n, n);
    }
}

impl Resolver {
    proof fn lemma_uses_bound(&self, pos: usize)
        requires self.wf(),
        ensures use_get(self.uses_view(), pos) matches Some(s) ==> s < self.slots_view().len(),
    {
        lemma_use_get_bound(self.uses@, self.slots@.len() as nat, pos);
    }
}

} // verus!
