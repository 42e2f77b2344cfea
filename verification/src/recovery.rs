//! Parse-error recovery. On an error the parser records a diagnostic, puts an error node in
//! the tree, and synchronizes: it skips to a token where a statement can safely restart.
//! The naive alternative skips one token and invents statements from the rest.

use vstd::prelude::*;
use vstd::string::{StringExecFns, StringSliceAdditionalSpecFns};
use crate::bytes::{is_ws, is_digit, is_alpha, is_alnum, ws, digit, alpha, alnum};
use crate::ore::{digits_end, digits_value, lemma_digits_end, lex_number};
use crate::spans::push_char;
use crate::text::{ascii_chars, ascii_string, is_ascii_seq, int_text, int_to_string, decimal, decimal_string, string_from_bytes};
use crate::resolver::{newlines, line_start};
use vstd::utf8::{valid_utf8, decode_utf8, is_char_boundary, is_char_boundary_start_end_of_seq,
    is_char_boundary_iff_not_is_continuation_byte, valid_utf8_split, length_of_first_scalar, pop_first_scalar};

verus! {

#[derive(Debug)]
pub enum T {
    Let,
    Name(String),
    Num(i64),
    Op(char),
    Eof,
}

#[derive(Debug)]
pub struct Tok {
    pub t: T,
    pub lo: usize,
    pub hi: usize,
}

/// A token kind as a value: names by their text.
pub enum TV {
    Let,
    Name(Seq<char>),
    Num(i64),
    Op(char),
    Eof,
}

pub open spec fn t_view(t: T) -> TV {
    match t {
        T::Let => TV::Let,
        T::Name(n) => TV::Name(n@),
        T::Num(n) => TV::Num(n),
        T::Op(c) => TV::Op(c),
        T::Eof => TV::Eof,
    }
}

pub open spec fn tok_view(k: Tok) -> (TV, usize, usize) {
    (t_view(k.t), k.lo, k.hi)
}

pub open spec fn toks_view(v: Seq<Tok>) -> Seq<(TV, usize, usize)> {
    v.map_values(|k: Tok| tok_view(k))
}

/// The end of the run of ASCII letters and digits from `i`.
pub open spec fn alnum_end(b: Seq<u8>, i: int) -> int
    decreases b.len() - i,
{
    if 0 <= i < b.len() && is_alnum(b[i]) { alnum_end(b, i + 1) } else { i }
}

pub proof fn lemma_alnum_end(b: Seq<u8>, i: int)
    requires 0 <= i <= b.len(),
    ensures i <= alnum_end(b, i) <= b.len(),
        forall|k: int| i <= k < alnum_end(b, i) ==> is_alnum(#[trigger] b[k]),
    decreases b.len() - i,
{
    if i < b.len() && is_alnum(b[i]) { lemma_alnum_end(b, i + 1); }
}

/// The word `b[lo..hi]` as a token kind.
pub open spec fn word_kind(b: Seq<u8>, lo: int, hi: int) -> TV {
    let w = b.subrange(lo, hi);
    if w == seq![108u8, 101, 116] { TV::Let } else { TV::Name(ascii_chars(w)) }
}

/// The tokens from byte `i` on, ending with `Eof` at the end of the input; `None` where a
/// number is too large for `i64`.
pub open spec fn lex_from(b: Seq<u8>, i: int) -> Option<Seq<(TV, usize, usize)>>
    decreases b.len() - i,
{
    if i < 0 || i >= b.len() {
        Some(seq![(TV::Eof, b.len() as usize, b.len() as usize)])
    } else {
        let c = b[i];
        if is_ws(c) {
            lex_from(b, i + 1)
        } else if is_digit(c) {
            let e = digits_end(b, i);
            proof { lemma_digits_end(b, i + 1); }
            if digits_value(b, i, e) > i64::MAX {
                None
            } else {
                match lex_from(b, e) {
                    Some(r) => Some(seq![(TV::Num(digits_value(b, i, e) as i64), i as usize, e as usize)] + r),
                    None => None,
                }
            }
        } else if is_alpha(c) {
            let e = alnum_end(b, i);
            proof { lemma_alnum_end(b, i + 1); }
            match lex_from(b, e) {
                Some(r) => Some(seq![(word_kind(b, i, e), i as usize, e as usize)] + r),
                None => None,
            }
        } else {
            match lex_from(b, i + 1) {
                Some(r) => Some(seq![(TV::Op(c as char), i as usize, (i + 1) as usize)] + r),
                None => None,
            }
        }
    }
}

/// The tokens of a source text, with `Eof` last; `None` where a number does not fit `i64`.
pub fn lex(src: &str) -> (r: Option<Vec<Tok>>)
    ensures
        match lex_from(src.spec_bytes(), 0) {
            Some(v) => r matches Some(t) && toks_view(t@) == v,
            None => r is None,
        },
{
    let b = src.as_bytes();
    let n = b.len();
    let mut out: Vec<Tok> = Vec::new();
    let mut i: usize = 0;
    while i < n
        invariant
            i <= n, n == b@.len(), b@ == src.spec_bytes(),
            match lex_from(b@, 0) {
                Some(all) => lex_from(b@, i as int) matches Some(rest) && toks_view(out@) + rest == all,
                None => lex_from(b@, i as int) is None,
            },
        decreases n - i,
    {
        let c = b[i];
        let s = i;
        if ws(c) {
            i += 1;
            continue;
        }
        let ghost before = out@;
        if digit(c) {
            let (v, e) = lex_number(b, s);
            proof { lemma_digits_end(b@, s + 1); }
            match v {
                Some(v) => {
                    out.push(Tok { t: T::Num(v), lo: s, hi: e });
                    i = e;
                },
                None => {
                    assert(digits_value(b@, s as int, e as int) > i64::MAX);
                    assert(lex_from(b@, s as int) is None);
                    return None;
                },
            }
        } else if alpha(c) {
            let mut e = s;
            while e < n && alnum(b[e])
                invariant s <= e <= n, n == b@.len(), alnum_end(b@, e as int) == alnum_end(b@, s as int),
                decreases n - e,
            {
                e += 1;
            }
            proof { lemma_alnum_end(b@, s as int); }
            let t = if e - s == 3 && b[s] == 108 && b[s + 1] == 101 && b[s + 2] == 116 {
                assert(b@.subrange(s as int, e as int) =~= seq![108u8, 101, 116]);
                T::Let
            } else {
                proof {
                    let w = b@.subrange(s as int, e as int);
                    if w == seq![108u8, 101, 116] {
                        assert(w.len() == 3);
                        assert(b@[s as int] == w[0] && b@[s + 1] == w[1] && b@[s + 2] == w[2]);
                    }
                }
                let piece = &b[s..e];
                assert(is_ascii_seq(piece@)) by {
                    assert forall|k: int| 0 <= k < piece@.len() implies #[trigger] piece@[k] < 128 by {
                        assert(piece@[k] == b@[s + k]);
                    }
                }
                T::Name(ascii_string(piece))
            };
            out.push(Tok { t, lo: s, hi: e });
            i = e;
        } else {
            out.push(Tok { t: T::Op(c as char), lo: s, hi: s + 1 });
            i += 1;
        }
        assert(toks_view(out@) =~= toks_view(before).push(tok_view(out@.last())));
    }
    let ghost before = out@;
    out.push(Tok { t: T::Eof, lo: n, hi: n });
    assert(toks_view(out@) =~= toks_view(before).push(tok_view(out@.last())));
    Some(out)
}

/// A diagnostic: a message and the byte span it points at.
pub struct Diag {
    pub msg: String,
    pub lo: usize,
    pub hi: usize,
}

pub open spec fn diag_view(d: Diag) -> (Seq<char>, usize, usize) {
    (d.msg@, d.lo, d.hi)
}

pub open spec fn diags_view(v: Seq<Diag>) -> Seq<(Seq<char>, usize, usize)> {
    v.map_values(|d: Diag| diag_view(d))
}

#[derive(Debug)]
pub enum Stmt {
    Let(String, String),
    Expr(String),
    Error,
}

/// A statement as a value.
pub enum SV {
    Let(Seq<char>, Seq<char>),
    Expr(Seq<char>),
    Error,
}

pub open spec fn stmt_view(s: Stmt) -> SV {
    match s {
        Stmt::Let(n, e) => SV::Let(n@, e@),
        Stmt::Expr(e) => SV::Expr(e@),
        Stmt::Error => SV::Error,
    }
}

pub open spec fn stmts_view(v: Seq<Stmt>) -> Seq<SV> {
    v.map_values(|s: Stmt| stmt_view(s))
}

/// How the parser gets back on its feet after an error.
#[derive(Debug, Clone, Copy, PartialEq, Eq, Structural)]
pub enum Recovery {
    Synchronize,
    SkipOneToken,
}

pub struct Parser {
    pub toks: Vec<Tok>,
    pub at: usize,
    pub diags: Vec<Diag>,
    pub mode: Recovery,
}

/// A token list the parser can walk: it ends with `Eof`, and every start leaves room
/// for a one-byte span.
pub open spec fn toks_ok(ts: Seq<(TV, usize, usize)>) -> bool {
    &&& ts.len() > 0
    &&& ts.last().0 is Eof
    &&& forall|k: int| 0 <= k < ts.len() ==> (#[trigger] ts[k]).1 < usize::MAX
}

/// How a token is described in a message.
pub open spec fn found_text(k: TV) -> Seq<char> {
    match k {
        TV::Let => "`let`"@,
        TV::Name(n) => "`"@ + n + "`"@,
        TV::Num(n) => "`"@ + ascii_chars(int_text(n as int)) + "`"@,
        TV::Op(c) => "`"@ + seq![c] + "`"@,
        TV::Eof => "end of input"@,
    }
}

/// The diagnostic for wanting `what` at token `at`.
pub open spec fn fail_spec(ts: Seq<(TV, usize, usize)>, at: int, what: Seq<char>) -> (Seq<char>, usize, usize) {
    let t = ts[at];
    ("expected "@ + what + ", found "@ + found_text(t.0), t.1,
        if t.2 >= t.1 + 1 { t.2 } else { (t.1 + 1) as usize })
}

/// Token `at` is the operator `c`.
pub open spec fn is_op_at(ts: Seq<(TV, usize, usize)>, at: int, c: char) -> bool {
    0 <= at < ts.len() && (ts[at].0 matches TV::Op(x) && x == c)
}

/// The text of `c` in backquotes.
pub open spec fn quoted(c: char) -> Seq<char> {
    "`"@ + seq![c] + "`"@
}

/// `expr := term (('+'|'-'|'*') term)*`, from token `at`: the tree in prefix notation or
/// a diagnostic, and where the parser stands afterwards.
pub open spec fn expr_spec(ts: Seq<(TV, usize, usize)>, at: int) -> (Result<Seq<char>, (Seq<char>, usize, usize)>, int)
    decreases ts.len() - at, 2int,
{
    if at < 0 || at >= ts.len() {
        (Ok(Seq::empty()), at)
    } else {
        let (r, p) = term_spec(ts, at);
        match r {
            Err(d) => (Err(d), p),
            Ok(l) => if at <= p <= ts.len() { expr_loop(ts, p, l) } else { (Ok(l), p) },
        }
    }
}

pub open spec fn expr_loop(ts: Seq<(TV, usize, usize)>, at: int, lhs: Seq<char>) -> (Result<Seq<char>, (Seq<char>, usize, usize)>, int)
    decreases ts.len() - at, 0int,
{
    if at < 0 || at >= ts.len() {
        (Ok(lhs), at)
    } else {
        match ts[at].0 {
            TV::Op(op) => if op == '+' || op == '-' || op == '*' {
                let (r, p) = term_spec(ts, at + 1);
                match r {
                    Err(d) => (Err(d), p),
                    Ok(rhs) => if at < p <= ts.len() {
                        expr_loop(ts, p, "("@ + seq![op] + " "@ + lhs + " "@ + rhs + ")"@)
                    } else {
                        (Ok(lhs), p)
                    },
                }
            } else {
                (Ok(lhs), at)
            },
            _ => (Ok(lhs), at),
        }
    }
}

/// `term := NUM | NAME | '(' expr ')'`.
pub open spec fn term_spec(ts: Seq<(TV, usize, usize)>, at: int) -> (Result<Seq<char>, (Seq<char>, usize, usize)>, int)
    decreases ts.len() - at, 1int,
{
    if at < 0 || at >= ts.len() {
        (Ok(Seq::empty()), at)
    } else {
        match ts[at].0 {
            TV::Num(n) => (Ok(ascii_chars(int_text(n as int))), at + 1),
            TV::Name(n) => (Ok(n), at + 1),
            TV::Op(c) => if c == '(' {
                let (r, p) = expr_spec(ts, at + 1);
                match r {
                    Err(d) => (Err(d), p),
                    Ok(e) => if is_op_at(ts, p, ')') {
                        (Ok(e), p + 1)
                    } else {
                        (Err(fail_spec(ts, p, quoted(')'))), p)
                    },
                }
            } else {
                (Err(fail_spec(ts, at, "an expression"@)), at)
            },
            _ => (Err(fail_spec(ts, at, "an expression"@)), at),
        }
    }
}

/// `stmt := 'let' NAME '=' expr ';' | expr ';'`.
#[verifier::opaque]
pub open spec fn stmt_spec(ts: Seq<(TV, usize, usize)>, at: int) -> (Result<SV, (Seq<char>, usize, usize)>, int) {
    if at < 0 || at + 1 >= ts.len() {
        (Ok(SV::Error), at)
    } else if ts[at].0 is Let {
        let p = at + 1;
        match ts[p].0 {
            TV::Name(n) => {
                let p2 = p + 1;
                if is_op_at(ts, p2, '=') {
                    let (r, p3) = expr_spec(ts, p2 + 1);
                    match r {
                        Err(d) => (Err(d), p3),
                        Ok(e) => if is_op_at(ts, p3, ';') {
                            (Ok(SV::Let(n, e)), p3 + 1)
                        } else {
                            (Err(fail_spec(ts, p3, quoted(';'))), p3)
                        },
                    }
                } else {
                    (Err(fail_spec(ts, p2, quoted('='))), p2)
                }
            },
            _ => (Err(fail_spec(ts, p, "a name after `let`"@)), p),
        }
    } else {
        let (r, p) = expr_spec(ts, at);
        match r {
            Err(d) => (Err(d), p),
            Ok(e) => if is_op_at(ts, p, ';') {
                (Ok(SV::Expr(e)), p + 1)
            } else {
                (Err(fail_spec(ts, p, quoted(';'))), p)
            },
        }
    }
}

/// Synchronizing: past the `;` that ends the broken statement, or up to a `let` or the end.
pub open spec fn sync_from(ts: Seq<(TV, usize, usize)>, at: int) -> int
    decreases ts.len() - at,
{
    if at < 0 || at >= ts.len() {
        at
    } else {
        match ts[at].0 {
            TV::Op(c) => if c == ';' { at + 1 } else { sync_from(ts, at + 1) },
            TV::Let => at,
            TV::Eof => at,
            _ => sync_from(ts, at + 1),
        }
    }
}

pub open spec fn recover_spec(ts: Seq<(TV, usize, usize)>, at: int, mode: Recovery) -> int {
    match mode {
        Recovery::SkipOneToken => if ts[at].0 is Eof { at } else { at + 1 },
        Recovery::Synchronize => sync_from(ts, at),
    }
}

/// The statements from token `at` on, an error node for each statement that fails, and
/// the diagnostics in order.
pub open spec fn program_spec(ts: Seq<(TV, usize, usize)>, at: int, mode: Recovery) -> (Seq<SV>, Seq<(Seq<char>, usize, usize)>)
    decreases ts.len() - at,
{
    if at < 0 || at >= ts.len() || ts[at].0 is Eof {
        (Seq::empty(), Seq::empty())
    } else {
        let (r, p) = stmt_spec(ts, at);
        match r {
            Ok(st) => if at < p <= ts.len() {
                let (ss, ds) = program_spec(ts, p, mode);
                (seq![st] + ss, ds)
            } else {
                (seq![st], Seq::empty())
            },
            Err(d) => {
                let q = recover_spec(ts, p, mode);
                if at < q <= ts.len() {
                    let (ss, ds) = program_spec(ts, q, mode);
                    (seq![SV::Error] + ss, seq![d] + ds)
                } else {
                    (seq![SV::Error], seq![d])
                }
            },
        }
    }
}

pub open spec fn res_view(r: Result<String, Diag>) -> Result<Seq<char>, (Seq<char>, usize, usize)> {
    match r {
        Ok(s) => Ok(s@),
        Err(d) => Err(diag_view(d)),
    }
}

fn clone_tok(k: &Tok) -> (r: Tok)
    ensures tok_view(r) == tok_view(*k),
{
    let t = match &k.t {
        T::Let => T::Let,
        T::Name(n) => T::Name(n.clone()),
        T::Num(n) => T::Num(*n),
        T::Op(c) => T::Op(*c),
        T::Eof => T::Eof,
    };
    Tok { t, lo: k.lo, hi: k.hi }
}

impl Parser {
    /// The parser is on a token of a well-formed list.
    pub open spec fn wf(&self) -> bool {
        toks_ok(toks_view(self.toks@)) && self.at < self.toks@.len()
    }

    pub open spec fn ts(&self) -> Seq<(TV, usize, usize)> {
        toks_view(self.toks@)
    }

    /// Only the position moved.
    pub open spec fn same_but_at(&self, other: &Parser) -> bool {
        self.toks@ == other.toks@ && self.diags@ == other.diags@ && self.mode == other.mode
    }

    pub fn new(toks: Vec<Tok>, mode: Recovery) -> (p: Parser)
        requires toks_ok(toks_view(toks@)),
        ensures p.wf(), p.toks@ == toks@, p.at == 0, p.diags@.len() == 0, p.mode == mode,
    {
        Parser { toks, at: 0, diags: Vec::new(), mode }
    }

    pub fn peek(&self) -> (t: &Tok)
        requires self.wf(),
        ensures tok_view(*t) == self.ts()[self.at as int],
    {
        &self.toks[self.at]
    }

    /// Takes the current token; the position stays on `Eof`.
    pub fn bump(&mut self) -> (t: Tok)
        requires old(self).wf(),
        ensures
            final(self).wf(), final(self).same_but_at(old(self)),
            tok_view(t) == old(self).ts()[old(self).at as int],
            (old(self).ts()[old(self).at as int].0 is Eof) ==> final(self).at == old(self).at,
            !(old(self).ts()[old(self).at as int].0 is Eof) ==> final(self).at == old(self).at + 1,
    {
        let _n = self.toks.len();
        let t = clone_tok(&self.toks[self.at]);
        let is_eof = match t.t { T::Eof => true, _ => false };
        if !is_eof {
            proof {
                let ts = self.ts();
                if self.at + 1 >= ts.len() {
                    assert(ts[self.at as int] == ts.last());
                }
            }
            self.at += 1;
        }
        t
    }

    /// The diagnostic for wanting `what` here.
    pub fn fail(&self, what: &str) -> (d: Diag)
        requires self.wf(),
        ensures diag_view(d) == fail_spec(self.ts(), self.at as int, what@),
    {
        let t = self.peek();
        let mut msg = String::from_str("expected ");
        msg.append(what);
        msg.append(", found ");
        match &t.t {
            T::Let => { msg.append("`let`"); },
            T::Name(n) => { msg.append("`"); msg.append(n.as_str()); msg.append("`"); },
            T::Num(n) => { let s = int_to_string(*n); msg.append("`"); msg.append(s.as_str()); msg.append("`"); },
            T::Op(c) => { msg.append("`"); push_char(&mut msg, *c); msg.append("`"); },
            T::Eof => { msg.append("end of input"); },
        }
        proof {
            assert(self.ts()[self.at as int].1 < usize::MAX);
        }
        let hi = if t.hi >= t.lo + 1 { t.hi } else { t.lo + 1 };
        let d = Diag { msg, lo: t.lo, hi };
        proof {
            reveal_strlit("`let`");
            reveal_strlit("`");
            assert(d.msg@ =~= fail_spec(self.ts(), self.at as int, what@).0);
        }
        d
    }

    /// Takes the operator `c`, or reports it missing.
    pub fn expect_op(&mut self, c: char) -> (r: Result<(), Diag>)
        requires old(self).wf(),
        ensures
            final(self).wf(), final(self).same_but_at(old(self)),
            is_op_at(old(self).ts(), old(self).at as int, c) ==> r is Ok && final(self).at == old(self).at + 1,
            !is_op_at(old(self).ts(), old(self).at as int, c) ==> final(self).at == old(self).at
                && (r matches Err(d) && diag_view(d) == fail_spec(old(self).ts(), old(self).at as int, quoted(c))),
    {
        let t = self.peek();
        let here = match &t.t { T::Op(x) => *x == c, _ => false };
        assert(here == is_op_at(self.ts(), self.at as int, c)) by {
            assert(tok_view(*t) == self.ts()[self.at as int]);
        }
        if here {
            assert(!(self.ts()[self.at as int].0 is Eof));
            let ghost a0 = self.at;
            self.bump();
            assert(self.at == a0 + 1);
            Ok(())
        } else {
            let mut what = String::from_str("`");
            push_char(&mut what, c);
            what.append("`");
            proof { reveal_strlit("`"); assert(what@ =~= quoted(c)); }
            Err(self.fail(what.as_str()))
        }
    }

    /// `expr := term (('+'|'-'|'*') term)*`, written in prefix notation.
    pub fn expr(&mut self) -> (r: Result<String, Diag>)
        requires old(self).wf(),
        ensures
            final(self).wf(), final(self).same_but_at(old(self)), final(self).at >= old(self).at,
            (res_view(r), final(self).at as int) == expr_spec(old(self).ts(), old(self).at as int),
        decreases old(self).toks@.len() - old(self).at, 2int,
    {
        let ghost ts = self.ts();
        let ghost a0 = self.at;
        let mut lhs = match self.term() {
            Ok(l) => l,
            Err(d) => { return Err(d); },
        };
        let ghost p0 = self.at;
        let ghost l0 = lhs@;
        assert(a0 <= p0 <= ts.len());
        loop
            invariant
                self.wf(), self.ts() == ts, self.toks@.len() == ts.len(), a0 <= p0 <= self.at,
                expr_spec(ts, a0 as int) == expr_loop(ts, p0 as int, l0),
                expr_loop(ts, self.at as int, lhs@) == expr_loop(ts, p0 as int, l0),
                self.same_but_at(old(self)), a0 == old(self).at, ts == old(self).ts(),
            decreases self.toks@.len() - self.at,
        {
            let op = match &self.peek().t {
                T::Op(x) => *x,
                _ => { return Ok(lhs); },
            };
            if !(op == '+' || op == '-' || op == '*') {
                return Ok(lhs);
            }
            let ghost a1 = self.at;
            self.bump();
            let rhs = match self.term() {
                Ok(x) => x,
                Err(d) => { return Err(d); },
            };
            assert(a1 < self.at <= ts.len());
            let mut t = String::from_str("(");
            push_char(&mut t, op);
            t.append(" ");
            t.append(lhs.as_str());
            t.append(" ");
            t.append(rhs.as_str());
            t.append(")");
            proof {
                reveal_strlit("(");
                reveal_strlit(" ");
                reveal_strlit(")");
            }
            assert(t@ =~= "("@ + seq![op] + " "@ + lhs@ + " "@ + rhs@ + ")"@);
            lhs = t;
        }
    }

    /// `term := NUM | NAME | '(' expr ')'`.
    pub fn term(&mut self) -> (r: Result<String, Diag>)
        requires old(self).wf(),
        ensures
            final(self).wf(), final(self).same_but_at(old(self)), final(self).at >= old(self).at,
            (res_view(r), final(self).at as int) == term_spec(old(self).ts(), old(self).at as int),
        decreases old(self).toks@.len() - old(self).at, 1int,
    {
        let ghost ts = self.ts();
        let kind = match &self.peek().t {
            T::Num(n) => 0u8,
            T::Name(n) => 1u8,
            T::Op(c) => if *c == '(' { 2u8 } else { 3u8 },
            _ => 3u8,
        };
        if kind == 0 {
            let t = self.bump();
            match t.t {
                T::Num(n) => Ok(int_to_string(n)),
                _ => Ok(String::new()),
            }
        } else if kind == 1 {
            let t = self.bump();
            match t.t {
                T::Name(n) => Ok(n),
                _ => Ok(String::new()),
            }
        } else if kind == 2 {
            self.bump();
            let e = match self.expr() {
                Ok(e) => e,
                Err(d) => { return Err(d); },
            };
            match self.expect_op(')') {
                Ok(()) => Ok(e),
                Err(d) => Err(d),
            }
        } else {
            proof { reveal_strlit("an expression"); }
            Err(self.fail("an expression"))
        }
    }

    /// `stmt := 'let' NAME '=' expr ';' | expr ';'`.
    pub fn stmt(&mut self) -> (r: Result<Stmt, Diag>)
        requires old(self).wf(), old(self).at + 1 < old(self).toks@.len(),
        ensures
            final(self).wf(), final(self).same_but_at(old(self)), final(self).at >= old(self).at,
            (old(self).ts()[old(self).at as int].0 is Let) ==> final(self).at > old(self).at,
            r is Ok ==> final(self).at > old(self).at,
            ({
                let (sr, p) = stmt_spec(old(self).ts(), old(self).at as int);
                &&& p == final(self).at
                &&& match sr {
                    Ok(sv) => r matches Ok(st) && stmt_view(st) == sv,
                    Err(d) => r matches Err(e) && diag_view(e) == d,
                }
            }),
    {
        reveal(stmt_spec);
        let ghost ts = self.ts();
        let is_let = match &self.peek().t { T::Let => true, _ => false };
        if is_let {
            self.bump();
            let is_name = match &self.peek().t { T::Name(_) => true, _ => false };
            if !is_name {
                proof { reveal_strlit("a name after `let`"); }
                return Err(self.fail("a name after `let`"));
            }
            let t = self.bump();
            let name = match t.t { T::Name(n) => n, _ => String::new() };
            match self.expect_op('=') {
                Ok(()) => {},
                Err(d) => { return Err(d); },
            }
            let e = match self.expr() {
                Ok(e) => e,
                Err(d) => { return Err(d); },
            };
            match self.expect_op(';') {
                Ok(()) => Ok(Stmt::Let(name, e)),
                Err(d) => Err(d),
            }
        } else {
            let e = match self.expr() {
                Ok(e) => e,
                Err(d) => { return Err(d); },
            };
            match self.expect_op(';') {
                Ok(()) => Ok(Stmt::Expr(e)),
                Err(d) => Err(d),
            }
        }
    }

    /// Gets back to a place where a statement can start.
    pub fn recover(&mut self)
        requires old(self).wf(),
        ensures
            final(self).wf(), final(self).same_but_at(old(self)), final(self).at >= old(self).at,
            final(self).at == recover_spec(old(self).ts(), old(self).at as int, old(self).mode),
            !(old(self).ts()[old(self).at as int].0 is Let) && !(old(self).ts()[old(self).at as int].0 is Eof)
                ==> final(self).at > old(self).at,
    {
        let ghost ts = self.ts();
        let ghost a0 = self.at;
        match self.mode {
            Recovery::SkipOneToken => { self.bump(); },
            Recovery::Synchronize => {
                loop
                    invariant_except_break
                        sync_from(ts, self.at as int) == sync_from(ts, a0 as int),
                    invariant
                        self.wf(), self.ts() == ts, self.same_but_at(old(self)), a0 <= self.at,
                    ensures
                        self.wf(), self.ts() == ts, self.same_but_at(old(self)), a0 <= self.at,
                        self.at == sync_from(ts, a0 as int),
                    decreases self.toks@.len() - self.at,
                {
                    let k = match &self.peek().t {
                        T::Op(c) => if *c == ';' { 0u8 } else { 2u8 },
                        T::Let => 1u8,
                        T::Eof => 1u8,
                        _ => 2u8,
                    };
                    if k == 0 {
                        self.bump();
                        break;
                    } else if k == 1 {
                        break;
                    } else {
                        self.bump();
                    }
                }
                proof { lemma_sync_moves(ts, a0 as int); }
            },
        }
    }

    /// Parses statements to the end, recording a diagnostic and an error node for each
    /// statement that fails and recovering after it.
    #[verifier::rlimit(50)]
    pub fn program(&mut self) -> (out: Vec<Stmt>)
        requires old(self).wf(),
        ensures
            final(self).wf(), final(self).toks@ == old(self).toks@, final(self).mode == old(self).mode,
            stmts_view(out@) == program_spec(old(self).ts(), old(self).at as int, old(self).mode).0,
            diags_view(final(self).diags@) == diags_view(old(self).diags@)
                + program_spec(old(self).ts(), old(self).at as int, old(self).mode).1,
    {
        let ghost ts = self.ts();
        let ghost a0 = self.at;
        let ghost d0 = diags_view(self.diags@);
        let mut out: Vec<Stmt> = Vec::new();
        loop
            invariant
                self.wf(), self.ts() == ts, self.toks@ == old(self).toks@, self.mode == old(self).mode,
                ({
                    let (ss, ds) = program_spec(ts, self.at as int, self.mode);
                    &&& stmts_view(out@) + ss == program_spec(ts, a0 as int, self.mode).0
                    &&& diags_view(self.diags@) + ds == d0 + program_spec(ts, a0 as int, self.mode).1
                }),
                d0 == diags_view(old(self).diags@), a0 == old(self).at, ts == old(self).ts(),
            ensures
                self.wf(), self.toks@ == old(self).toks@, self.mode == old(self).mode,
                stmts_view(out@) == program_spec(ts, a0 as int, self.mode).0,
                diags_view(self.diags@) == d0 + program_spec(ts, a0 as int, self.mode).1,
            decreases self.toks@.len() - self.at,
        {
            let done = match &self.peek().t { T::Eof => true, _ => false };
            if done {
                assert(ts[self.at as int].0 is Eof);
                assert(program_spec(ts, self.at as int, self.mode).0 =~= Seq::<SV>::empty());
                assert(program_spec(ts, self.at as int, self.mode).1 =~= Seq::<(Seq<char>, usize, usize)>::empty());
                assert(stmts_view(out@) =~= stmts_view(out@) + Seq::<SV>::empty());
                assert(diags_view(self.diags@) =~= diags_view(self.diags@) + Seq::<(Seq<char>, usize, usize)>::empty());
                break;
            }
            let ghost a1 = self.at;
            proof {
                if a1 + 1 >= ts.len() {
                    assert(ts[a1 as int] == ts.last());
                }
            }
            let ghost before = out@;
            let ghost dbefore = self.diags@;
            match self.stmt() {
                Ok(st) => {
                    out.push(st);
                    assert(stmts_view(out@) =~= stmts_view(before).push(stmt_view(out@.last())));
                },
                Err(d) => {
                    let ghost dv = diag_view(d);
                    self.diags.push(d);
                    assert(diags_view(self.diags@) =~= diags_view(dbefore).push(dv));
                    out.push(Stmt::Error);
                    assert(stmts_view(out@) =~= stmts_view(before).push(SV::Error));
                    self.recover();
                },
            }
            assert(stmts_view(out@) + program_spec(ts, self.at as int, self.mode).0 =~= program_spec(ts, a0 as int, self.mode).0);
            assert(diags_view(self.diags@) + program_spec(ts, self.at as int, self.mode).1 =~= d0 + program_spec(ts, a0 as int, self.mode).1);
        }
        out
    }
}

proof fn lemma_sync_moves(ts: Seq<(TV, usize, usize)>, at: int)
    requires 0 <= at < ts.len(),
    ensures
        sync_from(ts, at) >= at,
        !(ts[at].0 is Let) && !(ts[at].0 is Eof) ==> sync_from(ts, at) > at,
    decreases ts.len() - at,
{
    if at + 1 < ts.len() {
        lemma_sync_moves(ts, at + 1);
    }
    assert(sync_from(ts, at) == (match ts[at].0 {
        TV::Op(c) => if c == ';' { at + 1 } else { sync_from(ts, at + 1) },
        TV::Let => at,
        TV::Eof => at,
        _ => sync_from(ts, at + 1),
    }));
}

/// Where the line holding position `n` ends: at the next line feed, or the end.
pub open spec fn line_end(b: Seq<u8>, n: int) -> int
    decreases b.len() - n,
{
    if n < 0 || n >= b.len() { b.len() as int } else if b[n] == 10 { n } else { line_end(b, n + 1) }
}

pub open spec fn repeat_char(c: char, n: int) -> Seq<char> {
    Seq::new(n as nat, |i: int| c)
}

pub open spec fn dec(n: int) -> Seq<char> {
    ascii_chars(decimal(n as nat))
}

/// A diagnostic as the compiler prints it: the message, the line and column, the source
/// line, and carets under the span.
pub open spec fn render_spec(b: Seq<u8>, msg: Seq<char>, lo: int, hi: int) -> Seq<char> {
    let ls = line_start(b, lo);
    let le = line_end(b, lo);
    let ln = newlines(b, lo) + 1int;
    "error: "@ + msg + "\n --> line "@ + dec(ln) + ", col "@ + dec(lo - ls + 1) + "\n  |\n"@
        + dec(ln) + " | "@ + decode_utf8(b.subrange(ls, le)) + "\n  | "@
        + repeat_char(' ', lo - ls) + repeat_char('^', hi - lo)
}

proof fn lemma_boundary_after_ascii(b: Seq<u8>, i: int)
    requires valid_utf8(b), 0 <= i < b.len(), b[i] < 128,
    ensures is_char_boundary(b, i + 1),
{
    broadcast use is_char_boundary_start_end_of_seq;
    if i + 1 == b.len() {
        assert(is_char_boundary(b, b.len() as int));
    } else {
        is_char_boundary_iff_not_is_continuation_byte(b, i);
        valid_utf8_split(b, i);
        let s = b.subrange(i, b.len() as int);
        assert(valid_utf8(s));
        assert(length_of_first_scalar(s) == 1);
        let u = pop_first_scalar(s);
        assert(valid_utf8(u));
        assert(u =~= b.subrange(i + 1, b.len() as int));
        is_char_boundary_iff_not_is_continuation_byte(u, 0);
        assert(u[0] == b[i + 1]);
        is_char_boundary_iff_not_is_continuation_byte(b, i + 1);
    }
}

proof fn lemma_line_start(b: Seq<u8>, n: int)
    requires 0 <= n <= b.len(),
    ensures 0 <= line_start(b, n) <= n, line_start(b, n) > 0 ==> b[line_start(b, n) - 1] == 10,
    decreases n,
{
    if n > 0 && b[n - 1] != 10 { lemma_line_start(b, n - 1); }
}

proof fn lemma_line_end(b: Seq<u8>, n: int)
    requires 0 <= n <= b.len(),
    ensures n <= line_end(b, n) <= b.len(), line_end(b, n) < b.len() ==> b[line_end(b, n)] == 10,
    decreases b.len() - n,
{
    if n < b.len() && b[n] != 10 { lemma_line_end(b, n + 1); }
}

proof fn lemma_newlines_le(b: Seq<u8>, n: int)
    requires 0 <= n <= b.len(),
    ensures newlines(b, n) <= n,
    decreases n,
{
    if n > 0 { lemma_newlines_le(b, n - 1); }
}

/// The line of a valid text between two line breaks is valid UTF-8 too.
proof fn lemma_line_valid(b: Seq<u8>, lo: int)
    requires valid_utf8(b), 0 <= lo <= b.len(),
    ensures valid_utf8(b.subrange(line_start(b, lo), line_end(b, lo))),
{
    broadcast use is_char_boundary_start_end_of_seq;
    lemma_line_start(b, lo);
    lemma_line_end(b, lo);
    let ls = line_start(b, lo);
    let le = line_end(b, lo);
    if ls > 0 {
        lemma_boundary_after_ascii(b, ls - 1);
    }
    valid_utf8_split(b, ls);
    let t = b.subrange(ls, b.len() as int);
    assert(valid_utf8(t));
    let k = le - ls;
    if k < t.len() {
        assert(t[k] == 10);
        is_char_boundary_iff_not_is_continuation_byte(t, k);
    } else {
        assert(is_char_boundary(t, t.len() as int));
    }
    valid_utf8_split(t, k);
    assert(t.subrange(0, k) =~= b.subrange(ls, le));
}

fn push_repeat(s: &mut String, c: char, n: usize)
    ensures final(s)@ == old(s)@ + repeat_char(c, n as int),
{
    let mut k: usize = 0;
    while k < n
        invariant k <= n, s@ == old(s)@ + repeat_char(c, k as int),
        decreases n - k,
    {
        push_char(s, c);
        k += 1;
        assert(s@ =~= old(s)@ + repeat_char(c, k as int));
    }
}

/// Renders a diagnostic against its source: message, location, the source line, and a
/// caret under each byte of the span.
pub fn render(src: &str, d: &Diag) -> (s: String)
    requires
        d.lo <= d.hi, d.lo <= src.spec_bytes().len(), d.lo < usize::MAX,
        is_char_boundary(src.spec_bytes(), d.lo as int),
    ensures s@ == render_spec(src.spec_bytes(), d.msg@, d.lo as int, d.hi as int),
{
    broadcast use vstd::utf8::encode_utf8_valid_utf8;
    let b = src.as_bytes();
    let lo = d.lo;
    assert(valid_utf8(b@));
    let mut ls = lo;
    while ls > 0 && b[ls - 1] != 10
        invariant ls <= lo, lo <= b@.len(), line_start(b@, ls as int) == line_start(b@, lo as int),
        decreases ls,
    {
        ls -= 1;
    }
    let mut le = lo;
    while le < b.len() && b[le] != 10
        invariant lo <= le <= b@.len(), line_end(b@, le as int) == line_end(b@, lo as int),
        decreases b@.len() - le,
    {
        le += 1;
    }
    let mut lines: usize = 0;
    let mut i: usize = 0;
    proof { lemma_newlines_le(b@, lo as int); }
    while i < lo
        invariant i <= lo, lo <= b@.len(), lines == newlines(b@, i as int), lines <= i,
        decreases lo - i,
    {
        if b[i] == 10 {
            lines += 1;
        }
        i += 1;
    }
    let line_no = lines + 1;
    let col = lo - ls + 1;
    proof { lemma_line_valid(b@, lo as int); }
    let line = string_from_bytes(&b[ls..le]);
    let ln = decimal_string(line_no as u64);
    let cn = decimal_string(col as u64);
    let mut s = String::from_str("error: ");
    s.append(d.msg.as_str());
    s.append("\n --> line ");
    s.append(ln.as_str());
    s.append(", col ");
    s.append(cn.as_str());
    s.append("\n  |\n");
    s.append(ln.as_str());
    s.append(" | ");
    s.append(line.as_str());
    s.append("\n  | ");
    push_repeat(&mut s, ' ', lo - ls);
    push_repeat(&mut s, '^', d.hi - lo);
    s
}

} // verus!
