//! Ore expressions by Pratt parsing (top-down operator precedence). All precedence and
//! associativity lives in three small tables; one loop does the parsing. `**` is not part of
//! Ore: it shows that a new operator is one table row.

use vstd::prelude::*;
use vstd::string::{StringExecFns, StringSliceAdditionalSpecFns};
use crate::bytes::{is_ws, is_digit, is_alpha, is_ident_byte, byte_at, ws, digit, alpha, ident_byte, get};
use crate::lexer::{ident_end, lemma_scan_ends};
use crate::ore::{digits_end, digits_value, lemma_digits_end, lex_number};
use crate::text::{ascii_chars, ascii_string, is_ascii_seq, int_to_string, int_text, decimal, decimal_string};

verus! {

/// The operators and punctuation of the expression language.
#[derive(Debug, Clone, Copy, PartialEq, Eq, Structural)]
pub enum Op {
    Pow, EqEq, Ne, Le, Ge, AndAnd, OrOr,
    Plus, Minus, Star, Slash, Percent, Lt, Gt, Assign, Bang,
    LParen, RParen, Comma, LBrace, RBrace, Semi,
}

pub open spec fn op_spelling(op: Op) -> Seq<char> {
    match op {
        Op::Pow => "**"@, Op::EqEq => "=="@, Op::Ne => "!="@, Op::Le => "<="@, Op::Ge => ">="@,
        Op::AndAnd => "&&"@, Op::OrOr => "||"@, Op::Plus => "+"@, Op::Minus => "-"@,
        Op::Star => "*"@, Op::Slash => "/"@, Op::Percent => "%"@, Op::Lt => "<"@, Op::Gt => ">"@,
        Op::Assign => "="@, Op::Bang => "!"@, Op::LParen => "("@, Op::RParen => ")"@,
        Op::Comma => ","@, Op::LBrace => "{"@, Op::RBrace => "}"@, Op::Semi => ";"@,
    }
}

/// How an operator is written.
pub fn op_str(op: Op) -> (s: &'static str)
    ensures s@ == op_spelling(op),
{
    match op {
        Op::Pow => "**", Op::EqEq => "==", Op::Ne => "!=", Op::Le => "<=", Op::Ge => ">=",
        Op::AndAnd => "&&", Op::OrOr => "||", Op::Plus => "+", Op::Minus => "-",
        Op::Star => "*", Op::Slash => "/", Op::Percent => "%", Op::Lt => "<", Op::Gt => ">",
        Op::Assign => "=", Op::Bang => "!", Op::LParen => "(", Op::RParen => ")",
        Op::Comma => ",", Op::LBrace => "{", Op::RBrace => "}", Op::Semi => ";",
    }
}

#[derive(Debug)]
pub enum Tok {
    Num(i64),
    Name(String),
    Op(Op),
    Eof,
}

/// A token as a value: names by their text.
pub enum TokV {
    Num(i64),
    Name(Seq<char>),
    Op(Op),
    Eof,
}

pub open spec fn tok_view(t: Tok) -> TokV {
    match t {
        Tok::Num(n) => TokV::Num(n),
        Tok::Name(s) => TokV::Name(s@),
        Tok::Op(op) => TokV::Op(op),
        Tok::Eof => TokV::Eof,
    }
}

pub open spec fn toks_view(t: Seq<Tok>) -> Seq<TokV> {
    t.map_values(|x: Tok| tok_view(x))
}

// ---------------- the lexer ----------------

/// The operator spelled at a byte and the one after it: two-byte operators first.
pub open spec fn op_at(c: u8, n: Option<u8>) -> Option<(Op, int)> {
    if c == 42 && n == Some(42u8) { Some((Op::Pow, 2)) }
    else if c == 61 && n == Some(61u8) { Some((Op::EqEq, 2)) }
    else if c == 33 && n == Some(61u8) { Some((Op::Ne, 2)) }
    else if c == 60 && n == Some(61u8) { Some((Op::Le, 2)) }
    else if c == 62 && n == Some(61u8) { Some((Op::Ge, 2)) }
    else if c == 38 && n == Some(38u8) { Some((Op::AndAnd, 2)) }
    else if c == 124 && n == Some(124u8) { Some((Op::OrOr, 2)) }
    else if c == 43 { Some((Op::Plus, 1)) }
    else if c == 45 { Some((Op::Minus, 1)) }
    else if c == 42 { Some((Op::Star, 1)) }
    else if c == 47 { Some((Op::Slash, 1)) }
    else if c == 37 { Some((Op::Percent, 1)) }
    else if c == 60 { Some((Op::Lt, 1)) }
    else if c == 62 { Some((Op::Gt, 1)) }
    else if c == 61 { Some((Op::Assign, 1)) }
    else if c == 33 { Some((Op::Bang, 1)) }
    else if c == 40 { Some((Op::LParen, 1)) }
    else if c == 41 { Some((Op::RParen, 1)) }
    else if c == 44 { Some((Op::Comma, 1)) }
    else if c == 123 { Some((Op::LBrace, 1)) }
    else if c == 125 { Some((Op::RBrace, 1)) }
    else if c == 59 { Some((Op::Semi, 1)) }
    else { None }
}

pub open spec fn cons(t: TokV, rest: Result<Seq<TokV>, Seq<char>>) -> Result<Seq<TokV>, Seq<char>> {
    match rest {
        Ok(s) => Ok(seq![t] + s),
        Err(m) => Err(m),
    }
}

pub open spec fn prepend(pre: Seq<TokV>, rest: Result<Seq<TokV>, Seq<char>>) -> Result<Seq<TokV>, Seq<char>> {
    match rest {
        Ok(s) => Ok(pre + s),
        Err(m) => Err(m),
    }
}

/// The tokens of `b` from `i` on, ending in `Eof`, or the message of the first error.
pub open spec fn scan(b: Seq<u8>, i: int) -> Result<Seq<TokV>, Seq<char>>
    decreases b.len() - i,
{
    if i < 0 || i >= b.len() {
        Ok(seq![TokV::Eof])
    } else {
        let c = b[i];
        if is_ws(c) {
            scan(b, i + 1)
        } else if is_digit(c) {
            proof { lemma_digits_end(b, i + 1); }
            let e = digits_end(b, i);
            let v = digits_value(b, i, e);
            if v <= i64::MAX { cons(TokV::Num(v as i64), scan(b, e)) } else { Err("number too large to fit in target type"@) }
        } else if is_alpha(c) || c == 95 {
            proof { lemma_scan_ends(b, i + 1); }
            let e = ident_end(b, i);
            cons(TokV::Name(ascii_chars(b.subrange(i, e))), scan(b, e))
        } else {
            match op_at(c, byte_at(b, i + 1)) {
                Some((op, len)) => if len >= 1 { cons(TokV::Op(op), scan(b, i + len)) } else { Err(Seq::empty()) },
                None => Err("bad char at "@ + ascii_chars(decimal(i as nat))),
            }
        }
    }
}

fn op_token(c: u8, n: Option<u8>) -> (r: Option<(Op, usize)>)
    ensures
        r is None <==> op_at(c, n) is None,
        r matches Some((op, len)) ==> op_at(c, n) == Some((op, len as int)) && 1 <= len <= 2,
{
    let (has, n2) = match n { Some(x) => (true, x), None => (false, 0u8) };
    if c == 42 && has && n2 == 42 { Some((Op::Pow, 2)) }
    else if c == 61 && has && n2 == 61 { Some((Op::EqEq, 2)) }
    else if c == 33 && has && n2 == 61 { Some((Op::Ne, 2)) }
    else if c == 60 && has && n2 == 61 { Some((Op::Le, 2)) }
    else if c == 62 && has && n2 == 61 { Some((Op::Ge, 2)) }
    else if c == 38 && has && n2 == 38 { Some((Op::AndAnd, 2)) }
    else if c == 124 && has && n2 == 124 { Some((Op::OrOr, 2)) }
    else if c == 43 { Some((Op::Plus, 1)) }
    else if c == 45 { Some((Op::Minus, 1)) }
    else if c == 42 { Some((Op::Star, 1)) }
    else if c == 47 { Some((Op::Slash, 1)) }
    else if c == 37 { Some((Op::Percent, 1)) }
    else if c == 60 { Some((Op::Lt, 1)) }
    else if c == 62 { Some((Op::Gt, 1)) }
    else if c == 61 { Some((Op::Assign, 1)) }
    else if c == 33 { Some((Op::Bang, 1)) }
    else if c == 40 { Some((Op::LParen, 1)) }
    else if c == 41 { Some((Op::RParen, 1)) }
    else if c == 44 { Some((Op::Comma, 1)) }
    else if c == 123 { Some((Op::LBrace, 1)) }
    else if c == 125 { Some((Op::RBrace, 1)) }
    else if c == 59 { Some((Op::Semi, 1)) }
    else { None }
}

/// A word at `start`, as a `String`, with its end.
fn scan_name(b: &[u8], start: usize) -> (r: (String, usize))
    requires start < b@.len(), is_alpha(b@[start as int]) || b@[start as int] == 95,
    ensures
        r.1 == ident_end(b@, start as int),
        start < r.1 <= b@.len(),
        r.0@ == ascii_chars(b@.subrange(start as int, r.1 as int)),
{
    let n = b.len();
    let mut i = start;
    proof { lemma_scan_ends(b@, start as int); }
    while i < n && ident_byte(b[i])
        invariant
            n == b@.len(), start <= i <= n,
            ident_end(b@, i as int) == ident_end(b@, start as int),
            forall|k: int| start <= k < i ==> is_ident_byte(#[trigger] b@[k]),
        decreases n - i,
    {
        i += 1;
    }
    let word = &b[start..i];
    assert(word@ == b@.subrange(start as int, i as int));
    assert(is_ascii_seq(word@)) by {
        assert forall|k: int| 0 <= k < word@.len() implies #[trigger] word@[k] < 128 by {
            assert(is_ident_byte(b@[start + k]));
        }
    }
    (ascii_string(word), i)
}

/// Splits source text into tokens, maximal munch, ending in `Eof`; the first error ends it.
pub fn lex(src: &str) -> (r: Result<Vec<Tok>, String>)
    ensures
        r matches Ok(t) ==> scan(src.spec_bytes(), 0) == Ok::<Seq<TokV>, Seq<char>>(toks_view(t@)),
        r matches Err(m) ==> scan(src.spec_bytes(), 0) == Err::<Seq<TokV>, Seq<char>>(m@),
{
    let b = src.as_bytes();
    let n = b.len();
    let mut i: usize = 0;
    let mut out: Vec<Tok> = Vec::new();
    while i < n
        invariant
            n == b@.len(), i <= n, b@ == src.spec_bytes(),
            scan(b@, 0) == prepend(toks_view(out@), scan(b@, i as int)),
        decreases n - i,
    {
        let c = b[i];
        if ws(c) {
            i += 1;
        } else if digit(c) {
            let (v, e) = lex_number(b, i);
            proof { lemma_digits_end(b@, i + 1); }
            match v {
                Some(x) => {
                    proof {
                        assert(toks_view(out@.push(Tok::Num(x))) =~= toks_view(out@) + seq![TokV::Num(x)]);
                        match scan(b@, e as int) {
                            Ok(s) => assert(toks_view(out@) + (seq![TokV::Num(x)] + s) =~= toks_view(out@) + seq![TokV::Num(x)] + s),
                            Err(_) => {},
                        }
                    }
                    out.push(Tok::Num(x));
                    i = e;
                },
                None => {
                    let mut m = String::new();
                    m.append("number too large to fit in target type");
                    return Err(m);
                },
            }
        } else if alpha(c) || c == 95 {
            let (name, e) = scan_name(b, i);
            let ghost t = TokV::Name(name@);
            proof {
                assert(tok_view(Tok::Name(name)) == t);
                assert(toks_view(out@.push(Tok::Name(name))) =~= toks_view(out@) + seq![t]);
                match scan(b@, e as int) {
                    Ok(s) => assert(toks_view(out@) + (seq![t] + s) =~= toks_view(out@) + seq![t] + s),
                    Err(_) => {},
                }
            }
            out.push(Tok::Name(name));
            i = e;
        } else {
            match op_token(c, get(b, i + 1)) {
                Some((op, len)) => {
                    proof {
                        assert(toks_view(out@.push(Tok::Op(op))) =~= toks_view(out@) + seq![TokV::Op(op)]);
                        match scan(b@, i + len) {
                            Ok(s) => assert(toks_view(out@) + (seq![TokV::Op(op)] + s) =~= toks_view(out@) + seq![TokV::Op(op)] + s),
                            Err(_) => {},
                        }
                    }
                    out.push(Tok::Op(op));
                    i = i + len;
                },
                None => {
                    let mut m = String::new();
                    m.append("bad char at ");
                    let d = decimal_string(i as u64);
                    m.append(d.as_str());
                    return Err(m);
                },
            }
        }
    }
    proof {
        assert(toks_view(out@.push(Tok::Eof)) =~= toks_view(out@) + seq![TokV::Eof]);
    }
    out.push(Tok::Eof);
    Ok(out)
}

// ---------------- the three tables ----------------

/// Prefix operators: right binding power.
pub open spec fn prefix_power(op: Op) -> Option<u8> {
    match op {
        Op::Minus | Op::Bang => Some(13u8),
        _ => None,
    }
}

/// Infix operators: (left, right) binding power. Left below right is left-associative,
/// left above right is right-associative; comparisons are non-associative, checked by the
/// parser.
pub open spec fn infix_power(op: Op) -> Option<(u8, u8)> {
    match op {
        Op::Assign => Some((2u8, 1u8)),
        Op::OrOr => Some((3u8, 4u8)),
        Op::AndAnd => Some((5u8, 6u8)),
        Op::EqEq | Op::Ne | Op::Lt | Op::Le | Op::Gt | Op::Ge => Some((7u8, 8u8)),
        Op::Plus | Op::Minus => Some((9u8, 10u8)),
        Op::Star | Op::Slash | Op::Percent => Some((11u8, 12u8)),
        Op::Pow => Some((16u8, 15u8)),
        _ => None,
    }
}

/// The precedence the binding powers give: `%` and `/` bind exactly as `*` does and `-` as
/// `+`; each level binds tighter than the one listed before it (assignment, `||`, `&&`,
/// comparisons, `+ -`, `* / %`, `**`), so that in `a op1 b op2 c` with `op2` on a tighter
/// level `b op2 c` is an operand of `op1`, and with `op1` on the tighter level `a op1 b` is
/// an operand of `op2`; the arithmetic and logical levels associate to the left, and `**`
/// and `=` to the right; prefix `-` and `!` bind tighter than `* / %` and looser than `**`.
pub proof fn lemma_binding_powers()
    ensures
        infix_power(Op::Percent) == infix_power(Op::Star),
        infix_power(Op::Slash) == infix_power(Op::Star),
        infix_power(Op::Minus) == infix_power(Op::Plus),
        infix_power(Op::Ne) == infix_power(Op::EqEq) && infix_power(Op::Lt) == infix_power(Op::EqEq)
            && infix_power(Op::Le) == infix_power(Op::EqEq) && infix_power(Op::Gt) == infix_power(Op::EqEq)
            && infix_power(Op::Ge) == infix_power(Op::EqEq),
        forall|lo: Op, hi: Op| #[trigger] tighter(lo, hi) ==> ({
            let (ll, lr) = infix_power(lo)->Some_0;
            let (hl, hr) = infix_power(hi)->Some_0;
            &&& hl > lr
            &&& lr > 0 && ll < hr
        }),
        forall|o: Op| left_assoc_op(o) ==> ((#[trigger] infix_power(o)) matches Some((l, r)) && l < r),
        (infix_power(Op::Pow) matches Some((l, r)) && l > r),
        (infix_power(Op::Assign) matches Some((l, r)) && l > r),
        prefix_power(Op::Minus) == prefix_power(Op::Bang),
        prefix_power(Op::Minus)->Some_0 > infix_power(Op::Star)->Some_0.0,
        prefix_power(Op::Minus)->Some_0 < infix_power(Op::Pow)->Some_0.0,
{
}

/// The levels in order, loosest first.
pub open spec fn level_of(o: Op) -> int {
    match o {
        Op::Assign => 0,
        Op::OrOr => 1,
        Op::AndAnd => 2,
        Op::EqEq | Op::Ne | Op::Lt | Op::Le | Op::Gt | Op::Ge => 3,
        Op::Plus | Op::Minus => 4,
        Op::Star | Op::Slash | Op::Percent => 5,
        Op::Pow => 6,
        _ => -1,
    }
}

/// `hi` is on a tighter level than `lo`, both being infix operators.
pub open spec fn tighter(lo: Op, hi: Op) -> bool {
    0 <= level_of(lo) < level_of(hi)
}

/// The operators that associate to the left.
pub open spec fn left_assoc_op(o: Op) -> bool {
    3 <= level_of(o) <= 5 || o == Op::OrOr || o == Op::AndAnd
}

/// Postfix operators: left binding power. A call `f(...)` is a postfix operator.
pub open spec fn postfix_power(op: Op) -> Option<u8> {
    match op {
        Op::LParen => Some(17u8),
        _ => None,
    }
}

pub fn prefix_bp(op: Op) -> (r: Option<u8>)
    ensures r == prefix_power(op),
{
    match op {
        Op::Minus | Op::Bang => Some(13),
        _ => None,
    }
}

pub fn infix_bp(op: Op) -> (r: Option<(u8, u8)>)
    ensures r == infix_power(op),
{
    match op {
        Op::Assign => Some((2, 1)),
        Op::OrOr => Some((3, 4)),
        Op::AndAnd => Some((5, 6)),
        Op::EqEq | Op::Ne | Op::Lt | Op::Le | Op::Gt | Op::Ge => Some((7, 8)),
        Op::Plus | Op::Minus => Some((9, 10)),
        Op::Star | Op::Slash | Op::Percent => Some((11, 12)),
        Op::Pow => Some((16, 15)),
        _ => None,
    }
}

pub fn postfix_bp(op: Op) -> (r: Option<u8>)
    ensures r == postfix_power(op),
{
    match op {
        Op::LParen => Some(17),
        _ => None,
    }
}

pub open spec fn is_cmp_op(op: Op) -> bool {
    op == Op::EqEq || op == Op::Ne || op == Op::Lt || op == Op::Le || op == Op::Gt || op == Op::Ge
}

pub fn is_cmp(t: &Tok) -> (r: bool)
    ensures r == (*t matches Tok::Op(op) && is_cmp_op(op)),
{
    match t {
        Tok::Op(op) => match op {
            Op::EqEq | Op::Ne | Op::Lt | Op::Le | Op::Gt | Op::Ge => true,
            _ => false,
        },
        _ => false,
    }
}

// ---------------- the tree ----------------

/// An s-expression: an atom, or a head applied to operands.
#[derive(Debug)]
pub enum S {
    Atom(String),
    Cons(String, Vec<S>),
}

pub open spec fn s_text(s: S) -> Seq<char>
    decreases s,
{
    match s {
        S::Atom(a) => a@,
        S::Cons(h, rest) => "("@ + h@ + rest_text(rest@) + ")"@,
    }
}

/// Each operand after a space.
pub open spec fn rest_text(rest: Seq<S>) -> Seq<char>
    decreases rest,
{
    if rest.len() == 0 { Seq::empty() } else { rest_text(rest.drop_last()) + " "@ + s_text(rest.last()) }
}

/// The atoms of a tree, left to right.
pub open spec fn atoms(s: S) -> Seq<Seq<char>>
    decreases s,
{
    match s {
        S::Atom(a) => seq![a@],
        S::Cons(_, rest) => atoms_list(rest@),
    }
}

pub open spec fn atoms_list(rest: Seq<S>) -> Seq<Seq<char>>
    decreases rest,
{
    if rest.len() == 0 { Seq::empty() } else { atoms_list(rest.drop_last()) + atoms(rest.last()) }
}

impl S {
    /// The tree in s-expression notation.
    #[verifier::loop_isolation(false)]
    pub fn to_string(&self) -> (r: String)
        ensures r@ == s_text(*self),
        decreases self,
    {
        match self {
            S::Atom(a) => a.clone(),
            S::Cons(h, rest) => {
                let mut out = String::new();
                out.append("(");
                out.append(h.as_str());
                let ghost prefix = out@;
                let mut i: usize = 0;
                while i < rest.len()
                    invariant
                        i <= rest@.len(),
                        out@ == prefix + rest_text(rest@.subrange(0, i as int)),
                    decreases rest@.len() - i,
                {
                    proof {
                        assert(decreases_to!(*self => (*self)->Cons_1));
                        assert((*self)->Cons_1 == *rest);
                        assert(decreases_to!(*rest => rest@));
                        assert(decreases_to!(rest@ => rest@[i as int]));
                    }
                    out.append(" ");
                    let t = rest[i].to_string();
                    out.append(t.as_str());
                    assert(rest@.subrange(0, (i + 1) as int).drop_last() =~= rest@.subrange(0, i as int));
                    i += 1;
                }
                assert(rest@.subrange(0, rest@.len() as int) =~= rest@);
                out.append(")");
                out
            },
        }
    }
}

/// The text of an atom token: a numeral or a name; other tokens have none.
pub open spec fn atom_of(t: TokV) -> Seq<Seq<char>> {
    match t {
        TokV::Num(n) => seq![ascii_chars(int_text(n as int))],
        TokV::Name(x) => seq![x],
        _ => Seq::empty(),
    }
}

/// The atoms of the tokens `t[lo..hi]`, in order.
pub open spec fn atom_seq(t: Seq<TokV>, lo: int, hi: int) -> Seq<Seq<char>>
    decreases hi - lo,
{
    if hi <= lo { Seq::empty() } else { atom_seq(t, lo, hi - 1) + atom_of(t[hi - 1]) }
}

pub proof fn lemma_atom_seq_split(t: Seq<TokV>, lo: int, mid: int, hi: int)
    requires lo <= mid <= hi,
    ensures atom_seq(t, lo, hi) == atom_seq(t, lo, mid) + atom_seq(t, mid, hi),
    decreases hi - mid,
{
    if hi > mid {
        lemma_atom_seq_split(t, lo, mid, hi - 1);
        assert(atom_seq(t, lo, hi) =~= atom_seq(t, lo, mid) + atom_seq(t, mid, hi));
    } else {
        assert(atom_seq(t, mid, hi) =~= Seq::<Seq<char>>::empty());
        assert(atom_seq(t, lo, mid) + atom_seq(t, mid, hi) =~= atom_seq(t, lo, mid));
    }
}

proof fn lemma_atoms_push(rest: Seq<S>, x: S)
    ensures atoms_list(rest.push(x)) == atoms_list(rest) + atoms(x),
{
    assert(rest.push(x).drop_last() =~= rest);
}

// ---------------- the parser: one loop ----------------

/// How many tokens are left after position `p`.
pub open spec fn toks_room(tv: Seq<TokV>, p: int) -> nat {
    if p <= tv.len() { (tv.len() - p) as nat } else { 0 }
}

proof fn lemma_rest_push(s: Seq<S>, x: S)
    ensures rest_text(s.push(x)) == rest_text(s) + " "@ + s_text(x),
{
    assert(s.push(x).drop_last() =~= s);
    assert(s.push(x).last() == x);
}

proof fn lemma_rest_empty()
    ensures rest_text(Seq::<S>::empty()) == Seq::<char>::empty(),
{
}

/// The s-expression of one atom token.
pub open spec fn atom_text(t: TokV) -> Seq<char> {
    match t {
        TokV::Num(n) => ascii_chars(int_text(n as int)),
        TokV::Name(x) => x,
        _ => Seq::empty(),
    }
}

/// The s-expression of a node with head `h` whose operands, each after a space, read `rest`.
pub open spec fn cons_text(h: Seq<char>, rest: Seq<char>) -> Seq<char> {
    "("@ + h + rest + ")"@
}

/// The `Debug` text of a token value.
pub open spec fn tokv_debug(t: TokV) -> Seq<char> {
    match t {
        TokV::Num(n) => "Num("@ + ascii_chars(int_text(n as int)) + ")"@,
        TokV::Name(x) => "Name(\""@ + x + "\")"@,
        TokV::Op(op) => "Op(\""@ + op_spelling(op) + "\")"@,
        TokV::Eof => "Eof"@,
    }
}

/// The s-expression of the expression of binding power at least `min` that starts at token
/// `p`, and where it ends; or the message of the error the tokens there hold.
pub open spec fn bp_end(tv: Seq<TokV>, p: int, min: u8) -> Result<(Seq<char>, int), Seq<char>>
    decreases toks_room(tv, p), 0nat,
{
    if !(0 <= p < tv.len()) {
        Err(Seq::empty())
    } else {
        match tv[p] {
            TokV::Num(_) => bp_loop(tv, p + 1, min, atom_text(tv[p])),
            TokV::Name(_) => bp_loop(tv, p + 1, min, atom_text(tv[p])),
            TokV::Op(op) => if op == Op::LParen {
                match bp_end(tv, p + 1, 0) {
                    Ok((t, k)) => if p + 1 < k < tv.len() {
                        if tv[k] == TokV::Op(Op::RParen) { bp_loop(tv, k + 1, min, t) } else { Err("expected `)`"@) }
                    } else {
                        Err(Seq::empty())
                    },
                    Err(m) => Err(m),
                }
            } else {
                match prefix_power(op) {
                    Some(r) => match bp_end(tv, p + 1, r) {
                        Ok((t, k)) => if p + 1 < k < tv.len() {
                            bp_loop(tv, k, min, cons_text(op_spelling(op), " "@ + t))
                        } else {
                            Err(Seq::empty())
                        },
                        Err(m) => Err(m),
                    },
                    None => Err("unexpected `"@ + op_spelling(op) + "`"@),
                }
            },
            TokV::Eof => Err("unexpected end of input"@),
        }
    }
}

/// The arguments of a call that start at token `q`: each operand's s-expression after a
/// space, and the position where they stop (the closing parenthesis, if the call is well
/// formed), after expressions separated (and optionally ended) by commas; or the error.
pub open spec fn args_end(tv: Seq<TokV>, q: int) -> Result<(Seq<char>, int), Seq<char>>
    decreases toks_room(tv, q), 1nat,
{
    if !(0 <= q < tv.len()) {
        Err(Seq::empty())
    } else if tv[q] == TokV::Op(Op::RParen) {
        Ok((Seq::empty(), q))
    } else {
        match bp_end(tv, q, 0) {
            Ok((t, k)) => if q < k < tv.len() {
                if tv[k] == TokV::Op(Op::Comma) {
                    match args_end(tv, k + 1) {
                        Ok((r, e)) => Ok((" "@ + t + r, e)),
                        Err(m) => Err(m),
                    }
                } else {
                    Ok((" "@ + t, k))
                }
            } else {
                Err(Seq::empty())
            },
            Err(m) => Err(m),
        }
    }
}

/// The operators that follow an operand whose s-expression is `lhs`, from token `q` on: the
/// s-expression of the whole and where it ends, or the error.
pub open spec fn bp_loop(tv: Seq<TokV>, q: int, min: u8, lhs: Seq<char>) -> Result<(Seq<char>, int), Seq<char>>
    decreases toks_room(tv, q), 2nat,
{
    if !(0 <= q < tv.len()) {
        Err(Seq::empty())
    } else {
        match tv[q] {
            TokV::Eof => Ok((lhs, q)),
            TokV::Op(op) => match postfix_power(op) {
                Some(l) => if l < min {
                    Ok((lhs, q))
                } else {
                    match args_end(tv, q + 1) {
                        Ok((at, c)) => if q + 1 <= c < tv.len() {
                            if tv[c] == TokV::Op(Op::RParen) {
                                bp_loop(tv, c + 1, min, cons_text("call"@, " "@ + lhs + at))
                            } else {
                                Err("expected `)` after arguments"@)
                            }
                        } else {
                            Err(Seq::empty())
                        },
                        Err(m) => Err(m),
                    }
                },
                None => match infix_power(op) {
                    Some((l, r)) => if l < min {
                        Ok((lhs, q))
                    } else {
                        match bp_end(tv, q + 1, r) {
                            Ok((t, k)) => if q + 1 < k < tv.len() {
                                if is_cmp_op(op) && (tv[k] matches TokV::Op(o) && is_cmp_op(o)) {
                                    Err("comparison operators cannot be chained"@)
                                } else {
                                    bp_loop(tv, k, min, cons_text(op_spelling(op), " "@ + lhs + " "@ + t))
                                }
                            } else {
                                Err(Seq::empty())
                            },
                            Err(m) => Err(m),
                        }
                    },
                    None => Ok((lhs, q)),
                },
            },
            t => Err("expected an operator, found "@ + tokv_debug(t)),
        }
    }
}

pub struct Pratt {
    toks: Vec<Tok>,
    at: usize,
}

fn tok_clone(t: &Tok) -> (r: Tok)
    ensures r == *t,
{
    match t {
        Tok::Num(n) => Tok::Num(*n),
        Tok::Name(x) => Tok::Name(x.clone()),
        Tok::Op(op) => Tok::Op(*op),
        Tok::Eof => Tok::Eof,
    }
}

/// The text `{:?}` gives for a token.
pub open spec fn tok_debug_text(t: Tok) -> Seq<char> {
    match t {
        Tok::Num(n) => "Num("@ + ascii_chars(int_text(n as int)) + ")"@,
        Tok::Name(x) => "Name(\""@ + x@ + "\")"@,
        Tok::Op(op) => "Op(\""@ + op_spelling(op) + "\")"@,
        Tok::Eof => "Eof"@,
    }
}

/// `Debug` text of a token.
fn tok_debug(t: &Tok) -> (r: String)
    ensures r@ == tok_debug_text(*t),
{
    let mut s = String::new();
    match t {
        Tok::Num(n) => {
            s.append("Num(");
            let d = int_to_string(*n);
            s.append(d.as_str());
            s.append(")");
        },
        Tok::Name(x) => {
            s.append("Name(\"");
            s.append(x.as_str());
            s.append("\")");
        },
        Tok::Op(op) => {
            s.append("Op(\"");
            s.append(op_str(*op));
            s.append("\")");
        },
        Tok::Eof => {
            s.append("Eof");
        },
    }
    assert(s@ =~= tok_debug_text(*t));
    s
}

fn message(text: &str) -> (r: String)
    ensures r@ == text@,
{
    let mut s = String::new();
    s.append(text);
    s
}

impl Pratt {
    pub closed spec fn tokens(&self) -> Seq<TokV> {
        toks_view(self.toks@)
    }

    pub closed spec fn pos(&self) -> int {
        self.at as int
    }

    /// Tokens end in a single `Eof`, and the cursor is on a token.
    pub closed spec fn wf(&self) -> bool {
        &&& self.toks@.len() >= 1
        &&& self.toks@.last() is Eof
        &&& forall|i: int| 0 <= i < self.toks@.len() - 1 ==> !(self.toks@[i] is Eof)
        &&& self.at < self.toks@.len()
    }

    /// A parser over the tokens `lex` produced.
    pub fn new(toks: Vec<Tok>) -> (p: Self)
        requires
            toks@.len() >= 1,
            toks@.last() is Eof,
            forall|i: int| 0 <= i < toks@.len() - 1 ==> !(toks@[i] is Eof),
        ensures p.wf(), p.tokens() == toks_view(toks@), p.pos() == 0,
    {
        Pratt { toks, at: 0 }
    }

    pub fn peek(&self) -> (t: &Tok)
        requires self.wf(),
        ensures tok_view(*t) == self.tokens()[self.pos()],
    {
        &self.toks[self.at]
    }

    /// The current token; the cursor moves past it unless it is `Eof`.
    pub fn next(&mut self) -> (t: Tok)
        requires old(self).wf(),
        ensures
            final(self).wf(),
            final(self).tokens() == old(self).tokens(),
            tok_view(t) == old(self).tokens()[old(self).pos()],
            final(self).pos() == if t is Eof { old(self).pos() } else { old(self).pos() + 1 },
    {
        let n = self.toks.len();
        let t = tok_clone(&self.toks[self.at]);
        if !matches!(t, Tok::Eof) {
            assert(self.at != n - 1);
            self.at += 1;
        }
        t
    }

    /// Parses an expression whose operators all bind at least as tightly as `min_bp`.
    /// On success the tree holds the numerals and names it consumed, in source order.
    #[verifier::loop_isolation(false)]
    #[verifier::spinoff_prover]
    #[verifier::rlimit(100)]
    pub fn expr_bp(&mut self, min_bp: u8) -> (r: Result<S, String>)
        requires old(self).wf(),
        ensures
            final(self).wf(),
            final(self).tokens() == old(self).tokens(),
            final(self).pos() >= old(self).pos(),
            r matches Ok(s) ==> final(self).pos() > old(self).pos()
                && atoms(s) == atom_seq(old(self).tokens(), old(self).pos(), final(self).pos()),
            r is Ok <==> bp_end(old(self).tokens(), old(self).pos(), min_bp) is Ok,
            r matches Ok(s) ==> bp_end(old(self).tokens(), old(self).pos(), min_bp) == Ok::<(Seq<char>, int), Seq<char>>((s_text(s), final(self).pos())),
            r matches Err(m) ==> bp_end(old(self).tokens(), old(self).pos(), min_bp) == Err::<(Seq<char>, int), Seq<char>>(m@),
        decreases old(self).tokens().len() - old(self).pos(), 0nat,
    {
        let ghost start = self.pos();
        let ghost tv = self.tokens();
        let first = self.next();
        let ghost p1 = self.pos();
        let mut lhs = match first {
            Tok::Num(n) => {
                let a = int_to_string(n);
                assert(atom_seq(tv, start, p1) =~= atom_seq(tv, start, start) + atom_of(tv[start]));
                assert(bp_end(tv, start, min_bp) == bp_loop(tv, p1, min_bp, a@));
                S::Atom(a)
            },
            Tok::Name(x) => {
                assert(atom_seq(tv, start, p1) =~= atom_seq(tv, start, start) + atom_of(tv[start]));
                assert(bp_end(tv, start, min_bp) == bp_loop(tv, p1, min_bp, x@));
                S::Atom(x)
            },
            Tok::Op(Op::LParen) => {
                let e = self.expr_bp(0)?;
                let ghost k = self.pos();
                let close = self.next();
                if !matches!(close, Tok::Op(Op::RParen)) {
                    let m = message("expected `)`");
                    assert(bp_end(tv, start, min_bp) == Err::<(Seq<char>, int), Seq<char>>(m@));
                    return Err(m);
                }
                assert(bp_end(tv, start, min_bp) == bp_loop(tv, k + 1, min_bp, s_text(e)));
                proof {
                    lemma_atom_seq_split(tv, start, p1, self.pos() - 1);
                    assert(atom_seq(tv, start, p1) =~= atom_seq(tv, start, start) + atom_of(tv[start]));
                    assert(atom_seq(tv, start, self.pos()) == atom_seq(tv, start, self.pos() - 1) + atom_of(tv[self.pos() - 1]));
                }
                e
            },
            Tok::Op(op) => match prefix_bp(op) {
                Some(r_bp) => {
                    let x = self.expr_bp(r_bp)?;
                    assert(bp_end(tv, start, min_bp) == bp_loop(tv, self.pos(), min_bp, cons_text(op_spelling(op), " "@ + s_text(x))));
                    proof {
                        lemma_atom_seq_split(tv, start, p1, self.pos());
                        assert(atom_seq(tv, start, p1) =~= atom_seq(tv, start, start) + atom_of(tv[start]));
                        lemma_atoms_push(Seq::<S>::empty(), x);
                    }
                    let h = String::from_str(op_str(op));
                    let one: Vec<S> = vec![x];
                    assert(one@ =~= Seq::<S>::empty().push(x));
                    proof {
                        lemma_rest_empty();
                        lemma_rest_push(Seq::<S>::empty(), x);
                        assert(Seq::<char>::empty() + " "@ + s_text(x) =~= " "@ + s_text(x));
                        assert(s_text(S::Cons(h, one)) =~= cons_text(op_spelling(op), " "@ + s_text(x)));
                    }
                    S::Cons(h, one)
                },
                None => {
                    let mut m = message("unexpected `");
                    m.append(op_str(op));
                    m.append("`");
                    return Err(m);
                },
            },
            Tok::Eof => {
                return Err(message("unexpected end of input"));
            },
        };
        loop
            invariant
                self.wf(),
                self.tokens() == tv,
                self.pos() > start,
                atoms(lhs) == atom_seq(tv, start, self.pos()),
                tv == old(self).tokens(), start == old(self).pos(),
                bp_loop(tv, self.pos(), min_bp, s_text(lhs)) == bp_end(tv, start, min_bp),
            decreases tv.len() - self.pos(),
        {
            let ghost q = self.pos();
            let op = match self.peek() {
                Tok::Op(op) => *op,
                Tok::Eof => break,
                t => {
                    let mut m = message("expected an operator, found ");
                    let d = tok_debug(t);
                    m.append(d.as_str());
                    return Err(m);
                },
            };
            match postfix_bp(op) {
                Some(l_bp) => {
                    if l_bp < min_bp {
                        break;
                    }
                    let ghost q0 = self.pos();
                    self.next();
                    proof {
                        assert(atom_seq(tv, start, self.pos()) =~= atom_seq(tv, start, q0) + atom_of(tv[q0]));
                    }
                    let ghost lt = s_text(lhs);
                    let ghost q1 = self.pos();
                    let mut args: Vec<S> = Vec::new();
                    args.push(lhs);
                    proof {
                        lemma_atoms_push(Seq::<S>::empty(), args@[0]);
                        assert(Seq::<S>::empty().push(args@[0]) =~= args@);
                        lemma_rest_empty();
                        lemma_rest_push(Seq::<S>::empty(), args@[0]);
                        assert(Seq::<char>::empty() + " "@ + lt =~= " "@ + lt);
                    }
                    match self.call_args(&mut args) {
                        Ok(()) => {},
                        Err(m) => {
                            assert(bp_loop(tv, q0, min_bp, lt) == Err::<(Seq<char>, int), Seq<char>>(m@));
                            return Err(m);
                        },
                    }
                    let ghost at = args_end(tv, q1)->Ok_0.0;
                    let ghost c = args_end(tv, q1)->Ok_0.1;
                    proof { lemma_atom_seq_split(tv, start, q1, self.pos()); }
                    assert(bp_loop(tv, q0, min_bp, lt) == bp_loop(tv, c + 1, min_bp, cons_text("call"@, " "@ + lt + at)));
                    let hc = message("call");
                    proof { assert(s_text(S::Cons(hc, args)) =~= cons_text("call"@, " "@ + lt + at)); }
                    lhs = S::Cons(hc, args);
                    continue;
                },
                None => {},
            }
            match infix_bp(op) {
                Some((l_bp, r_bp)) => {
                    if l_bp < min_bp {
                        break;
                    }
                    let ghost q0 = self.pos();
                    self.next();
                    let ghost q1 = self.pos();
                    let rhs = self.expr_bp(r_bp)?;
                    proof {
                        assert(atom_seq(tv, start, q1) =~= atom_seq(tv, start, q0) + atom_of(tv[q0]));
                        lemma_atom_seq_split(tv, start, q1, self.pos());
                        lemma_atoms_push(Seq::<S>::empty(), lhs);
                        lemma_atoms_push(seq![lhs], rhs);
                        assert(seq![lhs].push(rhs) =~= seq![lhs, rhs]);
                        assert(Seq::<S>::empty().push(lhs) =~= seq![lhs]);
                    }
                    let h = String::from_str(op_str(op));
                    let ghost lt2 = s_text(lhs);
                    let ghost rt = s_text(rhs);
                    let ghost k2 = self.pos();
                    assert(bp_end(tv, q1, r_bp) == Ok::<(Seq<char>, int), Seq<char>>((rt, k2)));
                    let pair: Vec<S> = vec![lhs, rhs];
                    assert(pair@ =~= seq![lhs, rhs]);
                    proof {
                        lemma_rest_empty();
                        lemma_rest_push(Seq::<S>::empty(), pair@[0]);
                        assert(Seq::<S>::empty().push(pair@[0]) =~= seq![pair@[0]]);
                        lemma_rest_push(seq![pair@[0]], pair@[1]);
                        assert(seq![pair@[0]].push(pair@[1]) =~= pair@);
                        assert(Seq::<char>::empty() + " "@ + lt2 + " "@ + rt =~= " "@ + lt2 + " "@ + rt);
                        assert(s_text(S::Cons(h, pair)) =~= cons_text(op_spelling(op), " "@ + lt2 + " "@ + rt));
                    }
                    lhs = S::Cons(h, pair);
                    if is_cmp_op_exec(op) && is_cmp(self.peek()) {
                        let m = message("comparison operators cannot be chained");
                        assert(bp_loop(tv, q0, min_bp, lt2) == Err::<(Seq<char>, int), Seq<char>>(m@));
                        return Err(m);
                    }
                    continue;
                },
                None => {},
            }
            break;
        }
        Ok(lhs)
    }

    /// The arguments of a call, from just after its `(` through its `)`, appended to `args`.
    #[verifier::loop_isolation(false)]
    fn call_args(&mut self, args: &mut Vec<S>) -> (r: Result<(), String>)
        requires old(self).wf(),
        ensures
            final(self).wf(),
            final(self).tokens() == old(self).tokens(),
            final(self).pos() >= old(self).pos(),
            r is Ok <==> (args_end(old(self).tokens(), old(self).pos()) matches Ok((at, c))
                && old(self).tokens()[c] == TokV::Op(Op::RParen)),
            r matches Err(m) ==> (args_end(old(self).tokens(), old(self).pos()) == Err::<(Seq<char>, int), Seq<char>>(m@)
                || (args_end(old(self).tokens(), old(self).pos()) matches Ok((at, c))
                    && old(self).pos() <= c < old(self).tokens().len()
                    && old(self).tokens()[c] != TokV::Op(Op::RParen) && m@ == "expected `)` after arguments"@)),
            r is Ok ==> (args_end(old(self).tokens(), old(self).pos()) matches Ok((at, c))
                && final(self).pos() == c + 1
                && rest_text(final(args)@) == rest_text(old(args)@) + at
                && atoms_list(final(args)@) == atoms_list(old(args)@) + atom_seq(old(self).tokens(), old(self).pos(), final(self).pos())),
        decreases old(self).tokens().len() - old(self).pos(), 1nat,
    {
        let ghost tv = self.tokens();
        let ghost p0 = self.pos();
        let ghost args0 = args@;
        let ghost mut acc: Seq<char> = Seq::empty();
        assert(rest_text(args0) + acc =~= rest_text(args0));
        assert(atoms_list(args0) + atom_seq(tv, p0, p0) =~= atoms_list(args0));
        loop
            invariant
                self.wf(),
                self.tokens() == tv, tv == old(self).tokens(), p0 == old(self).pos(), args0 == old(args)@,
                self.pos() >= p0,
                atoms_list(args@) == atoms_list(args0) + atom_seq(tv, p0, self.pos()),
                rest_text(args@) == rest_text(args0) + acc,
                args_end(tv, p0) == (match args_end(tv, self.pos()) {
                    Ok((r, e)) => Ok::<(Seq<char>, int), Seq<char>>((acc + r, e)),
                    Err(m) => Err(m),
                }),
            decreases tv.len() - self.pos(),
        {
            if matches!(self.peek(), Tok::Op(Op::RParen)) {
                assert(acc + Seq::<char>::empty() =~= acc);
                assert(args_end(tv, p0) == Ok::<(Seq<char>, int), Seq<char>>((acc, self.pos())));
                break;
            }
            let ghost q1 = self.pos();
            let a = match self.expr_bp(0) {
                Ok(a) => a,
                Err(m) => {
                    assert(args_end(tv, q1) == Err::<(Seq<char>, int), Seq<char>>(m@));
                    return Err(m);
                },
            };
            let ghost k = self.pos();
            let ghost pre_args = args@;
            let ghost acc0 = acc;
            proof {
                lemma_atom_seq_split(tv, p0, q1, k);
                lemma_atoms_push(pre_args, a);
            }
            args.push(a);
            proof {
                acc = acc + " "@ + s_text(a);
                lemma_rest_push(pre_args, a);
                assert(args@ =~= pre_args.push(a));
                assert(rest_text(args0) + acc0 + " "@ + s_text(a) =~= rest_text(args0) + acc);
                assert(atoms_list(args0) + atom_seq(tv, p0, q1) + atom_seq(tv, q1, k) =~= atoms_list(args0) + atom_seq(tv, p0, k));
            }
            if matches!(self.peek(), Tok::Op(Op::Comma)) {
                let ghost q2 = self.pos();
                self.next();
                proof {
                    assert(atom_seq(tv, p0, self.pos()) =~= atom_seq(tv, p0, q2) + atom_of(tv[q2]));
                    assert(atoms_list(args0) + atom_seq(tv, p0, q2) + Seq::<Seq<char>>::empty() =~= atoms_list(args0) + atom_seq(tv, p0, q2));
                    match args_end(tv, self.pos()) {
                        Ok((r, e)) => {
                            assert(acc0 + (" "@ + s_text(a) + r) =~= acc + r);
                        },
                        Err(_) => {},
                    }
                }
            } else {
                assert(acc0 + (" "@ + s_text(a)) =~= acc);
                assert(args_end(tv, p0) == Ok::<(Seq<char>, int), Seq<char>>((acc, k)));
                break;
            }
        }
        let ghost q3 = self.pos();
        assert(args_end(tv, p0) == Ok::<(Seq<char>, int), Seq<char>>((acc, q3)));
        let close = self.next();
        if !matches!(close, Tok::Op(Op::RParen)) {
            return Err(message("expected `)` after arguments"));
        }
        proof {
            assert(atom_seq(tv, p0, self.pos()) =~= atom_seq(tv, p0, q3) + atom_of(tv[q3]));
            assert(atoms_list(args0) + atom_seq(tv, p0, q3) + Seq::<Seq<char>>::empty() =~= atoms_list(args0) + atom_seq(tv, p0, q3));
        }
        Ok(())
    }
}

fn is_cmp_op_exec(op: Op) -> (r: bool)
    ensures r == is_cmp_op(op),
{
    match op {
        Op::EqEq | Op::Ne | Op::Lt | Op::Le | Op::Gt | Op::Ge => true,
        _ => false,
    }
}

/// A successful scan ends in a single `Eof`.
pub proof fn lemma_scan_shape(b: Seq<u8>, i: int)
    ensures
        scan(b, i) matches Ok(s) ==> s.len() >= 1 && s.last() is Eof
            && forall|k: int| 0 <= k < s.len() - 1 ==> !(s[k] is Eof),
    decreases b.len() - i,
{
    if i < 0 || i >= b.len() {
    } else {
        let c = b[i];
        if is_ws(c) {
            lemma_scan_shape(b, i + 1);
        } else if is_digit(c) {
            lemma_digits_end(b, i + 1);
            let e = digits_end(b, i);
            lemma_scan_shape(b, e);
            lemma_cons_shape(TokV::Num(digits_value(b, i, e) as i64), scan(b, e));
        } else if is_alpha(c) || c == 95 {
            lemma_scan_ends(b, i + 1);
            let e = ident_end(b, i);
            lemma_scan_shape(b, e);
            lemma_cons_shape(TokV::Name(ascii_chars(b.subrange(i, e))), scan(b, e));
        } else {
            match op_at(c, byte_at(b, i + 1)) {
                Some((op, len)) => if len >= 1 {
                    lemma_scan_shape(b, i + len);
                    lemma_cons_shape(TokV::Op(op), scan(b, i + len));
                },
                None => {},
            }
        }
    }
}

proof fn lemma_cons_shape(t: TokV, rest: Result<Seq<TokV>, Seq<char>>)
    requires
        !(t is Eof),
        rest matches Ok(s) ==> s.len() >= 1 && s.last() is Eof
            && forall|k: int| 0 <= k < s.len() - 1 ==> !(s[k] is Eof),
    ensures
        cons(t, rest) matches Ok(s) ==> s.len() >= 1 && s.last() is Eof
            && forall|k: int| 0 <= k < s.len() - 1 ==> !(s[k] is Eof),
{
    match rest {
        Ok(s) => {
            let s2 = seq![t] + s;
            assert forall|k: int| 0 <= k < s2.len() - 1 implies !(s2[k] is Eof) by {
                if k > 0 { assert(s2[k] == s[k - 1]); }
            }
        },
        Err(_) => {},
    }
}

/// Parses one expression and prints it as an s-expression.
pub fn parse(src: &str) -> (r: Result<String, String>)
    ensures
        scan(src.spec_bytes(), 0) matches Err(m) ==> r matches Err(e) && e@ == m,
        r matches Ok(s) ==> scan(src.spec_bytes(), 0) matches Ok(tv)
            && exists|t: S| s@ == s_text(t) && atoms(t) == atom_seq(tv, 0, tv.len() as int),
        scan(src.spec_bytes(), 0) matches Ok(tv) ==> (r is Ok <==> (bp_end(tv, 0, 0) matches Ok((t, k)) && tv[k] is Eof)),
        r matches Ok(s) ==> scan(src.spec_bytes(), 0) matches Ok(tv) && bp_end(tv, 0, 0) matches Ok((t, k)) && s@ == t,
        r matches Err(e) ==> match scan(src.spec_bytes(), 0) {
            Err(m) => e@ == m,
            Ok(tv) => match bp_end(tv, 0, 0) {
                Err(m) => e@ == m,
                Ok((_, k)) => e@ == "trailing input: "@ + tokv_debug(tv[k]),
            },
        },
{
    let toks = lex(src)?;
    proof {
        lemma_scan_shape(src.spec_bytes(), 0);
        let tv = toks_view(toks@);
        assert(toks@.last() is Eof) by { assert(tv[tv.len() - 1] == tok_view(toks@[toks@.len() - 1])); }
        assert forall|i: int| 0 <= i < toks@.len() - 1 implies !(toks@[i] is Eof) by {
            assert(tv[i] == tok_view(toks@[i]));
        }
    }
    let mut p = Pratt::new(toks);
    let ghost tv = p.tokens();
    let e = p.expr_bp(0)?;
    match p.peek() {
        Tok::Eof => {
            proof {
                assert(p.pos() == tv.len() - 1) by {
                    reveal_pos_eof(&p);
                }
                assert(atom_seq(tv, 0, tv.len() as int) =~= atom_seq(tv, 0, p.pos()) + atom_of(tv[p.pos()]));
            }
            let s = e.to_string();
            Ok(s)
        },
        t => {
            let mut m = message("trailing input: ");
            let d = tok_debug(t);
            m.append(d.as_str());
            Err(m)
        },
    }
}

/// Only the last token is `Eof`.
proof fn reveal_pos_eof(p: &Pratt)
    requires p.wf(), p.tokens()[p.pos()] is Eof,
    ensures p.pos() == p.tokens().len() - 1,
{
    if p.pos() < p.tokens().len() - 1 {
        assert(p.tokens()[p.pos()] == tok_view(p.toks@[p.pos()]));
    }
}

} // verus!
