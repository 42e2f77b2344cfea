//! What a token costs: one token stream produced three ways. Spans over the bytes copy
//! nothing; owned tokens copy the text of each identifier and number; the char-by-char
//! lexer builds every lexeme in a fresh `String`.

use vstd::prelude::*;
use vstd::string::{StrSliceExecFns, StringSliceAdditionalSpecFns};
use vstd::std_specs::iter::IteratorSpec;
use crate::dfa::{is_ws, is_digit, is_alpha};
use crate::text::{ascii_chars, ascii_string, is_ascii_seq};

verus! {

broadcast use vstd::string::axiom_spec_iter;

#[derive(Debug, Clone, Copy, PartialEq, Eq, Structural)]
pub enum Kind {
    Ident,
    Int,
    Op,
}

/// A byte that may continue an identifier.
pub open spec fn ident_byte(b: u8) -> bool {
    is_alpha(b) || is_digit(b) || b == 95
}

pub fn is_ident(b: u8) -> (r: bool)
    ensures r == ident_byte(b),
{
    (65 <= b && b <= 90) || (97 <= b && b <= 122) || (48 <= b && b <= 57) || b == 95
}

/// The end of the run of bytes satisfying the identifier rule (`word`) or the digit rule.
pub open spec fn run_end(src: Seq<u8>, j: int, word: bool) -> int
    decreases src.len() - j,
{
    if 0 <= j < src.len() && (if word { ident_byte(src[j]) } else { is_digit(src[j]) }) {
        run_end(src, j + 1, word)
    } else {
        j
    }
}

pub proof fn lemma_run_end(src: Seq<u8>, j: int, word: bool)
    requires 0 <= j <= src.len(),
    ensures j <= run_end(src, j, word) <= src.len(),
    decreases src.len() - j,
{
    if j < src.len() && (if word { ident_byte(src[j]) } else { is_digit(src[j]) }) {
        lemma_run_end(src, j + 1, word);
    }
}

/// A two-byte operator (`->`, `==`, `<=`, `>=`, `!=`) starts at `i`.
pub open spec fn two_byte_op(src: Seq<u8>, i: int) -> bool {
    i + 1 < src.len() && ((src[i] == 45 && src[i + 1] == 62)
        || ((src[i] == 61 || src[i] == 60 || src[i] == 62 || src[i] == 33) && src[i + 1] == 61))
}

/// The token that starts at the non-blank byte `i`: its kind and its end.
pub open spec fn token_at(src: Seq<u8>, i: int) -> (Kind, int) {
    let c = src[i];
    if is_digit(c) {
        (Kind::Int, run_end(src, i, false))
    } else if ident_byte(c) {
        (Kind::Ident, run_end(src, i, true))
    } else {
        (Kind::Op, if two_byte_op(src, i) { i + 2 } else { i + 1 })
    }
}

pub proof fn lemma_token_at(src: Seq<u8>, i: int)
    requires 0 <= i < src.len(),
    ensures i < token_at(src, i).1 <= src.len(),
{
    lemma_run_end(src, i + 1, false);
    lemma_run_end(src, i + 1, true);
}

/// The first non-blank position at or after `i`, or the end.
pub open spec fn skip_blank(src: Seq<u8>, i: int) -> int
    decreases src.len() - i,
{
    if 0 <= i < src.len() && is_ws(src[i]) { skip_blank(src, i + 1) } else { i }
}

pub proof fn lemma_skip_blank(src: Seq<u8>, i: int)
    requires 0 <= i <= src.len(),
    ensures i <= skip_blank(src, i) <= src.len(),
        skip_blank(src, i) < src.len() ==> !is_ws(src[skip_blank(src, i)]),
    decreases src.len() - i,
{
    if i < src.len() && is_ws(src[i]) {
        lemma_skip_blank(src, i + 1);
    }
}

/// The spans of the tokens from position `i` on.
pub open spec fn span_tokens(src: Seq<u8>, i: int) -> Seq<(Kind, usize, usize)>
    decreases src.len() - i,
{
    if i < 0 || i >= src.len() {
        Seq::empty()
    } else if is_ws(src[i]) {
        span_tokens(src, i + 1)
    } else {
        let t = token_at(src, i);
        proof { lemma_token_at(src, i); }
        seq![(t.0, i as usize, t.1 as usize)] + span_tokens(src, t.1)
    }
}

pub proof fn lemma_span_skip(src: Seq<u8>, i: int)
    requires 0 <= i <= src.len(),
    ensures span_tokens(src, i) == span_tokens(src, skip_blank(src, i)),
    decreases src.len() - i,
{
    if i < src.len() && is_ws(src[i]) {
        lemma_span_skip(src, i + 1);
    }
}

/// The next token at or after byte `i`, skipping whitespace: its kind, start and end;
/// `None` at the end of the input. Nothing is allocated, so a caller can stream tokens.
pub fn next_span(b: &[u8], from: usize) -> (r: Option<(Kind, usize, usize)>)
    requires from <= b@.len(),
    ensures
        r is None ==> skip_blank(b@, from as int) == b@.len(),
        r matches Some(t) ==> skip_blank(b@, from as int) == t.1 && t.1 < b@.len()
            && token_at(b@, t.1 as int) == (t.0, t.2 as int),
{
    let n = b.len();
    let mut i = from;
    while i < n && (b[i] == 32 || b[i] == 9 || b[i] == 10 || b[i] == 12 || b[i] == 13)
        invariant i <= n, n == b@.len(), skip_blank(b@, i as int) == skip_blank(b@, from as int),
        decreases n - i,
    {
        i += 1;
    }
    if i >= n {
        return None;
    }
    let c = b[i];
    let start = i;
    let kind = if 48 <= c && c <= 57 {
        while i < n && 48 <= b[i] && b[i] <= 57
            invariant start <= i <= n, n == b@.len(), run_end(b@, i as int, false) == run_end(b@, start as int, false),
            decreases n - i,
        {
            i += 1;
        }
        Kind::Int
    } else if is_ident(c) {
        while i < n && is_ident(b[i])
            invariant start <= i <= n, n == b@.len(), run_end(b@, i as int, true) == run_end(b@, start as int, true),
            decreases n - i,
        {
            i += 1;
        }
        Kind::Ident
    } else {
        let two = i + 1 < n && ((c == 45 && b[i + 1] == 62) || ((c == 61 || c == 60 || c == 62 || c == 33) && b[i + 1] == 61));
        i += if two { 2 } else { 1 };
        Kind::Op
    };
    Some((kind, start, i))
}

/// The spans of all tokens, collected.
pub fn lex_spans(src: &str) -> (out: Vec<(Kind, usize, usize)>)
    ensures out@ == span_tokens(src.spec_bytes(), 0),
{
    let b = src.as_bytes();
    let n = b.len();
    let mut out: Vec<(Kind, usize, usize)> = Vec::new();
    let mut i: usize = 0;
    while i < n
        invariant i <= n, n == b@.len(), out@ + span_tokens(b@, i as int) == span_tokens(b@, 0),
        decreases n - i,
    {
        proof { lemma_span_skip(b@, i as int); lemma_skip_blank(b@, i as int); }
        match next_span(b, i) {
            None => {
                i = n;
            },
            Some(t) => {
                proof { lemma_token_at(b@, t.1 as int); }
                out.push(t);
                assert(out@ + span_tokens(b@, t.2 as int) =~= span_tokens(b@, 0));
                i = t.2;
            },
        }
    }
    out
}

/// A token that owns a copy of its text; operators carry none.
pub struct OwnedToken {
    pub kind: Kind,
    pub text: Option<String>,
}

pub open spec fn owned_view(t: OwnedToken) -> (Kind, Option<Seq<char>>) {
    (t.kind, match t.text { Some(s) => Some(s@), None => None })
}

/// What the owned lexer gives for a span.
pub open spec fn owned_of(src: Seq<u8>, t: (Kind, usize, usize)) -> (Kind, Option<Seq<char>>) {
    (t.0, if t.0 != Kind::Op { Some(ascii_chars(src.subrange(t.1 as int, t.2 as int))) } else { None })
}

proof fn lemma_run_ascii(src: Seq<u8>, j: int, word: bool, lo: int)
    requires 0 <= lo <= j <= src.len(),
        forall|k: int| lo <= k < j ==> (#[trigger] src[k]) < 128,
    ensures forall|k: int| lo <= k < run_end(src, j, word) ==> (#[trigger] src[k]) < 128,
    decreases src.len() - j,
{
    if j < src.len() && (if word { ident_byte(src[j]) } else { is_digit(src[j]) }) {
        lemma_run_ascii(src, j + 1, word, lo);
    }
}

/// The same scanner, but each identifier and number owns a copy of its text.
pub fn lex_owned(src: &str) -> (out: Vec<OwnedToken>)
    ensures
        out@.len() == span_tokens(src.spec_bytes(), 0).len(),
        forall|k: int| 0 <= k < out@.len() ==>
            owned_view(#[trigger] out@[k]) == owned_of(src.spec_bytes(), span_tokens(src.spec_bytes(), 0)[k]),
{
    let b = src.as_bytes();
    let n = b.len();
    let ghost all = span_tokens(b@, 0);
    let ghost mut done: Seq<(Kind, usize, usize)> = Seq::empty();
    let mut out: Vec<OwnedToken> = Vec::new();
    let mut i: usize = 0;
    while i < n
        invariant
            i <= n, n == b@.len(), all == span_tokens(b@, 0),
            done + span_tokens(b@, i as int) == all, out@.len() == done.len(),
            forall|k: int| 0 <= k < out@.len() ==> owned_view(#[trigger] out@[k]) == owned_of(b@, done[k]),
        decreases n - i,
    {
        proof { lemma_span_skip(b@, i as int); lemma_skip_blank(b@, i as int); }
        match next_span(b, i) {
            None => {
                i = n;
            },
            Some(t) => {
                let (kind, lo, hi) = t;
                proof { lemma_token_at(b@, lo as int); }
                let text = if kind != Kind::Op {
                    proof {
                        let word = kind == Kind::Ident;
                        assert(hi == run_end(b@, lo as int, word));
                        assert(run_end(b@, lo as int, word) == run_end(b@, lo + 1, word));
                        lemma_run_ascii(b@, lo + 1, word, lo as int);
                    }
                    let piece = &b[lo..hi];
                    assert(is_ascii_seq(piece@));
                    Some(ascii_string(piece))
                } else {
                    None
                };
                out.push(OwnedToken { kind, text });
                proof {
                    assert(span_tokens(b@, i as int) == seq![t] + span_tokens(b@, hi as int)) by {
                        assert(span_tokens(b@, lo as int) == seq![t] + span_tokens(b@, hi as int));
                    }
                    done = done.push(t);
                    assert(done + span_tokens(b@, hi as int) =~= all);
                }
                i = hi;
            },
        }
    }
    assert(done =~= all);
    out
}

/// What `char::is_whitespace` answers: the Unicode White_Space property, which holds of
/// exactly these 25 code points.
pub open spec fn unicode_white(c: char) -> bool {
    let u = c as u32;
    ||| 0x09 <= u <= 0x0d
    ||| u == 0x20 || u == 0x85 || u == 0xa0 || u == 0x1680
    ||| 0x2000 <= u <= 0x200a
    ||| u == 0x2028 || u == 0x2029 || u == 0x202f || u == 0x205f || u == 0x3000
}

/// What `char::is_alphanumeric` answers: the Unicode Alphabetic or Numeric property.
pub uninterp spec fn unicode_alnum(c: char) -> bool;

/// `char::is_whitespace`; its answer is a fixed property of the character.
#[verifier::external_body]
pub(crate) fn char_is_whitespace(c: char) -> (r: bool)
    ensures r == unicode_white(c),
{
    c.is_whitespace()
}

/// `char::is_alphanumeric`; its answer is a fixed property of the character.
#[verifier::external_body]
fn char_is_alphanumeric(c: char) -> (r: bool)
    ensures r == unicode_alnum(c),
{
    c.is_alphanumeric()
}

/// `String::push`: appends the character.
#[verifier::external_body]
pub(crate) fn push_char(s: &mut String, c: char)
    ensures final(s)@ == old(s)@.push(c),
{
    s.push(c);
}

pub open spec fn is_dchar(c: char) -> bool {
    '0' <= c <= '9'
}

/// A character that may continue an identifier in the char-by-char lexer.
pub open spec fn word_char(c: char) -> bool {
    unicode_alnum(c) || c == '_'
}

/// The end of the run of characters satisfying the identifier rule (`word`) or the
/// ASCII-digit rule.
pub open spec fn char_run_end(s: Seq<char>, j: int, word: bool) -> int
    decreases s.len() - j,
{
    if 0 <= j < s.len() && (if word { word_char(s[j]) } else { is_dchar(s[j]) }) {
        char_run_end(s, j + 1, word)
    } else {
        j
    }
}

pub proof fn lemma_char_run_end(s: Seq<char>, j: int, word: bool)
    requires 0 <= j <= s.len(),
    ensures j <= char_run_end(s, j, word) <= s.len(),
    decreases s.len() - j,
{
    if j < s.len() && (if word { word_char(s[j]) } else { is_dchar(s[j]) }) {
        lemma_char_run_end(s, j + 1, word);
    }
}

/// A two-character operator starts at `i`.
pub open spec fn two_char_op(s: Seq<char>, i: int) -> bool {
    i + 1 < s.len() && ((s[i] == '-' && s[i + 1] == '>')
        || ((s[i] == '=' || s[i] == '<' || s[i] == '>' || s[i] == '!') && s[i + 1] == '='))
}

/// The char-by-char lexer's token at the non-blank position `i`.
pub open spec fn char_token_at(s: Seq<char>, i: int) -> (Kind, int) {
    let c = s[i];
    if is_dchar(c) {
        (Kind::Int, char_run_end(s, i, false))
    } else if word_char(c) {
        (Kind::Ident, char_run_end(s, i, true))
    } else {
        (Kind::Op, if two_char_op(s, i) { i + 2 } else { i + 1 })
    }
}

/// The tokens and their text that the char-by-char lexer gives from position `i` on.
pub open spec fn char_tokens(s: Seq<char>, i: int) -> Seq<(Kind, Seq<char>)>
    decreases s.len() - i,
{
    if i < 0 || i >= s.len() {
        Seq::empty()
    } else if unicode_white(s[i]) {
        char_tokens(s, i + 1)
    } else {
        let t = char_token_at(s, i);
        proof {
            lemma_char_run_end(s, i + 1, false);
            lemma_char_run_end(s, i + 1, true);
        }
        seq![(t.0, s.subrange(i, t.1))] + char_tokens(s, t.1)
    }
}

pub open spec fn lexemes_view(v: Seq<(Kind, String)>) -> Seq<(Kind, Seq<char>)> {
    v.map_values(|t: (Kind, String)| (t.0, t.1@))
}

/// The character at `pos`, if any: what the lexer sees when it peeks.
pub open spec fn peek_at(s: Seq<char>, pos: int) -> Option<char> {
    if 0 <= pos < s.len() { Some(s[pos]) } else { None }
}


/// Moves past the peeked character.
fn advance<'a>(it: &mut std::str::Chars<'a>, Ghost(s): Ghost<Seq<char>>, Ghost(pos): Ghost<int>) -> (peek: Option<char>)
    requires 0 <= pos < s.len(), (*old(it)).remaining() == (if pos < s.len() { s.subrange(pos + 1, s.len() as int) } else { Seq::empty() }),
    ensures peek == peek_at(s, pos + 1), (*final(it)).remaining() == (if pos + 1 < s.len() { s.subrange(pos + 2, s.len() as int) } else { Seq::empty() }),
{
    let r = it.next();
    proof {
        broadcast use vstd::string::next_postcondition;
        if pos + 1 < s.len() {
            assert(s.subrange(pos + 1, s.len() as int)[0] == s[pos + 1]);
            assert(s.subrange(pos + 1, s.len() as int).drop_first() =~= s.subrange(pos + 2, s.len() as int));
        }
    }
    r
}

/// Takes the first character as the peeked one.
fn start_chars<'a>(it: &mut std::str::Chars<'a>, Ghost(s): Ghost<Seq<char>>) -> (peek: Option<char>)
    requires (*old(it)).remaining() == s,
    ensures peek == peek_at(s, 0), (*final(it)).remaining() == (if 0 < s.len() { s.subrange(1, s.len() as int) } else { Seq::empty() }),
{
    let r = it.next();
    proof {
        broadcast use vstd::string::next_postcondition;
        if s.len() > 0 {
            assert(s.drop_first() =~= s.subrange(1, s.len() as int));
        }
    }
    r
}

/// The char-by-char lexer over a peekable character iterator: every lexeme is built in a
/// fresh `String`, one character at a time.
pub fn lex_chars(src: &str) -> (out: Vec<(Kind, String)>)
    ensures lexemes_view(out@) == char_tokens(src@, 0),
{
    let ghost s = src@;
    let mut out: Vec<(Kind, String)> = Vec::new();
    let mut it = src.chars();
    let ghost mut pos: int = 0;
    assert(it.remaining() == s);
    let mut peek = start_chars(&mut it, Ghost(s));
    loop
        invariant
            s == src@, 0 <= pos <= s.len(), peek == peek_at(s, pos), it.remaining() == (if pos < s.len() { s.subrange(pos + 1, s.len() as int) } else { Seq::empty() }),
            lexemes_view(out@) + char_tokens(s, pos) == char_tokens(s, 0),
        ensures
            lexemes_view(out@) == char_tokens(s, 0),
        decreases s.len() - pos,
    {
        let c = match peek {
            Some(c) => c,
            None => {
                assert(lexemes_view(out@) + char_tokens(s, pos) =~= lexemes_view(out@));
                break;
            },
        };
        let ghost start = pos;
        if char_is_whitespace(c) {
            peek = advance(&mut it, Ghost(s), Ghost(pos));
            proof { pos = pos + 1; }
            continue;
        }
        let mut t = String::new();
        let kind = if '0' <= c && c <= '9' {
            loop
                invariant
                    s == src@, 0 <= pos <= s.len(), peek == peek_at(s, pos), it.remaining() == (if pos < s.len() { s.subrange(pos + 1, s.len() as int) } else { Seq::empty() }), 0 <= start <= pos,
                    t@ == s.subrange(start, pos),
                    char_run_end(s, pos, false) == char_run_end(s, start, false),
                ensures
                    pos == char_run_end(s, start, false), 0 <= pos <= s.len(), peek == peek_at(s, pos), it.remaining() == (if pos < s.len() { s.subrange(pos + 1, s.len() as int) } else { Seq::empty() }), t@ == s.subrange(start, pos),
                decreases s.len() - pos,
            {
                let d = match peek {
                    Some(d) => d,
                    None => { break; },
                };
                if !('0' <= d && d <= '9') {
                    break;
                }
                push_char(&mut t, d);
                peek = advance(&mut it, Ghost(s), Ghost(pos));
                proof { pos = pos + 1; }
                assert(t@ =~= s.subrange(start, pos));
            }
            Kind::Int
        } else if char_is_alphanumeric(c) || c == '_' {
            loop
                invariant
                    s == src@, 0 <= pos <= s.len(), peek == peek_at(s, pos), it.remaining() == (if pos < s.len() { s.subrange(pos + 1, s.len() as int) } else { Seq::empty() }), 0 <= start <= pos,
                    t@ == s.subrange(start, pos),
                    char_run_end(s, pos, true) == char_run_end(s, start, true),
                ensures
                    pos == char_run_end(s, start, true), 0 <= pos <= s.len(), peek == peek_at(s, pos), it.remaining() == (if pos < s.len() { s.subrange(pos + 1, s.len() as int) } else { Seq::empty() }), t@ == s.subrange(start, pos),
                decreases s.len() - pos,
            {
                let d = match peek {
                    Some(d) => d,
                    None => { break; },
                };
                if !(char_is_alphanumeric(d) || d == '_') {
                    break;
                }
                push_char(&mut t, d);
                peek = advance(&mut it, Ghost(s), Ghost(pos));
                proof { pos = pos + 1; }
                assert(t@ =~= s.subrange(start, pos));
            }
            Kind::Ident
        } else {
            push_char(&mut t, c);
            peek = advance(&mut it, Ghost(s), Ghost(pos));
            proof { pos = pos + 1; }
            assert(t@ =~= s.subrange(start, pos));
            if let Some(n) = peek {
                if (c == '-' && n == '>') || ((c == '=' || c == '<' || c == '>' || c == '!') && n == '=') {
                    push_char(&mut t, n);
                    peek = advance(&mut it, Ghost(s), Ghost(pos));
                    proof { pos = pos + 1; }
                    assert(t@ =~= s.subrange(start, pos));
                }
            }
            Kind::Op
        };
        proof {
            lemma_char_run_end(s, start + 1, false);
            lemma_char_run_end(s, start + 1, true);
            assert(char_token_at(s, start) == (kind, pos));
            assert(char_tokens(s, start) == seq![(kind, s.subrange(start, pos))] + char_tokens(s, pos));
        }
        let ghost before = out@;
        out.push((kind, t));
        assert(lexemes_view(out@) =~= lexemes_view(before).push((kind, s.subrange(start, pos))));
        assert(lexemes_view(out@) + char_tokens(s, pos) =~= char_tokens(s, 0));
    }
    out
}

/// The characters of a text, read once from front to back.
pub fn chars_vec(src: &str) -> (v: Vec<char>)
    ensures v@ == src@,
{
    let ghost s = src@;
    let mut v: Vec<char> = Vec::new();
    let mut it = src.chars();
    let ghost mut pos: int = 0;
    let mut peek = start_chars(&mut it, Ghost(s));
    loop
        invariant
            s == src@, 0 <= pos <= s.len(), peek == peek_at(s, pos),
            it.remaining() == (if pos < s.len() { s.subrange(pos + 1, s.len() as int) } else { Seq::empty() }),
            v@ == s.subrange(0, pos),
        ensures v@ == s,
        decreases s.len() - pos,
    {
        match peek {
            Some(c) => {
                v.push(c);
                peek = advance(&mut it, Ghost(s), Ghost(pos));
                proof { pos = pos + 1; }
                assert(v@ =~= s.subrange(0, pos));
            },
            None => {
                assert(s.subrange(0, pos) =~= s);
                break;
            },
        }
    }
    v
}

} // verus!
