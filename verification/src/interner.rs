//! String interning: every identifier occurrence becomes a 4-byte `Symbol`, and each
//! distinct string is stored once, so names compare as integers.

use vstd::prelude::*;
use vstd::string::{StringExecFns, StringSliceAdditionalSpecFns};
use crate::bytes::{is_digit, is_ident_byte, digit, ident_byte};
use crate::lexer::{ident_end, lemma_scan_ends};
use crate::text::{ascii_chars, ascii_string, is_ascii_seq};

verus! {

#[derive(Debug, Clone, Copy, PartialEq, Eq, Structural, Hash, PartialOrd, Ord)]
pub struct Symbol(pub u32);

/// Each distinct string is stored once, at the index its symbol names.
pub struct Interner {
    strings: Vec<String>,
}

impl View for Interner {
    type V = Seq<Seq<char>>;

    closed spec fn view(&self) -> Seq<Seq<char>> {
        self.strings@.map_values(|s: String| s@)
    }
}

/// No string is stored twice.
pub open spec fn distinct(v: Seq<Seq<char>>) -> bool {
    forall|i: int, j: int| 0 <= i < j < v.len() ==> v[i] != v[j]
}

/// Whether two strings hold the same text, compared byte by byte without allocating.
fn same_text(a: &str, b: &str) -> (r: bool)
    ensures r == (a@ == b@),
{
    let x = a.as_bytes();
    let y = b.as_bytes();
    proof {
        vstd::utf8::encode_utf8_decode_utf8(a@);
        vstd::utf8::encode_utf8_decode_utf8(b@);
    }
    if x.len() != y.len() {
        return false;
    }
    let mut i: usize = 0;
    while i < x.len()
        invariant
            i <= x@.len(), x@.len() == y@.len(), x@ == a.spec_bytes(), y@ == b.spec_bytes(),
            forall|j: int| 0 <= j < i ==> x@[j] == y@[j],
        decreases x@.len() - i,
    {
        if x[i] != y[i] {
            return false;
        }
        i += 1;
    }
    assert(x@ =~= y@);
    true
}

impl Interner {
    pub open spec fn wf(&self) -> bool {
        distinct(self@) && self@.len() <= u32::MAX
    }

    /// An empty interner.
    pub fn new() -> (r: Self)
        ensures r.wf(), r@ == Seq::<Seq<char>>::empty(),
    {
        let r = Interner { strings: Vec::new() };
        assert(r@ =~= Seq::<Seq<char>>::empty());
        r
    }

    /// The number of distinct strings.
    pub fn len(&self) -> (n: usize)
        ensures n == self@.len(),
    {
        self.strings.len()
    }

    /// The symbol of `s`: the one it already has, or a new one, the next index, when `s`
    /// was never interned.
    pub fn intern(&mut self, s: &str) -> (sym: Symbol)
        requires old(self).wf(), old(self)@.contains(s@) || old(self)@.len() < u32::MAX,
        ensures
            final(self).wf(),
            sym.0 < final(self)@.len(),
            final(self)@[sym.0 as int] == s@,
            old(self)@.contains(s@) ==> final(self)@ == old(self)@,
            !old(self)@.contains(s@) ==> final(self)@ == old(self)@.push(s@) && sym.0 == old(self)@.len(),
    {
        let mut i: usize = 0;
        while i < self.strings.len()
            invariant
                i <= self@.len(), self@ == old(self)@, self.strings@.len() == self@.len(),
                old(self).wf(),
                forall|j: int| 0 <= j < i ==> self@[j] != s@,
            decreases self@.len() - i,
        {
            assert(self@[i as int] == self.strings@[i as int]@);
            if same_text(self.strings[i].as_str(), s) {
                return Symbol(i as u32);
            }
            i += 1;
        }
        proof {
            if self@.contains(s@) {
                let k = choose|k: int| 0 <= k < self@.len() && self@[k] == s@;
                assert(false);
            }
        }
        let sym = Symbol(self.strings.len() as u32);
        self.strings.push(String::from_str(s));
        proof {
            assert(self@ =~= old(self)@.push(s@));
        }
        sym
    }

    /// The string a symbol stands for.
    pub fn resolve(&self, sym: Symbol) -> (s: &str)
        requires (sym.0 as int) < self@.len(),
        ensures s@ == self@[sym.0 as int],
    {
        self.strings[sym.0 as usize].as_str()
    }
}

/// Interning is a bijection between distinct strings and symbols: a symbol resolves to the
/// string it was made from, and two strings get the same symbol exactly when they are equal.
pub proof fn law_symbols_match_strings(v: Seq<Seq<char>>, a: int, b: int)
    requires distinct(v), 0 <= a < v.len(), 0 <= b < v.len(),
    ensures (a == b) <==> (v[a] == v[b]),
{
}

/// The identifiers of a text: maximal runs of ASCII letters, digits and `_` that do not start
/// with a digit, from position `i` on.
pub open spec fn ident_words(b: Seq<u8>, i: int) -> Seq<Seq<u8>>
    decreases b.len() - i,
{
    if i < 0 || i >= b.len() {
        Seq::empty()
    } else if !is_ident_byte(b[i]) {
        ident_words(b, i + 1)
    } else {
        let e = ident_end(b, i);
        if e <= i || e > b.len() {
            Seq::empty()
        } else {
            (if is_digit(b[i]) { Seq::empty() } else { seq![b.subrange(i, e)] }) + ident_words(b, e)
        }
    }
}

/// The identifiers of a text, in order.
pub fn identifiers(src: &str) -> (words: Vec<String>)
    ensures words@.map_values(|s: String| s@) == ident_words(src.spec_bytes(), 0).map_values(|w: Seq<u8>| ascii_chars(w)),
{
    let b = src.as_bytes();
    let n = b.len();
    let mut i: usize = 0;
    let mut out: Vec<String> = Vec::new();
    while i < n
        invariant
            n == b@.len(), i <= n,
            out@.map_values(|s: String| s@) + ident_words(b@, i as int).map_values(|w: Seq<u8>| ascii_chars(w))
                == ident_words(b@, 0).map_values(|w: Seq<u8>| ascii_chars(w)),
        decreases n - i,
    {
        if !ident_byte(b[i]) {
            i += 1;
        } else {
            let start = i;
            proof { lemma_scan_ends(b@, start as int); }
            while i < n && ident_byte(b[i])
                invariant
                    n == b@.len(), start <= i <= n,
                    ident_end(b@, i as int) == ident_end(b@, start as int),
                    forall|k: int| start <= k < i ==> is_ident_byte(#[trigger] b@[k]),
                decreases n - i,
            {
                i += 1;
            }
            let ghost rest = ident_words(b@, i as int).map_values(|w: Seq<u8>| ascii_chars(w));
            let ghost o0 = out@.map_values(|s: String| s@);
            if !digit(b[start]) {
                let word = &b[start..i];
                assert(word@ == b@.subrange(start as int, i as int));
                assert(is_ascii_seq(word@)) by {
                    assert forall|k: int| 0 <= k < word@.len() implies #[trigger] word@[k] < 128 by {
                        assert(is_ident_byte(b@[start + k]));
                    }
                }
                out.push(ascii_string(word));
                proof {
                    let w = b@.subrange(start as int, i as int);
                    assert(ident_words(b@, start as int) == seq![w] + ident_words(b@, i as int));
                    assert((seq![w] + ident_words(b@, i as int)).map_values(|w: Seq<u8>| ascii_chars(w))
                        =~= seq![ascii_chars(w)] + rest);
                    assert(out@.map_values(|s: String| s@) =~= o0.push(ascii_chars(w)));
                    assert(o0.push(ascii_chars(w)) + rest =~= o0 + (seq![ascii_chars(w)] + rest));
                }
            } else {
                proof {
                    assert(ident_words(b@, start as int) =~= ident_words(b@, i as int));
                }
            }
        }
    }
    proof {
        assert(ident_words(b@, n as int).map_values(|w: Seq<u8>| ascii_chars(w)) =~= Seq::<Seq<char>>::empty());
        assert(out@.map_values(|s: String| s@) + Seq::<Seq<char>>::empty() =~= out@.map_values(|s: String| s@));
    }
    out
}

} // verus!
