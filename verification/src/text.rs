//! Text as the compilers produce it: bytes that are ASCII, decimal numerals, and the
//! conversion of byte buffers into `String`s.

use vstd::prelude::*;
use vstd::utf8::{valid_utf8, decode_utf8};
use vstd::string::StringExecFns;

verus! {

/// Every byte is below 128.
pub open spec fn is_ascii_seq(b: Seq<u8>) -> bool {
    forall|i: int| 0 <= i < b.len() ==> #[trigger] b[i] < 128
}

/// The characters that ASCII bytes stand for.
pub open spec fn ascii_chars(b: Seq<u8>) -> Seq<char> {
    b.map_values(|x: u8| x as char)
}

/// ASCII bytes are valid UTF-8 and decode to the characters with the same numbers.
pub proof fn lemma_ascii_utf8(b: Seq<u8>)
    requires is_ascii_seq(b),
    ensures valid_utf8(b), decode_utf8(b) == ascii_chars(b),
    decreases b.len(),
{
    if b.len() > 0 {
        let rest = b.subrange(1, b.len() as int);
        assert(is_ascii_seq(rest)) by {
            assert forall|i: int| 0 <= i < rest.len() implies #[trigger] rest[i] < 128 by {
                assert(rest[i] == b[i + 1]);
            }
        }
        lemma_ascii_utf8(rest);
        let c = b[0];
        assert(c < 128);
        assert((c & 0x7f) == c) by (bit_vector) requires c < 128;
        assert(vstd::utf8::pop_first_scalar(b) == rest);
        assert(valid_utf8(b));
        assert(decode_utf8(b) =~= ascii_chars(b)) by {
            assert(decode_utf8(b) == seq![(c as u32) as char] + decode_utf8(rest));
        }
    } else {
        assert(decode_utf8(b) =~= ascii_chars(b));
    }
}

/// `String::from_utf8_lossy`: bytes that are valid UTF-8 are taken as they are.
#[verifier::external_body]
pub fn string_from_bytes(b: &[u8]) -> (s: String)
    ensures valid_utf8(b@) ==> s@ == decode_utf8(b@),
{
    String::from_utf8_lossy(b).into_owned()
}

/// The `String` holding the given ASCII bytes.
pub fn ascii_string(b: &[u8]) -> (s: String)
    requires is_ascii_seq(b@),
    ensures s@ == ascii_chars(b@),
{
    proof { lemma_ascii_utf8(b@); }
    string_from_bytes(b)
}

/// The decimal digits of `n`, most significant first, without leading zeros ("0" for zero).
pub open spec fn decimal(n: nat) -> Seq<u8>
    decreases n,
{
    if n < 10 {
        seq![(48 + n) as u8]
    } else {
        decimal(n / 10).push((48 + n % 10) as u8)
    }
}

/// The decimal numeral of an integer, with a leading `-` when it is negative.
pub open spec fn int_text(n: int) -> Seq<u8> {
    if n < 0 { seq![45u8] + decimal((-n) as nat) } else { decimal(n as nat) }
}

pub proof fn lemma_decimal_ascii(n: nat)
    ensures is_ascii_seq(decimal(n)), decimal(n).len() >= 1,
    decreases n,
{
    if n >= 10 {
        lemma_decimal_ascii(n / 10);
    }
}

pub proof fn lemma_int_text_ascii(n: int)
    ensures is_ascii_seq(int_text(n)),
{
    if n < 0 {
        lemma_decimal_ascii((-n) as nat);
        assert forall|i: int| 0 <= i < int_text(n).len() implies #[trigger] int_text(n)[i] < 128 by {
            if i > 0 {
                assert(int_text(n)[i] == decimal((-n) as nat)[i - 1]);
            }
        }
    } else {
        lemma_decimal_ascii(n as nat);
    }
}

/// Appends the decimal digits of `n`.
pub fn push_decimal(out: &mut Vec<u8>, n: u64)
    ensures final(out)@ == old(out)@ + decimal(n as nat),
    decreases n,
{
    if n < 10 {
        out.push((48 + n) as u8);
        assert(decimal(n as nat) == seq![(48 + n) as u8]);
    } else {
        push_decimal(out, n / 10);
        out.push((48 + n % 10) as u8);
        assert(decimal(n as nat) == decimal((n / 10) as nat).push((48 + n % 10) as u8));
    }
}

/// Appends the decimal numeral of `n`.
pub fn push_int(out: &mut Vec<u8>, n: i64)
    ensures final(out)@ == old(out)@ + int_text(n as int),
{
    if n < 0 {
        out.push(45u8);
        let m: u64 = ((-(n + 1)) as u64) + 1;
        push_decimal(out, m);
        assert(final(out)@ =~= old(out)@ + int_text(n as int));
    } else {
        push_decimal(out, n as u64);
    }
}

/// The decimal numeral of `n` as a `String`.
pub fn int_to_string(n: i64) -> (s: String)
    ensures s@ == ascii_chars(int_text(n as int)),
{
    let mut v: Vec<u8> = Vec::new();
    push_int(&mut v, n);
    proof { lemma_int_text_ascii(n as int); }
    assert(v@ =~= int_text(n as int));
    ascii_string(v.as_slice())
}

/// The decimal numeral of an unsigned number as a `String`.
pub fn decimal_string(n: u64) -> (s: String)
    ensures s@ == ascii_chars(decimal(n as nat)),
{
    let mut v: Vec<u8> = Vec::new();
    push_decimal(&mut v, n);
    proof { lemma_decimal_ascii(n as nat); }
    assert(v@ =~= decimal(n as nat));
    ascii_string(v.as_slice())
}

/// Appends bytes one by one.
pub fn push_all(out: &mut Vec<u8>, s: &[u8])
    ensures final(out)@ == old(out)@ + s@,
{
    let mut k: usize = 0;
    while k < s.len()
        invariant k <= s@.len(), out@ == old(out)@ + s@.subrange(0, k as int),
        decreases s@.len() - k,
    {
        out.push(s[k]);
        k += 1;
        assert(s@.subrange(0, k as int) =~= s@.subrange(0, (k - 1) as int).push(s@[k - 1]));
    }
    assert(s@.subrange(0, s@.len() as int) =~= s@);
}

/// Whether two texts are equal, character by character.
pub fn text_is(s: &str, t: &str) -> (r: bool)
    ensures r == (s@ == t@),
{
    String::from_str(s) == String::from_str(t)
}

} // verus!
