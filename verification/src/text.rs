//! Text: its bytes and characters, and how numbers are written into messages, keys and file names.

use vstd::prelude::*;
use vstd::string::*;
use vstd::utf8::{decode_utf8, encode_utf8_decode_utf8, valid_utf8};
use crate::keyed::same_bytes;

verus! {

/// `String::push` appends one character at the end of the text.
pub assume_specification[ String::push ](s: &mut String, c: char)
    ensures
        final(s)@ == old(s)@.push(c),
;

/// The text that bytes stand for once every part that is not UTF-8 has been replaced.
pub uninterp spec fn lossy(b: Seq<u8>) -> Seq<char>;

/// The text that bytes are read as, whatever they hold.
pub open spec fn readable(b: Seq<u8>) -> Seq<char> {
    if valid_utf8(b) {
        decode_utf8(b)
    } else {
        lossy(b)
    }
}

/// `std::str::from_utf8` reads bytes as text, exactly where they are UTF-8.
#[verifier::external_body]
pub(crate) fn utf8_text(b: &[u8]) -> (r: Option<String>)
    ensures
        match r {
            Some(t) => valid_utf8(b@) && t@ == decode_utf8(b@),
            None => !valid_utf8(b@),
        },
{
    std::str::from_utf8(b).ok().map(|t| t.to_owned())
}

/// `String::from_utf8_lossy` reads bytes as text, with replacement characters for what is not
/// UTF-8. Where all of it is UTF-8, nothing is replaced.
#[verifier::external_body]
pub(crate) fn lossy_text(b: &[u8]) -> (r: String)
    ensures
        r@ == lossy(b@),
        valid_utf8(b@) ==> r@ == decode_utf8(b@),
{
    String::from_utf8_lossy(b).into_owned()
}

/// Two texts are the same.
pub fn same_text(a: &str, b: &str) -> (r: bool)
    ensures
        r == (a@ == b@),
{
    proof {
        encode_utf8_decode_utf8(a@);
        encode_utf8_decode_utf8(b@);
    }
    same_bytes(a.as_bytes(), b.as_bytes())
}

/// The characters of a text.
pub fn chars_of(s: &str) -> (r: Vec<char>)
    ensures
        r@ == s@,
{
    broadcast use vstd::string::axiom_spec_iter;

    let mut out: Vec<char> = Vec::new();
    for c in it: s.chars()
        invariant
            it.seq() == s@,
            out@ == it.seq().take(it.index()),
    {
        out.push(c);
    }
    assert(out@ =~= s@);
    out
}

/// The decimal digits of `n`, most significant first, without leading zeros.
pub open spec fn digits(n: nat) -> Seq<u8>
    decreases n,
{
    if n < 10 {
        seq![n as u8]
    } else {
        digits(n / 10).push((n % 10) as u8)
    }
}

/// The ASCII bytes of the decimal text of `n`.
pub open spec fn dec_bytes(n: nat) -> Seq<u8> {
    digits(n).map_values(|d: u8| (d + 48) as u8)
}

/// The ASCII bytes of the decimal text of an integer, with a minus sign where it is negative.
pub open spec fn int_bytes(n: int) -> Seq<u8> {
    if n < 0 {
        seq![45u8] + dec_bytes((-n) as nat)
    } else {
        dec_bytes(n as nat)
    }
}

/// The character of one decimal digit.
pub open spec fn digit_char(d: u8) -> char {
    (d + 48) as char
}

/// The decimal text of `n`.
pub open spec fn dec_text(n: nat) -> Seq<char> {
    digits(n).map_values(|d: u8| digit_char(d))
}

/// Different numbers have different decimal texts.
pub proof fn law_dec_text_injective(a: nat, b: nat)
    requires
        dec_text(a) == dec_text(b),
    ensures
        a == b,
    decreases a,
{
    lemma_digits_range(a);
    lemma_digits_range(b);
    let da = digits(a);
    let db = digits(b);
    assert(da =~= db) by {
        assert(dec_text(a).len() == da.len());
        assert(dec_text(b).len() == db.len());
        assert forall|i: int| 0 <= i < da.len() implies da[i] == db[i] by {
            assert(dec_text(a)[i] == digit_char(da[i]));
            assert(dec_text(b)[i] == digit_char(db[i]));
        }
    }
    if a < 10 && b < 10 {
        assert(da[0] == a as u8 && db[0] == b as u8);
    } else if a < 10 {
        lemma_digits_range(b / 10);
        assert(db.len() >= 2);
    } else if b < 10 {
        lemma_digits_range(a / 10);
        assert(da.len() >= 2);
    } else {
        lemma_digits_range(a / 10);
        assert(digits(a / 10) =~= da.drop_last());
        assert(digits(b / 10) =~= db.drop_last());
        assert(da.last() == (a % 10) as u8 && db.last() == (b % 10) as u8);
        assert(dec_text(a / 10) =~= dec_text(b / 10));
        law_dec_text_injective(a / 10, b / 10);
    }
}

/// Every digit of `n` lies between zero and nine, and there is at least one.
pub proof fn lemma_digits_range(n: nat)
    ensures
        digits(n).len() >= 1,
        forall|i: int| 0 <= i < digits(n).len() ==> #[trigger] digits(n)[i] <= 9,
    decreases n,
{
    if n >= 10 {
        lemma_digits_range(n / 10);
    }
}

/// Computes the decimal digits of `n`.
pub fn to_digits(n: u64) -> (out: Vec<u8>)
    ensures
        out@ == digits(n as nat),
    decreases n,
{
    if n < 10 {
        let mut out: Vec<u8> = Vec::new();
        out.push(n as u8);
        out
    } else {
        let mut out = to_digits(n / 10);
        out.push((n % 10) as u8);
        out
    }
}

/// Appends the decimal text of `n` to a byte buffer.
pub fn push_dec_bytes(out: &mut Vec<u8>, n: u64)
    ensures
        final(out)@ == old(out)@ + dec_bytes(n as nat),
{
    let ds = to_digits(n);
    proof {
        lemma_digits_range(n as nat);
    }
    let mut i: usize = 0;
    while i < ds.len()
        invariant
            i <= ds.len(),
            ds@ == digits(n as nat),
            forall|j: int| 0 <= j < ds@.len() ==> #[trigger] ds@[j] <= 9,
            out@ =~= old(out)@ + dec_bytes(n as nat).take(i as int),
        decreases ds.len() - i,
    {
        out.push(ds[i] + 48);
        i += 1;
    }
    assert(dec_bytes(n as nat).take(i as int) =~= dec_bytes(n as nat));
}

/// The absolute value of an integer.
pub fn magnitude(n: i64) -> (m: u64)
    ensures
        m == if n < 0 {
            -n
        } else {
            n as int
        },
{
    if n < 0 {
        (-(n + 1)) as u64 + 1
    } else {
        n as u64
    }
}

/// Appends the decimal text of an integer to a byte buffer.
pub fn push_int_bytes(out: &mut Vec<u8>, n: i64)
    ensures
        final(out)@ == old(out)@ + int_bytes(n as int),
{
    if n < 0 {
        out.push(45);
    }
    push_dec_bytes(out, magnitude(n));
}

/// A number in decimal, filled up with zeros behind its sign to a least width.
pub open spec fn pad_text(n: int, width: nat) -> Seq<char> {
    let sign = if n < 0 {
        seq!['-']
    } else {
        seq![]
    };
    let body = dec_text(
        if n < 0 {
            (-n) as nat
        } else {
            n as nat
        },
    );
    let used = sign.len() + body.len();
    let zeros = if used < width {
        (width - used) as nat
    } else {
        0
    };
    sign + Seq::new(zeros, |i: int| '0') + body
}

fn digit_to_char(d: u8) -> (c: char)
    requires
        d <= 9,
    ensures
        c == digit_char(d),
{
    (d + 48) as char
}

/// Appends the decimal text of `n`.
pub fn push_dec(out: &mut String, n: u64)
    ensures
        final(out)@ == old(out)@ + dec_text(n as nat),
{
    let ds = to_digits(n);
    proof {
        lemma_digits_range(n as nat);
    }
    let mut i: usize = 0;
    while i < ds.len()
        invariant
            i <= ds.len(),
            ds@ == digits(n as nat),
            forall|j: int| 0 <= j < ds@.len() ==> #[trigger] ds@[j] <= 9,
            out@ =~= old(out)@ + dec_text(n as nat).take(i as int),
        decreases ds.len() - i,
    {
        out.push(digit_to_char(ds[i]));
        i += 1;
    }
    assert(dec_text(n as nat).take(i as int) =~= dec_text(n as nat));
}

/// Appends a number in decimal, filled up with zeros to a least width.
pub fn push_pad(out: &mut String, n: i64, width: usize)
    ensures
        final(out)@ == old(out)@ + pad_text(n as int, width as nat),
{
    let m = magnitude(n);
    let body = to_digits(m);
    let mut filled: usize = body.len();
    if n < 0 {
        out.push('-');
        if filled < width {
            filled += 1;
        }
    }
    let ghost sign = if n < 0 {
        seq!['-']
    } else {
        seq![]
    };
    let ghost used = sign.len() + dec_text(m as nat).len();
    let ghost zeros = if used < width {
        (width - used) as nat
    } else {
        0
    };
    let ghost mut k: nat = 0;
    assert(out@ =~= old(out)@ + sign + Seq::new(k, |i: int| '0'));
    while filled < width
        invariant
            k <= zeros,
            filled < width ==> filled == used + k,
            used < width ==> filled <= width && filled == used + k,
            filled >= width ==> k == zeros,
            zeros == if used < width {
                (width - used) as nat
            } else {
                0
            },
            out@ =~= old(out)@ + sign + Seq::new(k, |i: int| '0'),
        decreases width - filled,
    {
        out.push('0');
        filled += 1;
        proof {
            k = k + 1;
        }
        assert(Seq::new(k, |i: int| '0') =~= Seq::new((k - 1) as nat, |i: int| '0').push('0'));
    }
    push_dec(out, m);
    assert(out@ =~= old(out)@ + pad_text(n as int, width as nat));
}

} // verus!
