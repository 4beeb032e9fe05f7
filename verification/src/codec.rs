//! The wire form of bencoded values: encoding and decoding.

use vstd::prelude::*;
use crate::bencode::{list_model, pairs_model, BModel, BVal, Dict};
use crate::keyed::{
    law_put_sorted, lemma_lex_asymmetric, lemma_lex_irreflexive, lex_lt, put, sorted,
};
use crate::text::{dec_bytes, digits, int_bytes, lemma_digits_range, push_dec_bytes, push_int_bytes};
use vstd::slice::{slice_subrange, slice_to_vec};

verus! {

/// The deepest nesting that the decoder follows.
pub const MAX_DEPTH: usize = 128;

// ---------------------------------------------------------------------------
// Encoding
// ---------------------------------------------------------------------------

/// A byte string on the wire: its length, a colon, its bytes.
pub open spec fn enc_bytes(b: Seq<u8>) -> Seq<u8> {
    dec_bytes(b.len()) + seq![58u8] + b
}

/// The wire form of a value.
pub open spec fn enc(m: BModel) -> Seq<u8>
    decreases m,
{
    match m {
        BModel::Int(n) => seq![105u8] + int_bytes(n as int) + seq![101u8],
        BModel::Bytes(b) => enc_bytes(b),
        BModel::List(l) => seq![108u8] + enc_list(l) + seq![101u8],
        BModel::Dict(d) => seq![100u8] + enc_pairs(d) + seq![101u8],
    }
}

/// The wire forms of values, one after another.
pub open spec fn enc_list(s: Seq<BModel>) -> Seq<u8>
    decreases s,
{
    if s.len() == 0 {
        seq![]
    } else {
        enc(s[0]) + enc_list(s.subrange(1, s.len() as int))
    }
}

/// The wire forms of dictionary entries, one after another.
pub open spec fn enc_pairs(s: Seq<(Seq<u8>, BModel)>) -> Seq<u8>
    decreases s,
{
    if s.len() == 0 {
        seq![]
    } else {
        enc_bytes(s[0].0) + enc(s[0].1) + enc_pairs(s.subrange(1, s.len() as int))
    }
}

fn append_bytes(out: &mut Vec<u8>, b: &[u8])
    ensures
        final(out)@ == old(out)@ + b@,
{
    out.extend_from_slice(b);
    assert(out@ =~= old(out)@ + b@);
}

fn encode_bytes_into(out: &mut Vec<u8>, b: &[u8])
    ensures
        final(out)@ == old(out)@ + enc_bytes(b@),
{
    push_dec_bytes(out, b.len() as u64);
    out.push(58);
    append_bytes(out, b);
    assert(out@ =~= old(out)@ + enc_bytes(b@));
}

fn encode_into(out: &mut Vec<u8>, v: &BVal)
    ensures
        final(out)@ == old(out)@ + enc(v@),
    decreases v,
{
    match v {
        BVal::Int(n) => {
            out.push(105);
            push_int_bytes(out, *n);
            out.push(101);
            assert(out@ =~= old(out)@ + enc(v@));
        },
        BVal::Bytes(b) => {
            encode_bytes_into(out, b.as_slice());
        },
        BVal::List(l) => {
            out.push(108);
            let ghost m = list_model(l@);
            let mut i: usize = 0;
            assert(m.subrange(0, m.len() as int) =~= m);
            while i < l.len()
                invariant
                    i <= l@.len(),
                    m == list_model(l@),
                    *v == BVal::List(*l),
                    old(out)@ + (seq![108u8] + enc_list(m)) =~= out@ + enc_list(
                        m.subrange(i as int, m.len() as int),
                    ),
                decreases l.len() - i,
            {
                let ghost rest = m.subrange(i as int, m.len() as int);
                assert(decreases_to!(v => v->List_0));
                assert(decreases_to!(v->List_0 => v->List_0@[i as int]));
                encode_into(out, &l[i]);
                assert(rest[0] == l@[i as int]@);
                assert(rest.subrange(1, rest.len() as int) =~= m.subrange(i + 1, m.len() as int));
                i += 1;
            }
            out.push(101);
            assert(out@ =~= old(out)@ + enc(v@));
        },
        BVal::Dict(d) => {
            out.push(100);
            let ghost m = pairs_model(d.pairs@);
            let mut i: usize = 0;
            assert(m.subrange(0, m.len() as int) =~= m);
            while i < d.pairs.len()
                invariant
                    i <= d.pairs@.len(),
                    m == pairs_model(d.pairs@),
                    *v == BVal::Dict(*d),
                    old(out)@ + (seq![100u8] + enc_pairs(m)) =~= out@ + enc_pairs(
                        m.subrange(i as int, m.len() as int),
                    ),
                decreases d.pairs.len() - i,
            {
                let ghost rest = m.subrange(i as int, m.len() as int);
                assert(decreases_to!(v => v->Dict_0));
                assert(decreases_to!(v->Dict_0 => v->Dict_0.pairs));
                assert(decreases_to!(v->Dict_0.pairs => v->Dict_0.pairs@[i as int]));
                assert(decreases_to!(v->Dict_0.pairs@[i as int] => v->Dict_0.pairs@[i as int].1));
                encode_bytes_into(out, d.pairs[i].0.as_slice());
                encode_into(out, &d.pairs[i].1);
                assert(rest[0] == (d.pairs@[i as int].0@, d.pairs@[i as int].1@));
                assert(rest.subrange(1, rest.len() as int) =~= m.subrange(i + 1, m.len() as int));
                i += 1;
            }
            out.push(101);
            assert(out@ =~= old(out)@ + enc(v@));
        },
    }
}

/// Encodes a value.
pub fn encode(v: &BVal) -> (out: Vec<u8>)
    ensures
        out@ == enc(v@),
{
    let mut out: Vec<u8> = Vec::new();
    encode_into(&mut out, v);
    assert(out@ =~= enc(v@));
    out
}

/// Encodes a dictionary.
pub fn encode_dict(d: Dict) -> (out: Vec<u8>)
    ensures
        out@ == enc(BModel::Dict(d@)),
{
    let v = BVal::Dict(d);
    encode(&v)
}

// ---------------------------------------------------------------------------
// Decoding
// ---------------------------------------------------------------------------

/// One ASCII digit.
pub open spec fn is_digit(b: u8) -> bool {
    48 <= b <= 57
}

/// Where the run of digits that begins at `pos` ends.
pub open spec fn run_end(s: Seq<u8>, pos: int) -> int
    decreases s.len() - pos,
{
    if 0 <= pos < s.len() && is_digit(s[pos]) {
        run_end(s, pos + 1)
    } else {
        pos
    }
}

/// The number that the digits from `a` up to `b` write.
pub open spec fn run_value(s: Seq<u8>, a: int, b: int) -> nat
    decreases b - a,
{
    if b <= a {
        0
    } else {
        run_value(s, a, b - 1) * 10 + (s[b - 1] - 48) as nat
    }
}

/// A byte string that stands at `pos`, and where it ends.
pub open spec fn dec_str(s: Seq<u8>, pos: int) -> Option<(Seq<u8>, int)> {
    let e = run_end(s, pos);
    let n = run_value(s, pos, e);
    if pos < e && e < s.len() && s[e] == 58 && e + 1 + n <= s.len() {
        Some((s.subrange(e + 1, e + 1 + n), e + 1 + n))
    } else {
        None
    }
}

/// An integer whose text begins at `pos`, and where it ends behind its closing letter.
pub open spec fn dec_int(s: Seq<u8>, pos: int) -> Option<(i64, int)> {
    let neg = 0 <= pos < s.len() && s[pos] == 45;
    let a = if neg {
        pos + 1
    } else {
        pos
    };
    let e = run_end(s, a);
    let n = if neg {
        -(run_value(s, a, e) as int)
    } else {
        run_value(s, a, e) as int
    };
    if a < e && e < s.len() && s[e] == 101 && i64::MIN <= n <= i64::MAX {
        Some((n as i64, e + 1))
    } else {
        None
    }
}

/// The value that stands at `pos`, with at most `depth` levels of nesting, and where it ends.
pub open spec fn dec(s: Seq<u8>, pos: int, depth: nat) -> Option<(BModel, int)>
    decreases depth, s.len() - pos, 0int,
{
    if depth == 0 || pos < 0 || pos >= s.len() {
        None
    } else if s[pos] == 105 {
        match dec_int(s, pos + 1) {
            Some((n, e)) => Some((BModel::Int(n), e)),
            None => None,
        }
    } else if s[pos] == 108 {
        match dec_list(s, pos + 1, (depth - 1) as nat, seq![]) {
            Some((l, e)) => Some((BModel::List(l), e)),
            None => None,
        }
    } else if s[pos] == 100 {
        match dec_pairs(s, pos + 1, (depth - 1) as nat, seq![]) {
            Some((d, e)) => Some((BModel::Dict(d), e)),
            None => None,
        }
    } else {
        match dec_str(s, pos) {
            Some((b, e)) => Some((BModel::Bytes(b), e)),
            None => None,
        }
    }
}

/// The values from `pos` up to the closing letter, behind those that came before.
pub open spec fn dec_list(s: Seq<u8>, pos: int, depth: nat, acc: Seq<BModel>) -> Option<
    (Seq<BModel>, int),
>
    decreases depth, s.len() - pos, 1int,
{
    if pos < 0 || pos >= s.len() {
        None
    } else if s[pos] == 101 {
        Some((acc, pos + 1))
    } else {
        match dec(s, pos, depth) {
            Some((v, e)) => if pos < e <= s.len() {
                dec_list(s, e, depth, acc.push(v))
            } else {
                None
            },
            None => None,
        }
    }
}

/// The entries from `pos` up to the closing letter, bound behind those that came before.
pub open spec fn dec_pairs(
    s: Seq<u8>,
    pos: int,
    depth: nat,
    acc: Seq<(Seq<u8>, BModel)>,
) -> Option<(Seq<(Seq<u8>, BModel)>, int)>
    decreases depth, s.len() - pos, 1int,
{
    if pos < 0 || pos >= s.len() {
        None
    } else if s[pos] == 101 {
        Some((acc, pos + 1))
    } else {
        match dec_str(s, pos) {
            Some((k, q)) => if pos < q <= s.len() {
                match dec(s, q, depth) {
                    Some((v, e)) => if q < e <= s.len() {
                        dec_pairs(s, e, depth, put(acc, k, v))
                    } else {
                        None
                    },
                    None => None,
                }
            } else {
                None
            },
            None => None,
        }
    }
}

/// What a message that holds exactly one value stands for.
pub open spec fn decoded(s: Seq<u8>) -> Option<BModel> {
    match dec(s, 0, MAX_DEPTH as nat) {
        Some((m, e)) => if e == s.len() {
            Some(m)
        } else {
            None
        },
        None => None,
    }
}

proof fn lemma_run_end(s: Seq<u8>, pos: int, i: int)
    requires
        0 <= pos <= i <= s.len(),
        forall|j: int| pos <= j < i ==> is_digit(#[trigger] s[j]),
    ensures
        run_end(s, pos) == run_end(s, i),
        i <= run_end(s, i) <= s.len(),
        forall|j: int| pos <= j < run_end(s, pos) ==> is_digit(#[trigger] s[j]),
        run_end(s, pos) < s.len() ==> !is_digit(s[run_end(s, pos)]),
    decreases s.len() - pos,
{
    if pos < i {
        lemma_run_end(s, pos + 1, i);
    } else if pos < s.len() && is_digit(s[pos]) {
        lemma_run_end(s, pos + 1, pos + 1);
    }
}

proof fn lemma_run_value_grows(s: Seq<u8>, a: int, b: int, c: int)
    requires
        a <= b <= c,
        forall|j: int| a <= j < c ==> is_digit(#[trigger] s[j]),
    ensures
        run_value(s, a, b) <= run_value(s, a, c),
    decreases c - b,
{
    if b < c {
        lemma_run_value_grows(s, a, b, c - 1);
        assert(is_digit(s[c - 1]));
    }
}

/// Reads the run of digits at `pos`: its number and its end, unless the number exceeds `cap`.
fn read_run(s: &[u8], pos: usize, cap: u64) -> (r: Option<(u64, usize)>)
    requires
        pos <= s@.len(),
    ensures
        pos <= run_end(s@, pos as int) <= s@.len(),
        match r {
            Some((n, e)) => {
                &&& e == run_end(s@, pos as int)
                &&& n == run_value(s@, pos as int, e as int)
                &&& n <= cap
            },
            None => run_value(s@, pos as int, run_end(s@, pos as int)) > cap,
        },
{
    let mut i: usize = pos;
    let mut n: u64 = 0;
    proof {
        lemma_run_end(s@, pos as int, pos as int);
    }
    while i < s.len() && 48 <= s[i] && s[i] <= 57
        invariant
            pos <= i <= s@.len(),
            forall|j: int| pos <= j < i ==> is_digit(#[trigger] s@[j]),
            n == run_value(s@, pos as int, i as int),
            n <= cap,
        decreases s.len() - i,
    {
        let d: u64 = (s[i] - 48) as u64;
        proof {
            lemma_run_end(s@, pos as int, i + 1);
            lemma_run_value_grows(s@, pos as int, i + 1, run_end(s@, pos as int));
            assert(run_value(s@, pos as int, i + 1) == n * 10 + d);
        }
        if n > cap / 10 {
            return None;
        }
        let n10: u64 = n * 10;
        if d > cap - n10 {
            return None;
        }
        n = n10 + d;
        i += 1;
    }
    proof {
        lemma_run_end(s@, pos as int, i as int);
    }
    Some((n, i))
}

fn read_str(s: &[u8], pos: usize) -> (r: Option<(Vec<u8>, usize)>)
    requires
        pos <= s@.len(),
    ensures
        match r {
            Some((b, e)) => dec_str(s@, pos as int) == Some((b@, e as int)) && pos < e <= s@.len(),
            None => dec_str(s@, pos as int) is None,
        },
{
    match read_run(s, pos, s.len() as u64) {
        Some((n, e)) => {
            if pos < e && e < s.len() && s[e] == 58 && n <= (s.len() - e - 1) as u64 {
                let n: usize = n as usize;
                let b = slice_to_vec(slice_subrange(s, e + 1, e + 1 + n));
                Some((b, e + 1 + n))
            } else {
                None
            }
        },
        None => None,
    }
}

fn read_int(s: &[u8], pos: usize) -> (r: Option<(i64, usize)>)
    requires
        pos <= s@.len(),
    ensures
        match r {
            Some((n, e)) => dec_int(s@, pos as int) == Some((n, e as int)) && pos < e <= s@.len(),
            None => dec_int(s@, pos as int) is None,
        },
{
    let neg: bool = pos < s.len() && s[pos] == 45;
    let a: usize = if neg {
        pos + 1
    } else {
        pos
    };
    let cap: u64 = if neg {
        0x8000_0000_0000_0000
    } else {
        0x7fff_ffff_ffff_ffff
    };
    match read_run(s, a, cap) {
        Some((n, e)) => {
            if a < e && e < s.len() && s[e] == 101 {
                let v: i64 = if !neg {
                    n as i64
                } else if n == 0x8000_0000_0000_0000 {
                    i64::MIN
                } else {
                    -(n as i64)
                };
                Some((v, e + 1))
            } else {
                None
            }
        },
        None => None,
    }
}

fn read_value(s: &[u8], pos: usize, depth: usize) -> (r: Option<(BVal, usize)>)
    requires
        pos <= s@.len(),
    ensures
        match r {
            Some((v, e)) => dec(s@, pos as int, depth as nat) == Some((v@, e as int)) && pos < e
                <= s@.len(),
            None => dec(s@, pos as int, depth as nat) is None,
        },
    decreases depth, 1int,
{
    if depth == 0 || pos >= s.len() {
        return None;
    }
    if s[pos] == 105 {
        match read_int(s, pos + 1) {
            Some((n, e)) => Some((BVal::Int(n), e)),
            None => None,
        }
    } else if s[pos] == 108 {
        let mut items: Vec<BVal> = Vec::new();
        let mut at: usize = pos + 1;
        assert(list_model(items@) =~= Seq::<BModel>::empty());
        while at < s.len() && s[at] != 101
            invariant
                pos < at <= s@.len(),
                depth > 0,
                s@[pos as int] == 108,
                dec_list(s@, pos + 1, (depth - 1) as nat, seq![]) == dec_list(
                    s@,
                    at as int,
                    (depth - 1) as nat,
                    list_model(items@),
                ),
            decreases s.len() - at,
        {
            match read_value(s, at, depth - 1) {
                Some((v, e)) => {
                    let ghost before = list_model(items@);
                    items.push(v);
                    assert(list_model(items@) =~= before.push(v@));
                    at = e;
                },
                None => {
                    return None;
                },
            }
        }
        if at < s.len() {
            Some((BVal::List(items), at + 1))
        } else {
            None
        }
    } else if s[pos] == 100 {
        read_dict(s, pos, depth)
    } else {
        match read_str(s, pos) {
            Some((b, e)) => Some((BVal::Bytes(b), e)),
            None => None,
        }
    }
}

fn read_dict(s: &[u8], pos: usize, depth: usize) -> (r: Option<(BVal, usize)>)
    requires
        depth > 0,
        pos < s@.len(),
        s@[pos as int] == 100,
    ensures
        match r {
            Some((v, e)) => v is Dict && dec(s@, pos as int, depth as nat) == Some((v@, e as int))
                && pos < e <= s@.len(),
            None => dec(s@, pos as int, depth as nat) is None,
        },
    decreases depth, 0int,
{
    let end: usize = s.len();
    let mut d = Dict::new();
    let mut at: usize = pos + 1;
    while at < end && s[at] != 101
        invariant
            end == s@.len(),
            pos < at <= s@.len(),
            depth > 0,
            dec_pairs(s@, pos + 1, (depth - 1) as nat, seq![]) == dec_pairs(
                s@,
                at as int,
                (depth - 1) as nat,
                d@,
            ),
            s@[pos as int] == 100,
        decreases end - at,
    {
        match read_str(s, at) {
            Some((k, q)) => {
                match read_value(s, q, depth - 1) {
                    Some((v, e)) => {
                        d.set(k, v);
                        at = e;
                    },
                    None => {
                        return None;
                    },
                }
            },
            None => {
                return None;
            },
        }
    }
    if at < end {
        Some((BVal::Dict(d), at + 1))
    } else {
        None
    }
}

/// Decodes a message that holds exactly one value.
pub fn decode(s: &[u8]) -> (r: Option<BVal>)
    ensures
        match r {
            Some(v) => decoded(s@) == Some(v@),
            None => decoded(s@) is None,
        },
{
    match read_value(s, 0, MAX_DEPTH) {
        Some((v, e)) => if e == s.len() {
            Some(v)
        } else {
            None
        },
        None => None,
    }
}

/// The dictionary with which a message begins, and where it ends.
pub open spec fn leading_dict(s: Seq<u8>) -> Option<(Seq<(Seq<u8>, BModel)>, int)> {
    match dec(s, 0, MAX_DEPTH as nat) {
        Some((BModel::Dict(d), e)) => Some((d, e)),
        _ => None,
    }
}

/// Decodes the dictionary with which a message begins; what follows it is left alone.
pub fn decode_dict(s: &[u8]) -> (r: Option<(Dict, usize)>)
    ensures
        match r {
            Some((d, e)) => leading_dict(s@) == Some((d@, e as int)) && 0 < e <= s@.len(),
            None => leading_dict(s@) is None,
        },
{
    match read_value(s, 0, MAX_DEPTH) {
        Some((BVal::Dict(d), e)) => Some((d, e)),
        _ => None,
    }
}

// ---------------------------------------------------------------------------
// What is encoded is decoded again
// ---------------------------------------------------------------------------

/// The value nests at most `depth` levels, and every dictionary in it has its keys in order.
pub open spec fn encodable(m: BModel, depth: nat) -> bool
    decreases m,
{
    &&& depth > 0
    &&& match m {
        BModel::Int(_) => true,
        BModel::Bytes(_) => true,
        BModel::List(l) => forall|i: int|
            0 <= i < l.len() ==> encodable(#[trigger] l[i], (depth - 1) as nat),
        BModel::Dict(d) => {
            &&& sorted(d)
            &&& forall|i: int|
                0 <= i < d.len() ==> encodable((#[trigger] d[i]).1, (depth - 1) as nat)
        },
    }
}

/// The bytes `b` stand in `s` at `pos`.
spec fn at(s: Seq<u8>, pos: int, b: Seq<u8>) -> bool {
    &&& 0 <= pos
    &&& pos + b.len() <= s.len()
    &&& forall|i: int| 0 <= i < b.len() ==> s[pos + i] == #[trigger] b[i]
}

proof fn lemma_at_concat(s: Seq<u8>, pos: int, a: Seq<u8>, b: Seq<u8>)
    requires
        at(s, pos, a + b),
    ensures
        at(s, pos, a),
        at(s, pos + a.len(), b),
{
    assert forall|i: int| 0 <= i < a.len() implies s[pos + i] == #[trigger] a[i] by {
        assert((a + b)[i] == a[i]);
    }
    assert forall|i: int| 0 <= i < b.len() implies s[pos + a.len() + i] == #[trigger] b[i] by {
        assert((a + b)[a.len() + i] == b[i]);
    }
}

proof fn lemma_run_value_digits(s: Seq<u8>, pos: int, n: nat)
    requires
        at(s, pos, dec_bytes(n)),
    ensures
        run_value(s, pos, pos + digits(n).len()) == n,
    decreases n,
{
    let e = pos + digits(n).len();
    lemma_digits_range(n);
    assert(s[pos + (digits(n).len() - 1)] == dec_bytes(n)[digits(n).len() - 1]);
    if n < 10 {
        assert(run_value(s, pos, pos) == 0);
    } else {
        assert(digits(n).drop_last() =~= digits(n / 10));
        assert(dec_bytes(n) =~= dec_bytes(n / 10) + seq![dec_bytes(n).last()]);
        lemma_at_concat(s, pos, dec_bytes(n / 10), seq![dec_bytes(n).last()]);
        lemma_run_value_digits(s, pos, n / 10);
    }
}

proof fn lemma_run_reads(s: Seq<u8>, pos: int, n: nat)
    requires
        at(s, pos, dec_bytes(n)),
        pos + dec_bytes(n).len() < s.len(),
        !is_digit(s[pos + dec_bytes(n).len() as int]),
    ensures
        run_end(s, pos) == pos + dec_bytes(n).len(),
        run_value(s, pos, run_end(s, pos)) == n,
        is_digit(s[pos]),
        pos < run_end(s, pos),
{
    let e = pos + dec_bytes(n).len();
    lemma_digits_range(n);
    assert forall|j: int| pos <= j < e implies is_digit(#[trigger] s[j]) by {
        assert(s[pos + (j - pos)] == dec_bytes(n)[j - pos]);
        assert(digits(n)[j - pos] <= 9);
    }
    lemma_run_end(s, pos, e);
    lemma_run_value_digits(s, pos, n);
}

proof fn lemma_str_reads(s: Seq<u8>, pos: int, b: Seq<u8>)
    requires
        at(s, pos, enc_bytes(b)),
    ensures
        dec_str(s, pos) == Some((b, pos + enc_bytes(b).len())),
        is_digit(s[pos]),
{
    lemma_at_concat(s, pos, dec_bytes(b.len()) + seq![58u8], b);
    lemma_at_concat(s, pos, dec_bytes(b.len()), seq![58u8]);
    let e = pos + dec_bytes(b.len()).len();
    assert(s[e + 0] == seq![58u8][0]);
    lemma_run_reads(s, pos, b.len());
    assert forall|i: int| 0 <= i < b.len() implies s.subrange(e + 1, e + 1 + b.len())[i] == b[i] by {
        assert(s[e + 1 + i] == b[i]);
    }
    assert(s.subrange(e + 1, e + 1 + b.len()) =~= b);
}

proof fn lemma_int_reads(s: Seq<u8>, pos: int, n: i64)
    requires
        at(s, pos, int_bytes(n as int) + seq![101u8]),
    ensures
        dec_int(s, pos) == Some((n, pos + int_bytes(n as int).len() + 1)),
{
    lemma_at_concat(s, pos, int_bytes(n as int), seq![101u8]);
    let e = pos + int_bytes(n as int).len();
    assert(s[e + 0] == seq![101u8][0]);
    if n < 0 {
        lemma_at_concat(s, pos, seq![45u8], dec_bytes((-n) as nat));
        assert(s[pos + 0] == seq![45u8][0]);
        lemma_run_reads(s, pos + 1, (-n) as nat);
    } else {
        lemma_run_reads(s, pos, n as nat);
    }
}

proof fn lemma_put_appends(acc: Seq<(Seq<u8>, BModel)>, k: Seq<u8>, v: BModel)
    requires
        sorted(acc.push((k, v))),
    ensures
        put(acc, k, v) == acc.push((k, v)),
    decreases acc.len(),
{
    if acc.len() > 0 {
        let all = acc.push((k, v));
        assert(lex_lt(all[0].0, all[acc.len() as int].0));
        lemma_lex_irreflexive(k);
        lemma_lex_asymmetric(acc[0].0, k);
        assert(acc.skip(1).push((k, v)) =~= all.skip(1));
        assert forall|i: int, j: int| 0 <= i < j < all.skip(1).len() implies lex_lt(
            #[trigger] all.skip(1)[i].0,
            #[trigger] all.skip(1)[j].0,
        ) by {
            assert(lex_lt(all[i + 1].0, all[j + 1].0));
        }
        lemma_put_appends(acc.skip(1), k, v);
        assert(seq![acc[0]] + acc.skip(1).push((k, v)) =~= acc.push((k, v)));
    } else {
        assert(acc.push((k, v)) =~= seq![(k, v)]);
    }
}

proof fn lemma_value_reads(s: Seq<u8>, pos: int, m: BModel, depth: nat)
    requires
        at(s, pos, enc(m)),
        encodable(m, depth),
    ensures
        dec(s, pos, depth) == Some((m, pos + enc(m).len())),
        enc(m).len() > 0,
        s[pos] != 101,
    decreases m,
{
    match m {
        BModel::Int(n) => {
            assert(enc(m) =~= seq![105u8] + (int_bytes(n as int) + seq![101u8]));
            lemma_at_concat(s, pos, seq![105u8], int_bytes(n as int) + seq![101u8]);
            assert(s[pos + 0] == seq![105u8][0]);
            lemma_int_reads(s, pos + 1, n);
        },
        BModel::Bytes(b) => {
            lemma_str_reads(s, pos, b);
        },
        BModel::List(l) => {
            assert(enc(m) =~= seq![108u8] + (enc_list(l) + seq![101u8]));
            lemma_at_concat(s, pos, seq![108u8], enc_list(l) + seq![101u8]);
            assert(s[pos + 0] == seq![108u8][0]);
            lemma_list_reads(s, pos + 1, l, (depth - 1) as nat, seq![]);
            assert(Seq::<BModel>::empty() + l =~= l);
        },
        BModel::Dict(d) => {
            assert(enc(m) =~= seq![100u8] + (enc_pairs(d) + seq![101u8]));
            lemma_at_concat(s, pos, seq![100u8], enc_pairs(d) + seq![101u8]);
            assert(s[pos + 0] == seq![100u8][0]);
            assert(Seq::<(Seq<u8>, BModel)>::empty() + d =~= d);
            lemma_pairs_read(s, pos + 1, d, (depth - 1) as nat, seq![]);
        },
    }
}

proof fn lemma_list_reads(s: Seq<u8>, pos: int, l: Seq<BModel>, depth: nat, acc: Seq<BModel>)
    requires
        at(s, pos, enc_list(l) + seq![101u8]),
        forall|i: int| 0 <= i < l.len() ==> encodable(#[trigger] l[i], depth),
    ensures
        dec_list(s, pos, depth, acc) == Some((acc + l, pos + enc_list(l).len() + 1)),
    decreases l,
{
    if l.len() == 0 {
        lemma_at_concat(s, pos, enc_list(l), seq![101u8]);
        assert(s[pos + 0] == seq![101u8][0]);
        assert(acc + l =~= acc);
    } else {
        let rest = l.subrange(1, l.len() as int);
        assert(enc_list(l) + seq![101u8] =~= enc(l[0]) + (enc_list(rest) + seq![101u8]));
        lemma_at_concat(s, pos, enc(l[0]), enc_list(rest) + seq![101u8]);
        assert(encodable(l[0], depth));
        lemma_value_reads(s, pos, l[0], depth);
        assert forall|i: int| 0 <= i < rest.len() implies encodable(#[trigger] rest[i], depth) by {
            assert(rest[i] == l[i + 1]);
        }
        lemma_list_reads(s, pos + enc(l[0]).len(), rest, depth, acc.push(l[0]));
        assert(acc.push(l[0]) + rest =~= acc + l);
    }
}

proof fn lemma_pairs_read(
    s: Seq<u8>,
    pos: int,
    d: Seq<(Seq<u8>, BModel)>,
    depth: nat,
    acc: Seq<(Seq<u8>, BModel)>,
)
    requires
        at(s, pos, enc_pairs(d) + seq![101u8]),
        sorted(acc + d),
        forall|i: int| 0 <= i < d.len() ==> encodable((#[trigger] d[i]).1, depth),
    ensures
        dec_pairs(s, pos, depth, acc) == Some((acc + d, pos + enc_pairs(d).len() + 1)),
    decreases d,
{
    if d.len() == 0 {
        lemma_at_concat(s, pos, enc_pairs(d), seq![101u8]);
        assert(s[pos + 0] == seq![101u8][0]);
        assert(acc + d =~= acc);
    } else {
        let rest = d.subrange(1, d.len() as int);
        let k = d[0].0;
        let v = d[0].1;
        assert(enc_pairs(d) + seq![101u8] =~= enc_bytes(k) + (enc(v) + (enc_pairs(rest)
            + seq![101u8])));
        lemma_at_concat(s, pos, enc_bytes(k), enc(v) + (enc_pairs(rest) + seq![101u8]));
        lemma_at_concat(s, pos + enc_bytes(k).len(), enc(v), enc_pairs(rest) + seq![101u8]);
        lemma_str_reads(s, pos, k);
        assert(encodable(d[0].1, depth));
        lemma_value_reads(s, pos + enc_bytes(k).len(), v, depth);
        assert forall|i: int| 0 <= i < rest.len() implies encodable(
            (#[trigger] rest[i]).1,
            depth,
        ) by {
            assert(rest[i] == d[i + 1]);
        }
        let next = acc.push((k, v));
        assert(next + rest =~= acc + d);
        assert forall|i: int, j: int| 0 <= i < j < next.len() implies lex_lt(
            #[trigger] next[i].0,
            #[trigger] next[j].0,
        ) by {
            assert(next[i] == (acc + d)[i] && next[j] == (acc + d)[j]);
        }
        lemma_put_appends(acc, k, v);
        lemma_pairs_read(s, pos + enc_bytes(k).len() + enc(v).len(), rest, depth, next);
    }
}

/// Decoding what was encoded gives the value back.
pub proof fn law_decode_encode(m: BModel)
    requires
        encodable(m, MAX_DEPTH as nat),
    ensures
        decoded(enc(m)) == Some(m),
{
    lemma_value_reads(enc(m), 0, m, MAX_DEPTH as nat);
}

/// A dictionary at the front of a message is read back whatever bytes follow it.
pub proof fn law_leading_dict(d: Seq<(Seq<u8>, BModel)>, rest: Seq<u8>)
    requires
        encodable(BModel::Dict(d), MAX_DEPTH as nat),
    ensures
        leading_dict(enc(BModel::Dict(d)) + rest) == Some((d, enc(BModel::Dict(d)).len() as int)),
{
    let s = enc(BModel::Dict(d)) + rest;
    assert(at(s, 0, enc(BModel::Dict(d))));
    lemma_value_reads(s, 0, BModel::Dict(d), MAX_DEPTH as nat);
}

/// All values of a dictionary can be encoded.
pub open spec fn values_encodable(p: Seq<(Seq<u8>, BModel)>, depth: nat) -> bool {
    forall|i: int| 0 <= i < p.len() ==> encodable((#[trigger] p[i]).1, depth)
}

/// A dictionary that can be encoded can be so with one more entry.
pub proof fn lemma_put_encodable(p: Seq<(Seq<u8>, BModel)>, k: Seq<u8>, v: BModel, depth: nat)
    requires
        sorted(p),
        values_encodable(p, depth),
        encodable(v, depth),
    ensures
        sorted(put(p, k, v)),
        values_encodable(put(p, k, v), depth),
    decreases p.len(),
{
    law_put_sorted(p, k, v);
    let q = put(p, k, v);
    if p.len() > 0 {
        let rest = p.skip(1);
        assert forall|i: int| 0 <= i < rest.len() implies encodable(
            (#[trigger] rest[i]).1,
            depth,
        ) by {
            assert(rest[i] == p[i + 1]);
        }
        if p[0].0 == k {
            assert forall|i: int| 0 <= i < q.len() implies encodable(
                (#[trigger] q[i]).1,
                depth,
            ) by {
                if i > 0 {
                    assert(q[i] == rest[i - 1]);
                }
            }
        } else if lex_lt(k, p[0].0) {
            assert forall|i: int| 0 <= i < q.len() implies encodable(
                (#[trigger] q[i]).1,
                depth,
            ) by {
                if i > 0 {
                    assert(q[i] == p[i - 1]);
                }
            }
        } else {
            assert forall|i: int, j: int| 0 <= i < j < rest.len() implies lex_lt(
                #[trigger] rest[i].0,
                #[trigger] rest[j].0,
            ) by {
                assert(rest[i] == p[i + 1] && rest[j] == p[j + 1]);
            }
            lemma_put_encodable(rest, k, v, depth);
            let r = put(rest, k, v);
            assert forall|i: int| 0 <= i < q.len() implies encodable(
                (#[trigger] q[i]).1,
                depth,
            ) by {
                if i > 0 {
                    assert(q[i] == r[i - 1]);
                } else {
                    assert(q[0] == p[0]);
                }
            }
        }
    }
}

} // verus!
