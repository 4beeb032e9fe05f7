//! The messages that nodes exchange: queries, answers and errors.

use vstd::prelude::*;
use vstd::string::*;
use vstd::slice::slice_to_vec;
use vstd::utf8::{decode_utf8, encode_utf8_decode_utf8, encode_utf8_valid_utf8, valid_utf8};
use crate::bencode::{bytes_at, dict_at, key, BModel, BVal, Dict};
use crate::codec::{
    decode, decoded, enc, encodable, encode_dict, law_decode_encode, lemma_put_encodable,
    values_encodable, MAX_DEPTH,
};
use crate::keyed::{law_put_lookup, put, sorted};
use crate::text::utf8_text;

verus! {

/// The entries of a dictionary.
pub type Pairs = Seq<(Seq<u8>, BModel)>;

/// A dictionary with a byte string under a key that is written as text.
pub open spec fn with_bytes(p: Pairs, k: Seq<char>, b: Seq<u8>) -> Pairs {
    put(p, key(k), BModel::Bytes(b))
}

/// What all messages have: the transaction that they belong to, and their kind.
pub open spec fn headed(t: Seq<u8>, y: Seq<char>) -> Pairs {
    with_bytes(with_bytes(Seq::empty(), "t"@, t), "y"@, key(y))
}

/// A query: its name and its arguments.
pub open spec fn query_msg(t: Seq<u8>, q: Seq<char>, a: Pairs) -> Pairs {
    put(with_bytes(headed(t, "q"@), "q"@, key(q)), key("a"@), BModel::Dict(a))
}

/// An answer to a query.
pub open spec fn response_msg(t: Seq<u8>, r: Pairs) -> Pairs {
    put(headed(t, "r"@), key("r"@), BModel::Dict(r))
}

/// An error: its number and its text.
pub open spec fn error_msg(t: Seq<u8>, code: i64, text: Seq<char>) -> Pairs {
    put(
        headed(t, "e"@),
        key("e"@),
        BModel::List(seq![BModel::Int(code), BModel::Bytes(key(text))]),
    )
}

/// The wire form of a message.
pub open spec fn packet(p: Pairs) -> Seq<u8> {
    enc(BModel::Dict(p))
}

/// What a message says: the transaction, the kind of message, and all its entries.
#[verifier::ext_equal]
pub struct MessageModel {
    pub t: Seq<u8>,
    pub y: Seq<char>,
    pub body: Seq<(Seq<u8>, BModel)>,
}

/// What a value says where it is a message: a dictionary with a transaction and a readable kind.
pub open spec fn message_of(m: BModel) -> Option<MessageModel> {
    match m {
        BModel::Dict(body) => match (bytes_at(body, "t"@), bytes_at(body, "y"@)) {
            (Some(t), Some(y)) => if valid_utf8(y) {
                Some(MessageModel { t, y: decode_utf8(y), body })
            } else {
                None
            },
            _ => None,
        },
        _ => None,
    }
}

/// What a packet says.
pub open spec fn message_in(data: Seq<u8>) -> Option<MessageModel> {
    match decoded(data) {
        Some(m) => message_of(m),
        None => None,
    }
}

/// Keys that are written differently are different.
pub proof fn lemma_keys_differ(a: Seq<char>, b: Seq<char>)
    requires
        a != b,
    ensures
        key(a) != key(b),
{
    encode_utf8_decode_utf8(a);
    encode_utf8_decode_utf8(b);
}

proof fn lemma_headed(t: Seq<u8>, y: Seq<char>, depth: nat)
    requires
        depth > 0,
    ensures
        sorted(headed(t, y)),
        values_encodable(headed(t, y), depth),
        bytes_at(headed(t, y), "t"@) == Some(t),
        bytes_at(headed(t, y), "y"@) == Some(key(y)),
{
    reveal_strlit("t");
    reveal_strlit("y");
    assert("t"@[0] != "y"@[0]);
    lemma_keys_differ("t"@, "y"@);
    let p0: Pairs = Seq::empty();
    let p1 = with_bytes(p0, "t"@, t);
    lemma_put_encodable(p0, key("t"@), BModel::Bytes(t), depth);
    lemma_put_encodable(p1, key("y"@), BModel::Bytes(key(y)), depth);
    law_put_lookup(p0, key("t"@), BModel::Bytes(t), key("t"@));
    law_put_lookup(p1, key("y"@), BModel::Bytes(key(y)), key("t"@));
}

proof fn lemma_read_back(p: Pairs, t: Seq<u8>, y: Seq<char>)
    requires
        sorted(p),
        values_encodable(p, (MAX_DEPTH - 1) as nat),
        bytes_at(p, "t"@) == Some(t),
        bytes_at(p, "y"@) == Some(key(y)),
    ensures
        message_in(packet(p)) == Some((MessageModel { t, y, body: p })),
{
    law_decode_encode(BModel::Dict(p));
    encode_utf8_valid_utf8(y);
    encode_utf8_decode_utf8(y);
}

/// A query is read back as it was made.
pub proof fn law_query_read_back(t: Seq<u8>, q: Seq<char>, a: Pairs)
    requires
        encodable(BModel::Dict(a), (MAX_DEPTH - 1) as nat),
    ensures
        message_in(packet(query_msg(t, q, a))) == Some(
            (MessageModel { t, y: "q"@, body: query_msg(t, q, a) }),
        ),
        bytes_at(query_msg(t, q, a), "q"@) == Some(key(q)),
        dict_at(query_msg(t, q, a), "a"@) == Some(a),
{
    let depth = (MAX_DEPTH - 1) as nat;
    reveal_strlit("t");
    reveal_strlit("y");
    reveal_strlit("q");
    reveal_strlit("a");
    lemma_headed(t, "q"@, depth);
    let h = headed(t, "q"@);
    let p = with_bytes(h, "q"@, key(q));
    lemma_put_encodable(h, key("q"@), BModel::Bytes(key(q)), depth);
    lemma_put_encodable(p, key("a"@), BModel::Dict(a), depth);
    assert("q"@[0] != "t"@[0] && "q"@[0] != "y"@[0] && "a"@[0] != "t"@[0] && "a"@[0] != "y"@[0]
        && "a"@[0] != "q"@[0]);
    lemma_keys_differ("q"@, "t"@);
    lemma_keys_differ("q"@, "y"@);
    lemma_keys_differ("a"@, "t"@);
    lemma_keys_differ("a"@, "y"@);
    lemma_keys_differ("a"@, "q"@);
    law_put_lookup(h, key("q"@), BModel::Bytes(key(q)), key("t"@));
    law_put_lookup(h, key("q"@), BModel::Bytes(key(q)), key("y"@));
    law_put_lookup(p, key("a"@), BModel::Dict(a), key("t"@));
    law_put_lookup(p, key("a"@), BModel::Dict(a), key("y"@));
    law_put_lookup(p, key("a"@), BModel::Dict(a), key("q"@));
    lemma_read_back(query_msg(t, q, a), t, "q"@);
}

/// An answer is read back as it was made.
pub proof fn law_response_read_back(t: Seq<u8>, r: Pairs)
    requires
        encodable(BModel::Dict(r), (MAX_DEPTH - 1) as nat),
    ensures
        message_in(packet(response_msg(t, r))) == Some(
            (MessageModel { t, y: "r"@, body: response_msg(t, r) }),
        ),
        dict_at(response_msg(t, r), "r"@) == Some(r),
{
    let depth = (MAX_DEPTH - 1) as nat;
    reveal_strlit("t");
    reveal_strlit("y");
    reveal_strlit("r");
    lemma_headed(t, "r"@, depth);
    let h = headed(t, "r"@);
    lemma_put_encodable(h, key("r"@), BModel::Dict(r), depth);
    assert("r"@[0] != "t"@[0] && "r"@[0] != "y"@[0]);
    lemma_keys_differ("r"@, "t"@);
    lemma_keys_differ("r"@, "y"@);
    law_put_lookup(h, key("r"@), BModel::Dict(r), key("t"@));
    law_put_lookup(h, key("r"@), BModel::Dict(r), key("y"@));
    lemma_read_back(response_msg(t, r), t, "r"@);
}

/// An error is read back as it was made.
pub proof fn law_error_read_back(t: Seq<u8>, code: i64, text: Seq<char>)
    ensures
        message_in(packet(error_msg(t, code, text))) == Some(
            (MessageModel { t, y: "e"@, body: error_msg(t, code, text) }),
        ),
{
    let depth = (MAX_DEPTH - 1) as nat;
    let v = BModel::List(seq![BModel::Int(code), BModel::Bytes(key(text))]);
    reveal_strlit("t");
    reveal_strlit("y");
    reveal_strlit("e");
    lemma_headed(t, "e"@, depth);
    let h = headed(t, "e"@);
    assert(encodable(BModel::Int(code), (depth - 1) as nat));
    assert(encodable(BModel::Bytes(key(text)), (depth - 1) as nat));
    assert(encodable(v, depth));
    lemma_put_encodable(h, key("e"@), v, depth);
    assert("e"@[0] != "t"@[0] && "e"@[0] != "y"@[0]);
    lemma_keys_differ("e"@, "t"@);
    lemma_keys_differ("e"@, "y"@);
    law_put_lookup(h, key("e"@), v, key("t"@));
    law_put_lookup(h, key("e"@), v, key("y"@));
    lemma_read_back(error_msg(t, code, text), t, "e"@);
}

/// The bytes of a text.
pub(crate) fn text_bytes(s: &str) -> (r: Vec<u8>)
    ensures
        r@ == key(s@),
{
    slice_to_vec(s.as_bytes())
}

/// The value of a byte string.
pub(crate) fn bytes(b: &[u8]) -> (r: BVal)
    ensures
        r@ == BModel::Bytes(b@),
{
    BVal::Bytes(slice_to_vec(b))
}

fn head(t: &[u8], y: &str) -> (d: Dict)
    ensures
        d@ == headed(t@, y@),
{
    Dict::new().with("t", bytes(t)).with("y", BVal::Bytes(text_bytes(y)))
}

/// The packet of a query.
pub fn make_query(t: &[u8], q: &str, a: Dict) -> (r: Vec<u8>)
    ensures
        r@ == packet(query_msg(t@, q@, a@)),
{
    let d = head(t, "q").with("q", BVal::Bytes(text_bytes(q))).with("a", BVal::Dict(a));
    encode_dict(d)
}

/// The packet of an answer.
pub fn make_response(t: &[u8], r: Dict) -> (p: Vec<u8>)
    ensures
        p@ == packet(response_msg(t@, r@)),
{
    let d = head(t, "r").with("r", BVal::Dict(r));
    encode_dict(d)
}

/// The packet of an error.
pub fn make_error(t: &[u8], code: i64, text: &str) -> (r: Vec<u8>)
    ensures
        r@ == packet(error_msg(t@, code, text@)),
{
    let mut l: Vec<BVal> = Vec::new();
    l.push(BVal::Int(code));
    l.push(BVal::Bytes(text_bytes(text)));
    let v = BVal::List(l);
    assert(v@ == BModel::List(seq![BModel::Int(code), BModel::Bytes(key(text@))])) by {
        assert(crate::bencode::list_model(l@) =~= seq![
            BModel::Int(code),
            BModel::Bytes(key(text@)),
        ]);
    }
    let d = head(t, "e").with("e", v);
    encode_dict(d)
}

/// Reads the value of a packet.
pub fn decode_value(data: &[u8]) -> (r: Option<BVal>)
    ensures
        match r {
            Some(v) => decoded(data@) == Some(v@),
            None => decoded(data@) is None,
        },
{
    decode(data)
}

/// Reads a message: its transaction, its kind and its entries.
pub fn parse_message(v: &BVal) -> (r: Option<(&Vec<u8>, String, &Dict)>)
    ensures
        match r {
            Some((t, y, body)) => message_of(v@) == Some(
                (MessageModel { t: t@, y: y@, body: body@ }),
            ),
            None => message_of(v@) is None,
        },
{
    match v {
        BVal::Dict(d) => match (d.get_bytes("t"), d.get_bytes("y")) {
            (Some(t), Some(yb)) => match utf8_text(yb.as_slice()) {
                Some(y) => Some((t, y, d)),
                None => None,
            },
            _ => None,
        },
        _ => None,
    }
}

} // verus!
