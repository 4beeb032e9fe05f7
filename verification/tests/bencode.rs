use dht_spider::bencode::{BVal, Dict};
use dht_spider::codec::{decode, decode_dict, encode, encode_dict};

fn reencoded(s: &[u8]) -> Option<Vec<u8>> {
    decode(s).map(|v| encode(&v))
}

#[test]
fn dictionary_keys_are_sorted_on_the_wire() {
    let d = Dict::new().with("z", BVal::Int(1)).with("a", BVal::Bytes(vec![65]));
    assert_eq!(encode_dict(d), b"d1:a1:A1:zi1ee".to_vec());
    assert!(decode(b"d1:a1:A1:zi1ee").is_some());
    assert!(decode(b"d1:a1:A1:zi1ee ").is_none());
}

#[test]
fn values_have_their_wire_form() {
    assert_eq!(encode(&BVal::Int(0)), b"i0e".to_vec());
    assert_eq!(encode(&BVal::Int(-42)), b"i-42e".to_vec());
    assert_eq!(encode(&BVal::Int(i64::MAX)), b"i9223372036854775807e".to_vec());
    assert_eq!(encode(&BVal::Int(i64::MIN)), b"i-9223372036854775808e".to_vec());
    assert_eq!(encode(&BVal::Bytes(b"spam".to_vec())), b"4:spam".to_vec());
    assert_eq!(encode(&BVal::Bytes(Vec::new())), b"0:".to_vec());
    assert_eq!(
        encode(&BVal::List(vec![BVal::Bytes(b"spam".to_vec()), BVal::Int(7)])),
        b"l4:spami7ee".to_vec()
    );
}

#[test]
fn what_is_encoded_is_read_back() {
    for s in [
        &b"i-9223372036854775808e"[..],
        b"i9223372036854775807e",
        b"le",
        b"de",
        b"d1:ad2:id20:aaaaaaaaaaaaaaaaaaaae1:q4:ping1:t2:aa1:y1:qe",
        b"lli1eel0:ed0:i2eee",
    ] {
        assert_eq!(reencoded(s), Some(s.to_vec()));
    }
}

#[test]
fn malformed_input_is_refused() {
    for s in [
        &b""[..],
        b"i",
        b"ie",
        b"i1",
        b"i9223372036854775808e",
        b"5:spam",
        b"4spam",
        b"l",
        b"li1e",
        b"d1:a",
        b"d1:ai1e",
        b"di1ei2ee",
        b"x",
        b"e",
    ] {
        assert!(decode(s).is_none());
    }
}

#[test]
fn nesting_is_bounded() {
    let mut ok = vec![b'l'; 127];
    ok.extend(vec![b'e'; 127]);
    assert!(decode(&ok).is_some());
    let mut deep = vec![b'l'; 129];
    deep.extend(vec![b'e'; 129]);
    assert!(decode(&deep).is_none());
}

#[test]
fn leading_dictionary_is_told_from_what_follows() {
    let (d, end) = decode_dict(b"d8:msg_typei1e5:piecei0eeREST").unwrap();
    assert_eq!(end, 25);
    assert_eq!(d.get_int("msg_type"), Some(1));
    assert_eq!(d.get_int("piece"), Some(0));
    assert!(decode_dict(b"i1e").is_none());
    assert!(decode_dict(b"").is_none());
}

#[test]
fn entries_are_found_by_key_and_kind() {
    let inner = Dict::new().with("x", BVal::Int(5));
    let d = Dict::new()
        .with("n", BVal::Int(3))
        .with("b", BVal::Bytes(vec![1, 2]))
        .with("l", BVal::List(vec![BVal::Int(1)]))
        .with("d", BVal::Dict(inner));
    assert_eq!(d.get_int("n"), Some(3));
    assert_eq!(d.get_int("b"), None);
    assert_eq!(d.get_bytes("b"), Some(&vec![1u8, 2]));
    assert!(d.get_bytes("n").is_none());
    assert_eq!(d.get_list("l").unwrap().len(), 1);
    assert!(d.get_list("d").is_none());
    assert_eq!(d.get_dict("d").unwrap().get_int("x"), Some(5));
    assert!(d.get_dict("l").is_none());
    assert!(d.get("nothing").is_none());
}

#[test]
fn a_key_is_bound_once() {
    let d = Dict::new().with("a", BVal::Int(1)).with("b", BVal::Int(2)).with("a", BVal::Int(3));
    assert_eq!(d.pairs.len(), 2);
    assert_eq!(d.get_int("a"), Some(3));
    assert_eq!(reencoded(b"d1:bi1e1:ai2e1:bi3ee"), Some(b"d1:ai2e1:bi3ee".to_vec()));
}
