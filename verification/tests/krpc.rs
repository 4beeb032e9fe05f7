use dht_spider::bencode::{BVal, Dict};
use dht_spider::krpc::{decode_value, make_error, make_query, make_response, parse_message};

#[test]
fn query_has_the_form_of_the_protocol() {
    let a = Dict::new().with("id", BVal::Bytes(b"abcdefghij0123456789".to_vec()));
    assert_eq!(
        make_query(b"aa", "ping", a),
        b"d1:ad2:id20:abcdefghij0123456789e1:q4:ping1:t2:aa1:y1:qe".to_vec()
    );
}

#[test]
fn response_has_the_form_of_the_protocol() {
    let r = Dict::new().with("id", BVal::Bytes(b"mnopqrstuvwxyz123456".to_vec()));
    assert_eq!(make_response(b"aa", r), b"d1:rd2:id20:mnopqrstuvwxyz123456e1:t2:aa1:y1:re".to_vec());
}

#[test]
fn error_has_the_form_of_the_protocol() {
    assert_eq!(
        make_error(b"aa", 201, "A Generic Error Ocurred"),
        b"d1:eli201e23:A Generic Error Ocurrede1:t2:aa1:y1:ee".to_vec()
    );
}

#[test]
fn messages_are_read_back() {
    let q = make_query(b"xy", "find_node", Dict::new().with("target", BVal::Bytes(vec![0; 20])));
    let v = decode_value(&q).unwrap();
    let (t, y, body) = parse_message(&v).unwrap();
    assert_eq!(t, &b"xy".to_vec());
    assert_eq!(y, "q");
    assert_eq!(body.get_bytes("q"), Some(&b"find_node".to_vec()));
    assert_eq!(body.get_dict("a").unwrap().get_bytes("target"), Some(&vec![0u8; 20]));
}

#[test]
fn what_is_no_message_is_told() {
    for s in [&b"i1e"[..], b"le", b"de", b"d1:t2:aae", b"d1:y1:qe", b"d1:ti1e1:y1:qe", b"d1:t2:aa1:y1:\xffe"] {
        assert!(parse_message(&decode_value(s).unwrap()).is_none());
    }
    assert!(decode_value(b"not bencode").is_none());
}
