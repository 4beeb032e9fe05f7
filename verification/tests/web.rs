use dht_spider::storage::TorrentEntry;
use dht_spider::web::{
    answer_query, key_is_right, length_of, may_pass, page_number, parse_infohash, rows_per_page,
    sum_up, summarize, total_pages, total_size, QueryReply,
};

const HASH: &str = "0123456789abcdef0123456789abcdef01234567";

#[test]
fn plain_hash_is_read() {
    assert_eq!(parse_infohash(HASH), Some(HASH.to_string()));
    assert_eq!(parse_infohash("0123456789ABCDEF0123456789abcdef01234567"), Some(HASH.to_string()));
    assert_eq!(parse_infohash("  \t0123456789abcdef0123456789abcdef01234567\u{3000}\n"), Some(HASH.to_string()));
}

#[test]
fn magnet_link_is_read() {
    let link = format!("magnet:?xt=urn:btih:{}&dn=name&tr=http://x", HASH);
    assert_eq!(parse_infohash(&link), Some(HASH.to_string()));
    let link = format!("magnet:?dn=name&xt=urn:btih:{}", HASH.to_uppercase());
    assert_eq!(parse_infohash(&link), Some(HASH.to_string()));
    let link = format!(" magnet:?xt=urn:btih:tooshort&xt=urn:btih:{} ", HASH);
    assert_eq!(parse_infohash(&link), Some(HASH.to_string()));
    let link = format!("magnet:&xt=urn:btih:{}", HASH);
    assert_eq!(parse_infohash(&link), Some(HASH.to_string()));
}

#[test]
fn other_inputs_name_no_hash() {
    for s in [
        "",
        "   ",
        "magnet:?",
        "magnet:?dn=name",
        "magnet:?xt=urn:btih:",
        "0123456789abcdef0123456789abcdef0123456",
        "0123456789abcdef0123456789abcdef012345678",
        "0123456789abcdef0123456789abcdef0123456g",
        "0123456789abcdef 0123456789abcdef0123456",
        "xt=urn:btih:0123456789abcdef0123456789abcdef01234567",
        "MAGNET:?xt=urn:btih:0123456789abcdef0123456789abcdef01234567",
        "magnet:?XT=urn:btih:0123456789abcdef0123456789abcdef01234567",
        "0123456789abcdef0123456789abcdef012345é",
    ] {
        assert_eq!(parse_infohash(s), None);
    }
}

#[test]
fn pages_have_defaults_and_bounds() {
    assert_eq!(page_number(None), 1);
    assert_eq!(page_number(Some(0)), 1);
    assert_eq!(page_number(Some(7)), 7);
    assert_eq!(rows_per_page(None), 15);
    assert_eq!(rows_per_page(Some(0)), 1);
    assert_eq!(rows_per_page(Some(50)), 50);
    assert_eq!(rows_per_page(Some(1000)), 200);
}

#[test]
fn pages_are_counted() {
    assert_eq!(total_pages(0, 15), 0);
    assert_eq!(total_pages(1, 15), 1);
    assert_eq!(total_pages(15, 15), 1);
    assert_eq!(total_pages(16, 15), 2);
    assert_eq!(total_pages(1000, 200), 5);
}

#[test]
fn files_are_summed_up() {
    assert_eq!(summarize(r#"[{"path":["a"],"length":5},{"path":["b"],"length":7}]"#), Some((2, 12)));
    assert_eq!(summarize(r#"[{"path":["a"]},{"length":"x"},{"length":3},4]"#), Some((4, 3)));
    assert_eq!(summarize("[]"), Some((0, 0)));
    assert_eq!(summarize("not json"), Some((0, 0)));
    assert_eq!(summarize(r#"{"length":5}"#), Some((0, 0)));
    assert_eq!(summarize(r#"[{"length":9223372036854775807},{"length":1}]"#), None);
    assert_eq!(summarize(r#"[{"length":-4},{"length":1.5},{"length":9223372036854775808}]"#), Some((3, -4)));
    assert_eq!(total_size(&vec![Some(1), None, Some(-3)]), -2);
}

#[test]
fn only_the_length_of_a_file_counts() {
    let member = |k: &str, v: Option<i64>| (k.to_string(), v);
    assert_eq!(length_of(&vec![]), None);
    assert_eq!(length_of(&vec![member("size", Some(4))]), None);
    assert_eq!(length_of(&vec![member("length", None)]), None);
    assert_eq!(length_of(&vec![member("size", Some(4)), member("length", Some(5))]), Some(5));
    let items = vec![
        vec![member("length", Some(5)), member("path", None)],
        vec![],
        vec![member("Length", Some(100))],
        vec![member("length", Some(-2))],
    ];
    assert_eq!(sum_up(&items), Some((4, 3)));
    assert_eq!(sum_up(&vec![]), Some((0, 0)));
    let most = vec![member("length", Some(i64::MAX))];
    assert_eq!(sum_up(&vec![most.clone(), most]), None);
    assert_eq!(
        summarize(r#"[{"size":9,"length":5},{"lengths":7},[{"length":8}],null,"length"]"#),
        Some((5, 5))
    );
}

#[test]
fn only_the_access_key_lets_through() {
    assert!(may_pass(Some("secret"), "secret"));
    assert!(!may_pass(Some("Secret"), "secret"));
    assert!(!may_pass(Some(""), "secret"));
    assert!(!may_pass(None, "secret"));
    assert!(!may_pass(None, ""));
    assert!(key_is_right(Some("secret"), "secret"));
    assert!(!key_is_right(Some("other"), "secret"));
    assert!(!key_is_right(None, "secret"));
    assert!(key_is_right(None, ""));
}

#[test]
fn queries_are_answered_from_the_store_first() {
    let entry = || TorrentEntry {
        infohash: HASH.to_string(),
        name: "n".to_string(),
        files: "[]".to_string(),
        created_at: 5,
    };
    assert!(matches!(answer_query(None, Some(entry())), QueryReply::Invalid));
    match answer_query(Some(HASH.to_string()), Some(entry())) {
        QueryReply::Found(e) => assert_eq!(e.name, "n"),
        _ => panic!("the torrent is stored"),
    }
    match answer_query(Some(HASH.to_string()), None) {
        QueryReply::Searching(h) => assert_eq!(h, HASH),
        _ => panic!("the torrent is not stored"),
    }
}
