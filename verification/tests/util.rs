use dht_spider::text::{chars_of, push_dec, push_pad, same_text};
use dht_spider::types::IpAddr;
use dht_spider::util::{decode_compact_ip_port, decode_compact_nodes, decode_compact_peers, encode_compact_ip_port, int2bytes};

#[test]
fn numbers_become_short_byte_strings() {
    assert_eq!(int2bytes(0), vec![0]);
    assert_eq!(int2bytes(255), vec![255]);
    assert_eq!(int2bytes(256), vec![1, 0]);
    assert_eq!(int2bytes(0x01_02_03_04), vec![1, 2, 3, 4]);
    assert_eq!(int2bytes(u64::MAX), vec![255; 8]);
}

#[test]
fn compact_addresses_are_read_back() {
    let b = encode_compact_ip_port(&IpAddr::V4(127, 0, 0, 1), 6881).unwrap();
    assert_eq!(b, vec![127, 0, 0, 1, 0x1a, 0xe1]);
    let (ip, port) = decode_compact_ip_port(&b).unwrap();
    assert_eq!(ip.text(), "127.0.0.1");
    assert_eq!(port, 6881);
    assert!(encode_compact_ip_port(&IpAddr::V6("::1".to_string()), 1).is_none());
    assert!(decode_compact_ip_port(&[1, 2, 3]).is_none());
}

#[test]
fn compact_runs_are_cut_into_pieces() {
    let peers = decode_compact_peers(&[1, 2, 3, 4, 0, 80, 5, 6, 7, 8, 1, 0, 9]);
    assert_eq!(peers.len(), 2);
    assert_eq!(peers[0].0.text(), "1.2.3.4");
    assert_eq!(peers[0].1, 80);
    assert_eq!(peers[1].0.text(), "5.6.7.8");
    assert_eq!(peers[1].1, 256);

    let mut b: Vec<u8> = (0..20).collect();
    b.extend([10, 0, 0, 1, 0, 1]);
    b.extend([7u8; 25]);
    let nodes = decode_compact_nodes(&b);
    assert_eq!(nodes.len(), 1);
    assert_eq!(nodes[0].0.to_vec(), (0..20).collect::<Vec<u8>>());
    assert_eq!(nodes[0].1.text(), "10.0.0.1");
    assert_eq!(nodes[0].2, 1);
}

#[test]
fn numbers_are_written_in_decimal() {
    let mut s = String::from("n=");
    push_dec(&mut s, 0);
    s.push(' ');
    push_dec(&mut s, u64::MAX);
    assert_eq!(s, "n=0 18446744073709551615");
    let mut p = String::new();
    push_pad(&mut p, 7, 2);
    push_pad(&mut p, 2024, 4);
    push_pad(&mut p, -3, 4);
    assert_eq!(p, format!("{:02}{:04}{:04}", 7, 2024, -3));
}

#[test]
fn texts_are_compared_by_their_characters() {
    assert!(same_text("größe", "größe"));
    assert!(!same_text("größe", "grosse"));
    assert!(!same_text("", "a"));
    assert_eq!(chars_of("aé中"), vec!['a', 'é', '中']);
}
