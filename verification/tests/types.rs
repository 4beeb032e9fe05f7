use dht_spider::types::{decode_info_hash, host_port, to_id, DhtError, IpAddr, SocketAddr};

#[test]
fn host_addresses_are_written_out() {
    assert_eq!(IpAddr::V4(192, 168, 0, 1).text(), "192.168.0.1");
    assert_eq!(IpAddr::V4(0, 0, 0, 0).text(), "0.0.0.0");
    assert_eq!(IpAddr::V6("::1".to_string()).text(), "::1");
    assert_eq!(host_port(&IpAddr::V4(1, 2, 3, 4), 6881), "1.2.3.4:6881");
}

#[test]
fn socket_addresses_are_written_out() {
    assert_eq!(SocketAddr { ip: IpAddr::V4(10, 0, 255, 9), port: 0 }.text(), "10.0.255.9:0");
    assert_eq!(SocketAddr { ip: IpAddr::V6("::1".to_string()), port: 65535 }.text(), "[::1]:65535");
}

#[test]
fn addresses_are_told_apart() {
    let a = SocketAddr { ip: IpAddr::V4(1, 2, 3, 4), port: 5 };
    assert!(a.same(&a.clone()));
    assert!(!a.same(&SocketAddr { ip: IpAddr::V4(1, 2, 3, 4), port: 6 }));
    assert!(!a.same(&SocketAddr { ip: IpAddr::V4(1, 2, 3, 5), port: 5 }));
    assert!(!a.ip.same(&IpAddr::V6("1.2.3.4".to_string())));
}

#[test]
fn info_hashes_are_read_in_either_case() {
    let want: [u8; 20] = [
        0x00, 0x01, 0x0a, 0x10, 0xff, 0xab, 0xcd, 0xef, 0x12, 0x34, 0x56, 0x78, 0x9a, 0xbc, 0xde, 0xf0, 0x0f, 0x1e,
        0x2d, 0x3c,
    ];
    assert_eq!(decode_info_hash("00010a10ffabcdef123456789abcdef00f1e2d3c"), Ok(want));
    assert_eq!(decode_info_hash("00010A10FFABCDEF123456789ABCDEF00F1E2D3C"), Ok(want));
}

#[test]
fn other_texts_are_no_info_hash() {
    for s in [
        "",
        "0",
        "00010a10ffabcdef123456789abcdef00f1e2d3",
        "00010a10ffabcdef123456789abcdef00f1e2d",
        "00010a10ffabcdef123456789abcdef00f1e2d3c4d",
        "00010a10ffabcdef123456789abcdef00f1e2d3g",
        "00010a10ffabcdef123456789abcdef00f1e2dé",
    ] {
        assert_eq!(decode_info_hash(s), Err(DhtError::InvalidInfoHash));
    }
}

#[test]
fn identifiers_are_copied() {
    let b: Vec<u8> = (0..20).collect();
    assert_eq!(to_id(&b).to_vec(), b);
}
