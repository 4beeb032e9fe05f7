use dht_spider::wire::{
    accept_handshake, frame, infohash_text, make_handshake, make_hello, make_request, read_length,
    request_of, FrameLen, PeerEvent, Response, Wire, SWEEP_PERIOD,
};
use std::sync::Arc;

const S: u64 = 1_000_000_000;

#[test]
fn request_needs_twenty_bytes() {
    assert!(make_request(&[1; 19], "1.2.3.4", 5).is_none());
    assert!(make_request(&[1; 21], "1.2.3.4", 5).is_none());
    let r = make_request(&[1; 20], "1.2.3.4", 5).unwrap();
    assert_eq!((r.info_hash, r.ip.as_str(), r.port), ([1; 20], "1.2.3.4", 5));
    let r = request_of(&PeerEvent { info_hash: [2; 20], ip: "5.6.7.8".to_string(), port: 9 });
    assert_eq!((r.info_hash, r.ip.as_str(), r.port), ([2; 20], "5.6.7.8", 9));
}

#[test]
fn request_is_made_once() {
    let mut w = Wire::new(10, 4096, 256);
    let r = make_request(&[1; 20], "1.2.3.4", 5).unwrap();
    assert!(w.offer(&r, 0));
    assert!(!w.offer(&r, S));
    assert!(w.offer(&make_request(&[1; 20], "1.2.3.4", 6).unwrap(), S));
    assert!(w.offer(&make_request(&[2; 20], "1.2.3.4", 5).unwrap(), S));
    assert!(!w.offer(&r, 2 * S));
    w.clear_expired(180 * S);
    assert!(!w.offer(&r, 180 * S));
}

#[test]
fn request_is_forgotten_after_ten_minutes() {
    let mut w = Wire::new(10, 4096, 256);
    let r = make_request(&[1; 20], "1.2.3.4", 5).unwrap();
    assert!(w.offer(&r, 0));
    w.clear_expired(600 * S - 1);
    assert!(!w.offer(&r, 600 * S - 1));
    w.clear_expired(600 * S);
    assert!(w.offer(&r, 600 * S));
}

#[test]
fn request_is_made_again_after_one_more_sweep() {
    let mut w = Wire::new(10, 4096, 256);
    let r = make_request(&[1; 20], "1.2.3.4", 5).unwrap();
    assert_eq!(SWEEP_PERIOD, 180 * S);
    // The sweeps just miss the request until it has been there for almost thirteen minutes.
    let start = S;
    assert!(w.offer(&r, start));
    let mut swept = 0;
    while swept < start + 600 * S + SWEEP_PERIOD {
        assert_eq!(w.offer(&r, swept), false);
        swept += SWEEP_PERIOD;
        w.clear_expired(swept);
        if swept >= start + 600 * S {
            break;
        }
    }
    assert!(swept <= start + 600 * S + SWEEP_PERIOD);
    assert!(w.offer(&r, start + 600 * S + SWEEP_PERIOD));
}

#[test]
fn response_names_its_info_hash() {
    let mut hash = [0u8; 20];
    hash[0] = 0xab;
    hash[19] = 0x0f;
    let r = Response {
        request: make_request(&hash, "1.2.3.4", 5).unwrap(),
        metadata_info: Arc::new(vec![1, 2, 3]),
    };
    assert_eq!(infohash_text(&r), "ab0000000000000000000000000000000000000f");
}

#[test]
fn unreachable_peer_is_not_asked_again() {
    let mut w = Wire::new(10, 4096, 256);
    let r = make_request(&[1; 20], "1.2.3.4", 5).unwrap();
    assert!(w.offer(&r, 0));
    w.connect_failed(&r, 0);
    assert!(!w.offer(&r, S));
    // The request has expired, but its peer is still blacklisted.
    w.clear_expired(700 * S);
    assert!(!w.offer(&r, 700 * S));
    w.clear_expired(3600 * S);
    assert!(w.offer(&r, 3600 * S));
}

#[test]
fn there_is_a_worker_at_least() {
    assert_eq!(Wire::new(1, 1, 0).workers(), 1);
    assert_eq!(Wire::new(1, 1, 256).workers(), 256);
}

#[test]
fn messages_are_framed() {
    assert_eq!(frame(b"abc"), vec![0, 0, 0, 3, b'a', b'b', b'c']);
    assert_eq!(frame(b""), vec![0, 0, 0, 0]);
    assert_eq!(frame(&[7; 300])[..4], [0, 0, 1, 44]);
}

#[test]
fn lengths_are_read() {
    assert_eq!(read_length(&[0, 0, 0, 0]), FrameLen::KeepAlive);
    assert_eq!(read_length(&[0, 0, 1, 44]), FrameLen::Payload(300));
    assert_eq!(read_length(&[0, 16, 0, 0]), FrameLen::Payload(1_048_576));
    assert_eq!(read_length(&[0, 16, 0, 1]), FrameLen::TooLong);
    assert_eq!(read_length(&[255, 255, 255, 255]), FrameLen::TooLong);
}

#[test]
fn handshake_is_laid_out_and_accepted() {
    let h = make_handshake(&[1; 20], &[2; 20]);
    let mut want = vec![19u8];
    want.extend(b"BitTorrent protocol");
    want.extend([0, 0, 0, 0, 0, 16, 0, 1]);
    want.extend([1; 20]);
    want.extend([2; 20]);
    assert_eq!(h, want);
    assert!(accept_handshake(&h));
    let mut plain = h.clone();
    plain[25] = 0;
    assert!(!accept_handshake(&plain));
    let mut more = h.clone();
    more[25] = 0xff;
    assert!(accept_handshake(&more));
    let mut other = h.clone();
    other[1] = b'X';
    assert!(!accept_handshake(&other));
    let mut short = h;
    short[0] = 18;
    assert!(!accept_handshake(&short));
}

#[test]
fn hello_offers_both_extensions() {
    let mut want = vec![20u8, 0];
    want.extend(b"d1:md11:ut_metadatai1e6:ut_pexi1eee");
    assert_eq!(make_hello(), want);
}
