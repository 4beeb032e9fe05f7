use dht_spider::bencode::{BVal, Dict};
use dht_spider::download::{Download, Progress, Step};
use dht_spider::wire::{make_extended, make_request};
use sha1::{Digest, Sha1};

const BLOCK: usize = 16384;

fn digest(b: &[u8]) -> [u8; 20] {
    Sha1::digest(b).into()
}

fn download(info_hash: &[u8; 20]) -> Download {
    Download::new(make_request(info_hash, "1.2.3.4", 5).unwrap())
}

fn hello(size: i64) -> Vec<u8> {
    let m = Dict::new().with("ut_metadata", BVal::Int(3)).with("ut_pex", BVal::Int(7));
    make_extended(0, Dict::new().with("m", BVal::Dict(m)).with("metadata_size", BVal::Int(size)))
}

fn piece(n: i64, data: &[u8]) -> Vec<u8> {
    let mut b = make_extended(3, Dict::new().with("msg_type", BVal::Int(1)).with("piece", BVal::Int(n)));
    b.extend(data);
    b
}

fn goes_on(s: Step) -> (usize, usize) {
    match s {
        Step::Continue { send, peers } => (send.len(), peers.len()),
        _ => panic!("the download ended"),
    }
}

#[test]
fn single_piece_is_downloaded() {
    let info = b"d6:lengthi123e4:name8:file.txte";
    let want: [u8; 20] = [
        0xab, 0xd3, 0xba, 0x80, 0xe4, 0x0d, 0x26, 0x78, 0x5b, 0xef, 0x27, 0x9a, 0x79, 0xb6, 0xb5, 0x7a, 0x52, 0xec,
        0x4a, 0x48,
    ];
    assert_eq!(digest(info), want);
    let mut d = download(&want);
    match d.on_message(&hello(info.len() as i64)) {
        Step::Continue { send, peers } => {
            let mut ask = vec![20u8, 3];
            ask.extend(b"d8:msg_typei0e5:piecei0ee");
            assert_eq!(send, vec![ask]);
            assert_eq!(peers.len(), 0);
        },
        _ => panic!("the download ended"),
    }
    match d.on_message(&piece(0, info)) {
        Step::Complete(r) => {
            assert_eq!(r.metadata_info.to_vec(), info.to_vec());
            assert_eq!((r.request.info_hash, r.request.ip.as_str(), r.request.port), (want, "1.2.3.4", 5));
        },
        _ => panic!("the download did not succeed"),
    }
}

#[test]
fn pieces_are_taken_in_any_order() {
    let info: Vec<u8> = (0..2 * BLOCK + 100).map(|i| (i % 251) as u8).collect();
    let mut d = download(&digest(&info));
    assert_eq!(goes_on(d.on_message(&hello(info.len() as i64))), (3, 0));
    assert_eq!(goes_on(d.on_message(&piece(2, &info[2 * BLOCK..]))), (0, 0));
    assert_eq!(goes_on(d.on_message(&piece(0, &info[..BLOCK]))), (0, 0));
    assert_eq!(goes_on(d.on_message(&piece(0, &info[..BLOCK]))), (0, 0));
    match d.on_message(&piece(1, &info[BLOCK..2 * BLOCK])) {
        Step::Complete(r) => assert_eq!(r.metadata_info.to_vec(), info),
        _ => panic!("the download did not succeed"),
    }
}

#[test]
fn metadata_with_another_digest_is_refused() {
    let mut d = download(&[9; 20]);
    goes_on(d.on_message(&hello(3)));
    assert!(matches!(d.on_message(&piece(0, b"abc")), Step::Fail));
}

#[test]
fn digest_decides() {
    let d = download(&[9; 20]);
    assert!(d.judge(b"abc".to_vec(), &[9; 20]).is_some());
    assert!(d.judge(b"abc".to_vec(), &[8; 20]).is_none());
    let mut d = download(&[9; 20]);
    assert!(matches!(d.take_message(&hello(3)), Progress::Continue { .. }));
    match d.take_message(&piece(0, b"abc")) {
        Progress::Whole(b) => assert_eq!(b, b"abc".to_vec()),
        _ => panic!("all pieces are there"),
    }
}

#[test]
fn pieces_of_a_wrong_length_are_refused() {
    for (n, len) in [(0i64, BLOCK - 1), (1, 99), (1, BLOCK), (5, 100), (-1, 100)] {
        let mut d = download(&[9; 20]);
        goes_on(d.on_message(&hello((BLOCK + 100) as i64)));
        assert!(matches!(d.on_message(&piece(n, &vec![1; len])), Step::Fail));
    }
}

#[test]
fn unknown_pieces_are_left_out() {
    let mut d = download(&[9; 20]);
    goes_on(d.on_message(&hello((BLOCK + 100) as i64)));
    assert_eq!(goes_on(d.on_message(&piece(5, &vec![1; BLOCK]))), (0, 0));
    assert_eq!(goes_on(d.on_message(&piece(-1, &vec![1; BLOCK]))), (0, 0));
}

#[test]
fn metadata_may_fill_its_last_block() {
    for count in [1usize, 2] {
        let info: Vec<u8> = (0..count * BLOCK).map(|i| (i % 251) as u8).collect();
        let mut d = download(&digest(&info));
        assert_eq!(goes_on(d.on_message(&hello(info.len() as i64))), (count, 0));
        for n in 1..count {
            assert_eq!(goes_on(d.on_message(&piece(n as i64, &info[n * BLOCK..(n + 1) * BLOCK]))), (0, 0));
        }
        match d.on_message(&piece(0, &info[..BLOCK])) {
            Step::Complete(r) => assert_eq!(r.metadata_info.to_vec(), info),
            _ => panic!("the download did not succeed"),
        }
    }
    let mut d = download(&[9; 20]);
    goes_on(d.on_message(&hello(BLOCK as i64)));
    assert!(matches!(d.on_message(&piece(0, b"")), Step::Fail));
}

#[test]
fn metadata_has_the_size_told() {
    for size in [1, BLOCK - 1, BLOCK, BLOCK + 1, 3 * BLOCK, 3 * BLOCK + 5] {
        let info = vec![6u8; size];
        let mut d = download(&[9; 20]);
        goes_on(d.on_message(&hello(size as i64)));
        // A piece that there is no place for adds nothing.
        goes_on(d.on_message(&piece(1000, &[1; BLOCK])));
        let blocks: Vec<&[u8]> = info.chunks(BLOCK).collect();
        for (n, b) in blocks.iter().enumerate() {
            match d.take_message(&piece(n as i64, b)) {
                Progress::Whole(whole) => {
                    assert_eq!(n, blocks.len() - 1);
                    assert_eq!(whole.len(), size);
                },
                Progress::Continue { .. } => assert!(n < blocks.len() - 1),
                Progress::Fail => panic!("the piece has the right length"),
            }
        }
    }
}

#[test]
fn sizes_out_of_bounds_are_refused() {
    for size in [-1i64, 16_384_001, i64::MAX, i64::MIN] {
        assert!(matches!(download(&[9; 20]).on_message(&hello(size)), Step::Fail));
    }
    assert_eq!(goes_on(download(&[9; 20]).on_message(&hello(16_384_000))), (1000, 0));
    let mut d = download(&[9; 20]);
    assert_eq!(goes_on(d.on_message(&hello(0))), (0, 0));
    assert!(matches!(d.on_message(&piece(0, b"")), Step::Fail));
}

#[test]
fn malformed_messages_end_the_download() {
    assert!(matches!(download(&[9; 20]).on_message(&[20]), Step::Fail));
    assert!(matches!(download(&[9; 20]).on_message(&[20, 0, b'x']), Step::Fail));
    assert!(matches!(download(&[9; 20]).on_message(&piece(0, b"abc")), Step::Fail));
    let no_size = make_extended(0, Dict::new());
    assert!(matches!(download(&[9; 20]).on_message(&no_size), Step::Fail));
    let mut d = download(&[9; 20]);
    goes_on(d.on_message(&hello(3)));
    assert!(matches!(d.on_message(&hello(3)), Step::Fail));
    let mut d = download(&[9; 20]);
    goes_on(d.on_message(&hello(3)));
    let no_piece = make_extended(3, Dict::new().with("msg_type", BVal::Int(1)));
    assert!(matches!(d.on_message(&no_piece), Step::Fail));
}

#[test]
fn other_messages_are_passed_over() {
    let mut d = download(&[9; 20]);
    assert_eq!(goes_on(d.on_message(&[])), (0, 0));
    assert_eq!(goes_on(d.on_message(&[5, 1, 2, 3])), (0, 0));
    goes_on(d.on_message(&hello(3)));
    let reject = make_extended(3, Dict::new().with("msg_type", BVal::Int(2)).with("piece", BVal::Int(0)));
    assert_eq!(goes_on(d.on_message(&reject)), (0, 0));
}

#[test]
fn nothing_is_asked_of_a_peer_without_metadata() {
    let mut d = download(&[9; 20]);
    let m = make_extended(0, Dict::new().with("metadata_size", BVal::Int(3)));
    assert_eq!(goes_on(d.on_message(&m)), (0, 0));
}

#[test]
fn numbers_of_extensions_are_cut_to_a_byte() {
    let mut d = download(&[9; 20]);
    let m = Dict::new().with("ut_metadata", BVal::Int(-1));
    let h = make_extended(0, Dict::new().with("m", BVal::Dict(m)).with("metadata_size", BVal::Int(3)));
    match d.on_message(&h) {
        Step::Continue { send, .. } => assert_eq!(send[0][..2], [20, 255]),
        _ => panic!("the download ended"),
    }
}

#[test]
fn exchanged_peers_are_named() {
    let mut d = download(&[9; 20]);
    goes_on(d.on_message(&hello(3)));
    let added = vec![1, 2, 3, 4, 0, 80, 5, 6, 7, 8, 1, 0, 9];
    let pex = |id: u8| make_extended(id, Dict::new().with("added", BVal::Bytes(added.clone())));
    match d.on_message(&pex(7)) {
        Step::Continue { peers, .. } => {
            let named: Vec<(String, u16)> = peers.iter().map(|p| (p.ip.clone(), p.port)).collect();
            assert_eq!(named, vec![("1.2.3.4".to_string(), 80), ("5.6.7.8".to_string(), 256)]);
            assert_eq!(peers[0].info_hash, [9; 20]);
        },
        _ => panic!("the download ended"),
    }
    assert_eq!(goes_on(d.on_message(&pex(8))), (0, 0));
}
