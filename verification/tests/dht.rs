use dht_spider::bencode::{BVal, Dict};
use dht_spider::command::DhtCommand;
use dht_spider::dht::{Action, Contact};
use dht_spider::krpc::{decode_value, make_error, make_query, make_response, parse_message};
use dht_spider::protocol::DhtCallbacks;
use dht_spider::types::{DhtError, IpAddr, Node, NodeId, SocketAddr};
use dht_spider::{Config, Dht, Mode};

const S: u64 = 1_000_000_000;
const SELF_ID: [u8; 20] = [0x11; 20];
const IH: &str = "2222222222222222222222222222222222222222";

fn standard() -> Dht {
    Dht::new(Config::default(), SELF_ID)
}

fn crawler() -> Dht {
    let mut cfg = Config::default();
    cfg.mode = Mode::Crawl;
    Dht::new(cfg, SELF_ID)
}

fn addr(last: u8, port: u16) -> SocketAddr {
    SocketAddr { ip: IpAddr::V4(10, 0, 0, last), port }
}

fn bytes(b: &[u8]) -> BVal {
    BVal::Bytes(b.to_vec())
}

fn args() -> Dict {
    Dict::new().with("id", bytes(&[0x33; 20]))
}

fn know(d: &mut Dht, first: u8, last_active: u64) {
    let mut id = [0u8; 20];
    id[0] = first;
    d.routing.insert(Node { id: NodeId(id), addr: addr(first, 6881), last_active });
}

/// The packets among actions, with the texts of the addresses that they go to.
fn sent(acts: &[Action]) -> Vec<(String, Vec<u8>)> {
    acts.iter()
        .filter_map(|a| match a {
            Action::Send { addr, buf } => Some((addr.text(), buf.clone())),
            _ => None,
        })
        .collect()
}

/// The query in a packet: its transaction, its name and its arguments as a packet of their own.
fn query_in(buf: &[u8]) -> (Vec<u8>, String) {
    let v = decode_value(buf).unwrap();
    let (t, y, body) = parse_message(&v).unwrap();
    assert_eq!(y, "q");
    (t.clone(), String::from_utf8(body.get_bytes("q").unwrap().clone()).unwrap())
}

/// The bytes under a key of an answer.
fn answer_bytes(buf: &[u8], key: &str) -> Option<Vec<u8>> {
    let v = decode_value(buf).unwrap();
    let (_, y, body) = parse_message(&v).unwrap();
    assert_eq!(y, "r");
    body.get_dict("r").unwrap().get_bytes(key).cloned()
}

fn id_text(id: &[u8; 20]) -> Dict {
    Dict::new().with("id", bytes(id))
}

#[test]
fn default_configuration() {
    let c = Config::default();
    assert_eq!((c.k, c.kbucket_size, c.max_nodes, c.refresh_node_num), (8, 8, 5000, 8));
    assert_eq!((c.network.as_str(), c.address.as_str()), ("udp4", ":6881"));
    assert_eq!(c.prime_nodes.len(), 17);
    assert_eq!(c.prime_nodes[0], "router.bittorrent.com:6881");
    assert_eq!(c.prime_nodes[5], "dht.libtorrent.org:25401");
    assert_eq!(c.prime_nodes[16], "router.bittorrent.kr:6881");
    assert_eq!(c.kbucket_expired_after, 900 * S);
    assert_eq!(c.node_expired_after, 900 * S);
    assert_eq!(c.check_kbucket_period, 30 * S);
    assert_eq!(c.token_expired_after, 600 * S);
    assert_eq!(c.blacklist_max_size, 65536);
    assert!(matches!(c.mode, Mode::Standard));
    assert_eq!(c.try_times, 2);
    assert!(c.blocked_ips.is_empty());
    let k = c.clone();
    assert_eq!(k.prime_nodes, c.prime_nodes);
}

#[test]
fn ping_is_answered() {
    let mut d = standard();
    let acts = d.handle_packet(&make_query(b"aa", "ping", args()), &addr(1, 5), "tok", 0);
    assert_eq!(sent(&acts), vec![("10.0.0.1:5".to_string(), make_response(b"aa", id_text(&SELF_ID)))]);
    assert_eq!(acts.len(), 1);
    assert_eq!(d.routing.len(), 0);
}

#[test]
fn crawler_shows_itself_next_to_whoever_asks() {
    let mut d = crawler();
    let acts = d.handle_packet(&make_query(b"aa", "ping", args()), &addr(1, 5), "tok", 0);
    let mut id = [0x33u8; 20];
    id[15..].copy_from_slice(&[0x11; 5]);
    assert_eq!(sent(&acts)[0].1, make_response(b"aa", id_text(&id)));
}

#[test]
fn query_without_identifier_is_refused() {
    for a in [Dict::new(), Dict::new().with("id", bytes(b"short")), Dict::new().with("id", BVal::Int(1))] {
        let mut d = standard();
        let acts = d.handle_packet(&make_query(b"aa", "ping", a), &addr(1, 5), "tok", 0);
        assert_eq!(sent(&acts), vec![("10.0.0.1:5".to_string(), make_error(b"aa", 203, "invalid id"))]);
        assert_eq!(d.routing.len(), 0);
    }
}

#[test]
fn find_node_names_the_nearest_nodes() {
    let mut d = standard();
    know(&mut d, 0x40, 0);
    know(&mut d, 0x02, 0);
    let a = args().with("target", bytes(&[0; 20]));
    let acts = d.handle_packet(&make_query(b"aa", "find_node", a), &addr(9, 5), "tok", 0);
    let mut want = vec![0u8; 20];
    want[0] = 0x02;
    want.extend([10, 0, 0, 0x02, 0x1a, 0xe1]);
    let mut far = vec![0u8; 20];
    far[0] = 0x40;
    far.extend([10, 0, 0, 0x40, 0x1a, 0xe1]);
    want.extend(far);
    assert_eq!(answer_bytes(&sent(&acts)[0].1, "nodes"), Some(want));
    assert_eq!(d.routing.len(), 3);
}

#[test]
fn find_node_without_target_is_refused() {
    let mut d = standard();
    let acts = d.handle_packet(&make_query(b"aa", "find_node", args()), &addr(9, 5), "tok", 0);
    assert_eq!(sent(&acts)[0].1, make_error(b"aa", 203, "invalid target"));
    assert_eq!(d.routing.len(), 0);
}

#[test]
fn crawler_leaves_find_node_unanswered() {
    let mut d = crawler();
    let acts = d.handle_packet(&make_query(b"aa", "find_node", args()), &addr(9, 5), "tok", 0);
    assert_eq!(acts.len(), 0);
    assert_eq!(d.routing.len(), 1);
}

#[test]
fn get_peers_without_info_hash_is_refused() {
    let mut d = standard();
    let acts = d.handle_packet(&make_query(b"aa", "get_peers", args()), &addr(9, 5), "tok", 0);
    assert_eq!(sent(&acts)[0].1, make_error(b"aa", 203, "invalid info_hash"));
}

#[test]
fn crawler_answers_get_peers_with_a_token_alone() {
    let mut d = crawler();
    d.callbacks.on_get_peers = true;
    let a = args().with("info_hash", bytes(&[0x22; 20]));
    let acts = d.handle_packet(&make_query(b"aa", "get_peers", a), &addr(9, 5), "tok", 0);
    let buf = &sent(&acts)[0].1;
    assert_eq!(answer_bytes(buf, "token"), Some(b"tok".to_vec()));
    assert_eq!(answer_bytes(buf, "nodes"), Some(Vec::new()));
    match &acts[1] {
        Action::GetPeers { info_hash, ip, port } => {
            assert_eq!((info_hash.as_str(), ip.as_str(), *port), (IH, "10.0.0.9", 5));
        },
        _ => panic!("expected an event"),
    }
    assert_eq!(acts.len(), 2);
}

fn announce(token: &[u8], port: BVal) -> Dict {
    args().with("info_hash", bytes(&[0x22; 20])).with("port", port).with("token", bytes(token))
}

#[test]
fn announced_peer_is_handed_out() {
    let mut d = standard();
    d.callbacks.on_announce_peer = true;
    let ask = || make_query(b"aa", "get_peers", args().with("info_hash", bytes(&[0x22; 20])));
    let acts = d.handle_packet(&ask(), &addr(9, 5), "tok", 0);
    assert_eq!(answer_bytes(&sent(&acts)[0].1, "token"), Some(b"tok".to_vec()));

    let acts = d.handle_packet(&make_query(b"bb", "announce_peer", announce(b"tok", BVal::Int(6882))), &addr(9, 5), "new", S);
    assert_eq!(sent(&acts)[0].1, make_response(b"bb", id_text(&SELF_ID)));
    match &acts[1] {
        Action::AnnouncePeer { info_hash, ip, port } => {
            assert_eq!((info_hash.as_str(), ip.as_str(), *port), (IH, "10.0.0.9", 6882));
        },
        _ => panic!("expected an event"),
    }

    let acts = d.handle_packet(&ask(), &addr(8, 5), "other", 2 * S);
    let v = decode_value(&sent(&acts)[0].1).unwrap();
    let (_, _, body) = parse_message(&v).unwrap();
    let r = body.get_dict("r").unwrap();
    assert_eq!(r.get_bytes("token"), Some(&b"other".to_vec()));
    let values = r.get_list("values").unwrap();
    assert_eq!(values.len(), 1);
    match &values[0] {
        BVal::Bytes(b) => assert_eq!(b, &vec![10, 0, 0, 9, 0x1a, 0xe2]),
        _ => panic!("expected bytes"),
    }
    assert!(r.get_bytes("nodes").is_none());
}

#[test]
fn announced_peer_is_served() {
    let mut d = standard();
    let query = |q: &str, a: Dict| Dict::new().with("q", bytes(q.as_bytes())).with("a", BVal::Dict(a));
    let ask = query("get_peers", args().with("info_hash", bytes(&[0x22; 20])));
    let mut out = Vec::new();
    d.handle_request(&mut out, b"aa", &ask, &addr(9, 5), "tok", 0);
    let token = answer_bytes(&sent(&out)[0].1, "token").unwrap();
    d.handle_request(&mut out, b"bb", &query("announce_peer", announce(&token, BVal::Int(65535))), &addr(9, 5), "x", S);
    d.handle_request(&mut out, b"cc", &ask, &addr(8, 5), "other", 2 * S);
    let packets = sent(&out);
    assert_eq!(packets.len(), 3);
    assert_eq!(packets[2].0, "10.0.0.8:5");
    let v = decode_value(&packets[2].1).unwrap();
    let (t, _, body) = parse_message(&v).unwrap();
    assert_eq!(t, b"cc");
    let r = body.get_dict("r").unwrap();
    assert!(r.get_bytes("nodes").is_none());
    match r.get_list("values").unwrap().last() {
        Some(BVal::Bytes(b)) => assert_eq!(b, &vec![10, 0, 0, 9, 255, 255]),
        _ => panic!("expected bytes"),
    }
}

#[test]
fn announced_port_is_cut_to_sixteen_bits() {
    for (named, want) in [(6882i64, 6882u16), (-1, 0), (65536 + 7, 7), (0x1_0000_0000 + 9, 9), (0x8000_0000, 0), (i64::MIN, 0)] {
        let mut d = crawler();
        d.callbacks.on_announce_peer = true;
        let ask = make_query(b"aa", "get_peers", args().with("info_hash", bytes(&[0x22; 20])));
        d.handle_packet(&ask, &addr(9, 5), "tok", 0);
        let acts = d.handle_packet(&make_query(b"bb", "announce_peer", announce(b"tok", BVal::Int(named))), &addr(9, 5), "x", 0);
        match &acts[0] {
            Action::AnnouncePeer { port, .. } => assert_eq!(*port, want),
            _ => panic!("expected an event"),
        }
    }
}

#[test]
fn implied_port_is_that_of_the_packet() {
    for (implied, want) in [(1i64, 5u16), (0, 6882)] {
        let mut d = crawler();
        d.callbacks.on_announce_peer = true;
        let ask = make_query(b"aa", "get_peers", args().with("info_hash", bytes(&[0x22; 20])));
        d.handle_packet(&ask, &addr(9, 5), "tok", 0);
        let a = announce(b"tok", BVal::Int(6882)).with("implied_port", BVal::Int(implied));
        let acts = d.handle_packet(&make_query(b"bb", "announce_peer", a), &addr(9, 5), "x", 0);
        match &acts[0] {
            Action::AnnouncePeer { port, .. } => assert_eq!(*port, want),
            _ => panic!("expected an event"),
        }
    }
}

#[test]
fn announcement_without_a_good_token_is_passed_over() {
    for a in [
        announce(b"wrong", BVal::Int(1)),
        announce(b"tok", BVal::Bytes(vec![1])),
        args().with("port", BVal::Int(1)).with("token", bytes(b"tok")),
        args().with("info_hash", bytes(&[0x22; 20])).with("port", BVal::Int(1)),
        announce(b"\xff\xfe", BVal::Int(1)),
    ] {
        let mut d = standard();
        d.callbacks.on_announce_peer = true;
        let ask = make_query(b"aa", "get_peers", args().with("info_hash", bytes(&[0x22; 20])));
        d.handle_packet(&ask, &addr(9, 5), "tok", 0);
        assert_eq!(d.handle_packet(&make_query(b"bb", "announce_peer", a), &addr(9, 5), "x", 0).len(), 0);
        assert_eq!(d.peers.get([0x22; 20], 8).len(), 0);
    }
}

#[test]
fn unreadable_token_is_read_with_replacements() {
    let mut d = standard();
    let ask = make_query(b"aa", "get_peers", args().with("info_hash", bytes(&[0x22; 20])));
    d.handle_packet(&ask, &addr(9, 5), "\u{fffd}k", 0);
    let acts = d.handle_packet(&make_query(b"bb", "announce_peer", announce(b"\xffk", BVal::Int(1))), &addr(9, 5), "x", 0);
    assert_eq!(acts.len(), 1);
    assert_eq!(d.peers.get([0x22; 20], 8)[0].token, Some("\u{fffd}k".to_string()));
}

#[test]
fn unknown_query_only_makes_the_sender_known() {
    let mut d = standard();
    assert_eq!(d.handle_packet(&make_query(b"aa", "vote", args()), &addr(9, 5), "x", 0).len(), 0);
    assert_eq!(d.routing.len(), 1);
    let mut d = standard();
    let bad = b"d1:ad2:id20:33333333333333333333e1:q1:\xff1:t2:aa1:y1:qe";
    assert_eq!(d.handle_packet(bad, &addr(9, 5), "x", 0).len(), 0);
    assert_eq!(d.routing.len(), 0);
}

#[test]
fn blacklisted_sender_is_ignored() {
    let mut d = standard();
    d.blacklist.insert("10.0.0.1", Some(5), 0);
    let q = make_query(b"aa", "ping", args());
    assert_eq!(d.handle_packet(&q, &addr(1, 5), "x", 0).len(), 0);
    assert_eq!(d.handle_packet(&q, &addr(1, 6), "x", 0).len(), 1);
    assert_eq!(d.handle_packet(b"garbage", &addr(1, 6), "x", 0).len(), 0);
}

#[test]
fn full_routing_table_takes_no_sender() {
    let mut cfg = Config::default();
    cfg.max_nodes = 1;
    let mut d = Dht::new(cfg, SELF_ID);
    know(&mut d, 1, 0);
    d.handle_packet(&make_query(b"aa", "vote", args()), &addr(9, 5), "x", 0);
    assert_eq!(d.routing.len(), 1);
}

fn compact(first: u8, last: u8, port: u16) -> Vec<u8> {
    let mut b = vec![0u8; 20];
    b[0] = first;
    b.extend([10, 0, 0, last]);
    b.extend(port.to_be_bytes());
    b
}

#[test]
fn found_nodes_are_asked_in_their_turn() {
    let mut d = standard();
    d.callbacks.on_node = true;
    let hosts = vec![Contact { resolved: vec![addr(1, 1)], written: None }];
    let acts = d.join(&hosts, 0);
    let (tid, q) = query_in(&sent(&acts)[0].1);
    assert_eq!(q, "find_node");
    let mut nodes = compact(0x21, 2, 2);
    nodes.extend(compact(0x22, 3, 3));
    let r = Dict::new().with("id", bytes(&[7; 20])).with("nodes", BVal::Bytes(nodes));
    let acts = d.handle_packet(&make_response(&tid, r), &addr(1, 1), "x", S);
    let out = sent(&acts);
    assert_eq!(out.len(), 2);
    assert_eq!(out[0].0, "10.0.0.2:2");
    assert_eq!(query_in(&out[0].1).1, "find_node");
    assert_eq!(out[1].0, "10.0.0.3:3");
    assert_eq!(d.routing.len(), 2);
    match &acts[0] {
        Action::Node { id, ip, port } => {
            assert_eq!(id, "2100000000000000000000000000000000000000");
            assert_eq!((ip.as_str(), *port), ("10.0.0.2", 2));
        },
        _ => panic!("expected an event"),
    }
    // The transaction has ended: the same answer only enters nodes again.
    let r = Dict::new().with("id", bytes(&[7; 20])).with("nodes", BVal::Bytes(compact(0x23, 4, 4)));
    assert_eq!(sent(&d.handle_packet(&make_response(&tid, r), &addr(1, 1), "x", S)).len(), 0);
    assert_eq!(d.routing.len(), 3);
}

#[test]
fn blacklisted_node_in_an_answer_is_left_alone() {
    let mut d = standard();
    d.callbacks.on_node = true;
    d.blacklist.insert("10.0.0.2", Some(2), 0);
    let hosts = vec![Contact { resolved: vec![addr(1, 1)], written: None }];
    let (tid, _) = query_in(&sent(&d.join(&hosts, 0))[0].1);
    let mut nodes = compact(0x21, 2, 2);
    nodes.extend(compact(0x22, 2, 3));
    let r = Dict::new().with("id", bytes(&[7; 20])).with("nodes", BVal::Bytes(nodes));
    let acts = d.handle_packet(&make_response(&tid, r), &addr(1, 1), "x", S);
    assert_eq!(acts.len(), 2);
    assert!(matches!(&acts[0], Action::Node { port: 3, .. }));
    assert_eq!(sent(&acts)[0].0, "10.0.0.2:3");
    assert_eq!(d.routing.len(), 1);
}

#[test]
fn only_the_announcement_goes_back_to_a_blacklisted_node() {
    let mut d = standard();
    know(&mut d, 1, 0);
    d.callbacks.on_node = true;
    let acts = d.handle_command(DhtCommand::AnnouncePeer { info_hash: IH.to_string(), port: 7000 }, 0);
    let (tid, _) = query_in(&sent(&acts)[0].1);
    d.blacklist.insert("10.0.0.1", Some(6881), 0);
    d.blacklist.insert("10.0.0.2", Some(2), 0);
    let mut nodes = compact(0x21, 2, 2);
    nodes.extend(compact(0x22, 1, 6881));
    let r = Dict::new().with("id", bytes(&[7; 20])).with("token", bytes(b"theirs")).with("nodes", BVal::Bytes(nodes));
    let mut out = Vec::new();
    d.handle_response(&mut out, &tid, &Dict::new().with("r", BVal::Dict(r)), &addr(1, 6881), S);
    assert_eq!(out.len(), 1);
    let packets = sent(&out);
    assert_eq!(packets[0].0, "10.0.0.1:6881");
    assert_eq!(query_in(&packets[0].1).1, "announce_peer");
    assert_eq!(d.routing.len(), 1);
}

#[test]
fn answer_from_elsewhere_is_ignored() {
    let mut d = standard();
    let acts = d.join(&vec![Contact { resolved: vec![addr(1, 1)], written: None }], 0);
    let (tid, _) = query_in(&sent(&acts)[0].1);
    let r = || Dict::new().with("id", bytes(&[7; 20])).with("nodes", BVal::Bytes(compact(0x21, 2, 2)));
    assert_eq!(d.handle_packet(&make_response(&tid, r()), &addr(1, 2), "x", S).len(), 0);
    assert_eq!(d.routing.len(), 0);
    assert_eq!(d.handle_packet(&make_response(&tid, r()), &addr(1, 1), "x", S).len(), 1);
}

#[test]
fn found_peers_are_stored_and_told() {
    let mut d = standard();
    d.ready = true;
    d.callbacks.on_get_peers_response = true;
    know(&mut d, 1, 0);
    let acts = d.get_peers(IH, 0).unwrap();
    let (tid, q) = query_in(&sent(&acts)[0].1);
    assert_eq!(q, "get_peers");
    let values = BVal::List(vec![bytes(&[1, 2, 3, 4, 0, 80]), bytes(&[1, 2]), BVal::Int(3)]);
    let r = Dict::new().with("id", bytes(&[7; 20])).with("values", values);
    let acts = d.handle_packet(&make_response(&tid, r), &addr(1, 6881), "x", S);
    assert_eq!(acts.len(), 1);
    match &acts[0] {
        Action::GetPeersResponse { info_hash, peer } => {
            assert_eq!(info_hash, IH);
            assert_eq!((peer.ip.text().as_str(), peer.port), ("1.2.3.4", 80));
        },
        _ => panic!("expected an event"),
    }
    assert_eq!(d.peers.get([0x22; 20], 8).len(), 1);
}

#[test]
fn announcement_follows_the_token() {
    let mut d = standard();
    know(&mut d, 1, 0);
    let acts = d.handle_command(DhtCommand::AnnouncePeer { info_hash: IH.to_string(), port: 7000 }, 0);
    let (tid, q) = query_in(&sent(&acts)[0].1);
    assert_eq!(q, "get_peers");
    let r = Dict::new().with("id", bytes(&[7; 20])).with("token", bytes(b"theirs"));
    let acts = d.handle_packet(&make_response(&tid, r), &addr(1, 6881), "x", S);
    let out = sent(&acts);
    assert_eq!(out.len(), 1);
    let v = decode_value(&out[0].1).unwrap();
    let (_, _, body) = parse_message(&v).unwrap();
    assert_eq!(body.get_bytes("q"), Some(&b"announce_peer".to_vec()));
    let a = body.get_dict("a").unwrap();
    assert_eq!(a.get_bytes("info_hash"), Some(&vec![0x22u8; 20]));
    assert_eq!(a.get_int("port"), Some(7000));
    assert_eq!(a.get_bytes("token"), Some(&b"theirs".to_vec()));
    assert_eq!(a.get_int("implied_port"), None);
}

#[test]
fn get_peers_tells_why_it_is_refused() {
    let mut d = standard();
    assert!(matches!(d.get_peers(IH, 0), Err(DhtError::NotReady)));
    d.ready = true;
    assert!(matches!(d.get_peers(IH, 0), Err(DhtError::GetPeersResponseNotSet)));
    d.callbacks.on_get_peers_response = true;
    assert!(matches!(d.get_peers("xyz", 0), Err(DhtError::InvalidInfoHash)));
    assert_eq!(d.get_peers(IH, 0).unwrap().len(), 0);
}

#[test]
fn command_does_not_ask_the_same_node_twice() {
    let mut d = standard();
    know(&mut d, 1, 0);
    know(&mut d, 2, 0);
    let cmd = || DhtCommand::GetPeers { info_hash: IH.to_string() };
    assert_eq!(d.handle_command(cmd(), 0).len(), 2);
    assert_eq!(d.handle_command(cmd(), 0).len(), 0);
    assert_eq!(d.handle_command(DhtCommand::GetPeers { info_hash: "no".to_string() }, 0).len(), 0);
    assert_eq!(d.handle_command(DhtCommand::Shutdown, 0).len(), 0);
}

#[test]
fn joining_asks_every_contact() {
    let mut d = standard();
    let hosts = vec![
        Contact { resolved: vec![addr(1, 1), addr(2, 2)], written: Some(addr(3, 3)) },
        Contact { resolved: vec![], written: Some(addr(4, 4)) },
        Contact { resolved: vec![], written: None },
    ];
    let out = sent(&d.join(&hosts, 0));
    let to: Vec<&str> = out.iter().map(|o| o.0.as_str()).collect();
    assert_eq!(to, vec!["10.0.0.1:1", "10.0.0.2:2", "10.0.0.4:4"]);
    let a = Dict::new().with("id", bytes(&SELF_ID)).with("target", bytes(&SELF_ID));
    assert_eq!(out[0].1, make_query(&[0], "find_node", a));
}

#[test]
fn lonely_node_joins() {
    let mut d = standard();
    let acts = d.run_tick(&[0; 20], 0);
    assert_eq!(acts.len(), 1);
    assert!(matches!(acts[0], Action::Join));
}

#[test]
fn silent_node_is_asked_again_and_given_up() {
    let mut d = standard();
    d.join(&vec![Contact { resolved: vec![addr(1, 1)], written: None }], 0);
    know(&mut d, 9, 1000 * S);
    let first = sent(&d.run_tick(&[0; 20], 9 * S));
    assert_eq!(first.len(), 0);
    let again = sent(&d.run_tick(&[0; 20], 10 * S));
    assert_eq!(again.len(), 1);
    assert_eq!(again[0].0, "10.0.0.1:1");
    assert_eq!(query_in(&again[0].1), (vec![0], "find_node".to_string()));
    assert_eq!(sent(&d.run_tick(&[0; 20], 29 * S)).len(), 0);
    assert_eq!(sent(&d.run_tick(&[0; 20], 30 * S)).len(), 1);
    assert_eq!(sent(&d.run_tick(&[0; 20], 69 * S)).len(), 0);
    assert!(!d.blacklist.contains("10.0.0.1", Some(1)));
    d.run_tick(&[0; 20], 70 * S);
    assert!(d.blacklist.contains("10.0.0.1", Some(1)));
}

#[test]
fn stale_bucket_is_refreshed_and_dropped_by_a_crawler() {
    let mut d = crawler();
    know(&mut d, 1, 0);
    let out = sent(&d.run_tick(&[0xaa; 20], 900 * S));
    assert_eq!(out.len(), 1);
    assert_eq!(query_in(&out[0].1).1, "find_node");
    assert_eq!(d.routing.len(), 0);
}

#[test]
fn managed_node_pings_expired_nodes_once() {
    let mut d = standard();
    know(&mut d, 1, 0);
    let out = sent(&d.start_tick(&[0xaa; 20], 900 * S));
    let kinds: Vec<String> = out.iter().map(|o| query_in(&o.1).1).collect();
    assert_eq!(kinds, vec!["find_node".to_string(), "ping".to_string()]);
    let out = sent(&d.start_tick(&[0xaa; 20], 901 * S));
    assert_eq!(out.len(), 0);
}

#[test]
fn error_ends_the_transaction() {
    let mut d = standard();
    let acts = d.join(&vec![Contact { resolved: vec![addr(1, 1)], written: None }], 0);
    let (tid, _) = query_in(&sent(&acts)[0].1);
    assert_eq!(d.handle_packet(&make_error(&tid, 202, "Server Error"), &addr(1, 1), "x", 0).len(), 0);
    know(&mut d, 9, 100 * S);
    assert_eq!(sent(&d.run_tick(&[0; 20], 100 * S)).len(), 0);
}

#[test]
fn owner_hears_only_of_what_it_wants() {
    let mut d = standard();
    assert!(d.callbacks == DhtCallbacks::default());
    let ask = make_query(b"aa", "get_peers", args().with("info_hash", bytes(&[0x22; 20])));
    assert_eq!(d.handle_packet(&ask, &addr(9, 5), "tok", 0).len(), 1);
    let ann = make_query(b"bb", "announce_peer", announce(b"tok", BVal::Int(1)));
    assert_eq!(d.handle_packet(&ann, &addr(9, 5), "tok", 0).len(), 1);
}

#[test]
fn nodes_hand_over_what_they_know() {
    let mut asking = Dht::new(Config::default(), [0x44; 20]);
    let mut asked = standard();
    know(&mut asked, 0x51, 0);
    know(&mut asked, 0x52, 0);
    let out = sent(&asking.join(&vec![Contact { resolved: vec![addr(1, 1)], written: None }], 0));
    let reply = sent(&asked.handle_packet(&out[0].1, &addr(2, 2), "tok", 0));
    assert_eq!(reply.len(), 1);
    assert_eq!(reply[0].0, "10.0.0.2:2");
    assert_eq!(asked.routing.len(), 3);
    let next = sent(&asking.handle_packet(&reply[0].1, &addr(1, 1), "tok", 0));
    assert_eq!(asking.routing.len(), 2);
    let to: Vec<&str> = next.iter().map(|n| n.0.as_str()).collect();
    assert_eq!(to, vec!["10.0.0.81:6881", "10.0.0.82:6881"]);
}

#[test]
fn nodes_hand_over_peers() {
    let mut asking = Dht::new(Config::default(), [0x44; 20]);
    let mut asked = standard();
    asked.peers.insert([0x22; 20], dht_spider::types::Peer { ip: IpAddr::V4(7, 7, 7, 7), port: 77, token: Some("x".to_string()) });
    asked.peers.insert([0x22; 20], dht_spider::types::Peer { ip: IpAddr::V6("::1".to_string()), port: 78, token: None });
    asking.routing.insert(Node { id: NodeId(SELF_ID), addr: addr(1, 1), last_active: 0 });
    let out = sent(&asking.handle_command(DhtCommand::GetPeers { info_hash: IH.to_string() }, 0));
    let reply = sent(&asked.handle_packet(&out[0].1, &addr(2, 2), "tok", 0));
    asking.handle_packet(&reply[0].1, &addr(1, 1), "tok", 0);
    let got = asking.peers.get([0x22; 20], 8);
    assert_eq!(got.len(), 1);
    assert_eq!((got[0].ip.text().as_str(), got[0].port, got[0].token.is_none()), ("7.7.7.7", 77, true));
}

#[test]
fn tables_stay_within_their_bounds() {
    let mut cfg = Config::default();
    cfg.max_nodes = 3;
    let mut d = Dht::new(cfg, SELF_ID);
    let mut nodes = Vec::new();
    for i in 1..=9u8 {
        nodes.extend(compact(i, i, i as u16));
    }
    let r = Dict::new().with("id", bytes(&[7; 20])).with("nodes", BVal::Bytes(nodes));
    d.handle_packet(&make_response(b"zz", r), &addr(1, 1), "x", 0);
    assert_eq!(d.routing.len(), 3);
}
