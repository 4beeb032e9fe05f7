use dht_spider::peers::PeersManager;
use dht_spider::types::{IpAddr, Peer};

fn peer(last: u8, port: u16) -> Peer {
    Peer { ip: IpAddr::V4(10, 0, 0, last), port, token: None }
}

fn ports(v: Vec<Peer>) -> Vec<u16> {
    v.iter().map(|p| p.port).collect()
}

#[test]
fn newest_peers_are_handed_out_in_order() {
    let mut m = PeersManager::new(8);
    let ih = [1u8; 20];
    for i in 1..=5u8 {
        m.insert(ih, peer(i, i as u16));
    }
    assert_eq!(ports(m.get(ih, 8)), vec![1, 2, 3, 4, 5]);
    assert_eq!(ports(m.get(ih, 2)), vec![4, 5]);
    assert_eq!(ports(m.get(ih, 0)), Vec::<u16>::new());
    assert_eq!(ports(m.get([2u8; 20], 8)), Vec::<u16>::new());
}

#[test]
fn oldest_peer_makes_room() {
    let mut m = PeersManager::new(3);
    let ih = [1u8; 20];
    for i in 1..=5u8 {
        m.insert(ih, peer(i, i as u16));
    }
    assert_eq!(ports(m.get(ih, 8)), vec![3, 4, 5]);
}

#[test]
fn known_peer_moves_to_the_end() {
    let mut m = PeersManager::new(8);
    let ih = [1u8; 20];
    m.insert(ih, peer(1, 1));
    m.insert(ih, peer(2, 2));
    m.insert(ih, Peer { ip: IpAddr::V4(10, 0, 0, 1), port: 1, token: Some("t".to_string()) });
    let all = m.get(ih, 8);
    assert_eq!(all.len(), 2);
    assert_eq!(all[0].port, 2);
    assert_eq!(all[1].port, 1);
    assert_eq!(all[1].token, Some("t".to_string()));
}

#[test]
fn full_table_takes_no_new_info_hash() {
    let mut m = PeersManager::new(2);
    for i in 0..50000u32 {
        let mut ih = [0u8; 20];
        ih[..4].copy_from_slice(&i.to_be_bytes());
        m.insert(ih, peer(1, 1));
    }
    m.insert([0xffu8; 20], peer(2, 2));
    assert_eq!(m.get([0xffu8; 20], 8).len(), 0);
    m.insert([0u8; 20], peer(2, 2));
    assert_eq!(ports(m.get([0u8; 20], 8)), vec![1, 2]);
}
