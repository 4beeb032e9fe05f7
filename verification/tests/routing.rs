use dht_spider::routing::RoutingTable;
use dht_spider::types::{IpAddr, Node, NodeId, SocketAddr};

const S: u64 = 1_000_000_000;

fn id(first: u8) -> [u8; 20] {
    let mut id = [0u8; 20];
    id[0] = first;
    id
}

fn node(first: u8, port: u16, last_active: u64) -> Node {
    Node {
        id: NodeId(id(first)),
        addr: SocketAddr { ip: IpAddr::V4(10, 0, 0, first), port },
        last_active,
    }
}

#[test]
fn nearest_nodes_come_first() {
    let mut t = RoutingTable::new(8);
    for f in [0x80u8, 0x01, 0x40, 0x03] {
        t.insert(node(f, 1, 0));
    }
    let near: Vec<u8> = t.neighbors_by_target(&id(0x02), 3).iter().map(|n| n.id.0[0]).collect();
    assert_eq!(near, vec![0x03, 0x01, 0x40]);
    assert_eq!(t.neighbors_by_target(&id(0), 10).len(), 4);
    assert_eq!(t.neighbors_by_target(&id(0), 0).len(), 0);
}

#[test]
fn known_node_is_replaced() {
    let mut t = RoutingTable::new(8);
    t.insert(node(5, 1, 0));
    t.insert(node(5, 2, 9));
    assert_eq!(t.len(), 1);
    let n = t.neighbors_by_target(&id(5), 1);
    assert_eq!(n[0].addr.port, 2);
    assert_eq!(n[0].last_active, 9);
}

#[test]
fn compact_form_lists_identifier_host_and_port() {
    let mut t = RoutingTable::new(8);
    t.insert(node(7, 6881, 0));
    t.insert(Node {
        id: NodeId(id(6)),
        addr: SocketAddr { ip: IpAddr::V6("::1".to_string()), port: 1 },
        last_active: 0,
    });
    let b = t.get_neighbors_compact(&id(7), 8);
    let mut want = id(7).to_vec();
    want.extend([10, 0, 0, 7, 0x1a, 0xe1]);
    assert_eq!(b, want);
}

#[test]
fn nodes_leave_by_address() {
    let mut t = RoutingTable::new(8);
    t.insert(node(1, 1, 0));
    t.insert(node(2, 1, 0));
    t.remove_by_addr("10.0.0.1:1");
    assert_eq!(t.len(), 1);
    t.remove_by_addr("10.0.0.1:1");
    assert_eq!(t.len(), 1);
}

#[test]
fn nodes_expire() {
    let mut t = RoutingTable::new(8);
    t.insert(node(1, 1, 0));
    t.insert(node(2, 1, 5 * S));
    let texts: Vec<String> = t.collect_expired_nodes(10 * S, 10 * S).iter().map(|a| a.text()).collect();
    assert_eq!(texts, vec!["10.0.0.1:1".to_string()]);
    assert_eq!(t.collect_expired_nodes(10 * S - 1, 10 * S).len(), 0);
}

#[test]
fn full_table_is_cut_down() {
    let mut t = RoutingTable::new(8);
    for f in 1..=6u8 {
        t.insert(node(f, 1, if f % 2 == 0 { 100 * S } else { 0 }));
    }
    t.prune(100 * S, 50 * S, 6);
    assert_eq!(t.len(), 6);
    t.prune(100 * S, 50 * S, 5);
    assert_eq!(t.len(), 3);
    t.prune(100 * S, 50 * S, 2);
    assert_eq!(t.len(), 2);
}

#[test]
fn stale_buckets_are_refreshed() {
    let mut t = RoutingTable::new(2);
    for f in [0x01u8, 0x02, 0x81, 0x82] {
        t.insert(node(f, 1, if f < 0x80 { 0 } else { 99 * S }));
    }
    let noise = [0xffu8; 20];
    let (tasks, clear) = t.fresh_plan(100 * S, 50 * S, 1, true, &noise);
    assert_eq!(tasks.len(), 1);
    assert_eq!(tasks[0].0.text(), "10.0.0.1:1");
    let mut want = [0xffu8; 20];
    want[0] = 0x7f;
    assert_eq!(tasks[0].1, want);
    assert_eq!(clear, vec!["10.0.0.1:1".to_string(), "10.0.0.2:1".to_string()]);
    let (tasks, clear) = t.fresh_plan(100 * S, 50 * S, 8, false, &noise);
    assert_eq!(tasks.len(), 2);
    assert_eq!(clear.len(), 0);
    assert_eq!(t.fresh_plan(100 * S, 1000 * S, 8, true, &noise).0.len(), 0);
}
