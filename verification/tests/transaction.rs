use dht_spider::transaction::{Transaction, TransactionManager, MAX_TRANSACTIONS};
use dht_spider::types::{IpAddr, SocketAddr};

const S: u64 = 1_000_000_000;

fn tx(id: &[u8], port: u16, q: &str, created_at: u64) -> Transaction {
    Transaction {
        trans_id_bytes: id.to_vec(),
        addr: SocketAddr { ip: IpAddr::V4(1, 2, 3, 4), port },
        qtype: q.to_string(),
        responder: Some(port as u64),
        info_hash: None,
        target: None,
        announce_port: None,
        announce_implied_port: false,
        created_at,
        retries: 0,
    }
}

#[test]
fn identifiers_count_up_and_wrap_around() {
    let mut m = TransactionManager::new(3);
    let ids: Vec<Vec<u8>> = (0..5).map(|_| m.gen_id()).collect();
    assert_eq!(ids, vec![vec![0], vec![1], vec![2], vec![0], vec![1]]);
}

#[test]
fn transactions_are_found_by_identifier_and_by_kind_and_address() {
    let mut m = TransactionManager::new(1000);
    assert!(m.insert(tx(b"aa", 1, "ping", 0)));
    assert!(m.insert(tx(b"bb", 2, "get_peers", 0)));
    assert_eq!(m.len(), 2);
    assert_eq!(m.get_by_trans_id(b"bb").unwrap().qtype, "get_peers");
    assert_eq!(m.get_by_index("ping", "1.2.3.4:1").unwrap().trans_id_bytes, b"aa".to_vec());
    assert!(m.get_by_index("ping", "1.2.3.4:2").is_none());
    assert_eq!(m.gen_index_key("ping", "1.2.3.4:1"), "ping:1.2.3.4:1");
}

#[test]
fn finished_transaction_is_gone_and_its_party_is_named() {
    let mut m = TransactionManager::new(1000);
    m.insert(tx(b"aa", 7, "ping", 0));
    m.insert(tx(b"bb", 8, "ping", 0));
    assert_eq!(m.finish_by_trans_id(b"aa"), Some(7));
    assert_eq!(m.finish_by_trans_id(b"aa"), None);
    assert!(m.get_by_trans_id(b"aa").is_none());
    assert!(m.get_by_index("ping", "1.2.3.4:7").is_none());
    assert!(m.get_by_trans_id(b"bb").is_some());
    assert_eq!(m.len(), 1);
}

#[test]
fn same_identifier_replaces_the_transaction() {
    let mut m = TransactionManager::new(1000);
    m.insert(tx(b"aa", 1, "ping", 0));
    m.insert(tx(b"aa", 2, "find_node", 0));
    assert_eq!(m.len(), 1);
    assert_eq!(m.get_by_trans_id(b"aa").unwrap().qtype, "find_node");
}

#[test]
fn full_table_refuses_more() {
    let mut m = TransactionManager::new(u64::MAX / 2);
    for _ in 0..MAX_TRANSACTIONS {
        let id = m.gen_id();
        assert!(m.insert(tx(&id, 1, "ping", 0)));
    }
    assert!(!m.insert(tx(b"zzzz", 1, "ping", 0)));
    assert_eq!(m.len(), 10000);
}

#[test]
fn waiting_time_doubles_with_every_retry() {
    let mut m = TransactionManager::new(1000);
    m.insert(tx(b"aa", 1, "find_node", 0));
    let due = |m: &TransactionManager, now: u64| {
        let (retry, remove) = m.scan_timeouts(10 * S, 2, now);
        (retry.len(), remove.len())
    };
    assert_eq!(due(&m, 10 * S - 1), (0, 0));
    assert_eq!(due(&m, 10 * S), (1, 0));
    m.mark_retry(b"aa", 10 * S);
    assert_eq!(m.get_by_trans_id(b"aa").unwrap().retries, 1);
    assert_eq!(due(&m, 30 * S - 1), (0, 0));
    assert_eq!(due(&m, 30 * S), (1, 0));
    m.mark_retry(b"aa", 30 * S);
    assert_eq!(due(&m, 70 * S - 1), (0, 0));
    assert_eq!(due(&m, 70 * S), (0, 1));
    assert_eq!(m.scan_timeouts(10 * S, 2, 70 * S).1, vec![b"aa".to_vec()]);
}

#[test]
fn retries_do_not_overflow() {
    let mut m = TransactionManager::new(1000);
    let mut t = tx(b"aa", 1, "find_node", 0);
    t.retries = 255;
    m.insert(t);
    m.mark_retry(b"aa", 5);
    assert_eq!(m.get_by_trans_id(b"aa").unwrap().retries, 255);
    assert_eq!(m.get_by_trans_id(b"aa").unwrap().created_at, 5);
    assert_eq!(m.scan_timeouts(10 * S, 2, 1_000_000 * S).1.len(), 0);
    assert_eq!(m.scan_timeouts(0, 2, 5).1.len(), 1);
}
