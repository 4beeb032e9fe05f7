use dht_spider::blacklist::BlackList;
use dht_spider::token::TokenManager;

const S: u64 = 1_000_000_000;

#[test]
fn blacklisted_address_is_listed_until_it_expires() {
    let mut b = BlackList::new(10);
    b.insert("1.2.3.4", Some(5), 0);
    assert!(b.contains("1.2.3.4", Some(5)));
    assert!(!b.contains("1.2.3.4", Some(6)));
    assert!(!b.contains("1.2.3.5", Some(5)));
    b.clear_expired(3600 * S - 1);
    assert!(b.contains("1.2.3.4", Some(5)));
    b.clear_expired(3600 * S);
    assert!(!b.contains("1.2.3.4", Some(5)));
}

#[test]
fn blacklist_of_a_whole_host_covers_its_ports() {
    let mut b = BlackList::new(10);
    b.insert("1.2.3.4", None, 0);
    assert!(b.contains("1.2.3.4", None));
    assert!(b.contains("1.2.3.4", Some(9)));
    assert!(!b.contains("1.2.3.5", Some(9)));
}

#[test]
fn full_blacklist_takes_no_more() {
    let mut b = BlackList::new(2);
    b.insert("a", Some(1), 0);
    b.insert("b", Some(1), 0);
    b.insert("c", Some(1), 0);
    assert!(b.contains("a", Some(1)));
    assert!(b.contains("b", Some(1)));
    assert!(!b.contains("c", Some(1)));
    b.clear_expired(3600 * S);
    b.insert("c", Some(1), 3600 * S);
    assert!(b.contains("c", Some(1)));
}

#[test]
fn token_is_kept_until_it_expires() {
    let mut t = TokenManager::new(600 * S);
    assert_eq!(t.token("1.2.3.4", "first", 0), "first");
    assert_eq!(t.token("1.2.3.4", "second", 600 * S - 1), "first");
    assert!(t.check("1.2.3.4", "first", 599 * S));
    assert!(!t.check("1.2.3.4", "second", 599 * S));
    assert!(!t.check("5.6.7.8", "first", 599 * S));
    assert!(!t.check("1.2.3.4", "first", 600 * S));
    assert_eq!(t.token("1.2.3.4", "third", 600 * S), "third");
    assert!(t.check("1.2.3.4", "third", 600 * S));
}

#[test]
fn expired_tokens_are_cleared() {
    let mut t = TokenManager::new(600 * S);
    t.token("1.2.3.4", "old", 0);
    t.token("5.6.7.8", "young", 500 * S);
    t.clear_expired(700 * S);
    assert!(!t.check("1.2.3.4", "old", 100 * S));
    assert!(t.check("5.6.7.8", "young", 700 * S));
}
