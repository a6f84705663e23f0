use peer_addresses::address::NetAddress;
use peer_addresses::record::{MultiaddrWithStats, PeerAddressSource};
use peer_addresses::registry::MultiaddressesWithStats;

fn addr(text: &str) -> NetAddress {
    NetAddress::parse(text).unwrap()
}

fn three() -> (NetAddress, NetAddress, NetAddress) {
    (
        addr("/ip4/123.0.0.123/tcp/8000"),
        addr("/ip4/125.1.54.254/tcp/7999"),
        addr("/ip4/175.6.3.145/tcp/8000"),
    )
}

fn registry_of(addrs: &[NetAddress]) -> MultiaddressesWithStats {
    MultiaddressesWithStats::from_addresses_with_source(addrs.to_vec(), &PeerAddressSource::Config)
}

fn best_address(r: &MultiaddressesWithStats) -> NetAddress {
    r.best().unwrap().address().clone()
}

#[test]
fn parse_gives_binary_encoding() {
    let a = addr("/ip4/1.2.3.4/tcp/80");
    // code 4 (ip4), four bytes, code 6 (tcp), two bytes of port
    assert_eq!(a.as_bytes(), &[4u8, 1, 2, 3, 4, 6, 0, 80][..]);
}

#[test]
fn parse_rejects_invalid_text() {
    assert!(NetAddress::parse("not an address").is_none());
    assert!(NetAddress::parse("/ip4/999.1.1.1/tcp/1").is_none());
}

#[test]
fn adding_twice_keeps_one_record() {
    let (a, b, _) = three();
    let mut r = registry_of(&[a.clone()]);
    r.add_address(&b, &PeerAddressSource::FromDiscovery);
    assert_eq!(r.len(), 2);
    r.add_address(&b, &PeerAddressSource::FromAnotherPeer);
    r.add_address(&b, &PeerAddressSource::FromDiscovery);
    assert_eq!(r.len(), 2);
    assert!(r.contains(&b));
}

#[test]
fn duplicate_addresses_in_constructor_collapse() {
    let (a, b, _) = three();
    let r = registry_of(&[a.clone(), b.clone(), a.clone()]);
    assert_eq!(r.len(), 2);
    assert_eq!(r.index(0).address(), &a);
    assert_eq!(r.index(1).address(), &b);
}

#[test]
fn source_is_only_upgraded() {
    let (a, _, _) = three();
    let mut r = MultiaddressesWithStats::from_addresses_with_source(vec![a.clone()], &PeerAddressSource::FromDiscovery);
    r.add_address(&a, &PeerAddressSource::FromAnotherPeer);
    assert_eq!(r.index(0).source(), PeerAddressSource::FromDiscovery);
    r.add_address(&a, &PeerAddressSource::Config);
    assert_eq!(r.index(0).source(), PeerAddressSource::Config);
    r.add_address(&a, &PeerAddressSource::FromPeerConnection);
    assert_eq!(r.index(0).source(), PeerAddressSource::Config);
}

#[test]
fn priority_scenario() {
    let (a, b, c) = three();
    let mut r = MultiaddressesWithStats::empty();
    r.add_address(&a, &PeerAddressSource::Config);
    r.add_address(&b, &PeerAddressSource::Config);
    r.add_address(&c, &PeerAddressSource::Config);
    assert_eq!(best_address(&r), a);
    assert!(r.mark_last_seen_at(&a, 10));
    assert!(r.mark_last_seen_at(&b, 11));
    assert!(r.mark_last_seen_at(&c, 12));
    assert!(r.update_latency(&a, 250_000_000));
    assert!(r.update_latency(&b, 50_000_000));
    assert!(r.update_latency(&c, 100_000_000));
    assert_eq!(best_address(&r), b);
    assert!(r.mark_failed_connection_attempt_at(&b, "refused".to_string(), 20));
    assert_eq!(best_address(&r), c);
    r.reset_connection_attempts();
    assert_eq!(best_address(&r), b);
    assert_eq!(r.iter(), vec![b.clone(), c.clone(), a.clone()]);
}

#[test]
fn failing_records_sort_after_reachable_ones() {
    let (a, b, c) = three();
    let mut r = registry_of(&[a.clone(), b.clone(), c.clone()]);
    assert!(r.update_latency(&a, 5));
    assert!(r.mark_failed_connection_attempt_at(&a, "x".to_string(), 1));
    assert!(r.update_latency(&c, 7));
    assert_eq!(r.iter(), vec![c.clone(), b.clone(), a.clone()]);
    for i in 0..r.len() - 1 {
        let x = r.index(i);
        let y = r.index(i + 1);
        assert!(x.ranks_no_worse_than(y));
        assert_ne!(x.compare(y), std::cmp::Ordering::Greater);
    }
}

#[test]
fn unknown_address_is_a_no_op() {
    let (a, b, c) = three();
    let mut r = registry_of(&[a.clone(), b.clone()]);
    let before = r.clone();
    assert!(!r.update_latency(&c, 3));
    assert!(!r.mark_last_seen_at(&c, 3));
    assert!(!r.mark_failed_connection_attempt_at(&c, "e".to_string(), 3));
    assert!(!r.mark_last_seen_now(&c));
    assert!(!r.mark_failed_connection_attempt(&c, "e".to_string()));
    assert!(r == before);
}

#[test]
fn latency_is_a_running_mean() {
    let (a, _, _) = three();
    let mut rec = MultiaddrWithStats::new(a, PeerAddressSource::Config);
    assert_eq!(rec.avg_latency(), None);
    rec.update_latency(100);
    assert_eq!(rec.avg_latency(), Some(100));
    rec.update_latency(200);
    assert_eq!(rec.avg_latency(), Some(150));
    rec.update_latency(0);
    assert_eq!(rec.avg_latency(), Some(100));
    assert_eq!(rec.latency_samples(), 3);
    rec.update_latency(u64::MAX);
    assert_eq!(rec.avg_latency(), Some(4611686018427387978));
    assert_eq!(rec.latency_samples(), 4);
}

#[test]
fn offline_at_needs_every_record_failing() {
    let (a, b, _) = three();
    let empty = MultiaddressesWithStats::empty();
    assert_eq!(empty.offline_at(), None);
    let mut r = registry_of(&[a.clone(), b.clone()]);
    assert_eq!(r.offline_at(), None);
    assert!(r.mark_failed_connection_attempt_at(&a, "e".to_string(), 100));
    assert_eq!(r.offline_at(), None);
    assert!(r.mark_failed_connection_attempt_at(&b, "e".to_string(), 50));
    assert_eq!(r.offline_at(), Some(50));
    // a later failure does not move the start of the streak
    assert!(r.mark_failed_connection_attempt_at(&b, "e".to_string(), 500));
    assert_eq!(r.offline_at(), Some(50));
    assert!(r.mark_last_seen_at(&b, 600));
    assert_eq!(r.offline_at(), None);
}

#[test]
fn record_offline_streak() {
    let (a, _, _) = three();
    let mut rec = MultiaddrWithStats::new(a, PeerAddressSource::Config);
    assert_eq!(rec.offline_at(), None);
    rec.mark_failed_connection_attempt_at("down".to_string(), 7);
    rec.mark_failed_connection_attempt_at("still down".to_string(), 9);
    assert_eq!(rec.connection_attempts(), 2);
    assert_eq!(rec.offline_at(), Some(7));
    assert_eq!(rec.last_attempted(), Some(9));
    assert_eq!(rec.last_failed_reason(), Some(&"still down".to_string()));
    rec.mark_last_seen_at(11);
    assert_eq!(rec.connection_attempts(), 0);
    assert_eq!(rec.offline_at(), None);
    assert_eq!(rec.last_seen(), Some(11));
    assert_eq!(rec.last_attempted(), Some(11));
}

#[test]
fn reset_keeps_history() {
    let (a, b, _) = three();
    let mut r = registry_of(&[a.clone(), b.clone()]);
    assert!(r.mark_last_seen_at(&a, 5));
    assert!(r.update_latency(&a, 40));
    assert!(r.mark_failed_connection_attempt_at(&a, "e".to_string(), 8));
    assert!(r.mark_failed_connection_attempt_at(&b, "e".to_string(), 9));
    r.reset_connection_attempts();
    for rec in r.addresses() {
        assert_eq!(rec.connection_attempts(), 0);
        assert_eq!(rec.offline_at(), None);
    }
    let ra = r.addresses().iter().find(|x| x.address() == &a).unwrap();
    assert_eq!(ra.last_seen(), Some(5));
    assert_eq!(ra.last_attempted(), Some(8));
    assert_eq!(ra.avg_latency(), Some(40));
    assert_eq!(r.last_attempted(), Some(9));
    assert_eq!(r.last_seen(), Some(5));
}

#[test]
fn merge_with_self_changes_nothing() {
    let (a, b, c) = three();
    let mut r = registry_of(&[a.clone(), b.clone(), c.clone()]);
    assert!(r.update_latency(&b, 9));
    assert!(r.mark_failed_connection_attempt_at(&c, "e".to_string(), 4));
    let copy = r.clone();
    r.merge(&copy);
    assert!(r == copy);
}

#[test]
fn merge_disjoint_is_union() {
    let (a, b, c) = three();
    let mut left = registry_of(&[a.clone()]);
    assert!(left.update_latency(&a, 30));
    let mut right = registry_of(&[b.clone(), c.clone()]);
    assert!(right.update_latency(&c, 10));
    left.merge(&right);
    assert_eq!(left.iter(), vec![c.clone(), a.clone(), b.clone()]);
    assert_eq!(left.addresses()[0].avg_latency(), Some(10));
    assert_eq!(left.addresses()[1].avg_latency(), Some(30));
    assert_eq!(left.addresses()[2].avg_latency(), None);
}

#[test]
fn merge_combines_statistics() {
    let (a, _, _) = three();
    let mut mine = MultiaddrWithStats::new(a.clone(), PeerAddressSource::FromAnotherPeer);
    mine.mark_failed_connection_attempt_at("e".to_string(), 3);
    mine.update_latency(100);
    let mut theirs = MultiaddrWithStats::new(a.clone(), PeerAddressSource::Config);
    theirs.mark_last_seen_at(20);
    theirs.update_latency(10);
    theirs.update_latency(20);
    mine.merge(&theirs);
    assert_eq!(mine.source(), PeerAddressSource::Config);
    assert_eq!(mine.connection_attempts(), 0);
    assert_eq!(mine.last_seen(), Some(20));
    assert_eq!(mine.last_attempted(), Some(20));
    assert_eq!(mine.avg_latency(), Some(15));
    assert_eq!(mine.latency_samples(), 2);
}

#[test]
fn update_addresses_keeps_unannounced_records() {
    let (a, b, c) = three();
    let mut r = registry_of(&[a.clone(), b.clone()]);
    assert!(r.update_latency(&b, 12));
    r.update_addresses(&[b.clone(), c.clone()], &PeerAddressSource::FromDiscovery);
    assert_eq!(r.len(), 3);
    assert_eq!(r.iter(), vec![b.clone(), a.clone(), c.clone()]);
    assert_eq!(r.index(0).avg_latency(), Some(12));
    assert_eq!(r.index(2).source(), PeerAddressSource::FromDiscovery);
}

#[test]
fn lexicographic_order_ignores_priority() {
    let (a, b, c) = three();
    let mut r = registry_of(&[c.clone(), a.clone(), b.clone()]);
    assert!(r.update_latency(&c, 1));
    let sorted = r.to_lexicographically_sorted();
    assert_eq!(sorted, vec![a.clone(), b.clone(), c.clone()]);
    let short = NetAddress::from_bytes(vec![4, 1]);
    let long = NetAddress::from_bytes(vec![4, 1, 0]);
    let r2 = MultiaddressesWithStats::new(vec![
        MultiaddrWithStats::new(long.clone(), PeerAddressSource::Config),
        MultiaddrWithStats::new(short.clone(), PeerAddressSource::Config),
    ]);
    assert_eq!(r2.to_lexicographically_sorted(), vec![short, long]);
}

#[test]
fn new_merges_records_of_one_address() {
    let (a, b, _) = three();
    let mut first = MultiaddrWithStats::new(a.clone(), PeerAddressSource::FromDiscovery);
    first.update_latency(70);
    let second = MultiaddrWithStats::new(a.clone(), PeerAddressSource::Config);
    let other = MultiaddrWithStats::new(b.clone(), PeerAddressSource::Config);
    let r = MultiaddressesWithStats::new(vec![first, other, second]);
    assert_eq!(r.len(), 2);
    assert_eq!(r.index(0).address(), &a);
    assert_eq!(r.index(0).source(), PeerAddressSource::Config);
    assert_eq!(r.index(0).avg_latency(), Some(70));
    assert_eq!(r.into_vec(), vec![a, b]);
}

#[test]
fn empty_registry_queries() {
    let r = MultiaddressesWithStats::default();
    assert!(r.is_empty());
    assert_eq!(r.len(), 0);
    assert!(r.best().is_none());
    assert_eq!(r.last_seen(), None);
    assert_eq!(r.last_attempted(), None);
    assert!(r.iter().is_empty());
}

#[test]
fn record_from_parts_checks_consistency() {
    let (a, _, _) = three();
    let ok = MultiaddrWithStats::from_parts(a.clone(), PeerAddressSource::Config, Some(1), Some(2), 3, Some(2), Some(9), 1, Some("e".to_string()));
    let rec = ok.unwrap();
    assert_eq!(rec.connection_attempts(), 3);
    assert_eq!(rec.offline_at(), Some(2));
    assert!(MultiaddrWithStats::from_parts(a.clone(), PeerAddressSource::Config, None, None, 1, None, None, 0, None).is_none());
    assert!(MultiaddrWithStats::from_parts(a.clone(), PeerAddressSource::Config, None, None, 0, None, Some(4), 0, None).is_none());
    assert!(MultiaddrWithStats::from_parts(a, PeerAddressSource::Config, None, None, 0, None, None, 2, None).is_none());
}
