use std::time::Duration;

use peer_addresses::address::NetAddress;
use peer_addresses::record::{MultiaddrWithStats, PeerAddressSource};
use peer_addresses::registry::MultiaddressesWithStats;

fn addr(text: &str) -> NetAddress {
    NetAddress::parse(text).unwrap()
}

fn nanos(d: Duration) -> u64 {
    d.as_nanos() as u64
}

#[test]
fn test_index_impl() {
    let net_address1 = addr("/ip4/123.0.0.123/tcp/8000");
    let net_address2 = addr("/ip4/125.1.54.254/tcp/7999");
    let net_address3 = addr("/ip4/175.6.3.145/tcp/8000");
    let net_addresses = MultiaddressesWithStats::from_addresses_with_source(
        vec![net_address1.clone(), net_address2.clone(), net_address3.clone()],
        &PeerAddressSource::Config,
    );

    assert_eq!(net_addresses.index(0).address(), &net_address1);
    assert_eq!(net_addresses.index(1).address(), &net_address2);
    assert_eq!(net_addresses.index(2).address(), &net_address3);
}

#[test]
fn test_last_seen() {
    let net_address1 = addr("/ip4/123.0.0.123/tcp/8000");
    let net_address2 = addr("/ip4/125.1.54.254/tcp/7999");
    let net_address3 = addr("/ip4/175.6.3.145/tcp/8000");
    let mut net_addresses =
        MultiaddressesWithStats::from_addresses_with_source(vec![net_address1.clone()], &PeerAddressSource::Config);
    net_addresses.add_address(&net_address2, &PeerAddressSource::Config);
    net_addresses.add_address(&net_address3, &PeerAddressSource::Config);

    assert!(net_addresses.mark_last_seen_now(&net_address3));
    assert!(net_addresses.mark_last_seen_now(&net_address1));
    assert!(net_addresses.mark_last_seen_now(&net_address2));
    let desired_last_seen = net_addresses
        .addresses()
        .iter()
        .max_by_key(|a| a.last_seen())
        .map(|a| a.last_seen().unwrap());
    let last_seen = net_addresses.last_seen();
    assert_eq!(desired_last_seen.unwrap(), last_seen.unwrap());
}

#[test]
fn test_add_net_address() {
    let net_address1 = addr("/ip4/123.0.0.123/tcp/8000");
    let net_address2 = addr("/ip4/125.1.54.254/tcp/7999");
    let net_address3 = addr("/ip4/175.6.3.145/tcp/8000");
    let mut net_addresses =
        MultiaddressesWithStats::from_addresses_with_source(vec![net_address1.clone()], &PeerAddressSource::Config);
    net_addresses.add_address(&net_address2, &PeerAddressSource::Config);
    net_addresses.add_address(&net_address3, &PeerAddressSource::Config);
    // Add duplicate address, test add_net_address is idempotent
    net_addresses.add_address(&net_address2, &PeerAddressSource::Config);
    assert_eq!(net_addresses.addresses().len(), 3);
    assert_eq!(net_addresses.addresses()[0].address(), &net_address1);
    assert_eq!(net_addresses.addresses()[1].address(), &net_address2);
    assert_eq!(net_addresses.addresses()[2].address(), &net_address3);
}

#[test]
fn test_get_net_address() {
    let net_address1 = addr("/ip4/123.0.0.123/tcp/8000");
    let net_address2 = addr("/ip4/125.1.54.254/tcp/7999");
    let net_address3 = addr("/ip4/175.6.3.145/tcp/8000");
    let mut net_addresses =
        MultiaddressesWithStats::from_addresses_with_source(vec![net_address1.clone()], &PeerAddressSource::Config);
    net_addresses.add_address(&net_address2, &PeerAddressSource::Config);
    net_addresses.add_address(&net_address3, &PeerAddressSource::Config);

    let priority_address = net_addresses.iter().into_iter().next().unwrap();
    assert_eq!(priority_address, net_address1);

    net_addresses.mark_last_seen_now(&net_address1);
    net_addresses.mark_last_seen_now(&net_address2);
    net_addresses.mark_last_seen_now(&net_address3);
    assert!(net_addresses.update_latency(&net_address1, nanos(Duration::from_millis(250))));
    assert!(net_addresses.update_latency(&net_address2, nanos(Duration::from_millis(50))));
    assert!(net_addresses.update_latency(&net_address3, nanos(Duration::from_millis(100))));
    let priority_address = net_addresses.iter().into_iter().next().unwrap();
    assert_eq!(priority_address, net_address2);

    assert!(net_addresses.mark_failed_connection_attempt(&net_address2, "error".to_string()));
    let priority_address = net_addresses.iter().into_iter().next().unwrap();
    assert_eq!(priority_address, net_address3);
}

#[test]
fn test_resetting_all_connection_attempts() {
    let net_address1 = addr("/ip4/123.0.0.123/tcp/8000");
    let net_address2 = addr("/ip4/125.1.54.254/tcp/7999");
    let net_address3 = addr("/ip4/175.6.3.145/tcp/8000");
    let addresses: Vec<MultiaddrWithStats> = vec![
        MultiaddrWithStats::new(net_address1.clone(), PeerAddressSource::Config),
        MultiaddrWithStats::new(net_address2.clone(), PeerAddressSource::Config),
        MultiaddrWithStats::new(net_address3.clone(), PeerAddressSource::Config),
    ];
    let mut net_addresses = MultiaddressesWithStats::new(addresses);
    assert!(net_addresses.mark_failed_connection_attempt(&net_address1, "error".to_string()));
    assert!(net_addresses.mark_failed_connection_attempt(&net_address2, "error".to_string()));
    assert!(net_addresses.mark_failed_connection_attempt(&net_address3, "error".to_string()));
    assert!(net_addresses.mark_failed_connection_attempt(&net_address1, "error".to_string()));

    assert_eq!(net_addresses.addresses()[0].connection_attempts(), 1);
    assert_eq!(net_addresses.addresses()[1].connection_attempts(), 1);
    assert_eq!(net_addresses.addresses()[2].connection_attempts(), 2);
    net_addresses.reset_connection_attempts();
    assert_eq!(net_addresses.addresses()[0].connection_attempts(), 0);
    assert_eq!(net_addresses.addresses()[1].connection_attempts(), 0);
    assert_eq!(net_addresses.addresses()[2].connection_attempts(), 0);
}
