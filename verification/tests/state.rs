use tonnelle::pool::WarmPool;
use tonnelle::resolve::{first_ipv6, AddrCache, SocketAddress};

#[test]
fn pool_keeps_one_back() {
    let mut p: WarmPool<u32> = WarmPool::new();
    assert_eq!(p.take(), None);
    p.add_batch(vec![1]);
    assert_eq!(p.take(), None);
    assert_eq!(p.count(), 1);
    p.add_batch(vec![2, 3]);
    assert_eq!(p.count(), 3);
    assert_eq!(p.take(), Some(3));
    assert_eq!(p.take(), Some(2));
    assert_eq!(p.take(), None);
    assert_eq!(p.count(), 1);
}

fn v6(ip: u128, port: u16) -> SocketAddress {
    SocketAddress::V6 { ip, port, flowinfo: 0, scope_id: 0 }
}

#[test]
fn first_ipv6_skips_ipv4() {
    let c = vec![SocketAddress::V4 { ip: 0x7f00_0001, port: 80 }, v6(1, 80), v6(2, 80)];
    assert_eq!(first_ipv6(&c), Some(v6(1, 80)));
    assert_eq!(first_ipv6(&vec![SocketAddress::V4 { ip: 1, port: 1 }]), None);
    assert_eq!(first_ipv6(&vec![]), None);
}

#[test]
fn cache_remembers_resolution() {
    let mut cache = AddrCache::new();
    assert_eq!(cache.lookup("(\"example.com\", 80)"), None);
    let r = cache.record_resolution(
        "(\"example.com\", 80)".to_string(),
        &vec![SocketAddress::V4 { ip: 1, port: 80 }, v6(5, 80)],
    );
    assert_eq!(r, Ok(v6(5, 80)));
    assert_eq!(cache.lookup("(\"example.com\", 80)"), Some(v6(5, 80)));
    assert_eq!(cache.lookup("(\"example.org\", 80)"), None);
    let e = cache.record_resolution(
        "\"v4only.example:443\"".to_string(),
        &vec![SocketAddress::V4 { ip: 1, port: 443 }],
    );
    assert_eq!(e, Err("No IPv6 address found".to_string()));
    assert_eq!(cache.lookup("\"v4only.example:443\""), None);
}

#[test]
fn cached_destination_keeps_its_address() {
    let mut cache = AddrCache::new();
    let key = "(\"example.com\", 80)";
    assert_eq!(cache.record_resolution(key.to_string(), &vec![v6(9, 80)]), Ok(v6(9, 80)));
    assert_eq!(cache.record_resolution("other".to_string(), &vec![v6(10, 80)]), Ok(v6(10, 80)));
    assert_eq!(cache.lookup(key), Some(v6(9, 80)));
}
