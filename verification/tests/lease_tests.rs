use nanodhcp::config::parser::parse_config;
use nanodhcp::config::DhcpConfig;
use nanodhcp::lease::allocator::assign_ip;
use nanodhcp::lease::model::{Lease, LeaseKind};
use nanodhcp::lease::store::{parse_line, LeaseStore};
use nanodhcp::util::ip::Ipv4Addr;
use nanodhcp::util::mac::MacAddr;

fn cfg(extra: &str) -> DhcpConfig {
    let mut text = String::from(
        "\
interface=eth0
server_ip=192.168.10.1
subnet=192.168.10.0/24
subnet_mask=255.255.255.0
pool_start=192.168.10.100
pool_end=192.168.10.102
router=192.168.10.1
lease_time=86400
lease_file=/tmp/nanodhcp-test-leases
",
    );
    text.push_str(extra);
    parse_config(&text).unwrap()
}

fn mac(s: &str) -> MacAddr {
    s.parse().unwrap()
}

fn empty_store() -> LeaseStore {
    LeaseStore::new("/nonexistent/nanodhcp/alloc-test")
}

fn lease(m: &str, ip: &str, expires: u64) -> Lease {
    Lease {
        mac: mac(m),
        ip: ip.parse().unwrap(),
        hostname: None,
        expires_at: expires,
        kind: LeaseKind::Dynamic,
    }
}

#[test]
fn static_binding_wins() {
    let c = cfg("static=nas,aa:aa:aa:aa:aa:aa,192.168.10.10\n");
    let store = empty_store();
    let ip = assign_ip(&c, &store, mac("aa:aa:aa:aa:aa:aa"), 1000).unwrap();
    assert_eq!(ip, "192.168.10.10".parse::<Ipv4Addr>().unwrap());
}

#[test]
fn first_free_from_pool() {
    let c = cfg("");
    let store = empty_store();
    let ip = assign_ip(&c, &store, mac("bb:bb:bb:bb:bb:bb"), 1000).unwrap();
    assert_eq!(ip, "192.168.10.100".parse::<Ipv4Addr>().unwrap());
}

#[test]
fn reuse_existing_lease() {
    let c = cfg("");
    let mut store = empty_store();
    store.insert(lease("bb:bb:bb:bb:bb:bb", "192.168.10.101", 2000));
    let ip = assign_ip(&c, &store, mac("bb:bb:bb:bb:bb:bb"), 1000).unwrap();
    assert_eq!(ip, "192.168.10.101".parse::<Ipv4Addr>().unwrap());
}

#[test]
fn skip_ip_taken_by_other_active_lease() {
    let c = cfg("");
    let mut store = empty_store();
    store.insert(lease("cc:cc:cc:cc:cc:cc", "192.168.10.100", 5000));
    let ip = assign_ip(&c, &store, mac("bb:bb:bb:bb:bb:bb"), 1000).unwrap();
    assert_eq!(ip, "192.168.10.101".parse::<Ipv4Addr>().unwrap());
}

#[test]
fn expired_other_lease_is_reclaimable() {
    let c = cfg("");
    let mut store = empty_store();
    store.insert(lease("cc:cc:cc:cc:cc:cc", "192.168.10.100", 500));
    let ip = assign_ip(&c, &store, mac("bb:bb:bb:bb:bb:bb"), 1000).unwrap();
    assert_eq!(ip, "192.168.10.100".parse::<Ipv4Addr>().unwrap());
}

#[test]
fn static_ip_excluded_from_pool() {
    let c = cfg("static=nas,dd:dd:dd:dd:dd:dd,192.168.10.100\n");
    let store = empty_store();
    let ip = assign_ip(&c, &store, mac("bb:bb:bb:bb:bb:bb"), 1000).unwrap();
    assert_eq!(ip, "192.168.10.101".parse::<Ipv4Addr>().unwrap());
}

#[test]
fn pool_exhaustion_returns_none() {
    let c = cfg("");
    let mut store = empty_store();
    store.insert(lease("11:11:11:11:11:11", "192.168.10.100", 5000));
    store.insert(lease("22:22:22:22:22:22", "192.168.10.101", 5000));
    store.insert(lease("33:33:33:33:33:33", "192.168.10.102", 5000));
    assert!(assign_ip(&c, &store, mac("bb:bb:bb:bb:bb:bb"), 1000).is_none());
}

#[test]
fn quarantined_address_is_skipped_until_it_ends() {
    let c = cfg("");
    let mut store = empty_store();
    store.quarantine("192.168.10.100".parse().unwrap(), 2000);
    assert!(store.is_quarantined("192.168.10.100".parse().unwrap(), 1999));
    assert!(!store.is_quarantined("192.168.10.100".parse().unwrap(), 2000));
    let ip = assign_ip(&c, &store, mac("bb:bb:bb:bb:bb:bb"), 1000).unwrap();
    assert_eq!(ip, Ipv4Addr::new(192, 168, 10, 101));
    let ip = assign_ip(&c, &store, mac("bb:bb:bb:bb:bb:bb"), 2000).unwrap();
    assert_eq!(ip, Ipv4Addr::new(192, 168, 10, 100));
    assert_eq!(store.purge_quarantine(2000), 1);
    assert!(!store.is_quarantined("192.168.10.100".parse().unwrap(), 0));
}

#[test]
fn parse_valid_line() {
    let l = parse_line("aa:bb:cc:dd:ee:ff 192.168.10.101 laptop 1780000000").unwrap();
    assert_eq!(l.ip, "192.168.10.101".parse::<Ipv4Addr>().unwrap());
    assert_eq!(l.hostname.as_deref(), Some("laptop"));
    assert_eq!(l.expires_at, 1780000000);
}

#[test]
fn parse_dash_hostname() {
    let l = parse_line("aa:bb:cc:dd:ee:ff 192.168.10.101 - 1780000000").unwrap();
    assert_eq!(l.hostname, None);
}

#[test]
fn reject_malformed() {
    assert!(parse_line("garbage").is_none());
    assert!(parse_line("aa:bb:cc:dd:ee:ff notanip host 123").is_none());
    assert!(parse_line("aa:bb:cc:dd:ee:ff 1.2.3.4 host notanumber").is_none());
}

#[test]
fn purge_expired_drops_only_stale() {
    let mut store = LeaseStore::new("/nonexistent/nanodhcp/purge-test");
    let stale: MacAddr = "aa:aa:aa:aa:aa:aa".parse().unwrap();
    let live: MacAddr = "bb:bb:bb:bb:bb:bb".parse().unwrap();
    store.insert(parse_line("aa:aa:aa:aa:aa:aa 192.168.10.10 - 100").unwrap());
    store.insert(parse_line("bb:bb:bb:bb:bb:bb 192.168.10.11 - 5000").unwrap());

    assert_eq!(store.purge_expired(1000), 1);
    assert!(store.get(&stale).is_none());
    assert!(store.get(&live).is_some());
    assert_eq!(store.purge_expired(5000), 1);
    assert_eq!(store.iter().count(), 0);
}

#[test]
fn insert_replaces_and_remove_returns() {
    let mut store = LeaseStore::new("x");
    store.insert(lease("aa:aa:aa:aa:aa:aa", "192.168.10.5", 10));
    store.insert(lease("aa:aa:aa:aa:aa:aa", "192.168.10.6", 20));
    assert_eq!(store.len(), 1);
    assert_eq!(store.get(&mac("aa:aa:aa:aa:aa:aa")).unwrap().ip, Ipv4Addr::new(192, 168, 10, 6));
    let removed = store.remove(&mac("aa:aa:aa:aa:aa:aa")).unwrap();
    assert_eq!(removed.expires_at, 20);
    assert!(store.remove(&mac("aa:aa:aa:aa:aa:aa")).is_none());
    assert_eq!(store.len(), 0);
    assert_eq!(store.path(), "x");
}

#[test]
fn file_contents_are_sorted_lines() {
    let mut store = LeaseStore::new("x");
    let mut l = lease("11:22:33:44:55:66", "192.168.10.102", 1780000000);
    l.hostname = Some("printer".to_string());
    store.insert(l);
    store.insert(lease("aa:bb:cc:dd:ee:ff", "192.168.10.101", 1780000001));
    assert_eq!(
        store.file_contents(),
        "aa:bb:cc:dd:ee:ff 192.168.10.101 - 1780000001\n11:22:33:44:55:66 192.168.10.102 printer 1780000000\n"
    );
    let sorted = store.sorted();
    assert_eq!(sorted[0].ip, Ipv4Addr::new(192, 168, 10, 101));
    assert_eq!(sorted[0].hostname_str(), "-");
    assert_eq!(sorted[1].hostname_str(), "printer");
}

#[test]
fn load_text_skips_comments_and_reports_malformed() {
    let mut store = LeaseStore::new("x");
    let text = "# leases\n\naa:bb:cc:dd:ee:ff 192.168.10.101 laptop 1780000000\nbroken line\n  11:22:33:44:55:66 192.168.10.102 - 5  \n";
    let bad = store.load_text(text);
    assert_eq!(bad, vec![(4usize, "broken line".to_string())]);
    assert_eq!(store.len(), 2);
    assert_eq!(store.get(&mac("11:22:33:44:55:66")).unwrap().expires_at, 5);
}

#[test]
fn saved_text_loads_back() {
    let mut store = LeaseStore::new("x");
    let mut l = lease("aa:bb:cc:dd:ee:ff", "192.168.10.101", 1780000000);
    l.hostname = Some("laptop".to_string());
    store.insert(l);
    store.insert(lease("11:22:33:44:55:66", "192.168.10.102", 42));
    let text = store.file_contents();
    let mut again = LeaseStore::new("x");
    assert!(again.load_text(&text).is_empty());
    assert_eq!(again.file_contents(), text);
}

#[test]
fn kind_labels() {
    assert_eq!(LeaseKind::Dynamic.label(), "dynamic");
    assert_eq!(LeaseKind::Static.label(), "static");
}

#[test]
fn dash_hostname_does_not_survive_the_file() {
    let mut store = LeaseStore::new("x");
    let mut l = lease("aa:bb:cc:dd:ee:ff", "192.168.10.101", 7);
    l.hostname = Some("-".to_string());
    store.insert(l);
    let text = store.file_contents();
    assert_eq!(text, "aa:bb:cc:dd:ee:ff 192.168.10.101 - 7\n");
    let mut again = LeaseStore::new("x");
    assert!(again.load_text(&text).is_empty());
    assert_eq!(again.get(&mac("aa:bb:cc:dd:ee:ff")).unwrap().hostname, None);
}

#[test]
fn allocation_stays_inside_a_valid_subnet() {
    let c = cfg("static=nas,aa:aa:aa:aa:aa:aa,192.168.10.10\n");
    assert!(nanodhcp::config::validate::validate(&c).is_ok());
    let s = empty_store();
    let subnet = c.subnet;
    for m in ["aa:aa:aa:aa:aa:aa", "bb:bb:bb:bb:bb:bb"] {
        let ip = assign_ip(&c, &s, mac(m), 1000).unwrap();
        assert!(subnet.contains(ip));
        assert!(ip != subnet.network() && ip != subnet.broadcast());
    }
}

#[test]
fn static_kind_lease_loads_back_as_dynamic() {
    let mut store = LeaseStore::new("x");
    let mut l = lease("aa:bb:cc:dd:ee:ff", "192.168.10.101", 9);
    l.kind = LeaseKind::Static;
    l.hostname = Some("nas".to_string());
    store.insert(l);
    let text = store.file_contents();
    let mut again = LeaseStore::new("x");
    assert!(again.load_text(&text).is_empty());
    let back = again.get(&mac("aa:bb:cc:dd:ee:ff")).unwrap();
    assert_eq!(back.kind, LeaseKind::Dynamic);
    assert_eq!(back.ip, "192.168.10.101".parse().unwrap());
    assert_eq!(back.hostname.as_deref(), Some("nas"));
    assert_eq!(back.expires_at, 9);
}
