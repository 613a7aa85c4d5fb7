use nanodhcp::config::parser::parse_config;
use nanodhcp::config::DhcpConfig;
use nanodhcp::dhcp::message::DhcpMessageType;
use nanodhcp::dhcp::options::{
    Options, OptionsWriter, OPT_LEASE_TIME, OPT_MSG_TYPE, OPT_REQUESTED_IP, OPT_SERVER_ID,
    OPT_SUBNET_MASK,
};
use nanodhcp::dhcp::packet::{
    magic_cookie_bytes, DhcpPacket, BOOTREQUEST, COOKIE_OFFSET, HLEN_ETHERNET, HTYPE_ETHERNET,
    MIN_LEN,
};
use nanodhcp::lease::model::{Lease, LeaseKind};
use nanodhcp::lease::store::LeaseStore;
use nanodhcp::server::daemon::{decide, purge_tick, ReplyDst, PURGE_INTERVAL_SECS};
use nanodhcp::util::ip::Ipv4Addr;
use nanodhcp::util::mac::MacAddr;

fn cfg(extra: &str) -> DhcpConfig {
    let mut text = String::from(
        "\
interface=eth0
server_ip=192.168.10.1
subnet=192.168.10.0/24
subnet_mask=255.255.255.0
pool_start=192.168.10.100
pool_end=192.168.10.102
router=192.168.10.1
lease_time=3600
lease_file=/tmp/nanodhcp-daemon-test
",
    );
    text.push_str(extra);
    parse_config(&text).unwrap()
}

fn store() -> LeaseStore {
    LeaseStore::new("/nonexistent/nanodhcp/daemon-test")
}

fn ip(s: &str) -> Ipv4Addr {
    s.parse().unwrap()
}

fn mac(s: &str) -> MacAddr {
    s.parse().unwrap()
}

fn mac_bytes(s: &str) -> [u8; 6] {
    let m = mac(s);
    let b = m.as_bytes();
    [b[0], b[1], b[2], b[3], b[4], b[5]]
}

fn lease(m: &str, addr: &str, expires: u64) -> Lease {
    Lease {
        mac: mac(m),
        ip: ip(addr),
        hostname: None,
        expires_at: expires,
        kind: LeaseKind::Dynamic,
    }
}

fn packet(mtype: DhcpMessageType, m: &str, ciaddr: Ipv4Addr, opts: &[(u8, Vec<u8>)]) -> DhcpPacket {
    let mut p = vec![0u8; MIN_LEN];
    p[0] = BOOTREQUEST;
    p[1] = HTYPE_ETHERNET;
    p[2] = HLEN_ETHERNET;
    p[4..8].copy_from_slice(&0x1234_5678u32.to_be_bytes());
    p[12..16].copy_from_slice(&ciaddr.octets());
    p[28..34].copy_from_slice(&mac_bytes(m));
    p[COOKIE_OFFSET..MIN_LEN].copy_from_slice(&magic_cookie_bytes());

    let mut w = OptionsWriter::new();
    w.push_u8(OPT_MSG_TYPE, mtype.to_u8());
    for (code, data) in opts {
        w.push(*code, data);
    }
    p.extend_from_slice(&w.finish());
    DhcpPacket::parse(&p).unwrap()
}

fn reply_summary(data: &[u8]) -> (DhcpMessageType, Ipv4Addr) {
    let yiaddr = Ipv4Addr::new(data[16], data[17], data[18], data[19]);
    let mt = Options::parse(&data[MIN_LEN..]).msg_type().unwrap();
    (mt, yiaddr)
}

fn server_id() -> (u8, Vec<u8>) {
    (OPT_SERVER_ID, ip("192.168.10.1").octets().to_vec())
}

fn requested(addr: &str) -> (u8, Vec<u8>) {
    (OPT_REQUESTED_IP, ip(addr).octets().to_vec())
}

#[test]
fn discover_offers_first_free_by_broadcast() {
    let c = cfg("");
    let mut s = store();
    let pkt = packet(DhcpMessageType::Discover, "aa:aa:aa:aa:aa:aa", Ipv4Addr::unspecified(), &[]);
    let d = decide(&c, &mut s, &pkt, 1000);
    let (data, dst) = d.reply.expect("offer");
    assert_eq!(dst, ReplyDst::Broadcast);
    assert_eq!(reply_summary(&data), (DhcpMessageType::Offer, ip("192.168.10.100")));
    assert!(!d.save_leases);
    assert!(s.get(&mac("aa:aa:aa:aa:aa:aa")).is_none());
}

#[test]
fn selecting_our_server_acks_and_persists() {
    let c = cfg("");
    let mut s = store();
    let pkt = packet(DhcpMessageType::Request, "bb:bb:bb:bb:bb:bb", Ipv4Addr::unspecified(), &[server_id()]);
    let d = decide(&c, &mut s, &pkt, 1000);
    let (data, dst) = d.reply.expect("ack");
    assert_eq!(dst, ReplyDst::Broadcast);
    assert_eq!(reply_summary(&data).0, DhcpMessageType::Ack);
    assert!(d.save_leases);
    let stored = s.get(&mac("bb:bb:bb:bb:bb:bb")).unwrap();
    assert_eq!(stored.ip, ip("192.168.10.100"));
    assert_eq!(stored.expires_at, 1000 + 3600);
}

#[test]
fn selecting_other_server_is_silent() {
    let c = cfg("");
    let mut s = store();
    let other = (OPT_SERVER_ID, ip("192.168.10.250").octets().to_vec());
    let pkt = packet(DhcpMessageType::Request, "bb:bb:bb:bb:bb:bb", Ipv4Addr::unspecified(), &[other]);
    let d = decide(&c, &mut s, &pkt, 1000);
    assert!(d.reply.is_none());
    assert!(!d.save_leases);
    assert_eq!(s.iter().count(), 0);
}

#[test]
fn init_reboot_unknown_is_silent() {
    let c = cfg("");
    let mut s = store();
    let pkt = packet(
        DhcpMessageType::Request,
        "cc:cc:cc:cc:cc:cc",
        Ipv4Addr::unspecified(),
        &[requested("192.168.10.100")],
    );
    let d = decide(&c, &mut s, &pkt, 1000);
    assert!(d.reply.is_none());
    assert!(!d.save_leases);
}

#[test]
fn init_reboot_known_acks() {
    let c = cfg("");
    let mut s = store();
    s.insert(lease("cc:cc:cc:cc:cc:cc", "192.168.10.101", 9999));
    let pkt = packet(
        DhcpMessageType::Request,
        "cc:cc:cc:cc:cc:cc",
        Ipv4Addr::unspecified(),
        &[requested("192.168.10.101")],
    );
    let d = decide(&c, &mut s, &pkt, 1000);
    let (data, dst) = d.reply.expect("ack");
    assert_eq!(dst, ReplyDst::Broadcast);
    assert_eq!(reply_summary(&data), (DhcpMessageType::Ack, ip("192.168.10.101")));
}

#[test]
fn renew_acks_by_unicast_to_ciaddr() {
    let c = cfg("");
    let mut s = store();
    s.insert(lease("dd:dd:dd:dd:dd:dd", "192.168.10.102", 9999));
    let pkt = packet(DhcpMessageType::Request, "dd:dd:dd:dd:dd:dd", ip("192.168.10.102"), &[]);
    let d = decide(&c, &mut s, &pkt, 1000);
    let (data, dst) = d.reply.expect("ack");
    assert_eq!(dst, ReplyDst::Unicast(ip("192.168.10.102")));
    assert_eq!(reply_summary(&data), (DhcpMessageType::Ack, ip("192.168.10.102")));
    assert!(d.save_leases);
}

#[test]
fn request_for_wrong_ip_naks() {
    let c = cfg("");
    let mut s = store();
    let pkt = packet(
        DhcpMessageType::Request,
        "bb:bb:bb:bb:bb:bb",
        Ipv4Addr::unspecified(),
        &[server_id(), requested("192.168.10.200")],
    );
    let d = decide(&c, &mut s, &pkt, 1000);
    let (data, dst) = d.reply.expect("nak");
    assert_eq!(dst, ReplyDst::Broadcast);
    assert_eq!(reply_summary(&data).0, DhcpMessageType::Nak);
    assert!(!d.save_leases);
}

#[test]
fn static_request_acks_without_persisting() {
    let c = cfg("static=nas,ee:ee:ee:ee:ee:ee,192.168.10.50\n");
    let mut s = store();
    let pkt = packet(DhcpMessageType::Request, "ee:ee:ee:ee:ee:ee", Ipv4Addr::unspecified(), &[server_id()]);
    let d = decide(&c, &mut s, &pkt, 1000);
    let (data, _dst) = d.reply.expect("ack");
    assert_eq!(reply_summary(&data), (DhcpMessageType::Ack, ip("192.168.10.50")));
    assert!(!d.save_leases);
    assert_eq!(s.iter().count(), 0);
}

#[test]
fn release_removes_lease_and_persists() {
    let c = cfg("");
    let mut s = store();
    s.insert(lease("bb:bb:bb:bb:bb:bb", "192.168.10.100", 9999));
    let pkt = packet(DhcpMessageType::Release, "bb:bb:bb:bb:bb:bb", ip("192.168.10.100"), &[]);
    let d = decide(&c, &mut s, &pkt, 1000);
    assert!(d.reply.is_none());
    assert!(d.save_leases);
    assert_eq!(s.iter().count(), 0);
}

#[test]
fn release_unknown_mac_does_not_persist() {
    let c = cfg("");
    let mut s = store();
    let pkt = packet(DhcpMessageType::Release, "bb:bb:bb:bb:bb:bb", Ipv4Addr::unspecified(), &[]);
    let d = decide(&c, &mut s, &pkt, 1000);
    assert!(d.reply.is_none());
    assert!(!d.save_leases);
}

#[test]
fn decline_quarantines_declined_ip_and_persists() {
    let c = cfg("");
    let mut s = store();
    s.insert(lease("bb:bb:bb:bb:bb:bb", "192.168.10.100", 9999));
    let pkt = packet(
        DhcpMessageType::Decline,
        "bb:bb:bb:bb:bb:bb",
        Ipv4Addr::unspecified(),
        &[requested("192.168.10.100")],
    );
    let d = decide(&c, &mut s, &pkt, 1000);
    assert!(d.reply.is_none());
    assert!(d.save_leases);
    assert_eq!(s.iter().count(), 0);
    assert!(s.is_quarantined(ip("192.168.10.100"), 1000));

    let disc = packet(DhcpMessageType::Discover, "99:99:99:99:99:99", Ipv4Addr::unspecified(), &[]);
    let d = decide(&c, &mut s, &disc, 1000);
    let (data, _) = d.reply.expect("offer");
    assert_eq!(reply_summary(&data).1, ip("192.168.10.101"));
}

#[test]
fn inform_acks_config_only_by_unicast() {
    let c = cfg("");
    let mut s = store();
    let pkt = packet(DhcpMessageType::Inform, "bb:bb:bb:bb:bb:bb", ip("192.168.10.150"), &[]);
    let d = decide(&c, &mut s, &pkt, 1000);
    let (data, dst) = d.reply.expect("inform ack");
    assert_eq!(dst, ReplyDst::Unicast(ip("192.168.10.150")));
    let (mt, yiaddr) = reply_summary(&data);
    assert_eq!(mt, DhcpMessageType::Ack);
    assert_eq!(yiaddr, Ipv4Addr::unspecified());
    let opts = Options::parse(&data[MIN_LEN..]);
    assert!(opts.get(OPT_LEASE_TIME).is_none());
    assert!(opts.get(OPT_SUBNET_MASK).is_some());
    assert!(!d.save_leases);
    assert_eq!(s.iter().count(), 0);
}

#[test]
fn pool_exhaustion_is_silent() {
    let c = cfg("");
    let mut s = store();
    s.insert(lease("11:11:11:11:11:11", "192.168.10.100", 9999));
    s.insert(lease("22:22:22:22:22:22", "192.168.10.101", 9999));
    s.insert(lease("33:33:33:33:33:33", "192.168.10.102", 9999));
    let pkt = packet(DhcpMessageType::Discover, "99:99:99:99:99:99", Ipv4Addr::unspecified(), &[]);
    let d = decide(&c, &mut s, &pkt, 1000);
    assert!(d.reply.is_none());
}

#[test]
fn unsupported_message_type_is_silent() {
    let c = cfg("");
    let mut s = store();
    let pkt = packet(DhcpMessageType::Offer, "bb:bb:bb:bb:bb:bb", Ipv4Addr::unspecified(), &[]);
    let d = decide(&c, &mut s, &pkt, 1000);
    assert!(d.reply.is_none());
    assert!(!d.save_leases);
}

#[test]
fn packet_without_message_type_is_silent() {
    let c = cfg("");
    let mut s = store();
    let mut p = vec![0u8; MIN_LEN];
    p[0] = BOOTREQUEST;
    p[1] = HTYPE_ETHERNET;
    p[2] = HLEN_ETHERNET;
    p[28..34].copy_from_slice(&mac_bytes("bb:bb:bb:bb:bb:bb"));
    p[COOKIE_OFFSET..MIN_LEN].copy_from_slice(&magic_cookie_bytes());
    let pkt = DhcpPacket::parse(&p).unwrap();
    let d = decide(&c, &mut s, &pkt, 1000);
    assert!(d.reply.is_none());
    assert!(!d.save_leases);
}

#[test]
fn relayed_packet_is_ignored() {
    let c = cfg("");
    let mut s = store();
    let mut pkt = packet(DhcpMessageType::Discover, "aa:aa:aa:aa:aa:aa", Ipv4Addr::unspecified(), &[]);
    pkt.giaddr = ip("192.168.10.254");
    let d = decide(&c, &mut s, &pkt, 1000);
    assert!(d.reply.is_none());
    assert!(!d.save_leases);
}

#[test]
fn inform_with_zero_ciaddr_is_ignored() {
    let c = cfg("");
    let mut s = store();
    let pkt = packet(DhcpMessageType::Inform, "bb:bb:bb:bb:bb:bb", Ipv4Addr::unspecified(), &[]);
    let d = decide(&c, &mut s, &pkt, 1000);
    assert!(d.reply.is_none());
    assert!(!d.save_leases);
}

#[test]
fn broadcast_flag_forces_broadcast_ack() {
    let c = cfg("");
    let mut s = store();
    s.insert(lease("dd:dd:dd:dd:dd:dd", "192.168.10.102", 9999));
    let mut pkt = packet(DhcpMessageType::Request, "dd:dd:dd:dd:dd:dd", ip("192.168.10.102"), &[]);
    pkt.flags = 0x8000;
    let d = decide(&c, &mut s, &pkt, 1000);
    let (_, dst) = d.reply.expect("ack");
    assert_eq!(dst, ReplyDst::Broadcast);
}

#[test]
fn decline_without_requested_ip_uses_held_lease() {
    let c = cfg("");
    let mut s = store();
    s.insert(lease("bb:bb:bb:bb:bb:bb", "192.168.10.101", 9999));
    let pkt = packet(DhcpMessageType::Decline, "bb:bb:bb:bb:bb:bb", Ipv4Addr::unspecified(), &[]);
    let d = decide(&c, &mut s, &pkt, 1000);
    assert!(d.reply.is_none());
    assert!(d.save_leases);
    assert!(s.is_quarantined(ip("192.168.10.101"), 1000));
    assert!(s.is_quarantined(ip("192.168.10.101"), 1000 + 3599));
    assert!(!s.is_quarantined(ip("192.168.10.101"), 1000 + 3600));
}

#[test]
fn ack_replaces_expired_leases_and_renews_expiry() {
    let c = cfg("");
    let mut s = store();
    s.insert(lease("dd:dd:dd:dd:dd:dd", "192.168.10.102", 1500));
    s.insert(lease("11:11:11:11:11:11", "192.168.10.100", 500));
    let pkt = packet(DhcpMessageType::Request, "dd:dd:dd:dd:dd:dd", ip("192.168.10.102"), &[]);
    let d = decide(&c, &mut s, &pkt, 1000);
    assert!(d.save_leases);
    assert_eq!(s.len(), 1);
    assert_eq!(s.get(&mac("dd:dd:dd:dd:dd:dd")).unwrap().expires_at, 4600);
}

#[test]
fn purge_tick_waits_for_its_time() {
    let mut s = store();
    s.insert(lease("aa:aa:aa:aa:aa:aa", "192.168.10.100", 100));
    s.quarantine(ip("192.168.10.101"), 200);
    let r = purge_tick(&mut s, 150, 300);
    assert_eq!(r, (0, 0, 300));
    assert_eq!(s.len(), 1);
    let r = purge_tick(&mut s, 300, 300);
    assert_eq!(r, (1, 1, 300 + PURGE_INTERVAL_SECS));
    assert_eq!(s.len(), 0);
    assert!(!s.is_quarantined(ip("192.168.10.101"), 150));
}

#[test]
fn repeat_request_gets_same_address() {
    let c = cfg("");
    let mut s = store();
    s.insert(lease("11:11:11:11:11:11", "192.168.10.100", 9999));
    let req = packet(DhcpMessageType::Request, "bb:bb:bb:bb:bb:bb", Ipv4Addr::unspecified(), &[server_id()]);
    let d = decide(&c, &mut s, &req, 1000);
    let (data, _) = d.reply.expect("ack");
    assert_eq!(reply_summary(&data), (DhcpMessageType::Ack, ip("192.168.10.101")));
    let again = packet(DhcpMessageType::Request, "bb:bb:bb:bb:bb:bb", ip("192.168.10.101"), &[]);
    let d = decide(&c, &mut s, &again, 2000);
    let (data, dst) = d.reply.expect("ack");
    assert_eq!(reply_summary(&data), (DhcpMessageType::Ack, ip("192.168.10.101")));
    assert_eq!(dst, ReplyDst::Unicast(ip("192.168.10.101")));
    assert_eq!(s.get(&mac("bb:bb:bb:bb:bb:bb")).unwrap().expires_at, 2000 + 3600);
}

#[test]
fn two_clients_never_share_an_address() {
    let c = cfg("");
    let mut s = store();
    let a = packet(DhcpMessageType::Request, "aa:aa:aa:aa:aa:aa", Ipv4Addr::unspecified(), &[server_id()]);
    let b = packet(DhcpMessageType::Request, "bb:bb:bb:bb:bb:bb", Ipv4Addr::unspecified(), &[server_id()]);
    decide(&c, &mut s, &a, 1000);
    decide(&c, &mut s, &b, 1000);
    let ia = s.get(&mac("aa:aa:aa:aa:aa:aa")).unwrap().ip;
    let ib = s.get(&mac("bb:bb:bb:bb:bb:bb")).unwrap().ip;
    assert_eq!(ia, ip("192.168.10.100"));
    assert_eq!(ib, ip("192.168.10.101"));
}

#[test]
fn committed_lease_survives_save_and_load() {
    let c = cfg("");
    let mut s = store();
    let host = (12u8, b"laptop".to_vec());
    let req = packet(DhcpMessageType::Request, "aa:aa:aa:aa:aa:aa", Ipv4Addr::unspecified(), &[server_id(), host]);
    let d = decide(&c, &mut s, &req, 1000);
    assert!(d.save_leases);
    let text = s.file_contents();
    assert_eq!(text, "aa:aa:aa:aa:aa:aa 192.168.10.100 laptop 4600\n");
    let mut back = store();
    let bad = back.load_text(&text);
    assert!(bad.is_empty());
    let l = back.get(&mac("aa:aa:aa:aa:aa:aa")).unwrap();
    assert_eq!(l.ip, ip("192.168.10.100"));
    assert_eq!(l.hostname.as_deref(), Some("laptop"));
    assert_eq!(l.expires_at, 4600);
}
