use nanodhcp::config::parser::parse_config;
use nanodhcp::config::DhcpConfig;
use nanodhcp::dhcp::builder::{build_ack, build_inform_ack, build_nak, build_offer};
use nanodhcp::dhcp::message::DhcpMessageType;
use nanodhcp::dhcp::options::{
    Options, OptionsWriter, OPT_DNS, OPT_END, OPT_HOSTNAME, OPT_LEASE_TIME, OPT_MSG_TYPE, OPT_PAD,
    OPT_PARAM_REQUEST_LIST, OPT_REQUESTED_IP, OPT_ROUTER, OPT_SERVER_ID, OPT_SUBNET_MASK,
};
use nanodhcp::dhcp::packet::{
    magic_cookie_bytes, DhcpPacket, BOOTREPLY, BOOTREQUEST, COOKIE_OFFSET, HLEN_ETHERNET,
    HTYPE_ETHERNET, MIN_LEN,
};
use nanodhcp::util::ip::Ipv4Addr;

#[test]
fn roundtrip() {
    for v in 1..=8u8 {
        let t = DhcpMessageType::from_u8(v).unwrap();
        assert_eq!(t.to_u8(), v);
    }
}

#[test]
fn unknown_is_none() {
    assert!(DhcpMessageType::from_u8(0).is_none());
    assert!(DhcpMessageType::from_u8(99).is_none());
}

#[test]
fn parse_basic() {
    let buf = [OPT_MSG_TYPE, 1, 1, OPT_REQUESTED_IP, 4, 1, 2, 3, 4, OPT_END];
    let opts = Options::parse(&buf);
    assert_eq!(opts.msg_type(), Some(DhcpMessageType::Discover));
    assert_eq!(opts.requested_ip(), Some(Ipv4Addr::new(1, 2, 3, 4)));
}

#[test]
fn pad_is_skipped() {
    let buf = [OPT_PAD, OPT_PAD, OPT_MSG_TYPE, 1, 3, OPT_END];
    let opts = Options::parse(&buf);
    assert_eq!(opts.msg_type(), Some(DhcpMessageType::Request));
}

#[test]
fn unknown_option_is_ignored_but_parsing_continues() {
    let buf = [200, 2, 0xaa, 0xbb, OPT_MSG_TYPE, 1, 5, OPT_END];
    let opts = Options::parse(&buf);
    assert_eq!(opts.msg_type(), Some(DhcpMessageType::Ack));
    assert_eq!(opts.get(200), Some(&[0xaa, 0xbb][..]));
}

#[test]
fn length_past_buffer_does_not_panic() {
    let buf = [OPT_SUBNET_MASK, 10, 0xff, 0xff];
    let opts = Options::parse(&buf);
    assert!(opts.get(OPT_SUBNET_MASK).is_none());
}

#[test]
fn truncated_length_byte_does_not_panic() {
    let buf = [OPT_SUBNET_MASK];
    let opts = Options::parse(&buf);
    assert!(opts.get(OPT_SUBNET_MASK).is_none());
}

#[test]
fn no_end_option_is_fine() {
    let buf = [OPT_MSG_TYPE, 1, 1];
    let opts = Options::parse(&buf);
    assert_eq!(opts.msg_type(), Some(DhcpMessageType::Discover));
}

#[test]
fn short_ipv4_option_rejected() {
    let buf = [OPT_REQUESTED_IP, 2, 1, 2, OPT_END];
    let opts = Options::parse(&buf);
    assert_eq!(opts.requested_ip(), None);
}

#[test]
fn overlong_ipv4_option_rejected() {
    let buf = [OPT_REQUESTED_IP, 5, 1, 2, 3, 4, 5, OPT_END];
    let opts = Options::parse(&buf);
    assert_eq!(opts.requested_ip(), None);
}

#[test]
fn msg_type_wrong_length_rejected() {
    let buf = [OPT_MSG_TYPE, 2, 1, 2, OPT_END];
    let opts = Options::parse(&buf);
    assert_eq!(opts.msg_type(), None);
}

#[test]
fn writer_roundtrips_through_parser() {
    let mut w = OptionsWriter::new();
    w.push_u8(OPT_MSG_TYPE, DhcpMessageType::Offer.to_u8());
    w.push_ipv4(OPT_SERVER_ID, Ipv4Addr::new(192, 168, 10, 1));
    w.push_u32(OPT_LEASE_TIME, 86400);
    let bytes = w.finish();

    let opts = Options::parse(&bytes);
    assert_eq!(opts.msg_type(), Some(DhcpMessageType::Offer));
    assert_eq!(opts.server_id(), Some(Ipv4Addr::new(192, 168, 10, 1)));
    assert_eq!(opts.get(OPT_LEASE_TIME), Some(&86400u32.to_be_bytes()[..]));
}

#[test]
fn writer_emits_exact_tlv_bytes() {
    let mut w = OptionsWriter::default();
    w.push(7, &[1, 2]);
    w.push_ipv4_list(OPT_DNS, &[Ipv4Addr::new(1, 1, 1, 1), Ipv4Addr::new(8, 8, 4, 4)]);
    assert_eq!(w.finish(), vec![7, 2, 1, 2, 6, 8, 1, 1, 1, 1, 8, 8, 4, 4, 255]);
}

#[test]
fn hostname_is_sanitized() {
    let mut buf = vec![OPT_HOSTNAME, 8];
    buf.extend_from_slice(b"lap\ntop!");
    buf.push(OPT_END);
    let opts = Options::parse(&buf);
    assert_eq!(opts.hostname().as_deref(), Some("laptop"));
}

#[test]
fn hostname_all_unsafe_is_none() {
    let buf = [OPT_HOSTNAME, 3, b' ', b'!', 0xe9, OPT_END];
    let opts = Options::parse(&buf);
    assert_eq!(opts.hostname(), None);
}

#[test]
fn param_request_list_is_read() {
    let buf = [OPT_PARAM_REQUEST_LIST, 3, OPT_SUBNET_MASK, OPT_ROUTER, OPT_DNS, OPT_END];
    let opts = Options::parse(&buf);
    assert_eq!(opts.param_request_list(), Some(&[OPT_SUBNET_MASK, OPT_ROUTER, OPT_DNS][..]));
}

#[test]
fn empty_param_request_list_is_none() {
    let buf = [OPT_PARAM_REQUEST_LIST, 0, OPT_END];
    let opts = Options::parse(&buf);
    assert_eq!(opts.param_request_list(), None);
}

/// Build a minimal valid DISCOVER.
fn discover() -> Vec<u8> {
    let mut p = vec![0u8; MIN_LEN];
    p[0] = BOOTREQUEST;
    p[1] = HTYPE_ETHERNET;
    p[2] = HLEN_ETHERNET;
    p[4..8].copy_from_slice(&0xdead_beefu32.to_be_bytes());
    p[28..34].copy_from_slice(&[0xaa, 0xbb, 0xcc, 0xdd, 0xee, 0xff]);
    p[COOKIE_OFFSET..MIN_LEN].copy_from_slice(&magic_cookie_bytes());
    p.extend_from_slice(&[OPT_MSG_TYPE, 1, 1, OPT_END]);
    p
}

#[test]
fn parses_valid_discover() {
    let pkt = DhcpPacket::parse(&discover()).unwrap();
    assert_eq!(pkt.xid, 0xdead_beef);
    assert_eq!(pkt.chaddr.to_string(), "aa:bb:cc:dd:ee:ff");
    assert_eq!(pkt.options.msg_type(), Some(DhcpMessageType::Discover));
}

#[test]
fn parses_header_fields() {
    let mut p = discover();
    p[10] = 0x80;
    p[11] = 0x01;
    p[12..16].copy_from_slice(&[10, 0, 0, 7]);
    p[24..28].copy_from_slice(&[10, 0, 0, 9]);
    let pkt = DhcpPacket::parse(&p).unwrap();
    assert_eq!(pkt.flags, 0x8001);
    assert_eq!(pkt.ciaddr, Ipv4Addr::new(10, 0, 0, 7));
    assert_eq!(pkt.giaddr, Ipv4Addr::new(10, 0, 0, 9));
}

#[test]
fn rejects_short_packet() {
    let buf = [0u8; 100];
    assert!(DhcpPacket::parse(&buf).is_err());
    assert_eq!(DhcpPacket::parse(&buf).unwrap_err(), "packet shorter than 240 bytes");
}

#[test]
fn rejects_bad_cookie() {
    let mut p = discover();
    p[COOKIE_OFFSET] = 0;
    assert_eq!(DhcpPacket::parse(&p).unwrap_err(), "invalid magic cookie");
}

#[test]
fn rejects_non_bootrequest() {
    let mut p = discover();
    p[0] = BOOTREPLY;
    assert_eq!(DhcpPacket::parse(&p).unwrap_err(), "op is not BOOTREQUEST");
}

#[test]
fn rejects_wrong_htype_hlen() {
    let mut p = discover();
    p[1] = 99;
    assert!(DhcpPacket::parse(&p).is_err());
    assert_eq!(DhcpPacket::parse(&p).unwrap_err(), "htype is not Ethernet");
    let mut p = discover();
    p[2] = 7;
    assert!(DhcpPacket::parse(&p).is_err());
    assert_eq!(DhcpPacket::parse(&p).unwrap_err(), "hlen is not 6");
}

#[test]
fn options_truncated_at_240_is_ok() {
    let mut p = vec![0u8; MIN_LEN];
    p[0] = BOOTREQUEST;
    p[1] = HTYPE_ETHERNET;
    p[2] = HLEN_ETHERNET;
    p[28..34].copy_from_slice(&[1, 2, 3, 4, 5, 6]);
    p[COOKIE_OFFSET..MIN_LEN].copy_from_slice(&magic_cookie_bytes());
    let pkt = DhcpPacket::parse(&p).unwrap();
    assert_eq!(pkt.options.msg_type(), None);
}

fn cfg() -> DhcpConfig {
    parse_config(
        "\
interface=eth0
server_ip=192.168.10.1
subnet=192.168.10.0/24
subnet_mask=255.255.255.0
pool_start=192.168.10.100
pool_end=192.168.10.200
router=192.168.10.1
dns=1.1.1.1,8.8.8.8
lease_time=86400
lease_file=/tmp/leases
",
    )
    .unwrap()
}

fn request() -> DhcpPacket {
    request_with(&[])
}

fn request_with(extra: &[u8]) -> DhcpPacket {
    let mut p = vec![0u8; MIN_LEN];
    p[0] = 1;
    p[1] = HTYPE_ETHERNET;
    p[2] = HLEN_ETHERNET;
    p[4..8].copy_from_slice(&0x1234_5678u32.to_be_bytes());
    p[28..34].copy_from_slice(&[0xaa, 0xbb, 0xcc, 0xdd, 0xee, 0xff]);
    p[COOKIE_OFFSET..MIN_LEN].copy_from_slice(&magic_cookie_bytes());
    p.extend_from_slice(&[OPT_MSG_TYPE, 1, 1]);
    p.extend_from_slice(extra);
    p.push(OPT_END);
    DhcpPacket::parse(&p).unwrap()
}

#[test]
fn offer_has_expected_header_and_options() {
    let cfg = cfg();
    let req = request();
    let yiaddr = Ipv4Addr::new(192, 168, 10, 100);
    let reply = build_offer(&req, &cfg, yiaddr);

    assert_eq!(reply[0], BOOTREPLY);
    assert_eq!(&reply[4..8], &0x1234_5678u32.to_be_bytes());
    assert_eq!(&reply[16..20], &yiaddr.octets());
    assert_eq!(&reply[COOKIE_OFFSET..MIN_LEN], &magic_cookie_bytes());

    let opts = Options::parse(&reply[MIN_LEN..]);
    assert_eq!(opts.msg_type(), Some(DhcpMessageType::Offer));
    assert_eq!(opts.server_id(), Some(Ipv4Addr::new(192, 168, 10, 1)));
    assert_eq!(opts.get(OPT_SUBNET_MASK), Some(&[255, 255, 255, 0][..]));
    assert_eq!(opts.get(OPT_DNS).map(|d| d.len()), Some(8));
}

#[test]
fn offer_bytes_are_exact() {
    let cfg = cfg();
    let req = request();
    let reply = build_offer(&req, &cfg, Ipv4Addr::new(192, 168, 10, 100));
    assert_eq!(&reply[0..4], &[2, 1, 6, 0]);
    assert_eq!(&reply[12..16], &[0, 0, 0, 0]);
    assert_eq!(&reply[20..24], &[192, 168, 10, 1]);
    assert_eq!(&reply[28..34], &[0xaa, 0xbb, 0xcc, 0xdd, 0xee, 0xff]);
    assert!(reply[34..COOKIE_OFFSET].iter().all(|&b| b == 0));
    assert_eq!(
        &reply[MIN_LEN..],
        &[
            53, 1, 2, 54, 4, 192, 168, 10, 1, 51, 4, 0, 1, 0x51, 0x80, 1, 4, 255, 255, 255, 0, 3,
            4, 192, 168, 10, 1, 6, 8, 1, 1, 1, 1, 8, 8, 8, 8, 255
        ][..]
    );
}

#[test]
fn ack_echoes_flags_and_grants_lease() {
    let cfg = cfg();
    let mut req = request();
    req.flags = 0x8000;
    let reply = build_ack(&req, &cfg, Ipv4Addr::new(192, 168, 10, 150));
    assert_eq!(&reply[10..12], &[0x80, 0x00]);
    assert_eq!(&reply[16..20], &[192, 168, 10, 150]);
    let opts = Options::parse(&reply[MIN_LEN..]);
    assert_eq!(opts.msg_type(), Some(DhcpMessageType::Ack));
    assert_eq!(opts.get(OPT_LEASE_TIME), Some(&86400u32.to_be_bytes()[..]));
}

#[test]
fn nak_has_no_lease_params() {
    let cfg = cfg();
    let req = request();
    let reply = build_nak(&req, &cfg);
    assert_eq!(&reply[16..20], &[0, 0, 0, 0]);
    let opts = Options::parse(&reply[MIN_LEN..]);
    assert_eq!(opts.msg_type(), Some(DhcpMessageType::Nak));
    assert!(opts.get(OPT_SUBNET_MASK).is_none());
    assert!(opts.get(OPT_LEASE_TIME).is_none());
}

#[test]
fn prl_filters_optional_params() {
    let cfg = cfg();
    let req = request_with(&[OPT_PARAM_REQUEST_LIST, 1, OPT_SUBNET_MASK]);
    let yiaddr = Ipv4Addr::new(192, 168, 10, 100);
    let reply = build_offer(&req, &cfg, yiaddr);

    let opts = Options::parse(&reply[MIN_LEN..]);
    assert!(opts.get(OPT_SUBNET_MASK).is_some());
    assert!(opts.get(OPT_LEASE_TIME).is_some());
    assert!(opts.get(OPT_ROUTER).is_none());
    assert!(opts.get(OPT_DNS).is_none());
}

#[test]
fn inform_ack_has_params_but_no_yiaddr_or_lease() {
    let cfg = cfg();
    let req = request();
    let reply = build_inform_ack(&req, &cfg);

    assert_eq!(&reply[16..20], &[0, 0, 0, 0]);
    let opts = Options::parse(&reply[MIN_LEN..]);
    assert_eq!(opts.msg_type(), Some(DhcpMessageType::Ack));
    assert!(opts.get(OPT_LEASE_TIME).is_none());
    assert!(opts.get(OPT_SUBNET_MASK).is_some());
    assert!(opts.get(OPT_ROUTER).is_some());
    assert!(opts.get(OPT_DNS).is_some());
}
