use nanodhcp::util::ip::{from_u32, parse_ipv4, to_u32, Cidr, Ipv4Addr};
use nanodhcp::util::log::{enabled, log_line, to_stderr, Level};
use nanodhcp::util::mac::{parse_mac, MacAddr};
use nanodhcp::util::time::format_utc;

fn ip(s: &str) -> Ipv4Addr {
    s.parse().unwrap()
}

#[test]
fn u32_roundtrip() {
    let a = ip("192.168.10.1");
    assert_eq!(from_u32(to_u32(a)), a);
}

#[test]
fn cidr_parse_and_math() {
    let c: Cidr = "192.168.10.5/24".parse().unwrap();
    assert_eq!(c.network(), ip("192.168.10.0"));
    assert_eq!(c.broadcast(), ip("192.168.10.255"));
    assert_eq!(c.netmask(), ip("255.255.255.0"));
}

#[test]
fn cidr_contains() {
    let c: Cidr = "192.168.10.0/24".parse().unwrap();
    assert!(c.contains(ip("192.168.10.100")));
    assert!(c.contains(ip("192.168.10.0")));
    assert!(c.contains(ip("192.168.10.255")));
    assert!(!c.contains(ip("192.168.11.1")));
    assert!(!c.contains(ip("10.0.0.1")));
}

#[test]
fn cidr_prefix_30() {
    let c: Cidr = "10.0.0.0/30".parse().unwrap();
    assert_eq!(c.broadcast(), ip("10.0.0.3"));
    assert!(c.contains(ip("10.0.0.2")));
    assert!(!c.contains(ip("10.0.0.4")));
}

#[test]
fn cidr_prefix_zero_does_not_panic() {
    let c: Cidr = "0.0.0.0/0".parse().unwrap();
    assert_eq!(c.mask(), 0);
    assert!(c.contains(ip("8.8.8.8")));
}

#[test]
fn cidr_rejects_bad_input() {
    assert!("192.168.10.0".parse::<Cidr>().is_err());
    assert!("192.168.10.0/33".parse::<Cidr>().is_err());
    assert!("nope/24".parse::<Cidr>().is_err());
}

#[test]
fn cidr_error_messages_name_the_problem() {
    assert_eq!(
        "192.168.10.0".parse::<Cidr>().unwrap_err(),
        "invalid CIDR '192.168.10.0': missing /prefix"
    );
    assert_eq!(
        "192.168.10.0/33".parse::<Cidr>().unwrap_err(),
        "invalid CIDR '192.168.10.0/33': prefix must be 0..=32"
    );
    assert_eq!("nope/24".parse::<Cidr>().unwrap_err(), "invalid CIDR 'nope/24': bad address 'nope'");
    assert_eq!(
        "10.0.0.0/x".parse::<Cidr>().unwrap_err(),
        "invalid CIDR '10.0.0.0/x': bad prefix 'x'"
    );
}

#[test]
fn parse_ipv4_trims_and_reports() {
    assert_eq!(parse_ipv4("  10.1.2.3 ").unwrap(), Ipv4Addr::new(10, 1, 2, 3));
    assert_eq!(parse_ipv4("10.1.2").unwrap_err(), "invalid IPv4 address '10.1.2'");
    assert!(parse_ipv4("10.01.2.3").is_err());
    assert!(parse_ipv4("256.1.2.3").is_err());
    assert!(parse_ipv4("1.2.3.4.5").is_err());
    assert!(parse_ipv4("+1.2.3.4").is_err());
}

#[test]
fn ipv4_text_and_octets() {
    let a = Ipv4Addr::new(192, 168, 10, 1);
    assert_eq!(a.0, 0xc0a8_0a01);
    assert_eq!(a.octets(), [192, 168, 10, 1]);
    assert_eq!(a.to_string(), "192.168.10.1");
    assert!(Ipv4Addr::unspecified().is_unspecified());
    assert!(!a.is_unspecified());
}

#[test]
fn parse_lowercase() {
    let m: MacAddr = "aa:bb:cc:dd:ee:ff".parse().unwrap();
    assert_eq!(m.0, [0xaa, 0xbb, 0xcc, 0xdd, 0xee, 0xff]);
}

#[test]
fn parse_uppercase_and_short_octets() {
    let m: MacAddr = "0A:1:22:33:44:55".parse().unwrap();
    assert_eq!(m.0, [0x0a, 0x01, 0x22, 0x33, 0x44, 0x55]);
}

#[test]
fn display_roundtrip() {
    let m: MacAddr = "11:22:33:44:55:66".parse().unwrap();
    assert_eq!(m.to_string(), "11:22:33:44:55:66");
}

#[test]
fn reject_wrong_length() {
    assert!("aa:bb:cc:dd:ee".parse::<MacAddr>().is_err());
    assert!("aa:bb:cc:dd:ee:ff:00".parse::<MacAddr>().is_err());
}

#[test]
fn reject_bad_hex() {
    assert!("aa:bb:cc:dd:ee:zz".parse::<MacAddr>().is_err());
}

#[test]
fn from_bytes_checks_length() {
    assert!(MacAddr::from_bytes(&[1, 2, 3, 4, 5, 6]).is_some());
    assert!(MacAddr::from_bytes(&[1, 2, 3]).is_none());
}

#[test]
fn mac_error_messages() {
    assert_eq!(
        parse_mac("aa:bb:cc:dd:ee").unwrap_err(),
        "invalid MAC 'aa:bb:cc:dd:ee': expected 6 octets, got 5"
    );
    assert_eq!(
        parse_mac("aa:bb:cc:dd:ee:ff:00").unwrap_err(),
        "invalid MAC 'aa:bb:cc:dd:ee:ff:00': too many octets"
    );
    assert_eq!(
        parse_mac("aa:bb:cc:dd:ee:zz").unwrap_err(),
        "invalid MAC 'aa:bb:cc:dd:ee:zz': bad octet 'zz'"
    );
    assert_eq!(parse_mac("+a:0:00f:1:2:3").unwrap().0, [0x0a, 0, 0x0f, 1, 2, 3]);
    assert_eq!(MacAddr([0, 1, 0xab, 0x10, 0xff, 9]).as_bytes(), &[0, 1, 0xab, 0x10, 0xff, 9]);
}

#[test]
fn mac_equality_is_by_bytes() {
    let a: MacAddr = "aa:bb:cc:dd:ee:ff".parse().unwrap();
    let b: MacAddr = "AA:BB:CC:DD:EE:FF".parse().unwrap();
    let c: MacAddr = "aa:bb:cc:dd:ee:fe".parse().unwrap();
    assert!(a == b);
    assert!(a != c);
}

#[test]
fn format_utc_epoch() {
    assert_eq!(format_utc(0), "1970-01-01T00:00:00Z");
}

#[test]
fn format_utc_known_timestamp() {
    // 1_700_000_000 is 2023-11-14T22:13:20Z.
    assert_eq!(format_utc(1_700_000_000), "2023-11-14T22:13:20Z");
}

#[test]
fn format_utc_leap_year_day() {
    // 2024-02-29T12:00:00Z exercises the leap-day branch.
    assert_eq!(format_utc(1_709_208_000), "2024-02-29T12:00:00Z");
}

#[test]
fn format_utc_year_boundaries() {
    assert_eq!(format_utc(951_782_400), "2000-02-29T00:00:00Z");
    assert_eq!(format_utc(4_102_444_799), "2099-12-31T23:59:59Z");
    assert_eq!(format_utc(u64::MAX), "584554051223-11-09T07:00:15Z");
}

#[test]
fn now_is_after_2020() {
    assert!(nanodhcp::util::time::now() > 1_577_836_800);
}

#[test]
fn log_levels_enable_more_important() {
    assert!(enabled(Level::Error, Level::Warn));
    assert!(enabled(Level::Warn, Level::Warn));
    assert!(!enabled(Level::Info, Level::Warn));
    assert!(enabled(Level::Debug, Level::Debug));
    assert_eq!(Level::Info.tag(), "INFO");
}

#[test]
fn log_lines_are_stamped_and_tagged() {
    assert_eq!(
        log_line(1700000000, Level::Warn, "cannot save leases"),
        "2023-11-14T22:13:20Z [WARN] cannot save leases"
    );
    assert_eq!(log_line(0, Level::Debug, ""), "1970-01-01T00:00:00Z [DEBUG] ");
    assert!(to_stderr(Level::Error));
    assert!(to_stderr(Level::Warn));
    assert!(!to_stderr(Level::Info));
    assert!(!to_stderr(Level::Debug));
}

#[test]
fn address_text_reads_back() {
    for v in [0u32, 1, 255, 256, 0x0a00_0001, 0xc0a8_0a64, 0xffff_ffff] {
        let a = from_u32(v);
        let back: Ipv4Addr = a.to_string().parse().unwrap();
        assert_eq!(to_u32(back), v);
        assert_eq!(to_u32(parse_ipv4(&format!(" {} ", a.to_string())).unwrap()), v);
    }
}

#[test]
fn mac_text_reads_back() {
    for b in [[0u8; 6], [0xff; 6], [0x00, 0x1a, 0x2b, 0x3c, 0x4d, 0x5e]] {
        let m = MacAddr::from_bytes(&b).unwrap();
        let back = parse_mac(&m.to_string()).unwrap();
        assert!(back == m);
    }
}

#[test]
fn subnet_holds_exactly_its_range() {
    let c: Cidr = "10.1.2.77/26".parse().unwrap();
    assert_eq!(c.network(), ip("10.1.2.64"));
    assert_eq!(c.broadcast(), ip("10.1.2.127"));
    assert!(c.contains(c.network()));
    assert!(c.contains(c.broadcast()));
    assert!(!c.contains(ip("10.1.2.63")));
    assert!(!c.contains(ip("10.1.2.128")));
    let all: Cidr = "1.2.3.4/0".parse().unwrap();
    assert!(all.contains(ip("0.0.0.0")) && all.contains(ip("255.255.255.255")));
    let host: Cidr = "1.2.3.4/32".parse().unwrap();
    assert!(host.contains(ip("1.2.3.4")) && !host.contains(ip("1.2.3.5")));
}

#[test]
fn from_str_results() {
    assert_eq!(" 1.2.3.4".parse::<Ipv4Addr>(), Err("invalid IPv4 address syntax".to_string()));
    assert_eq!("1.2.3.4".parse::<Ipv4Addr>(), Ok(Ipv4Addr::new(1, 2, 3, 4)));
    assert_eq!(
        "1.2.3.4".parse::<Cidr>().unwrap_err(),
        "invalid CIDR '1.2.3.4': missing /prefix"
    );
    assert!("aa:bb:cc:dd:ee".parse::<MacAddr>().is_err());
}
