use nanodhcp::config::parser::parse_config;
use nanodhcp::config::validate::validate;
use nanodhcp::util::ip::Ipv4Addr;
use nanodhcp::util::mac::MacAddr;

const SAMPLE: &str = "\
# nanodhcp config
interface=eth0
server_ip=192.168.10.1
subnet=192.168.10.0/24
subnet_mask=255.255.255.0

pool_start=192.168.10.100
pool_end=192.168.10.200
router=192.168.10.1
dns=192.168.10.1, 1.1.1.1
lease_time=86400
lease_file=/var/lib/nanodhcp/leases
static=nas,aa:bb:cc:dd:ee:ff,192.168.10.10
static=printer,11:22:33:44:55:66,192.168.10.11
";

#[test]
fn parses_sample() {
    let cfg = parse_config(SAMPLE).unwrap();
    assert_eq!(cfg.interface, "eth0");
    assert_eq!(cfg.server_ip, "192.168.10.1".parse::<Ipv4Addr>().unwrap());
    assert_eq!(cfg.subnet.prefix, 24);
    assert_eq!(cfg.pool_start, "192.168.10.100".parse::<Ipv4Addr>().unwrap());
    assert_eq!(cfg.dns.len(), 2);
    assert_eq!(cfg.lease_time, 86400);
    assert_eq!(cfg.statics.len(), 2);
    assert_eq!(cfg.statics[0].name, "nas");
    assert_eq!(cfg.router, Some("192.168.10.1".parse::<Ipv4Addr>().unwrap()));
}

#[test]
fn comments_and_blanks_ignored() {
    let cfg = parse_config(SAMPLE).unwrap();
    assert_eq!(cfg.statics[1].name, "printer");
}

#[test]
fn missing_required_key() {
    let text = "interface=eth0\n";
    let err = parse_config(text).unwrap_err();
    assert!(err.contains("missing required key"));
    assert_eq!(err, "missing required key 'server_ip'");
}

#[test]
fn unknown_key_is_error() {
    let text = "frobnicate=yes\n";
    let err = parse_config(text).unwrap_err();
    assert!(err.contains("unknown key"));
    assert_eq!(err, "line 1: unknown key 'frobnicate'");
}

#[test]
fn line_without_equals() {
    let text = "interface eth0\n";
    let err = parse_config(text).unwrap_err();
    assert!(err.contains("expected key=value"));
    assert_eq!(err, "line 1: expected key=value, got 'interface eth0'");
}

#[test]
fn bad_static_shape() {
    let text = "static=onlyname\n";
    let err = parse_config(text).unwrap_err();
    assert!(err.contains("static must be"));
    assert_eq!(err, "line 1: static must be 'name,mac,ip', got 'onlyname'");
}

#[test]
fn errors_carry_line_numbers() {
    let text = "# c\n\ninterface=eth0\nserver_ip=1.2.3\n";
    assert_eq!(parse_config(text).unwrap_err(), "line 4: invalid IPv4 address '1.2.3'");
    let text = "lease_time=-5\n";
    assert_eq!(parse_config(text).unwrap_err(), "line 1: invalid lease_time '-5'");
    let text = "dns=1.1.1.1,,x\n";
    assert_eq!(parse_config(text).unwrap_err(), "line 1: invalid IPv4 address 'x'");
    let text = "static=a,zz:bb:cc:dd:ee:ff,1.2.3.4\n";
    assert_eq!(
        parse_config(text).unwrap_err(),
        "line 1: invalid MAC 'zz:bb:cc:dd:ee:ff': bad octet 'zz'"
    );
    let text = "subnet=10.0.0.0/40\n";
    assert_eq!(
        parse_config(text).unwrap_err(),
        "line 1: invalid CIDR '10.0.0.0/40': prefix must be 0..=32"
    );
}

#[test]
fn allow_unbound_and_repeated_dns() {
    let mut text = String::from(SAMPLE);
    text.push_str("dns=8.8.8.8\nallow_unbound=true\n");
    let cfg = parse_config(&text).unwrap();
    assert_eq!(cfg.dns.len(), 3);
    assert_eq!(cfg.dns[2], Ipv4Addr::new(8, 8, 8, 8));
    assert!(cfg.allow_unbound);
    assert!(!parse_config(SAMPLE).unwrap().allow_unbound);
    let mut bad = String::from(SAMPLE);
    bad.push_str("allow_unbound=yes\n");
    assert_eq!(parse_config(&bad).unwrap_err(), "line 15: invalid allow_unbound 'yes'");
}

#[test]
fn static_for_finds_first_binding() {
    let cfg = parse_config(SAMPLE).unwrap();
    let mac: MacAddr = "11:22:33:44:55:66".parse().unwrap();
    assert_eq!(cfg.static_for(mac).unwrap().ip, Ipv4Addr::new(192, 168, 10, 11));
    assert!(cfg.static_for("00:00:00:00:00:01".parse().unwrap()).is_none());
}

fn base() -> String {
    "\
interface=eth0
server_ip=192.168.10.1
subnet=192.168.10.0/24
subnet_mask=255.255.255.0
pool_start=192.168.10.100
pool_end=192.168.10.200
router=192.168.10.1
dns=1.1.1.1
lease_time=86400
lease_file=/tmp/leases
"
    .to_string()
}

#[test]
fn valid_config_passes() {
    let cfg = parse_config(&base()).unwrap();
    assert!(validate(&cfg).is_ok());
}

#[test]
fn mask_mismatch_fails() {
    let text = base().replace("subnet_mask=255.255.255.0", "subnet_mask=255.255.0.0");
    let cfg = parse_config(&text).unwrap();
    assert!(validate(&cfg).unwrap_err().contains("subnet_mask"));
    assert_eq!(
        validate(&cfg).unwrap_err(),
        "subnet_mask 255.255.0.0 does not match subnet prefix /24 (expected 255.255.255.0)"
    );
}

#[test]
fn pool_outside_subnet_fails() {
    let text = base().replace("pool_end=192.168.10.200", "pool_end=192.168.20.200");
    let cfg = parse_config(&text).unwrap();
    assert!(validate(&cfg).unwrap_err().contains("pool_end"));
}

#[test]
fn reversed_pool_fails() {
    let text = base()
        .replace("pool_start=192.168.10.100", "pool_start=192.168.10.200")
        .replace("pool_end=192.168.10.200\n", "pool_end=192.168.10.100\n");
    let cfg = parse_config(&text).unwrap();
    assert!(validate(&cfg).unwrap_err().contains("greater than"));
}

#[test]
fn duplicate_static_ip_fails() {
    let mut text = base();
    text.push_str("static=a,aa:aa:aa:aa:aa:aa,192.168.10.50\n");
    text.push_str("static=b,bb:bb:bb:bb:bb:bb,192.168.10.50\n");
    let cfg = parse_config(&text).unwrap();
    assert!(validate(&cfg).unwrap_err().contains("duplicate static IP"));
    assert_eq!(
        validate(&cfg).unwrap_err(),
        "duplicate static IP 192.168.10.50 (used by 'a' and 'b')"
    );
}

#[test]
fn duplicate_static_mac_names_latest_earlier() {
    let mut text = base();
    text.push_str("static=a,aa:aa:aa:aa:aa:aa,192.168.10.50\n");
    text.push_str("static=b,aa:aa:aa:aa:aa:aa,192.168.10.51\n");
    text.push_str("static=c,aa:aa:aa:aa:aa:aa,192.168.10.52\n");
    let cfg = parse_config(&text).unwrap();
    assert_eq!(
        validate(&cfg).unwrap_err(),
        "duplicate static MAC aa:aa:aa:aa:aa:aa (used by 'a' and 'b')\n\
         duplicate static MAC aa:aa:aa:aa:aa:aa (used by 'b' and 'c')"
    );
}

#[test]
fn static_outside_subnet_fails() {
    let mut text = base();
    text.push_str("static=a,aa:aa:aa:aa:aa:aa,10.0.0.5\n");
    let cfg = parse_config(&text).unwrap();
    assert!(validate(&cfg).unwrap_err().contains("outside subnet"));
}

#[test]
fn static_with_empty_name_fails() {
    let mut text = base();
    text.push_str("static= ,aa:aa:aa:aa:aa:aa,192.168.10.5\n");
    let cfg = parse_config(&text).unwrap();
    assert_eq!(
        validate(&cfg).unwrap_err(),
        "static binding for MAC aa:aa:aa:aa:aa:aa has an empty name"
    );
}

#[test]
fn server_ip_in_pool_fails() {
    let text = base().replace("server_ip=192.168.10.1", "server_ip=192.168.10.150");
    let cfg = parse_config(&text).unwrap();
    assert!(validate(&cfg).unwrap_err().contains("inside the dynamic pool"));
}

#[test]
fn too_many_dns_servers_fails() {
    let mut cfg = parse_config(&base()).unwrap();
    cfg.dns = vec!["1.1.1.1".parse().unwrap(); 64];
    assert!(validate(&cfg).unwrap_err().contains("too many dns"));
}

#[test]
fn pool_endpoint_on_broadcast_fails() {
    let text = base().replace("pool_end=192.168.10.200", "pool_end=192.168.10.255");
    let cfg = parse_config(&text).unwrap();
    assert!(validate(&cfg).unwrap_err().contains("broadcast"));
}

#[test]
fn all_problems_are_listed_in_order() {
    let text = base()
        .replace("interface=eth0", "interface=")
        .replace("lease_time=86400", "lease_time=0")
        .replace("router=192.168.10.1", "router=10.0.0.1");
    let cfg = parse_config(&text).unwrap();
    assert_eq!(
        validate(&cfg).unwrap_err(),
        "interface must not be empty\n\
         router 10.0.0.1 is outside subnet 192.168.10.0/24\n\
         lease_time must be greater than 0"
    );
}

#[test]
fn blank_and_comment_lines_change_nothing() {
    let a = parse_config(SAMPLE).unwrap();
    let padded = SAMPLE.replace("\n", "\n   \n# note\n");
    let b = parse_config(&padded).unwrap();
    assert_eq!(a.interface, b.interface);
    assert_eq!(a.pool_start, b.pool_start);
    assert_eq!(a.dns.len(), b.dns.len());
    assert_eq!(a.statics.len(), b.statics.len());
    let bad = "bogus\n";
    assert!(parse_config(bad).is_err());
    assert!(parse_config(&format!("#c\n\n{}", bad)).is_err());
}
