use nanodhcp::cli::{
    command, config_path, lease_table, level_flags, path_arg, table_header, table_row, Command,
};
use nanodhcp::util::log::Level;
use nanodhcp::config::parser::parse_config;
use nanodhcp::lease::model::{Lease, LeaseKind};
use nanodhcp::lease::store::LeaseStore;

fn args(v: &[&str]) -> Vec<String> {
    v.iter().map(|s| s.to_string()).collect()
}

fn path_of(c: Result<Command, String>) -> (String, String) {
    match c {
        Ok(Command::Run(p)) => ("run".to_string(), p),
        Ok(Command::Check(p)) => ("check".to_string(), p),
        Ok(Command::Leases(p)) => ("leases".to_string(), p),
        Ok(Command::Help) => ("help".to_string(), String::new()),
        Ok(Command::Usage) => ("usage".to_string(), String::new()),
        Err(e) => ("error".to_string(), e),
    }
}

#[test]
fn config_path_forms() {
    assert_eq!(config_path(&args(&["-c", "/etc/n.conf"])), Ok("/etc/n.conf".to_string()));
    assert_eq!(config_path(&args(&["--config", "a.conf"])), Ok("a.conf".to_string()));
    assert_eq!(
        config_path(&args(&["a.conf"])),
        Err("unexpected argument 'a.conf', expected -c <config>".to_string())
    );
    assert_eq!(path_arg(&args(&["a.conf"])), Ok("a.conf".to_string()));
    assert_eq!(path_arg(&args(&["-c", "b.conf"])), Ok("b.conf".to_string()));
    assert_eq!(
        path_arg(&args(&["-x"])),
        Err("unexpected argument '-x', expected -c <config>".to_string())
    );
    assert_eq!(config_path(&args(&["-c"])), Err("option -c requires a path".to_string()));
    assert_eq!(config_path(&args(&[])), Err("missing -c <config>".to_string()));
    assert_eq!(
        config_path(&args(&["-x"])),
        Err("unexpected argument '-x', expected -c <config>".to_string())
    );
}

#[test]
fn command_dispatch() {
    assert_eq!(path_of(command(&args(&[]))).0, "usage");
    assert_eq!(path_of(command(&args(&["help"]))).0, "help");
    assert_eq!(path_of(command(&args(&["-h"]))).0, "help");
    assert_eq!(path_of(command(&args(&["--help"]))).0, "help");
    assert_eq!(path_of(command(&args(&["run", "-c", "x"]))), ("run".to_string(), "x".to_string()));
    assert_eq!(path_of(command(&args(&["check", "-c", "y"]))), ("check".to_string(), "y".to_string()));
    assert_eq!(path_of(command(&args(&["leases", "--config", "z"]))), ("leases".to_string(), "z".to_string()));
    assert_eq!(path_of(command(&args(&["my.conf"]))), ("run".to_string(), "my.conf".to_string()));
    assert_eq!(
        path_of(command(&args(&["run", "x"]))),
        ("error".to_string(), "unexpected argument 'x', expected -c <config>".to_string())
    );
    assert_eq!(path_of(command(&args(&["check", "y"]))), ("check".to_string(), "y".to_string()));
    assert_eq!(path_of(command(&args(&["leases", "z"]))), ("leases".to_string(), "z".to_string()));
    assert_eq!(
        path_of(command(&args(&["check"]))),
        ("error".to_string(), "missing -c <config>".to_string())
    );
}

#[test]
fn table_rows_are_aligned() {
    assert_eq!(
        table_header(),
        "KIND     MAC               IP              NAME/HOST        EXPIRES"
    );
    let l = Lease {
        mac: "aa:bb:cc:dd:ee:ff".parse().unwrap(),
        ip: "192.168.10.101".parse().unwrap(),
        hostname: None,
        expires_at: 1780000000,
        kind: LeaseKind::Dynamic,
    };
    assert_eq!(
        table_row(&l),
        "dynamic  aa:bb:cc:dd:ee:ff 192.168.10.101  -                1780000000"
    );
}

#[test]
fn lease_table_merges_statics_sorted_by_ip() {
    let c = parse_config(
        "interface=eth0
server_ip=192.168.10.1
subnet=192.168.10.0/24
subnet_mask=255.255.255.0
pool_start=192.168.10.100
pool_end=192.168.10.200
lease_time=3600
lease_file=/tmp/cli-test-leases
static=nas,aa:aa:aa:aa:aa:aa,192.168.10.150
",
    )
    .unwrap();
    let mut s = LeaseStore::new("/nonexistent/nanodhcp/cli-test");
    s.insert(Lease {
        mac: "bb:bb:bb:bb:bb:bb".parse().unwrap(),
        ip: "192.168.10.160".parse().unwrap(),
        hostname: Some("tv".to_string()),
        expires_at: 5000,
        kind: LeaseKind::Dynamic,
    });
    s.insert(Lease {
        mac: "cc:cc:cc:cc:cc:cc".parse().unwrap(),
        ip: "192.168.10.100".parse().unwrap(),
        hostname: None,
        expires_at: 6000,
        kind: LeaseKind::Dynamic,
    });
    let rows = lease_table(&c, &s);
    let ips: Vec<String> = rows.iter().map(|l| l.ip.to_string()).collect();
    assert_eq!(ips, vec!["192.168.10.100", "192.168.10.150", "192.168.10.160"]);
    assert_eq!(rows[1].kind, LeaseKind::Static);
    assert_eq!(
        table_row(&rows[1]),
        "static   aa:aa:aa:aa:aa:aa 192.168.10.150  nas              -"
    );
}

#[test]
fn level_flags_are_read_and_removed() {
    let (lv, rest) = level_flags(&args(&["run", "-c", "x"]));
    assert_eq!(lv, Level::Info);
    assert_eq!(rest, args(&["run", "-c", "x"]));
    let (lv, rest) = level_flags(&args(&["-q", "run", "-c", "x"]));
    assert_eq!(lv, Level::Warn);
    assert_eq!(rest, args(&["run", "-c", "x"]));
    let (lv, rest) = level_flags(&args(&["--quiet", "check", "x", "--verbose"]));
    assert_eq!(lv, Level::Debug);
    assert_eq!(rest, args(&["check", "x"]));
    let (lv, _) = level_flags(&args(&["-v", "-q"]));
    assert_eq!(lv, Level::Warn);
}
