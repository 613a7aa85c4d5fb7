//! Line-based `key=value` config parser.
//!
//! Rules: blank lines ignored; lines whose first non-space character is `#`
//! are comments; everything else must be `key=value`. The `static` and `dns`
//! keys may repeat (both accumulate). Unknown keys are an error (they are
//! almost always typos).
use vstd::prelude::*;

use super::model::{DhcpConfig, StaticLease};
use crate::util::ip::{parse_cidr_chars, parse_ipv4_chars, spec_parse_cidr, spec_parse_ipv4, Cidr, Ipv4Addr};
use crate::util::mac::{parse_mac_chars, spec_parse_mac, MacAddr};
use crate::util::text::{
    all_ws, is_ws, lacks, lemma_concat_lacks, lemma_split_append, lemma_split_plain, lemma_trim_padded,
    lemma_ws_lacks, chars_of, dec, eq_str, lines, lines_of, parse_uint, parse_uint_chars, push_chars, push_dec,
    push_str, seqs, split, split_chars, split_once, split_once_chars, string_of, trim, trim_chars,
};

verus! {

/// A configuration as plain values.
pub struct ConfigView {
    pub interface: Seq<char>,
    pub server_ip: u32,
    pub subnet: (u32, u8),
    pub subnet_mask: u32,
    pub pool_start: u32,
    pub pool_end: u32,
    pub router: Option<u32>,
    pub dns: Seq<u32>,
    pub lease_time: u32,
    pub lease_file: Seq<char>,
    pub allow_unbound: bool,
    pub statics: Seq<(Seq<char>, Seq<u8>, u32)>,
}

/// The addresses of `v`.
pub open spec fn ip_values(v: Seq<Ipv4Addr>) -> Seq<u32> {
    v.map_values(|ip: Ipv4Addr| ip.0)
}

/// The static bindings of `v` as `(name, mac, ip)`.
pub open spec fn static_values(v: Seq<StaticLease>) -> Seq<(Seq<char>, Seq<u8>, u32)> {
    v.map_values(|s: StaticLease| (s.name@, s.mac@, s.ip.0))
}

/// The optional address as a plain value.
pub open spec fn opt_ip(v: Option<Ipv4Addr>) -> Option<u32> {
    match v {
        Some(ip) => Some(ip.0),
        None => None,
    }
}

impl View for DhcpConfig {
    type V = ConfigView;

    open spec fn view(&self) -> ConfigView {
        ConfigView {
            interface: self.interface@,
            server_ip: self.server_ip.0,
            subnet: (self.subnet.addr.0, self.subnet.prefix),
            subnet_mask: self.subnet_mask.0,
            pool_start: self.pool_start.0,
            pool_end: self.pool_end.0,
            router: opt_ip(self.router),
            dns: ip_values(self.dns@),
            lease_time: self.lease_time,
            lease_file: self.lease_file@,
            allow_unbound: self.allow_unbound,
            statics: static_values(self.statics@),
        }
    }
}

/// What has been read so far while walking the lines.
pub struct ParseState {
    pub interface: Option<Seq<char>>,
    pub server_ip: Option<u32>,
    pub subnet: Option<(u32, u8)>,
    pub subnet_mask: Option<u32>,
    pub pool_start: Option<u32>,
    pub pool_end: Option<u32>,
    pub router: Option<u32>,
    pub dns: Seq<u32>,
    pub lease_time: Option<u32>,
    pub lease_file: Option<Seq<char>>,
    pub allow_unbound: bool,
    pub statics: Seq<(Seq<char>, Seq<u8>, u32)>,
}

/// Nothing read yet.
pub open spec fn initial_state() -> ParseState {
    ParseState {
        interface: None,
        server_ip: None,
        subnet: None,
        subnet_mask: None,
        pool_start: None,
        pool_end: None,
        router: None,
        dns: Seq::empty(),
        lease_time: None,
        lease_file: None,
        allow_unbound: false,
        statics: Seq::empty(),
    }
}

/// `e` prefixed with its line number.
pub open spec fn at(lineno: nat, e: Seq<char>) -> Seq<char> {
    "line "@ + dec(lineno) + ": "@ + e
}

/// `name,mac,ip` read as a static binding.
pub open spec fn spec_parse_static(value: Seq<char>) -> Result<(Seq<char>, Seq<u8>, u32), Seq<char>> {
    let parts = split(value, ',');
    if parts.len() != 3 {
        Err("static must be 'name,mac,ip', got '"@ + value + "'"@)
    } else {
        match spec_parse_mac(trim(parts[1])) {
            Err(e) => Err(e),
            Ok(mac) => match spec_parse_ipv4(trim(parts[2])) {
                Err(e) => Err(e),
                Ok(ip) => Ok((trim(parts[0]), mac, ip)),
            },
        }
    }
}

/// `dns` extended by the addresses of the comma-separated `parts` (empty
/// parts skipped), or the error for the first bad one.
pub open spec fn dns_parts(dns: Seq<u32>, parts: Seq<Seq<char>>, lineno: nat) -> Result<Seq<u32>, Seq<char>>
    decreases parts.len(),
{
    if parts.len() == 0 {
        Ok(dns)
    } else {
        match dns_parts(dns, parts.drop_last(), lineno) {
            Err(e) => Err(e),
            Ok(d) => {
                let p = trim(parts.last());
                if p.len() == 0 {
                    Ok(d)
                } else {
                    match spec_parse_ipv4(p) {
                        Ok(ip) => Ok(d.push(ip)),
                        Err(e) => Err(at(lineno, e)),
                    }
                }
            },
        }
    }
}

/// An address value on line `lineno`.
pub open spec fn ip_field(value: Seq<char>, lineno: nat) -> Result<u32, Seq<char>> {
    match spec_parse_ipv4(value) {
        Ok(v) => Ok(v),
        Err(e) => Err(at(lineno, e)),
    }
}

/// The state after the key `key` with value `value` on line `lineno`.
pub open spec fn config_kv(st: ParseState, key: Seq<char>, value: Seq<char>, lineno: nat) -> Result<ParseState, Seq<char>> {
    if key == "interface"@ {
        Ok(ParseState { interface: Some(value), ..st })
    } else if key == "server_ip"@ {
        match ip_field(value, lineno) {
            Ok(ip) => Ok(ParseState { server_ip: Some(ip), ..st }),
            Err(e) => Err(e),
        }
    } else if key == "subnet"@ {
        match spec_parse_cidr(value) {
            Ok(c) => Ok(ParseState { subnet: Some(c), ..st }),
            Err(e) => Err(at(lineno, e)),
        }
    } else if key == "subnet_mask"@ {
        match ip_field(value, lineno) {
            Ok(ip) => Ok(ParseState { subnet_mask: Some(ip), ..st }),
            Err(e) => Err(e),
        }
    } else if key == "pool_start"@ {
        match ip_field(value, lineno) {
            Ok(ip) => Ok(ParseState { pool_start: Some(ip), ..st }),
            Err(e) => Err(e),
        }
    } else if key == "pool_end"@ {
        match ip_field(value, lineno) {
            Ok(ip) => Ok(ParseState { pool_end: Some(ip), ..st }),
            Err(e) => Err(e),
        }
    } else if key == "router"@ {
        match ip_field(value, lineno) {
            Ok(ip) => Ok(ParseState { router: Some(ip), ..st }),
            Err(e) => Err(e),
        }
    } else if key == "dns"@ {
        match dns_parts(st.dns, split(value, ','), lineno) {
            Ok(d) => Ok(ParseState { dns: d, ..st }),
            Err(e) => Err(e),
        }
    } else if key == "lease_time"@ {
        match parse_uint(value, 10, 0xffff_ffff) {
            Some(t) => Ok(ParseState { lease_time: Some(t as u32), ..st }),
            None => Err("line "@ + dec(lineno) + ": invalid lease_time '"@ + value + "'"@),
        }
    } else if key == "lease_file"@ {
        Ok(ParseState { lease_file: Some(value), ..st })
    } else if key == "allow_unbound"@ {
        if value == "true"@ {
            Ok(ParseState { allow_unbound: true, ..st })
        } else if value == "false"@ {
            Ok(ParseState { allow_unbound: false, ..st })
        } else {
            Err("line "@ + dec(lineno) + ": invalid allow_unbound '"@ + value + "'"@)
        }
    } else if key == "static"@ {
        match spec_parse_static(value) {
            Ok(s) => Ok(ParseState { statics: st.statics.push(s), ..st }),
            Err(e) => Err(at(lineno, e)),
        }
    } else {
        Err("line "@ + dec(lineno) + ": unknown key '"@ + key + "'"@)
    }
}

/// The state after line `lineno` (text `raw`).
pub open spec fn config_step(st: ParseState, raw: Seq<char>, lineno: nat) -> Result<ParseState, Seq<char>> {
    let line = trim(raw);
    if line.len() == 0 || line[0] == '#' {
        Ok(st)
    } else {
        match split_once(line, '=') {
            None => Err("line "@ + dec(lineno) + ": expected key=value, got '"@ + line + "'"@),
            Some((k, v)) => config_kv(st, trim(k), trim(v), lineno),
        }
    }
}

/// The state after the lines `ls` (numbered from 1), or the first error.
pub open spec fn config_lines(ls: Seq<Seq<char>>) -> Result<ParseState, Seq<char>>
    decreases ls.len(),
{
    if ls.len() == 0 {
        Ok(initial_state())
    } else {
        match config_lines(ls.drop_last()) {
            Err(e) => Err(e),
            Ok(st) => config_step(st, ls.last(), ls.len()),
        }
    }
}

/// The message for a missing required key.
pub open spec fn missing(name: Seq<char>) -> Seq<char> {
    "missing required key '"@ + name + "'"@
}

/// The configuration once all lines are read; every key but `router`,
/// `dns`, `allow_unbound` and `static` is required (checked in this order).
pub open spec fn finish(st: ParseState) -> Result<ConfigView, Seq<char>> {
    if st.interface is None {
        Err(missing("interface"@))
    } else if st.server_ip is None {
        Err(missing("server_ip"@))
    } else if st.subnet is None {
        Err(missing("subnet"@))
    } else if st.subnet_mask is None {
        Err(missing("subnet_mask"@))
    } else if st.pool_start is None {
        Err(missing("pool_start"@))
    } else if st.pool_end is None {
        Err(missing("pool_end"@))
    } else if st.lease_time is None {
        Err(missing("lease_time"@))
    } else if st.lease_file is None {
        Err(missing("lease_file"@))
    } else {
        Ok(
            ConfigView {
                interface: st.interface.unwrap(),
                server_ip: st.server_ip.unwrap(),
                subnet: st.subnet.unwrap(),
                subnet_mask: st.subnet_mask.unwrap(),
                pool_start: st.pool_start.unwrap(),
                pool_end: st.pool_end.unwrap(),
                router: st.router,
                dns: st.dns,
                lease_time: st.lease_time.unwrap(),
                lease_file: st.lease_file.unwrap(),
                allow_unbound: st.allow_unbound,
                statics: st.statics,
            },
        )
    }
}

/// What parsing the configuration text `text` gives.
pub open spec fn spec_parse_config(text: Seq<char>) -> Result<ConfigView, Seq<char>> {
    match config_lines(lines(text)) {
        Err(e) => Err(e),
        Ok(st) => finish(st),
    }
}

/// Every state the lines lead to holds a subnet prefix of at most 32.
proof fn lemma_lines_prefix(ls: Seq<Seq<char>>)
    ensures
        config_lines(ls) matches Ok(st) ==> (st.subnet matches Some(c) ==> c.1 <= 32),
    decreases ls.len(),
{
    if ls.len() > 0 {
        lemma_lines_prefix(ls.drop_last());
    }
}

/// A configuration that parses has a subnet prefix of at most 32, so it can
/// be validated.
pub proof fn lemma_parsed_prefix(text: Seq<char>)
    ensures
        spec_parse_config(text) matches Ok(v) ==> v.subnet.1 <= 32,
{
    lemma_lines_prefix(lines(text));
}

/// Two results are both errors, or both the same value.
pub open spec fn same_outcome<T>(a: Result<T, Seq<char>>, b: Result<T, Seq<char>>) -> bool {
    match (a, b) {
        (Ok(x), Ok(y)) => x == y,
        (Err(_), Err(_)) => true,
        _ => false,
    }
}

/// A blank line or a comment line.
pub open spec fn is_blank_or_comment(raw: Seq<char>) -> bool {
    trim(raw).len() == 0 || trim(raw)[0] == '#'
}

/// The line number shows only in the error of a DNS list.
proof fn lemma_dns_lineno(dns: Seq<u32>, parts: Seq<Seq<char>>, n: nat, m: nat)
    ensures
        same_outcome(dns_parts(dns, parts, n), dns_parts(dns, parts, m)),
    decreases parts.len(),
{
    if parts.len() > 0 {
        lemma_dns_lineno(dns, parts.drop_last(), n, m);
    }
}

/// The line number shows only in the error of a `key=value` line.
proof fn lemma_step_lineno(st: ParseState, raw: Seq<char>, n: nat, m: nat)
    ensures
        same_outcome(config_step(st, raw, n), config_step(st, raw, m)),
{
    let line = trim(raw);
    if !(line.len() == 0 || line[0] == '#') {
        if let Some((k, v)) = split_once(line, '=') {
            lemma_dns_lineno(st.dns, split(trim(v), ','), n, m);
        }
    }
}

/// The lines that carry content, in order: those neither blank nor comments.
pub open spec fn content_lines(ls: Seq<Seq<char>>) -> Seq<Seq<char>>
    decreases ls.len(),
{
    if ls.len() == 0 {
        Seq::empty()
    } else if is_blank_or_comment(ls.last()) {
        content_lines(ls.drop_last())
    } else {
        content_lines(ls.drop_last()).push(ls.last())
    }
}

/// Reading all the lines has the outcome of reading only those with content.
proof fn lemma_lines_content(ls: Seq<Seq<char>>)
    ensures
        same_outcome(config_lines(ls), config_lines(content_lines(ls))),
    decreases ls.len(),
{
    if ls.len() > 0 {
        let t = ls.drop_last();
        let c = content_lines(t);
        lemma_lines_content(t);
        if !is_blank_or_comment(ls.last()) {
            let d = c.push(ls.last());
            assert(d.drop_last() =~= c);
            assert(d.last() == ls.last());
            match (config_lines(t), config_lines(c)) {
                (Ok(x), Ok(y)) => {
                    lemma_step_lineno(x, ls.last(), ls.len(), d.len());
                },
                _ => {},
            }
        }
    }
}

/// Blank and comment lines do not matter: parsing a text has the outcome of
/// reading only its lines with content, so two texts whose lines with
/// content agree, however many blank or comment lines are inserted or
/// deleted between them, give the same configuration, or an error in both;
/// only the line number in an error may differ.
pub proof fn lemma_blank_lines_ignored(text: Seq<char>, text2: Seq<char>)
    requires
        content_lines(lines(text)) == content_lines(lines(text2)),
    ensures
        same_outcome(config_lines(lines(text)), config_lines(content_lines(lines(text)))),
        same_outcome(spec_parse_config(text2), spec_parse_config(text)),
{
    lemma_lines_content(lines(text));
    lemma_lines_content(lines(text2));
}

/// A field of a static binding: non-empty, free of commas, and neither
/// starting nor ending with whitespace.
pub open spec fn plain_field(t: Seq<char>) -> bool {
    &&& t.len() > 0
    &&& lacks(t, ',')
    &&& !is_ws(t[0])
    &&& !is_ws(t.last())
}

/// `w1 + t + w2` is free of commas when its parts are.
proof fn lemma_padded_field(w1: Seq<char>, t: Seq<char>, w2: Seq<char>)
    requires
        all_ws(w1),
        all_ws(w2),
        plain_field(t),
    ensures
        lacks(w1 + t + w2, ','),
        trim(w1 + t + w2) == t,
        trim(t) == t,
{
    lemma_ws_lacks(w1, ',');
    lemma_ws_lacks(w2, ',');
    lemma_concat_lacks(w1, t, ',');
    lemma_concat_lacks(w1 + t, w2, ',');
    lemma_trim_padded(w1, t, w2);
}

/// Whitespace around the fields of a static binding does not change what it
/// reads as: `name , mac , ip` with any spaces or tabs around each field
/// gives the same binding, or the same error, as `name,mac,ip`.
pub proof fn lemma_static_padding_ignored(
    name: Seq<char>,
    mac: Seq<char>,
    ip: Seq<char>,
    w1: Seq<char>,
    w2: Seq<char>,
    w3: Seq<char>,
    w4: Seq<char>,
    w5: Seq<char>,
    w6: Seq<char>,
)
    requires
        plain_field(name),
        plain_field(mac),
        plain_field(ip),
        all_ws(w1),
        all_ws(w2),
        all_ws(w3),
        all_ws(w4),
        all_ws(w5),
        all_ws(w6),
    ensures
        spec_parse_static(w1 + name + w2 + seq![','] + (w3 + mac + w4) + seq![','] + (w5 + ip + w6))
            == spec_parse_static(name + seq![','] + mac + seq![','] + ip),
{
    let pa = w1 + name + w2;
    let pb = w3 + mac + w4;
    let pc = w5 + ip + w6;
    lemma_padded_field(w1, name, w2);
    lemma_padded_field(w3, mac, w4);
    lemma_padded_field(w5, ip, w6);
    lemma_split_plain(pa, ',');
    lemma_split_append(pa, pb, ',');
    lemma_split_append(pa + seq![','] + pb, pc, ',');
    lemma_split_plain(name, ',');
    lemma_split_append(name, mac, ',');
    lemma_split_append(name + seq![','] + mac, ip, ',');
    let padded = split(pa + seq![','] + pb + seq![','] + pc, ',');
    let plain = split(name + seq![','] + mac + seq![','] + ip, ',');
    assert(padded == seq![pa, pb, pc]);
    assert(plain == seq![name, mac, ip]);
    assert(trim(padded[0]) == trim(plain[0]));
    assert(trim(padded[1]) == trim(plain[1]));
    assert(trim(padded[2]) == trim(plain[2]));
}

/// The values read so far.
struct Partial {
    interface: Option<String>,
    server_ip: Option<Ipv4Addr>,
    subnet: Option<Cidr>,
    subnet_mask: Option<Ipv4Addr>,
    pool_start: Option<Ipv4Addr>,
    pool_end: Option<Ipv4Addr>,
    router: Option<Ipv4Addr>,
    dns: Vec<Ipv4Addr>,
    lease_time: Option<u32>,
    lease_file: Option<String>,
    allow_unbound: bool,
    statics: Vec<StaticLease>,
}

spec fn opt_cidr(c: Option<Cidr>) -> Option<(u32, u8)> {
    match c {
        Some(c) => Some((c.addr.0, c.prefix)),
        None => None,
    }
}

spec fn opt_string(s: Option<String>) -> Option<Seq<char>> {
    match s {
        Some(s) => Some(s@),
        None => None,
    }
}

impl View for Partial {
    type V = ParseState;

    closed spec fn view(&self) -> ParseState {
        ParseState {
            interface: opt_string(self.interface),
            server_ip: opt_ip(self.server_ip),
            subnet: opt_cidr(self.subnet),
            subnet_mask: opt_ip(self.subnet_mask),
            pool_start: opt_ip(self.pool_start),
            pool_end: opt_ip(self.pool_end),
            router: opt_ip(self.router),
            dns: ip_values(self.dns@),
            lease_time: self.lease_time,
            lease_file: opt_string(self.lease_file),
            allow_unbound: self.allow_unbound,
            statics: static_values(self.statics@),
        }
    }
}

/// `"line <n>: "` followed by `e`.
fn at_line(lineno: usize, e: &str) -> (r: String)
    ensures
        r@ == at(lineno as nat, e@),
{
    let mut out: Vec<char> = Vec::new();
    push_str(&mut out, "line ");
    push_dec(&mut out, lineno as u64);
    push_str(&mut out, ": ");
    push_str(&mut out, e);
    string_of(&out)
}

/// `"line <n>: <what> '<value>'"`.
fn line_msg(lineno: usize, what: &str, value: &[char]) -> (r: String)
    ensures
        r@ == "line "@ + dec(lineno as nat) + what@ + value@ + "'"@,
{
    let mut out: Vec<char> = Vec::new();
    push_str(&mut out, "line ");
    push_dec(&mut out, lineno as u64);
    push_str(&mut out, what);
    push_chars(&mut out, value);
    push_str(&mut out, "'");
    string_of(&out)
}

/// Parse `name,mac,ip`.
fn parse_static(value: &[char]) -> (r: Result<StaticLease, String>)
    ensures
        match r {
            Ok(s) => spec_parse_static(value@) == Ok::<(Seq<char>, Seq<u8>, u32), Seq<char>>((s.name@, s.mac@, s.ip.0)),
            Err(e) => spec_parse_static(value@) == Err::<(Seq<char>, Seq<u8>, u32), Seq<char>>(e@),
        },
{
    let parts = split_chars(value, ',');
    assert(seqs(parts@) == split(value@, ','));
    if parts.len() != 3 {
        let mut out: Vec<char> = Vec::new();
        push_str(&mut out, "static must be 'name,mac,ip', got '");
        push_chars(&mut out, value);
        push_str(&mut out, "'");
        return Err(string_of(&out));
    }
    assert(parts[0]@ == split(value@, ',')[0]);
    assert(parts[1]@ == split(value@, ',')[1]);
    assert(parts[2]@ == split(value@, ',')[2]);
    let name = trim_chars(&parts[0]);
    let mac_text = trim_chars(&parts[1]);
    let ip_text = trim_chars(&parts[2]);
    let mac = match parse_mac_chars(&mac_text) {
        Ok(m) => m,
        Err(e) => return Err(e),
    };
    let ip = match parse_ipv4_chars(&ip_text) {
        Ok(ip) => ip,
        Err(e) => return Err(e),
    };
    Ok(StaticLease { name: string_of(&name), mac, ip })
}

/// Append the addresses of a `dns=` value to `dns`.
fn parse_dns(dns: &mut Vec<Ipv4Addr>, value: &[char], lineno: usize) -> (r: Result<(), String>)
    ensures
        match r {
            Ok(()) => dns_parts(ip_values(old(dns)@), split(value@, ','), lineno as nat) == Ok::<Seq<u32>, Seq<char>>(ip_values(final(dns)@)),
            Err(e) => dns_parts(ip_values(old(dns)@), split(value@, ','), lineno as nat) == Err::<Seq<u32>, Seq<char>>(e@),
        },
{
    let parts = split_chars(value, ',');
    let ghost ps = split(value@, ',');
    let ghost d0 = ip_values(dns@);
    assert(seqs(parts@) == ps);
    let mut k: usize = 0;
    assert(ps.take(0) =~= Seq::<Seq<char>>::empty());
    while k < parts.len()
        invariant
            k <= parts.len(),
            seqs(parts@) == ps,
            ps == split(value@, ','),
            d0 == ip_values(old(dns)@),
            dns_parts(d0, ps.take(k as int), lineno as nat) == Ok::<Seq<u32>, Seq<char>>(ip_values(dns@)),
        decreases parts.len() - k,
    {
        assert(ps.take(k + 1).drop_last() =~= ps.take(k as int));
        assert(ps.take(k + 1).last() == parts[k as int]@);
        let part = trim_chars(&parts[k]);
        if part.len() > 0 {
            match parse_ipv4_chars(&part) {
                Ok(ip) => {
                    let ghost before = ip_values(dns@);
                    dns.push(ip);
                    assert(ip_values(dns@) =~= before.push(ip.0));
                },
                Err(e) => {
                    let r = at_line(lineno, e.as_str());
                    assert(dns_parts(d0, ps.take(k + 1), lineno as nat) == Err::<Seq<u32>, Seq<char>>(r@));
                    proof {
                        lemma_dns_err_sticks(d0, ps, lineno as nat, k as int + 1, r@);
                    }
                    return Err(r);
                },
            }
        }
        k += 1;
    }
    assert(ps.take(parts.len() as int) =~= ps);
    Ok(())
}

proof fn lemma_dns_err_sticks(d: Seq<u32>, ps: Seq<Seq<char>>, lineno: nat, k: int, e: Seq<char>)
    requires
        0 <= k <= ps.len(),
        dns_parts(d, ps.take(k), lineno) == Err::<Seq<u32>, Seq<char>>(e),
    ensures
        dns_parts(d, ps, lineno) == Err::<Seq<u32>, Seq<char>>(e),
    decreases ps.len() - k,
{
    if k < ps.len() {
        assert(ps.take(k + 1).drop_last() =~= ps.take(k));
        lemma_dns_err_sticks(d, ps, lineno, k + 1, e);
    } else {
        assert(ps.take(k) =~= ps);
    }
}

/// Parse an address value on line `lineno`.
fn ip_value(value: &[char], lineno: usize) -> (r: Result<Ipv4Addr, String>)
    ensures
        match r {
            Ok(ip) => ip_field(value@, lineno as nat) == Ok::<u32, Seq<char>>(ip.0),
            Err(e) => ip_field(value@, lineno as nat) == Err::<u32, Seq<char>>(e@),
        },
{
    match parse_ipv4_chars(value) {
        Ok(ip) => Ok(ip),
        Err(e) => Err(at_line(lineno, e.as_str())),
    }
}

/// Apply `key=value` from line `lineno`.
fn apply_kv(p: &mut Partial, key: &[char], value: &[char], lineno: usize) -> (r: Result<(), String>)
    ensures
        match r {
            Ok(()) => config_kv(old(p)@, key@, value@, lineno as nat) == Ok::<ParseState, Seq<char>>(final(p)@),
            Err(e) => config_kv(old(p)@, key@, value@, lineno as nat) == Err::<ParseState, Seq<char>>(e@),
        },
{
    if eq_str(key, "interface") {
        p.interface = Some(string_of(value));
        Ok(())
    } else if eq_str(key, "server_ip") {
        let ip = ip_value(value, lineno)?;
        p.server_ip = Some(ip);
        Ok(())
    } else if eq_str(key, "subnet") {
        match parse_cidr_chars(value) {
            Ok(c) => {
                p.subnet = Some(c);
                Ok(())
            },
            Err(e) => Err(at_line(lineno, e.as_str())),
        }
    } else if eq_str(key, "subnet_mask") {
        let ip = ip_value(value, lineno)?;
        p.subnet_mask = Some(ip);
        Ok(())
    } else if eq_str(key, "pool_start") {
        let ip = ip_value(value, lineno)?;
        p.pool_start = Some(ip);
        Ok(())
    } else if eq_str(key, "pool_end") {
        let ip = ip_value(value, lineno)?;
        p.pool_end = Some(ip);
        Ok(())
    } else if eq_str(key, "router") {
        let ip = ip_value(value, lineno)?;
        p.router = Some(ip);
        Ok(())
    } else if eq_str(key, "dns") {
        parse_dns(&mut p.dns, value, lineno)
    } else if eq_str(key, "lease_time") {
        match parse_uint_chars(value, 10, 0xffff_ffff) {
            Some(t) => {
                p.lease_time = Some(t as u32);
                Ok(())
            },
            None => Err(line_msg(lineno, ": invalid lease_time '", value)),
        }
    } else if eq_str(key, "lease_file") {
        p.lease_file = Some(string_of(value));
        Ok(())
    } else if eq_str(key, "allow_unbound") {
        if eq_str(value, "true") {
            p.allow_unbound = true;
            Ok(())
        } else if eq_str(value, "false") {
            p.allow_unbound = false;
            Ok(())
        } else {
            Err(line_msg(lineno, ": invalid allow_unbound '", value))
        }
    } else if eq_str(key, "static") {
        match parse_static(value) {
            Ok(s) => {
                let ghost before = static_values(p.statics@);
                p.statics.push(s);
                assert(static_values(p.statics@) =~= before.push((s.name@, s.mac@, s.ip.0)));
                Ok(())
            },
            Err(e) => Err(at_line(lineno, e.as_str())),
        }
    } else {
        Err(line_msg(lineno, ": unknown key '", key))
    }
}

/// Apply line `lineno` (text `raw`).
fn apply_line(p: &mut Partial, raw: &[char], lineno: usize) -> (r: Result<(), String>)
    ensures
        match r {
            Ok(()) => config_step(old(p)@, raw@, lineno as nat) == Ok::<ParseState, Seq<char>>(final(p)@),
            Err(e) => config_step(old(p)@, raw@, lineno as nat) == Err::<ParseState, Seq<char>>(e@),
        },
{
    let line = trim_chars(raw);
    if line.len() == 0 || line[0] == '#' {
        return Ok(());
    }
    match split_once_chars(&line, '=') {
        None => {
            let mut out: Vec<char> = Vec::new();
            push_str(&mut out, "line ");
            push_dec(&mut out, lineno as u64);
            push_str(&mut out, ": expected key=value, got '");
            push_chars(&mut out, &line);
            push_str(&mut out, "'");
            Err(string_of(&out))
        },
        Some((k, v)) => {
            let key = trim_chars(&k);
            let value = trim_chars(&v);
            apply_kv(p, &key, &value, lineno)
        },
    }
}

/// The message for a missing required key.
fn missing_key(name: &str) -> (r: String)
    ensures
        r@ == missing(name@),
{
    let mut out: Vec<char> = Vec::new();
    push_str(&mut out, "missing required key '");
    push_str(&mut out, name);
    push_str(&mut out, "'");
    string_of(&out)
}

proof fn lemma_lines_err_sticks(ls: Seq<Seq<char>>, k: int, e: Seq<char>)
    requires
        0 <= k <= ls.len(),
        config_lines(ls.take(k)) == Err::<ParseState, Seq<char>>(e),
    ensures
        config_lines(ls) == Err::<ParseState, Seq<char>>(e),
    decreases ls.len() - k,
{
    if k < ls.len() {
        assert(ls.take(k + 1).drop_last() =~= ls.take(k));
        lemma_lines_err_sticks(ls, k + 1, e);
    } else {
        assert(ls.take(k) =~= ls);
    }
}

/// Parse the whole configuration text.
pub fn parse_config(text: &str) -> (r: Result<DhcpConfig, String>)
    ensures
        match r {
            Ok(c) => spec_parse_config(text@) == Ok::<ConfigView, Seq<char>>(c@),
            Err(e) => spec_parse_config(text@) == Err::<ConfigView, Seq<char>>(e@),
        },
        r matches Ok(c) ==> c.subnet.prefix <= 32,
{
    proof {
        lemma_parsed_prefix(text@);
    }
    let cs = chars_of(text);
    let ls = lines_of(&cs);
    let ghost sl = lines(text@);
    let mut p = Partial {
        interface: None,
        server_ip: None,
        subnet: None,
        subnet_mask: None,
        pool_start: None,
        pool_end: None,
        router: None,
        dns: Vec::new(),
        lease_time: None,
        lease_file: None,
        allow_unbound: false,
        statics: Vec::new(),
    };
    assert(ip_values(p.dns@) =~= Seq::<u32>::empty());
    assert(static_values(p.statics@) =~= Seq::<(Seq<char>, Seq<u8>, u32)>::empty());
    assert(p@ =~= initial_state());
    assert(sl.take(0) =~= Seq::<Seq<char>>::empty());
    let mut i: usize = 0;
    while i < ls.len()
        invariant
            i <= ls.len(),
            seqs(ls@) == sl,
            sl == lines(text@),
            config_lines(sl.take(i as int)) == Ok::<ParseState, Seq<char>>(p@),
        decreases ls.len() - i,
    {
        assert(sl.take(i + 1).drop_last() =~= sl.take(i as int));
        assert(sl.take(i + 1).last() == ls[i as int]@);
        assert(sl.take(i + 1).len() == i + 1);
        let ghost before = p@;
        match apply_line(&mut p, &ls[i], i + 1) {
            Ok(()) => {},
            Err(e) => {
                assert(config_lines(sl.take(i + 1)) == config_step(before, ls[i as int]@, (i + 1) as nat));
                proof {
                    lemma_lines_err_sticks(sl, i + 1, e@);
                }
                return Err(e);
            },
        }
        i += 1;
    }
    assert(sl.take(ls.len() as int) =~= sl);
    let interface = match p.interface {
        Some(v) => v,
        None => return Err(missing_key("interface")),
    };
    let server_ip = match p.server_ip {
        Some(v) => v,
        None => return Err(missing_key("server_ip")),
    };
    let subnet = match p.subnet {
        Some(v) => v,
        None => return Err(missing_key("subnet")),
    };
    let subnet_mask = match p.subnet_mask {
        Some(v) => v,
        None => return Err(missing_key("subnet_mask")),
    };
    let pool_start = match p.pool_start {
        Some(v) => v,
        None => return Err(missing_key("pool_start")),
    };
    let pool_end = match p.pool_end {
        Some(v) => v,
        None => return Err(missing_key("pool_end")),
    };
    let lease_time = match p.lease_time {
        Some(v) => v,
        None => return Err(missing_key("lease_time")),
    };
    let lease_file = match p.lease_file {
        Some(v) => v,
        None => return Err(missing_key("lease_file")),
    };
    Ok(
        DhcpConfig {
            interface,
            server_ip,
            subnet,
            subnet_mask,
            pool_start,
            pool_end,
            router: p.router,
            dns: p.dns,
            lease_time,
            lease_file,
            allow_unbound: p.allow_unbound,
            statics: p.statics,
        },
    )
}

}
