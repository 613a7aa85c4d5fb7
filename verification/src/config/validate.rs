//! Semantic validation of a parsed [`DhcpConfig`].
//!
//! The parser guarantees syntax and presence; this checks that the values make
//! sense together (subnet membership, pool ordering, mask/prefix agreement,
//! duplicate static bindings).
use vstd::prelude::*;

use super::model::{DhcpConfig, StaticLease};
use crate::util::ip::{ip_text, lemma_cidr_range, prefix_mask, push_ip, Ipv4Addr};
use crate::util::mac::{mac_text, push_mac};
use crate::util::text::{dec, join, push_chars, push_dec, push_str, string_of};

verus! {

/// The texts of `v`.
pub open spec fn texts(v: Seq<String>) -> Seq<Seq<char>> {
    v.map_values(|s: String| s@)
}

/// `<label> <ip> is outside subnet <network>/<prefix>`.
pub open spec fn outside_msg(label: Seq<char>, ip: u32, c: DhcpConfig) -> Seq<char> {
    label + " "@ + ip_text(ip) + " is outside subnet "@ + ip_text(c.subnet.spec_network()) + "/"@
        + dec(c.subnet.prefix as nat)
}

/// The complaint if `ip` is not inside the configured subnet.
pub open spec fn subnet_check(c: DhcpConfig, ip: u32, label: Seq<char>) -> Seq<Seq<char>> {
    if c.subnet.spec_contains(ip) {
        Seq::empty()
    } else {
        seq![outside_msg(label, ip, c)]
    }
}

/// The complaint if `ip` is the network or broadcast address.
pub open spec fn edge_check(c: DhcpConfig, ip: u32, label: Seq<char>) -> Seq<Seq<char>> {
    if ip == c.subnet.spec_network() || ip == c.subnet.spec_broadcast() {
        seq![label + " "@ + ip_text(ip) + " must not be the network or broadcast address"@]
    } else {
        Seq::empty()
    }
}

/// The latest binding before position `j` with the same MAC as binding `k`,
/// or -1.
pub open spec fn prev_same_mac(st: Seq<StaticLease>, k: int, j: int) -> int
    decreases j,
{
    if j <= 0 {
        -1
    } else if st[j - 1].mac@ == st[k].mac@ {
        j - 1
    } else {
        prev_same_mac(st, k, j - 1)
    }
}

/// The latest binding before position `j` with the same IP as binding `k`,
/// or -1.
pub open spec fn prev_same_ip(st: Seq<StaticLease>, k: int, j: int) -> int
    decreases j,
{
    if j <= 0 {
        -1
    } else if st[j - 1].ip == st[k].ip {
        j - 1
    } else {
        prev_same_ip(st, k, j - 1)
    }
}

/// The complaints about static binding `k`: an empty name, an address
/// outside the subnet or on its network/broadcast address, and a MAC or
/// address already used by an earlier binding.
pub open spec fn static_errors(c: DhcpConfig, k: int) -> Seq<Seq<char>> {
    let st = c.statics@;
    let s = st[k];
    let name_err = if s.name@.len() == 0 {
        seq!["static binding for MAC "@ + mac_text(s.mac@) + " has an empty name"@]
    } else {
        Seq::empty()
    };
    let outside = if c.subnet.spec_contains(s.ip.0) {
        Seq::empty()
    } else {
        seq![
            "static '"@ + s.name@ + "': IP "@ + ip_text(s.ip.0) + " is outside subnet "@ + ip_text(
                c.subnet.spec_network(),
            ) + "/"@ + dec(c.subnet.prefix as nat),
        ]
    };
    let edge = if s.ip.0 == c.subnet.spec_network() || s.ip.0 == c.subnet.spec_broadcast() {
        seq!["static '"@ + s.name@ + "': IP "@ + ip_text(s.ip.0) + " is the network or broadcast address"@]
    } else {
        Seq::empty()
    };
    let pm = prev_same_mac(st, k, k);
    let dup_mac = if pm >= 0 {
        seq![
            "duplicate static MAC "@ + mac_text(s.mac@) + " (used by '"@ + st[pm].name@ + "' and '"@
                + s.name@ + "')"@,
        ]
    } else {
        Seq::empty()
    };
    let pi = prev_same_ip(st, k, k);
    let dup_ip = if pi >= 0 {
        seq![
            "duplicate static IP "@ + ip_text(s.ip.0) + " (used by '"@ + st[pi].name@ + "' and '"@
                + s.name@ + "')"@,
        ]
    } else {
        Seq::empty()
    };
    name_err + outside + edge + dup_mac + dup_ip
}

/// The complaints about the first `n` static bindings, in order.
pub open spec fn statics_errors(c: DhcpConfig, n: int) -> Seq<Seq<char>>
    decreases n,
{
    if n <= 0 {
        Seq::empty()
    } else {
        statics_errors(c, n - 1) + static_errors(c, n - 1)
    }
}

/// Empty interface or lease file, too many DNS servers, mask mismatch.
pub open spec fn basic_errors(c: DhcpConfig) -> Seq<Seq<char>> {
    let iface = if c.interface@.len() == 0 {
        seq!["interface must not be empty"@]
    } else {
        Seq::empty()
    };
    let lfile = if c.lease_file@.len() == 0 {
        seq!["lease_file must not be empty"@]
    } else {
        Seq::empty()
    };
    let dns = if c.dns@.len() > 63 {
        seq!["too many dns servers ("@ + dec(c.dns@.len()) + "): at most 63 fit in one DHCP option"@]
    } else {
        Seq::empty()
    };
    let mask = if prefix_mask(c.subnet.prefix) != c.subnet_mask.0 {
        seq![
            "subnet_mask "@ + ip_text(c.subnet_mask.0) + " does not match subnet prefix /"@ + dec(
                c.subnet.prefix as nat,
            ) + " (expected "@ + ip_text(prefix_mask(c.subnet.prefix)) + ")"@,
        ]
    } else {
        Seq::empty()
    };
    iface + lfile + dns + mask
}

/// Server, pool ends and router outside the subnet.
pub open spec fn membership_errors(c: DhcpConfig) -> Seq<Seq<char>> {
    let router_in = match c.router {
        Some(r) => subnet_check(c, r.0, "router"@),
        None => Seq::empty(),
    };
    subnet_check(c, c.server_ip.0, "server_ip"@) + subnet_check(c, c.pool_start.0, "pool_start"@)
        + subnet_check(c, c.pool_end.0, "pool_end"@) + router_in
}

/// Reversed pool, zero lease time.
pub open spec fn range_errors(c: DhcpConfig) -> Seq<Seq<char>> {
    let order = if c.pool_start.0 > c.pool_end.0 {
        seq!["pool_start "@ + ip_text(c.pool_start.0) + " is greater than pool_end "@ + ip_text(c.pool_end.0)]
    } else {
        Seq::empty()
    };
    let lt = if c.lease_time == 0 {
        seq!["lease_time must be greater than 0"@]
    } else {
        Seq::empty()
    };
    order + lt
}

/// Key addresses on the network or broadcast address.
pub open spec fn edge_errors(c: DhcpConfig) -> Seq<Seq<char>> {
    let router_edge = match c.router {
        Some(r) => edge_check(c, r.0, "router"@),
        None => Seq::empty(),
    };
    edge_check(c, c.server_ip.0, "server_ip"@) + edge_check(c, c.pool_start.0, "pool_start"@)
        + edge_check(c, c.pool_end.0, "pool_end"@) + router_edge
}

/// The server's own address inside the pool.
pub open spec fn pool_errors(c: DhcpConfig) -> Seq<Seq<char>> {
    if c.pool_start.0 <= c.server_ip.0 <= c.pool_end.0 {
        seq![
            "server_ip "@ + ip_text(c.server_ip.0) + " is inside the dynamic pool "@ + ip_text(c.pool_start.0)
                + "..="@ + ip_text(c.pool_end.0),
        ]
    } else {
        Seq::empty()
    }
}

/// Every problem with `c`, in the order they are reported.
pub open spec fn validation_errors(c: DhcpConfig) -> Seq<Seq<char>> {
    basic_errors(c) + membership_errors(c) + range_errors(c) + edge_errors(c) + pool_errors(c)
        + statics_errors(c, c.statics@.len() as int)
}

/// `Ok` when `c` has no problem, else every problem, one per line.
pub open spec fn spec_validate(c: DhcpConfig) -> Result<(), Seq<char>> {
    let errs = validation_errors(c);
    if errs.len() == 0 {
        Ok(())
    } else {
        Err(join(errs, "\n"@))
    }
}

fn push_err(errors: &mut Vec<String>, out: Vec<char>)
    ensures
        texts(final(errors)@) == texts(old(errors)@).push(out@),
{
    let ghost before = texts(errors@);
    errors.push(string_of(&out));
    assert(texts(errors@) =~= before.push(out@));
}

fn check_in_subnet(c: &DhcpConfig, ip: Ipv4Addr, label: &str, errors: &mut Vec<String>)
    requires
        c.subnet.prefix <= 32,
    ensures
        texts(final(errors)@) == texts(old(errors)@) + subnet_check(*c, ip.0, label@),
{
    if !c.subnet.contains(ip) {
        let mut out: Vec<char> = Vec::new();
        push_str(&mut out, label);
        push_str(&mut out, " ");
        push_ip(&mut out, ip);
        push_str(&mut out, " is outside subnet ");
        push_ip(&mut out, c.subnet.network());
        push_str(&mut out, "/");
        push_dec(&mut out, c.subnet.prefix as u64);
        push_err(errors, out);
    } else {
        assert(texts(errors@) + Seq::<Seq<char>>::empty() =~= texts(errors@));
    }
}

fn check_edge(c: &DhcpConfig, ip: Ipv4Addr, label: &str, errors: &mut Vec<String>)
    requires
        c.subnet.prefix <= 32,
    ensures
        texts(final(errors)@) == texts(old(errors)@) + edge_check(*c, ip.0, label@),
{
    if ip == c.subnet.network() || ip == c.subnet.broadcast() {
        let mut out: Vec<char> = Vec::new();
        push_str(&mut out, label);
        push_str(&mut out, " ");
        push_ip(&mut out, ip);
        push_str(&mut out, " must not be the network or broadcast address");
        push_err(errors, out);
    } else {
        assert(texts(errors@) + Seq::<Seq<char>>::empty() =~= texts(errors@));
    }
}

fn find_prev_mac(st: &Vec<StaticLease>, k: usize) -> (r: Option<usize>)
    requires
        k < st.len(),
    ensures
        match r {
            Some(j) => prev_same_mac(st@, k as int, k as int) == j as int && j < k,
            None => prev_same_mac(st@, k as int, k as int) == -1,
        },
{
    let mut j = k;
    while j > 0
        invariant
            j <= k < st.len(),
            prev_same_mac(st@, k as int, k as int) == prev_same_mac(st@, k as int, j as int),
        decreases j,
    {
        if st[j - 1].mac == st[k].mac {
            return Some(j - 1);
        }
        j -= 1;
    }
    None
}

fn find_prev_ip(st: &Vec<StaticLease>, k: usize) -> (r: Option<usize>)
    requires
        k < st.len(),
    ensures
        match r {
            Some(j) => prev_same_ip(st@, k as int, k as int) == j as int && j < k,
            None => prev_same_ip(st@, k as int, k as int) == -1,
        },
{
    let mut j = k;
    while j > 0
        invariant
            j <= k < st.len(),
            prev_same_ip(st@, k as int, k as int) == prev_same_ip(st@, k as int, j as int),
        decreases j,
    {
        if st[j - 1].ip == st[k].ip {
            return Some(j - 1);
        }
        j -= 1;
    }
    None
}

fn check_static(c: &DhcpConfig, k: usize, errors: &mut Vec<String>)
    requires
        c.subnet.prefix <= 32,
        k < c.statics.len(),
    ensures
        texts(final(errors)@) == texts(old(errors)@) + static_errors(*c, k as int),
{
    let ghost start = texts(errors@);
    let s = &c.statics[k];
    let network = c.subnet.network();
    let ghost e1: Seq<Seq<char>> = Seq::empty();
    let ghost e2: Seq<Seq<char>> = Seq::empty();
    let ghost e3: Seq<Seq<char>> = Seq::empty();
    let ghost e4: Seq<Seq<char>> = Seq::empty();
    let ghost e5: Seq<Seq<char>> = Seq::empty();
    if s.name.as_str().unicode_len() == 0 {
        let mut out: Vec<char> = Vec::new();
        push_str(&mut out, "static binding for MAC ");
        push_mac(&mut out, s.mac);
        push_str(&mut out, " has an empty name");
        proof { e1 = seq![out@]; }
        push_err(errors, out);
    }
    if !c.subnet.contains(s.ip) {
        let mut out: Vec<char> = Vec::new();
        push_str(&mut out, "static '");
        push_str(&mut out, s.name.as_str());
        push_str(&mut out, "': IP ");
        push_ip(&mut out, s.ip);
        push_str(&mut out, " is outside subnet ");
        push_ip(&mut out, network);
        push_str(&mut out, "/");
        push_dec(&mut out, c.subnet.prefix as u64);
        proof { e2 = seq![out@]; }
        push_err(errors, out);
    }
    if s.ip == network || s.ip == c.subnet.broadcast() {
        let mut out: Vec<char> = Vec::new();
        push_str(&mut out, "static '");
        push_str(&mut out, s.name.as_str());
        push_str(&mut out, "': IP ");
        push_ip(&mut out, s.ip);
        push_str(&mut out, " is the network or broadcast address");
        proof { e3 = seq![out@]; }
        push_err(errors, out);
    }
    if let Some(j) = find_prev_mac(&c.statics, k) {
        let mut out: Vec<char> = Vec::new();
        push_str(&mut out, "duplicate static MAC ");
        push_mac(&mut out, s.mac);
        push_str(&mut out, " (used by '");
        push_str(&mut out, c.statics[j].name.as_str());
        push_str(&mut out, "' and '");
        push_str(&mut out, s.name.as_str());
        push_str(&mut out, "')");
        proof { e4 = seq![out@]; }
        push_err(errors, out);
    }
    if let Some(j) = find_prev_ip(&c.statics, k) {
        let mut out: Vec<char> = Vec::new();
        push_str(&mut out, "duplicate static IP ");
        push_ip(&mut out, s.ip);
        push_str(&mut out, " (used by '");
        push_str(&mut out, c.statics[j].name.as_str());
        push_str(&mut out, "' and '");
        push_str(&mut out, s.name.as_str());
        push_str(&mut out, "')");
        proof { e5 = seq![out@]; }
        push_err(errors, out);
    }
    assert(texts(errors@) =~= start + (e1 + e2 + e3 + e4 + e5));
    assert(e1 + e2 + e3 + e4 + e5 =~= static_errors(*c, k as int));
}

/// The error lines joined with newlines.
fn join_lines(errors: &Vec<String>) -> (r: String)
    ensures
        r@ == join(texts(errors@), "\n"@),
{
    let mut out: Vec<char> = Vec::new();
    let ghost es = texts(errors@);
    let mut k: usize = 0;
    assert(es.take(0) =~= Seq::<Seq<char>>::empty());
    while k < errors.len()
        invariant
            k <= errors.len(),
            es == texts(errors@),
            out@ == join(es.take(k as int), "\n"@),
        decreases errors.len() - k,
    {
        assert(es.take(k + 1).drop_last() =~= es.take(k as int));
        assert(es.take(k + 1).last() == errors[k as int]@);
        if k > 0 {
            push_str(&mut out, "\n");
        } else {
            assert(join(es.take(0), "\n"@) =~= Seq::<char>::empty());
        }
        push_str(&mut out, errors[k].as_str());
        assert(out@ =~= join(es.take(k + 1), "\n"@));
        k += 1;
    }
    assert(es.take(errors.len() as int) =~= es);
    string_of(&out)
}

fn check_basic(c: &DhcpConfig, errors: &mut Vec<String>)
    requires
        c.subnet.prefix <= 32,
    ensures
        texts(final(errors)@) == texts(old(errors)@) + basic_errors(*c),
{
    let ghost start = texts(errors@);
    let ghost e1: Seq<Seq<char>> = Seq::empty();
    let ghost e2: Seq<Seq<char>> = Seq::empty();
    let ghost e3: Seq<Seq<char>> = Seq::empty();
    let ghost e4: Seq<Seq<char>> = Seq::empty();
    if c.interface.as_str().unicode_len() == 0 {
        let mut out: Vec<char> = Vec::new();
        push_str(&mut out, "interface must not be empty");
        proof { e1 = seq![out@]; }
        push_err(errors, out);
    }
    if c.lease_file.as_str().unicode_len() == 0 {
        let mut out: Vec<char> = Vec::new();
        push_str(&mut out, "lease_file must not be empty");
        proof { e2 = seq![out@]; }
        push_err(errors, out);
    }
    if c.dns.len() > 63 {
        let mut out: Vec<char> = Vec::new();
        push_str(&mut out, "too many dns servers (");
        push_dec(&mut out, c.dns.len() as u64);
        push_str(&mut out, "): at most 63 fit in one DHCP option");
        proof { e3 = seq![out@]; }
        push_err(errors, out);
    }
    let netmask = c.subnet.netmask();
    if netmask != c.subnet_mask {
        let mut out: Vec<char> = Vec::new();
        push_str(&mut out, "subnet_mask ");
        push_ip(&mut out, c.subnet_mask);
        push_str(&mut out, " does not match subnet prefix /");
        push_dec(&mut out, c.subnet.prefix as u64);
        push_str(&mut out, " (expected ");
        push_ip(&mut out, netmask);
        push_str(&mut out, ")");
        proof { e4 = seq![out@]; }
        push_err(errors, out);
    }
    assert(texts(errors@) =~= start + (e1 + e2 + e3 + e4));
    assert(e1 + e2 + e3 + e4 =~= basic_errors(*c));
}

fn check_membership(c: &DhcpConfig, errors: &mut Vec<String>)
    requires
        c.subnet.prefix <= 32,
    ensures
        texts(final(errors)@) == texts(old(errors)@) + membership_errors(*c),
{
    let ghost start = texts(errors@);
    check_in_subnet(c, c.server_ip, "server_ip", errors);
    check_in_subnet(c, c.pool_start, "pool_start", errors);
    check_in_subnet(c, c.pool_end, "pool_end", errors);
    if let Some(router) = c.router {
        check_in_subnet(c, router, "router", errors);
    }
    assert(texts(errors@) =~= start + membership_errors(*c));
}

fn check_ranges(c: &DhcpConfig, errors: &mut Vec<String>)
    ensures
        texts(final(errors)@) == texts(old(errors)@) + range_errors(*c),
{
    let ghost start = texts(errors@);
    let ghost e1: Seq<Seq<char>> = Seq::empty();
    let ghost e2: Seq<Seq<char>> = Seq::empty();
    if c.pool_start.0 > c.pool_end.0 {
        let mut out: Vec<char> = Vec::new();
        push_str(&mut out, "pool_start ");
        push_ip(&mut out, c.pool_start);
        push_str(&mut out, " is greater than pool_end ");
        push_ip(&mut out, c.pool_end);
        proof { e1 = seq![out@]; }
        push_err(errors, out);
    }
    if c.lease_time == 0 {
        let mut out: Vec<char> = Vec::new();
        push_str(&mut out, "lease_time must be greater than 0");
        proof { e2 = seq![out@]; }
        push_err(errors, out);
    }
    assert(texts(errors@) =~= start + (e1 + e2));
    assert(e1 + e2 =~= range_errors(*c));
}

fn check_edges(c: &DhcpConfig, errors: &mut Vec<String>)
    requires
        c.subnet.prefix <= 32,
    ensures
        texts(final(errors)@) == texts(old(errors)@) + edge_errors(*c),
{
    let ghost start = texts(errors@);
    check_edge(c, c.server_ip, "server_ip", errors);
    check_edge(c, c.pool_start, "pool_start", errors);
    check_edge(c, c.pool_end, "pool_end", errors);
    if let Some(router) = c.router {
        check_edge(c, router, "router", errors);
    }
    assert(texts(errors@) =~= start + edge_errors(*c));
}

fn check_pool(c: &DhcpConfig, errors: &mut Vec<String>)
    ensures
        texts(final(errors)@) == texts(old(errors)@) + pool_errors(*c),
{
    if c.pool_start.0 <= c.server_ip.0 && c.server_ip.0 <= c.pool_end.0 {
        let mut out: Vec<char> = Vec::new();
        push_str(&mut out, "server_ip ");
        push_ip(&mut out, c.server_ip);
        push_str(&mut out, " is inside the dynamic pool ");
        push_ip(&mut out, c.pool_start);
        push_str(&mut out, "..=");
        push_ip(&mut out, c.pool_end);
        push_err(errors, out);
    } else {
        assert(texts(errors@) + Seq::<Seq<char>>::empty() =~= texts(errors@));
    }
}

/// `Ok(())` if the config is usable, otherwise a multi-line error listing
/// every problem found.
pub fn validate(c: &DhcpConfig) -> (r: Result<(), String>)
    requires
        c.subnet.prefix <= 32,
    ensures
        match r {
            Ok(()) => spec_validate(*c) == Ok::<(), Seq<char>>(()),
            Err(e) => spec_validate(*c) == Err::<(), Seq<char>>(e@),
        },
{
    let mut errors: Vec<String> = Vec::new();
    assert(texts(errors@) =~= Seq::<Seq<char>>::empty());
    check_basic(c, &mut errors);
    check_membership(c, &mut errors);
    check_ranges(c, &mut errors);
    check_edges(c, &mut errors);
    check_pool(c, &mut errors);
    let ghost before_statics = texts(errors@);
    assert(before_statics =~= basic_errors(*c) + membership_errors(*c) + range_errors(*c) + edge_errors(*c) + pool_errors(*c));
    let mut k: usize = 0;
    assert(statics_errors(*c, 0) =~= Seq::<Seq<char>>::empty());
    while k < c.statics.len()
        invariant
            k <= c.statics.len(),
            c.subnet.prefix <= 32,
            texts(errors@) == before_statics + statics_errors(*c, k as int),
        decreases c.statics.len() - k,
    {
        check_static(c, k, &mut errors);
        assert(before_statics + statics_errors(*c, k + 1) =~= before_statics + statics_errors(*c, k as int) + static_errors(*c, k as int));
        k += 1;
    }
    assert(texts(errors@) =~= validation_errors(*c));
    if errors.len() == 0 {
        Ok(())
    } else {
        Err(join_lines(&errors))
    }
}


/// No binding before position `j` has the MAC of binding `k` when the
/// search finds none.
proof fn lemma_prev_same_mac_none(st: Seq<StaticLease>, k: int, j: int)
    requires
        0 <= k < st.len(),
        j <= st.len(),
        prev_same_mac(st, k, j) < 0,
    ensures
        forall|i: int| 0 <= i < j ==> #[trigger] st[i].mac@ != st[k].mac@,
    decreases j,
{
    if j > 0 {
        lemma_prev_same_mac_none(st, k, j - 1);
    }
}

/// No binding before position `j` has the address of binding `k` when the
/// search finds none.
proof fn lemma_prev_same_ip_none(st: Seq<StaticLease>, k: int, j: int)
    requires
        0 <= k < st.len(),
        j <= st.len(),
        prev_same_ip(st, k, j) < 0,
    ensures
        forall|i: int| 0 <= i < j ==> #[trigger] st[i].ip != st[k].ip,
    decreases j,
{
    if j > 0 {
        lemma_prev_same_ip_none(st, k, j - 1);
    }
}

/// When the first `n` bindings raise no complaint, none of them does.
proof fn lemma_statics_clean(c: DhcpConfig, n: int, k: int)
    requires
        0 <= k < n,
        statics_errors(c, n).len() == 0,
    ensures
        static_errors(c, k).len() == 0,
    decreases n,
{
    if k < n - 1 {
        lemma_statics_clean(c, n - 1, k);
    }
}

/// No complaint at all means no complaint of any group.
proof fn lemma_validation_parts(c: DhcpConfig)
    requires
        spec_validate(c) is Ok,
    ensures
        basic_errors(c).len() == 0,
        membership_errors(c).len() == 0,
        range_errors(c).len() == 0,
        edge_errors(c).len() == 0,
        pool_errors(c).len() == 0,
        statics_errors(c, c.statics@.len() as int).len() == 0,
{
    assert(validation_errors(c).len() == 0);
}

/// The facts behind an empty list of complaints about the pool, the server
/// and the general settings.
proof fn lemma_pool_facts(c: DhcpConfig)
    requires
        c.subnet.prefix <= 32,
        basic_errors(c).len() == 0,
        membership_errors(c).len() == 0,
        range_errors(c).len() == 0,
        edge_errors(c).len() == 0,
        pool_errors(c).len() == 0,
    ensures
        c.pool_start.0 <= c.pool_end.0,
        c.subnet.spec_network() < c.pool_start.0,
        c.pool_end.0 < c.subnet.spec_broadcast(),
        c.subnet.spec_contains(c.server_ip.0),
        !(c.pool_start.0 <= c.server_ip.0 <= c.pool_end.0),
        prefix_mask(c.subnet.prefix) == c.subnet_mask.0,
        c.lease_time > 0,
        c.dns@.len() <= 63,
        c.router matches Some(r) ==> c.subnet.spec_contains(r.0) && r.0 != c.subnet.spec_network()
            && r.0 != c.subnet.spec_broadcast(),
{
    if let Some(r) = c.router {
        assert(subnet_check(c, r.0, "router"@).len() == 0);
        assert(edge_check(c, r.0, "router"@).len() == 0);
    }
    assert(subnet_check(c, c.server_ip.0, "server_ip"@).len() == 0);
    assert(subnet_check(c, c.pool_start.0, "pool_start"@).len() == 0);
    assert(subnet_check(c, c.pool_end.0, "pool_end"@).len() == 0);
    assert(edge_check(c, c.pool_start.0, "pool_start"@).len() == 0);
    assert(edge_check(c, c.pool_end.0, "pool_end"@).len() == 0);
    lemma_cidr_range(c.subnet, c.pool_start.0);
    lemma_cidr_range(c.subnet, c.pool_end.0);
}

/// The facts behind no complaint about binding `k`.
proof fn lemma_static_facts(c: DhcpConfig, k: int)
    requires
        0 <= k < c.statics@.len(),
        static_errors(c, k).len() == 0,
    ensures
        c.statics@[k].name@.len() > 0,
        c.subnet.spec_contains(c.statics@[k].ip.0),
        c.statics@[k].ip.0 != c.subnet.spec_network(),
        c.statics@[k].ip.0 != c.subnet.spec_broadcast(),
        forall|i: int| 0 <= i < k ==> #[trigger] c.statics@[i].mac@ != c.statics@[k].mac@,
        forall|i: int| 0 <= i < k ==> #[trigger] c.statics@[i].ip != c.statics@[k].ip,
{
    let st = c.statics@;
    assert(prev_same_mac(st, k, k) < 0);
    assert(prev_same_ip(st, k, k) < 0);
    lemma_prev_same_mac_none(st, k, k);
    lemma_prev_same_ip_none(st, k, k);
}

/// A configuration that passes validation has a pool in order, inside the
/// subnet and strictly between its network and broadcast addresses; the
/// server inside the subnet but outside the pool; a router, if any, inside
/// the subnet and off its network and broadcast addresses; a mask that matches the
/// prefix; a positive lease time; at most 63 DNS servers; and static
/// bindings with names, inside the subnet, off its network and broadcast
/// addresses, with pairwise distinct MACs and addresses.
pub proof fn lemma_valid_config(c: DhcpConfig)
    requires
        c.subnet.prefix <= 32,
        spec_validate(c) is Ok,
    ensures
        c.pool_start.0 <= c.pool_end.0,
        c.subnet.spec_network() < c.pool_start.0,
        c.pool_end.0 < c.subnet.spec_broadcast(),
        forall|ip: u32| c.pool_start.0 <= ip <= c.pool_end.0 ==> #[trigger] c.subnet.spec_contains(ip),
        c.subnet.spec_contains(c.server_ip.0),
        !(c.pool_start.0 <= c.server_ip.0 <= c.pool_end.0),
        prefix_mask(c.subnet.prefix) == c.subnet_mask.0,
        c.lease_time > 0,
        c.dns@.len() <= 63,
        c.router matches Some(r) ==> c.subnet.spec_contains(r.0) && r.0 != c.subnet.spec_network()
            && r.0 != c.subnet.spec_broadcast(),
        forall|k: int|
            0 <= k < c.statics@.len() ==> {
                &&& (#[trigger] c.statics@[k]).name@.len() > 0
                &&& c.subnet.spec_contains(c.statics@[k].ip.0)
                &&& c.statics@[k].ip.0 != c.subnet.spec_network()
                &&& c.statics@[k].ip.0 != c.subnet.spec_broadcast()
            },
        forall|j: int, k: int|
            0 <= j < k < c.statics@.len() ==> #[trigger] c.statics@[j].mac@ != #[trigger] c.statics@[k].mac@
                && c.statics@[j].ip != c.statics@[k].ip,
{
    lemma_validation_parts(c);
    lemma_pool_facts(c);
    assert forall|ip: u32| c.pool_start.0 <= ip <= c.pool_end.0 implies #[trigger] c.subnet.spec_contains(ip) by {
        lemma_cidr_range(c.subnet, ip);
    }
    let st = c.statics@;
    assert forall|k: int| 0 <= k < st.len() implies {
        &&& (#[trigger] st[k]).name@.len() > 0
        &&& c.subnet.spec_contains(st[k].ip.0)
        &&& st[k].ip.0 != c.subnet.spec_network()
        &&& st[k].ip.0 != c.subnet.spec_broadcast()
    } by {
        lemma_statics_clean(c, st.len() as int, k);
        lemma_static_facts(c, k);
    }
    assert forall|j: int, k: int| 0 <= j < k < st.len() implies #[trigger] st[j].mac@ != #[trigger] st[k].mac@
        && st[j].ip != st[k].ip by {
        lemma_statics_clean(c, st.len() as int, k);
        lemma_static_facts(c, k);
        assert(st[j].mac@ != st[k].mac@);
        assert(st[j].ip != st[k].ip);
    }
}

}
