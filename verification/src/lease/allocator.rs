//! IP allocation policy.
//!
//! Order of preference:
//!   1. static binding for the MAC,
//!   2. the MAC's existing dynamic lease if that IP is still usable,
//!   3. the first free address in the pool.
//!
//! Never hands out the server IP, the network or broadcast address, any
//! static IP, a quarantined address, or an address currently leased to a
//! different MAC.
use vstd::prelude::*;

use super::model::LeaseView;
use super::store::LeaseStore;
use crate::config::validate::{lemma_valid_config, spec_validate};
use crate::config::model::{is_static_ip, lemma_static_pos, static_ip, static_pos, DhcpConfig, StaticLease};
use crate::util::ip::{from_u32, to_u32, Ipv4Addr};
use crate::util::mac::MacAddr;

verus! {

/// Addresses the pool never hands out: the subnet's network and broadcast
/// address, the server's own address, any static binding's address, and an
/// address still quarantined at `now`.
pub open spec fn reserved(cfg: DhcpConfig, quarantine: Map<u32, u64>, ip: u32, now: u64) -> bool {
    ||| ip == cfg.subnet.spec_network()
    ||| ip == cfg.subnet.spec_broadcast()
    ||| ip == cfg.server_ip.0
    ||| is_static_ip(cfg.statics@, ip)
    ||| (quarantine.dom().contains(ip) && quarantine[ip] > now)
}

/// `ip` is leased to a MAC other than `mac` and that lease has not expired
/// at `now`.
pub open spec fn taken_by_other(leases: Map<Seq<u8>, LeaseView>, ip: u32, mac: Seq<u8>, now: u64) -> bool {
    exists|m: Seq<u8>|
        #[trigger] leases.dom().contains(m) && m != mac && leases[m].ip == ip && leases[m].expires_at
            > now
}

/// `ip` may be handed to `mac` from the dynamic pool.
pub open spec fn assignable(
    cfg: DhcpConfig,
    leases: Map<Seq<u8>, LeaseView>,
    quarantine: Map<u32, u64>,
    mac: Seq<u8>,
    now: u64,
    ip: u32,
) -> bool {
    &&& cfg.pool_start.0 <= ip <= cfg.pool_end.0
    &&& !reserved(cfg, quarantine, ip, now)
    &&& !taken_by_other(leases, ip, mac, now)
}

/// `ip` is the lowest assignable address of the pool.
pub open spec fn first_free(
    cfg: DhcpConfig,
    leases: Map<Seq<u8>, LeaseView>,
    quarantine: Map<u32, u64>,
    mac: Seq<u8>,
    now: u64,
    ip: u32,
) -> bool {
    &&& assignable(cfg, leases, quarantine, mac, now, ip)
    &&& forall|j: u32|
        cfg.pool_start.0 <= j < ip ==> !#[trigger] assignable(cfg, leases, quarantine, mac, now, j)
}

/// The address the allocation policy gives `mac` at `now`: its static
/// binding; else its previous dynamic address if still assignable; else the
/// lowest assignable address of the pool; else none.
pub open spec fn spec_assign_ip(
    cfg: DhcpConfig,
    leases: Map<Seq<u8>, LeaseView>,
    quarantine: Map<u32, u64>,
    mac: Seq<u8>,
    now: u64,
) -> Option<u32> {
    if static_ip(cfg.statics@, mac) is Some {
        static_ip(cfg.statics@, mac)
    } else if leases.dom().contains(mac) && assignable(cfg, leases, quarantine, mac, now, leases[mac].ip) {
        Some(leases[mac].ip)
    } else if exists|ip: u32| #[trigger] first_free(cfg, leases, quarantine, mac, now, ip) {
        Some(choose|ip: u32| #[trigger] first_free(cfg, leases, quarantine, mac, now, ip))
    } else {
        None
    }
}

/// There is at most one lowest assignable address.
pub proof fn lemma_first_free_unique(
    cfg: DhcpConfig,
    leases: Map<Seq<u8>, LeaseView>,
    quarantine: Map<u32, u64>,
    mac: Seq<u8>,
    now: u64,
    a: u32,
    b: u32,
)
    requires
        first_free(cfg, leases, quarantine, mac, now, a),
        first_free(cfg, leases, quarantine, mac, now, b),
    ensures
        a == b,
{
    if a < b {
        assert(!assignable(cfg, leases, quarantine, mac, now, a));
    } else if b < a {
        assert(!assignable(cfg, leases, quarantine, mac, now, b));
    }
}

/// Some assignable address of the pool lies at or below `ip` whenever `ip`
/// itself is assignable, so a lowest one exists.
proof fn lemma_first_free_exists(
    cfg: DhcpConfig,
    leases: Map<Seq<u8>, LeaseView>,
    quarantine: Map<u32, u64>,
    mac: Seq<u8>,
    now: u64,
    ip: u32,
)
    requires
        assignable(cfg, leases, quarantine, mac, now, ip),
    ensures
        exists|c: u32| #[trigger] first_free(cfg, leases, quarantine, mac, now, c),
    decreases ip,
{
    if exists|j: u32| cfg.pool_start.0 <= j < ip && #[trigger] assignable(cfg, leases, quarantine, mac, now, j) {
        let j = choose|j: u32| cfg.pool_start.0 <= j < ip && #[trigger] assignable(cfg, leases, quarantine, mac, now, j);
        lemma_first_free_exists(cfg, leases, quarantine, mac, now, j);
    } else {
        assert(first_free(cfg, leases, quarantine, mac, now, ip));
    }
}

/// A MAC without a static binding is never given an address outside
/// `[pool_start, pool_end]`, the subnet's network or broadcast address, the
/// server's own address, an address some static binding uses, an address
/// still quarantined, or an address another MAC holds unexpired.
pub proof fn lemma_assigned_address_is_free(
    cfg: DhcpConfig,
    leases: Map<Seq<u8>, LeaseView>,
    quarantine: Map<u32, u64>,
    mac: Seq<u8>,
    now: u64,
    ip: u32,
)
    requires
        static_ip(cfg.statics@, mac) is None,
        spec_assign_ip(cfg, leases, quarantine, mac, now) == Some(ip),
    ensures
        cfg.pool_start.0 <= ip <= cfg.pool_end.0,
        ip != cfg.subnet.spec_network(),
        ip != cfg.subnet.spec_broadcast(),
        ip != cfg.server_ip.0,
        forall|k: int| 0 <= k < cfg.statics.len() ==> #[trigger] cfg.statics@[k].ip.0 != ip,
        !(quarantine.dom().contains(ip) && quarantine[ip] > now),
        forall|m: Seq<u8>|
            #[trigger] leases.dom().contains(m) && m != mac && leases[m].expires_at > now
                ==> leases[m].ip != ip,
{
    assert(assignable(cfg, leases, quarantine, mac, now, ip));
}

/// A MAC with a static binding is given the address of its first binding,
/// whatever the leases and the quarantine hold.
pub proof fn lemma_static_binding_wins(
    cfg: DhcpConfig,
    leases: Map<Seq<u8>, LeaseView>,
    quarantine: Map<u32, u64>,
    mac: Seq<u8>,
    now: u64,
    k: int,
)
    requires
        0 <= k < cfg.statics.len(),
        cfg.statics@[k].mac@ == mac,
        forall|j: int| 0 <= j < k ==> #[trigger] cfg.statics@[j].mac@ != mac,
    ensures
        spec_assign_ip(cfg, leases, quarantine, mac, now) == Some(cfg.statics@[k].ip.0),
{
    lemma_static_pos(cfg.statics@, mac);
    let p = static_pos(cfg.statics@, mac);
    if p < k {
        assert(cfg.statics@[p].mac@ != mac);
    }
    if p > k {
        assert(cfg.statics@[k].mac@ != mac);
    }
}

/// A client without a static binding keeps its previous address while that
/// address is still assignable to it.
pub proof fn lemma_previous_address_kept(
    cfg: DhcpConfig,
    leases: Map<Seq<u8>, LeaseView>,
    quarantine: Map<u32, u64>,
    mac: Seq<u8>,
    now: u64,
)
    requires
        static_ip(cfg.statics@, mac) is None,
        leases.dom().contains(mac),
        assignable(cfg, leases, quarantine, mac, now, leases[mac].ip),
    ensures
        spec_assign_ip(cfg, leases, quarantine, mac, now) == Some(leases[mac].ip),
{
}

/// Allocation fails only for a MAC without a static binding to which no
/// address of the pool is assignable.
pub proof fn lemma_no_address_only_when_pool_full(
    cfg: DhcpConfig,
    leases: Map<Seq<u8>, LeaseView>,
    quarantine: Map<u32, u64>,
    mac: Seq<u8>,
    now: u64,
    ip: u32,
)
    requires
        spec_assign_ip(cfg, leases, quarantine, mac, now) is None,
    ensures
        static_ip(cfg.statics@, mac) is None,
        !assignable(cfg, leases, quarantine, mac, now, ip),
{
    if assignable(cfg, leases, quarantine, mac, now, ip) {
        lemma_first_free_exists(cfg, leases, quarantine, mac, now, ip);
    }
}

/// Under a configuration that passes validation, every address the policy
/// gives, static or dynamic, lies inside the subnet and is neither its
/// network nor its broadcast address.
pub proof fn lemma_assigned_address_in_subnet(
    cfg: DhcpConfig,
    leases: Map<Seq<u8>, LeaseView>,
    quarantine: Map<u32, u64>,
    mac: Seq<u8>,
    now: u64,
    ip: u32,
)
    requires
        cfg.subnet.prefix <= 32,
        spec_validate(cfg) is Ok,
        spec_assign_ip(cfg, leases, quarantine, mac, now) == Some(ip),
    ensures
        cfg.subnet.spec_contains(ip),
        ip != cfg.subnet.spec_network(),
        ip != cfg.subnet.spec_broadcast(),
{
    lemma_valid_config(cfg);
    lemma_static_pos(cfg.statics@, mac);
    if static_ip(cfg.statics@, mac) is Some {
        let k = static_pos(cfg.statics@, mac);
        assert(cfg.statics@[k].ip.0 == ip);
    } else {
        lemma_assigned_address_is_free(cfg, leases, quarantine, mac, now, ip);
    }
}

/// Does some static binding use `ip`?
fn static_uses(statics: &Vec<StaticLease>, ip: Ipv4Addr) -> (r: bool)
    ensures
        r == is_static_ip(statics@, ip.0),
{
    let mut k: usize = 0;
    while k < statics.len()
        invariant
            k <= statics.len(),
            forall|j: int| 0 <= j < k ==> #[trigger] statics@[j].ip.0 != ip.0,
        decreases statics.len() - k,
    {
        if statics[k].ip == ip {
            assert(statics@[k as int].ip.0 == ip.0);
            return true;
        }
        k += 1;
    }
    false
}

/// Is `ip` reserved (see [`reserved`])?
fn is_reserved(cfg: &DhcpConfig, store: &LeaseStore, ip: Ipv4Addr, now: u64) -> (r: bool)
    requires
        cfg.subnet.prefix <= 32,
        store.wf(),
    ensures
        r == reserved(*cfg, store.quarantined(), ip.0, now),
{
    ip == cfg.subnet.network() || ip == cfg.subnet.broadcast() || ip == cfg.server_ip
        || static_uses(&cfg.statics, ip) || store.is_quarantined(ip, now)
}

/// Is `ip` actively leased to a MAC other than `mac`?
fn is_taken_by_other(store: &LeaseStore, ip: Ipv4Addr, mac: MacAddr, now: u64) -> (r: bool)
    requires
        store.wf(),
    ensures
        r == taken_by_other(store@, ip.0, mac@, now),
{
    proof {
        store.lemma_view();
    }
    let leases = store.leases();
    let ghost s = store.seq();
    assert(leases@.map_values(|l: super::model::Lease| l@) == s);
    let mut k: usize = 0;
    while k < leases.len()
        invariant
            k <= leases.len(),
            store.wf(),
            s == store.seq(),
            leases@.map_values(|l: super::model::Lease| l@) == s,
            forall|j: int|
                0 <= j < k ==> !((#[trigger] s[j]).ip == ip.0 && s[j].mac != mac@ && s[j].expires_at
                    > now),
        decreases leases.len() - k,
    {
        let l = &leases[k];
        assert(s[k as int] == l@);
        if l.ip == ip && !(l.mac == mac) && l.expires_at > now {
            proof {
                store.lemma_view();
                assert(store@.dom().contains(s[k as int].mac));
                assert(store@[s[k as int].mac] == s[k as int]);
            }
            return true;
        }
        k += 1;
    }
    proof {
        if taken_by_other(store@, ip.0, mac@, now) {
            let m = choose|m: Seq<u8>|
                #[trigger] store@.dom().contains(m) && m != mac@ && store@[m].ip == ip.0
                    && store@[m].expires_at > now;
            let j = choose|j: int| 0 <= j < s.len() && #[trigger] s[j].mac == m;
            assert(store@[s[j].mac] == s[j]);
        }
    }
    false
}

/// Pick an address for `mac` (see [`spec_assign_ip`]).
pub fn assign_ip(cfg: &DhcpConfig, store: &LeaseStore, mac: MacAddr, now: u64) -> (r: Option<Ipv4Addr>)
    requires
        cfg.subnet.prefix <= 32,
    ensures
        match r {
            Some(ip) => spec_assign_ip(*cfg, store@, store.quarantined(), mac@, now) == Some(ip.0),
            None => spec_assign_ip(*cfg, store@, store.quarantined(), mac@, now) is None,
        },
{
    proof {
        use_type_invariant(store);
    }
    // 1. Static binding always wins.
    if let Some(s) = cfg.static_for(mac) {
        return Some(s.ip);
    }
    let ghost q = store.quarantined();
    let start = to_u32(cfg.pool_start);
    let end = to_u32(cfg.pool_end);

    // 2. Reuse the MAC's previous IP when it is in-pool and not otherwise taken.
    if let Some(lease) = store.get(&mac) {
        let ip = lease.ip;
        if start <= ip.0 && ip.0 <= end && !is_reserved(cfg, store, ip, now) && !is_taken_by_other(
            store,
            ip,
            mac,
            now,
        ) {
            return Some(ip);
        }
    }
    assert(static_ip(cfg.statics@, mac@) is None);
    assert(!(store@.dom().contains(mac@) && assignable(*cfg, store@, q, mac@, now, store@[mac@].ip)));
    // 3. First free address in the pool.
    let mut cur: u64 = start as u64;
    while cur <= end as u64
        invariant
            start as u64 <= cur,
            cur <= end as u64 + 1 || cur == start as u64,
            start == cfg.pool_start.0,
            end == cfg.pool_end.0,
            cfg.subnet.prefix <= 32,
            store.wf(),
            q == store.quarantined(),
            static_ip(cfg.statics@, mac@) is None,
            !(store@.dom().contains(mac@) && assignable(*cfg, store@, q, mac@, now, store@[mac@].ip)),
            forall|j: u32| start <= j < cur ==> !#[trigger] assignable(*cfg, store@, q, mac@, now, j),
        decreases end as u64 + 1 - cur,
    {
        let ip = from_u32(cur as u32);
        if !is_reserved(cfg, store, ip, now) && !is_taken_by_other(store, ip, mac, now) {
            proof {
                assert(first_free(*cfg, store@, q, mac@, now, ip.0));
                let c = choose|c: u32| #[trigger] first_free(*cfg, store@, q, mac@, now, c);
                lemma_first_free_unique(*cfg, store@, q, mac@, now, c, ip.0);
            }
            return Some(ip);
        }
        cur += 1;
    }
    proof {
        if exists|c: u32| #[trigger] first_free(*cfg, store@, q, mac@, now, c) {
            let c = choose|c: u32| #[trigger] first_free(*cfg, store@, q, mac@, now, c);
            assert(!assignable(*cfg, store@, q, mac@, now, c));
        }
    }
    None
}

}
