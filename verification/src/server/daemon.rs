//! The protocol state machine: how one parsed request is answered and how it
//! changes the lease store. No socket or disk I/O happens here; the caller
//! persists the store and sends the reply.
use vstd::prelude::*;

use crate::config::model::{lemma_static_pos, static_ip};
use crate::config::DhcpConfig;
use crate::dhcp::builder::{build_ack, build_inform_ack, build_nak, build_offer, reply_bytes};
use crate::dhcp::message::DhcpMessageType;
use crate::dhcp::options::{
    lemma_sanitized_host_safe, option_get, spec_hostname, spec_msg_type, spec_requested_ip, spec_server_id,
    OPT_HOSTNAME,
};
use crate::dhcp::packet::DhcpPacket;
use crate::lease::allocator::{
    assign_ip, assignable, lemma_assigned_address_is_free, lemma_previous_address_kept, lemma_static_binding_wins,
    spec_assign_ip,
};
use crate::lease::model::{Lease, LeaseKind, LeaseView};
use crate::lease::store::{live_leases, live_quarantine, storable, LeaseStore};
use crate::util::ip::Ipv4Addr;

verus! {

/// How long a declined address is held out of the pool.
pub const DECLINE_QUARANTINE_SECS: u64 = 3600;

/// How often expired leases are swept while running.
pub const PURGE_INTERVAL_SECS: u64 = 300;

/// Where a reply is sent: by broadcast to `255.255.255.255:68`, or by unicast
/// to the client's address.
#[derive(Debug, Clone, Copy, PartialEq, Eq, Structural)]
pub enum ReplyDst {
    Broadcast,
    Unicast(Ipv4Addr),
}

/// Outcome of processing one packet: an optional reply (bytes +
/// destination) and whether the lease file must be rewritten — i.e. a
/// dynamic lease was added or removed. Quarantine changes are in-memory only
/// and never set it.
pub struct Decision {
    pub reply: Option<(Vec<u8>, ReplyDst)>,
    pub save_leases: bool,
}

/// A reply as plain values.
pub open spec fn reply_view(r: Option<(Vec<u8>, ReplyDst)>) -> Option<(Seq<u8>, ReplyDst)> {
    match r {
        Some((d, dst)) => Some((d@, dst)),
        None => None,
    }
}

impl Decision {
    /// No reply, nothing to save.
    pub fn silent() -> (d: Decision)
        ensures
            d.reply is None,
            !d.save_leases,
    {
        Decision { reply: None, save_leases: false }
    }

    /// Send `data` to `dst`, nothing to save.
    pub fn reply(data: Vec<u8>, dst: ReplyDst) -> (d: Decision)
        ensures
            reply_view(d.reply) == Some((data@, dst)),
            !d.save_leases,
    {
        Decision { reply: Some((data, dst)), save_leases: false }
    }
}

/// What answering a packet produces: the reply, whether the lease file must
/// be rewritten, and the store's leases and quarantine afterwards.
pub struct Outcome {
    pub reply: Option<(Seq<u8>, ReplyDst)>,
    pub save_leases: bool,
    pub leases: Map<Seq<u8>, LeaseView>,
    pub quarantine: Map<u32, u64>,
}

/// The client set the broadcast flag (RFC 2131 §4.1, flags bit 15).
pub open spec fn spec_wants_broadcast(flags: u16) -> bool {
    flags & 0x8000 != 0
}

/// Destination of an ACK: broadcast while the client has no address
/// (`ciaddr` zero) or when it asks for broadcast, else unicast to `ciaddr`.
pub open spec fn spec_ack_dst(ciaddr: u32, flags: u16) -> ReplyDst {
    if ciaddr == 0 || spec_wants_broadcast(flags) {
        ReplyDst::Broadcast
    } else {
        ReplyDst::Unicast(Ipv4Addr(ciaddr))
    }
}

/// How the server answers `pkt` at `now`, given the leases and quarantine
/// before it.
#[verifier::opaque]
pub open spec fn spec_decide(
    cfg: DhcpConfig,
    leases: Map<Seq<u8>, LeaseView>,
    quarantine: Map<u32, u64>,
    pkt: DhcpPacket,
    now: u64,
) -> Outcome {
    let silent = Outcome { reply: None, save_leases: false, leases, quarantine };
    let opts = pkt.options@;
    let mac = pkt.chaddr@;
    let statik = static_ip(cfg.statics@, mac) is Some;
    if pkt.giaddr.0 != 0 {
        // Relayed packet: no relay support.
        silent
    } else {
        match spec_msg_type(opts) {
            None => silent,
            Some(DhcpMessageType::Discover) => match spec_assign_ip(cfg, leases, quarantine, mac, now) {
                Some(ip) => Outcome {
                    reply: Some((reply_bytes(pkt, cfg, ip, DhcpMessageType::Offer, true), ReplyDst::Broadcast)),
                    ..silent
                },
                None => silent,
            },
            Some(DhcpMessageType::Request) => {
                let sid = spec_server_id(opts);
                let requested = match spec_requested_ip(opts) {
                    Some(r) => r,
                    None => pkt.ciaddr.0,
                };
                let known = statik || leases.dom().contains(mac);
                if sid is Some && sid.unwrap() != cfg.server_ip.0 {
                    silent
                } else if sid is None && !known {
                    silent
                } else {
                    match spec_assign_ip(cfg, leases, quarantine, mac, now) {
                        Some(ip) if requested == 0 || requested == ip => {
                            let lv = LeaseView {
                                mac,
                                ip,
                                hostname: spec_hostname(opts),
                                expires_at: (now + cfg.lease_time) as u64,
                                kind: LeaseKind::Dynamic,
                            };
                            Outcome {
                                reply: Some((reply_bytes(pkt, cfg, ip, DhcpMessageType::Ack, true), spec_ack_dst(pkt.ciaddr.0, pkt.flags))),
                                save_leases: !statik,
                                leases: if statik { leases } else { live_leases(leases, now).insert(mac, lv) },
                                quarantine,
                            }
                        },
                        _ => Outcome {
                            reply: Some((reply_bytes(pkt, cfg, 0, DhcpMessageType::Nak, false), ReplyDst::Broadcast)),
                            ..silent
                        },
                    }
                }
            },
            Some(DhcpMessageType::Release) => Outcome {
                reply: None,
                save_leases: !statik && leases.dom().contains(mac),
                leases: if statik { leases } else { leases.remove(mac) },
                quarantine,
            },
            Some(DhcpMessageType::Decline) => {
                let declined = match spec_requested_ip(opts) {
                    Some(r) => r,
                    None => if leases.dom().contains(mac) { leases[mac].ip } else { pkt.ciaddr.0 },
                };
                Outcome {
                    reply: None,
                    save_leases: !statik && leases.dom().contains(mac),
                    leases: if statik { leases } else { leases.remove(mac) },
                    quarantine: if declined != 0 {
                        quarantine.insert(declined, (now + DECLINE_QUARANTINE_SECS) as u64)
                    } else {
                        quarantine
                    },
                }
            },
            Some(DhcpMessageType::Inform) => if pkt.ciaddr.0 == 0 {
                silent
            } else {
                Outcome {
                    reply: Some((reply_bytes(pkt, cfg, 0, DhcpMessageType::Ack, false), ReplyDst::Unicast(pkt.ciaddr))),
                    ..silent
                }
            },
            Some(_) => silent,
        }
    }
}

/// No two MACs hold unexpired leases on the same address at `now`.
pub open spec fn addresses_distinct(leases: Map<Seq<u8>, LeaseView>, now: u64) -> bool {
    forall|a: Seq<u8>, b: Seq<u8>|
        #![trigger leases.dom().contains(a), leases.dom().contains(b)]
        leases.dom().contains(a) && leases.dom().contains(b) && a != b && leases[a].expires_at > now
            && leases[b].expires_at > now ==> leases[a].ip != leases[b].ip
}

/// A packet that came through a relay (non-zero `giaddr`) is ignored: no
/// reply, no change, no write.
pub proof fn lemma_relayed_packet_ignored(
    cfg: DhcpConfig,
    leases: Map<Seq<u8>, LeaseView>,
    quarantine: Map<u32, u64>,
    pkt: DhcpPacket,
    now: u64,
)
    requires
        pkt.giaddr.0 != 0,
    ensures
        spec_decide(cfg, leases, quarantine, pkt, now) == (Outcome {
            reply: None,
            save_leases: false,
            leases,
            quarantine,
        }),
{
    reveal(spec_decide);
}

/// An OFFER reserves nothing: answering a DISCOVER leaves leases and
/// quarantine as they were, writes nothing, and broadcasts an offer of the
/// address the allocation policy picks, if there is one.
pub proof fn lemma_discover_reserves_nothing(
    cfg: DhcpConfig,
    leases: Map<Seq<u8>, LeaseView>,
    quarantine: Map<u32, u64>,
    pkt: DhcpPacket,
    now: u64,
)
    requires
        spec_msg_type(pkt.options@) == Some(DhcpMessageType::Discover),
    ensures
        spec_decide(cfg, leases, quarantine, pkt, now).leases == leases,
        spec_decide(cfg, leases, quarantine, pkt, now).quarantine == quarantine,
        !spec_decide(cfg, leases, quarantine, pkt, now).save_leases,
        pkt.giaddr.0 == 0 ==> spec_decide(cfg, leases, quarantine, pkt, now).reply == match spec_assign_ip(
            cfg,
            leases,
            quarantine,
            pkt.chaddr@,
            now,
        ) {
            Some(ip) => Some((reply_bytes(pkt, cfg, ip, DhcpMessageType::Offer, true), ReplyDst::Broadcast)),
            None => None,
        },
{
    reveal(spec_decide);
}

/// Static bindings are answered from the config alone: whatever a client
/// with a static binding sends, the leases stay as they were and nothing is
/// written.
pub proof fn lemma_static_never_stored(
    cfg: DhcpConfig,
    leases: Map<Seq<u8>, LeaseView>,
    quarantine: Map<u32, u64>,
    pkt: DhcpPacket,
    now: u64,
)
    requires
        static_ip(cfg.statics@, pkt.chaddr@) is Some,
    ensures
        spec_decide(cfg, leases, quarantine, pkt, now).leases == leases,
        !spec_decide(cfg, leases, quarantine, pkt, now).save_leases,
{
    reveal(spec_decide);
}

/// The leases after answering a packet: unchanged, without the sender's
/// lease, or, when a REQUEST from a MAC without a static binding is
/// acknowledged, the unexpired leases plus the sender's new one.
proof fn lemma_decide_lease_cases(
    cfg: DhcpConfig,
    leases: Map<Seq<u8>, LeaseView>,
    quarantine: Map<u32, u64>,
    pkt: DhcpPacket,
    now: u64,
)
    ensures
        ({
            let out = spec_decide(cfg, leases, quarantine, pkt, now);
            let mac = pkt.chaddr@;
            &&& (spec_msg_type(pkt.options@) == Some(DhcpMessageType::Request) && static_ip(cfg.statics@, mac) is None
                && out.save_leases) ==> {
                &&& spec_assign_ip(cfg, leases, quarantine, mac, now) is Some
                &&& out.leases == live_leases(leases, now).insert(
                    mac,
                    LeaseView {
                        mac,
                        ip: spec_assign_ip(cfg, leases, quarantine, mac, now).unwrap(),
                        hostname: spec_hostname(pkt.options@),
                        expires_at: (now + cfg.lease_time) as u64,
                        kind: LeaseKind::Dynamic,
                    },
                )
            }
            &&& {
            ||| out.leases == leases
            ||| (out.leases == leases.remove(mac) && leases.dom().contains(mac) && out.save_leases)
            ||| {
                &&& spec_msg_type(pkt.options@) == Some(DhcpMessageType::Request)
                &&& static_ip(cfg.statics@, mac) is None
                &&& spec_assign_ip(cfg, leases, quarantine, mac, now) is Some
                &&& out.save_leases
                &&& out.leases == live_leases(leases, now).insert(
                    mac,
                    LeaseView {
                        mac,
                        ip: spec_assign_ip(cfg, leases, quarantine, mac, now).unwrap(),
                        hostname: spec_hostname(pkt.options@),
                        expires_at: (now + cfg.lease_time) as u64,
                        kind: LeaseKind::Dynamic,
                    },
                )
                &&& out.reply == Some(
                    (
                        reply_bytes(
                            pkt,
                            cfg,
                            spec_assign_ip(cfg, leases, quarantine, mac, now).unwrap(),
                            DhcpMessageType::Ack,
                            true,
                        ),
                        spec_ack_dst(pkt.ciaddr.0, pkt.flags),
                    ),
                )
            }
            }
        }),
{
    reveal(spec_decide);
    let mac = pkt.chaddr@;
    if !leases.dom().contains(mac) {
        assert(leases.remove(mac) =~= leases);
    }
}

/// A lease enters or changes in the store only when a REQUEST from a MAC
/// without a static binding is acknowledged: the lease is that MAC's, is
/// dynamic, holds the acknowledged address, expires `lease_time` seconds
/// after `now`, and the lease file is to be rewritten.
pub proof fn lemma_lease_committed_only_by_ack(
    cfg: DhcpConfig,
    leases: Map<Seq<u8>, LeaseView>,
    quarantine: Map<u32, u64>,
    pkt: DhcpPacket,
    now: u64,
    m: Seq<u8>,
)
    requires
        now + cfg.lease_time <= u64::MAX,
        spec_decide(cfg, leases, quarantine, pkt, now).leases.dom().contains(m),
        !leases.dom().contains(m) || leases[m] != spec_decide(cfg, leases, quarantine, pkt, now).leases[m],
    ensures
        spec_msg_type(pkt.options@) == Some(DhcpMessageType::Request),
        m == pkt.chaddr@,
        static_ip(cfg.statics@, m) is None,
        spec_decide(cfg, leases, quarantine, pkt, now).save_leases,
        spec_assign_ip(cfg, leases, quarantine, m, now) == Some(
            spec_decide(cfg, leases, quarantine, pkt, now).leases[m].ip,
        ),
        spec_decide(cfg, leases, quarantine, pkt, now).leases[m].expires_at == now + cfg.lease_time,
        spec_decide(cfg, leases, quarantine, pkt, now).leases[m].kind == LeaseKind::Dynamic,
        spec_decide(cfg, leases, quarantine, pkt, now).reply == Some(
            (
                reply_bytes(
                    pkt,
                    cfg,
                    spec_decide(cfg, leases, quarantine, pkt, now).leases[m].ip,
                    DhcpMessageType::Ack,
                    true,
                ),
                spec_ack_dst(pkt.ciaddr.0, pkt.flags),
            ),
        ),
{
    lemma_decide_lease_cases(cfg, leases, quarantine, pkt, now);
    let out = spec_decide(cfg, leases, quarantine, pkt, now);
    let mac = pkt.chaddr@;
    if out.leases != leases && out.leases != leases.remove(mac) && m != mac {
        assert(live_leases(leases, now).dom().contains(m));
    }
}

/// Every lease the server commits can be written to the lease file and read
/// back unchanged, unless the client gave `-` as its hostname.
pub proof fn lemma_committed_lease_storable(
    cfg: DhcpConfig,
    leases: Map<Seq<u8>, LeaseView>,
    quarantine: Map<u32, u64>,
    pkt: DhcpPacket,
    now: u64,
    m: Seq<u8>,
)
    requires
        now + cfg.lease_time <= u64::MAX,
        spec_decide(cfg, leases, quarantine, pkt, now).leases.dom().contains(m),
        !leases.dom().contains(m) || leases[m] != spec_decide(cfg, leases, quarantine, pkt, now).leases[m],
        spec_hostname(pkt.options@) != Some("-"@),
    ensures
        storable(spec_decide(cfg, leases, quarantine, pkt, now).leases[m]),
{
    lemma_lease_committed_only_by_ack(cfg, leases, quarantine, pkt, now, m);
    lemma_decide_lease_cases(cfg, leases, quarantine, pkt, now);
    let out = spec_decide(cfg, leases, quarantine, pkt, now);
    let mac = pkt.chaddr@;
    if out.leases == leases.remove(mac) {
        assert(!out.leases.dom().contains(mac));
    }
    assert(out.leases[m].hostname == spec_hostname(pkt.options@));
    match option_get(pkt.options@, OPT_HOSTNAME) {
        Some(raw) => lemma_sanitized_host_safe(raw),
        None => {},
    }
}

/// A client just acknowledged an address from the pool is given the same
/// address again on its next request, at any later time, as long as that
/// address has not been quarantined meanwhile.
pub proof fn lemma_repeat_request_same_address(
    cfg: DhcpConfig,
    leases: Map<Seq<u8>, LeaseView>,
    quarantine: Map<u32, u64>,
    pkt: DhcpPacket,
    now: u64,
    later_quarantine: Map<u32, u64>,
    later: u64,
)
    requires
        spec_msg_type(pkt.options@) == Some(DhcpMessageType::Request),
        static_ip(cfg.statics@, pkt.chaddr@) is None,
        spec_decide(cfg, leases, quarantine, pkt, now).save_leases,
        now <= later,
        ({
            let ip = spec_assign_ip(cfg, leases, quarantine, pkt.chaddr@, now).unwrap();
            !(later_quarantine.dom().contains(ip) && later_quarantine[ip] > later)
        }),
    ensures
        spec_decide(cfg, leases, quarantine, pkt, now).leases.dom().contains(pkt.chaddr@),
        spec_assign_ip(
            cfg,
            spec_decide(cfg, leases, quarantine, pkt, now).leases,
            later_quarantine,
            pkt.chaddr@,
            later,
        ) == Some(spec_assign_ip(cfg, leases, quarantine, pkt.chaddr@, now).unwrap()),
{
    lemma_decide_lease_cases(cfg, leases, quarantine, pkt, now);
    let out = spec_decide(cfg, leases, quarantine, pkt, now);
    let mac = pkt.chaddr@;
    let ip = spec_assign_ip(cfg, leases, quarantine, mac, now).unwrap();
    lemma_assigned_address_is_free(cfg, leases, quarantine, mac, now, ip);
    assert(out.leases[mac].ip == ip);
    assert forall|m: Seq<u8>|
        #[trigger] out.leases.dom().contains(m) && m != mac && out.leases[m].ip == ip implies !(
        out.leases[m].expires_at > later) by {
        assert(live_leases(leases, now).dom().contains(m));
    }
    assert(assignable(cfg, out.leases, later_quarantine, mac, later, ip));
    lemma_previous_address_kept(cfg, out.leases, later_quarantine, mac, later);
}

/// A client with a static binding that asks (SELECTING this server, or
/// INIT-REBOOT without a server identifier) for no particular address or
/// for its bound address is acknowledged that bound address; nothing is
/// stored or written.
pub proof fn lemma_static_client_acked(
    cfg: DhcpConfig,
    leases: Map<Seq<u8>, LeaseView>,
    quarantine: Map<u32, u64>,
    pkt: DhcpPacket,
    now: u64,
    k: int,
)
    requires
        pkt.giaddr.0 == 0,
        spec_msg_type(pkt.options@) == Some(DhcpMessageType::Request),
        spec_server_id(pkt.options@) is None || spec_server_id(pkt.options@) == Some(cfg.server_ip.0),
        0 <= k < cfg.statics@.len(),
        cfg.statics@[k].mac@ == pkt.chaddr@,
        forall|j: int| 0 <= j < k ==> #[trigger] cfg.statics@[j].mac@ != pkt.chaddr@,
        ({
            let requested = match spec_requested_ip(pkt.options@) {
                Some(r) => r,
                None => pkt.ciaddr.0,
            };
            requested == 0 || requested == cfg.statics@[k].ip.0
        }),
    ensures
        spec_decide(cfg, leases, quarantine, pkt, now).reply == Some(
            (
                reply_bytes(pkt, cfg, cfg.statics@[k].ip.0, DhcpMessageType::Ack, true),
                spec_ack_dst(pkt.ciaddr.0, pkt.flags),
            ),
        ),
        !spec_decide(cfg, leases, quarantine, pkt, now).save_leases,
        spec_decide(cfg, leases, quarantine, pkt, now).leases == leases,
{
    reveal(spec_decide);
    lemma_static_binding_wins(cfg, leases, quarantine, pkt.chaddr@, now, k);
    lemma_static_pos(cfg.statics@, pkt.chaddr@);
}

/// Every change to the leases is flagged for a rewrite of the lease file.
pub proof fn lemma_lease_change_is_saved(
    cfg: DhcpConfig,
    leases: Map<Seq<u8>, LeaseView>,
    quarantine: Map<u32, u64>,
    pkt: DhcpPacket,
    now: u64,
)
    requires
        spec_decide(cfg, leases, quarantine, pkt, now).leases != leases,
    ensures
        spec_decide(cfg, leases, quarantine, pkt, now).save_leases,
{
    reveal(spec_decide);
    let mac = pkt.chaddr@;
    if !leases.dom().contains(mac) {
        assert(leases.remove(mac) =~= leases);
    }
}

/// The address a DECLINE reports: its requested address, else the address
/// the sender holds, else its `ciaddr`.
pub open spec fn declined_address(leases: Map<Seq<u8>, LeaseView>, pkt: DhcpPacket) -> u32 {
    match spec_requested_ip(pkt.options@) {
        Some(r) => r,
        None => if leases.dom().contains(pkt.chaddr@) {
            leases[pkt.chaddr@].ip
        } else {
            pkt.ciaddr.0
        },
    }
}

/// A DECLINE is not answered; the sender's dynamic lease is dropped (and the
/// file rewritten when there was one); a non-zero declined address is
/// quarantined for [`DECLINE_QUARANTINE_SECS`], and until then the
/// allocation policy gives it to no MAC without a static binding, whatever
/// leases are held.
pub proof fn lemma_declined_address_not_reassigned(
    cfg: DhcpConfig,
    leases: Map<Seq<u8>, LeaseView>,
    quarantine: Map<u32, u64>,
    pkt: DhcpPacket,
    now: u64,
    later_leases: Map<Seq<u8>, LeaseView>,
    other: Seq<u8>,
    later: u64,
)
    requires
        pkt.giaddr.0 == 0,
        spec_msg_type(pkt.options@) == Some(DhcpMessageType::Decline),
        declined_address(leases, pkt) != 0,
        now + DECLINE_QUARANTINE_SECS <= u64::MAX,
        now <= later < now + DECLINE_QUARANTINE_SECS,
        static_ip(cfg.statics@, other) is None,
    ensures
        spec_decide(cfg, leases, quarantine, pkt, now).reply is None,
        spec_decide(cfg, leases, quarantine, pkt, now).save_leases == (static_ip(cfg.statics@, pkt.chaddr@) is None
            && leases.dom().contains(pkt.chaddr@)),
        static_ip(cfg.statics@, pkt.chaddr@) is None ==> !spec_decide(cfg, leases, quarantine, pkt, now).leases.dom().contains(
            pkt.chaddr@,
        ),
        spec_decide(cfg, leases, quarantine, pkt, now).quarantine[declined_address(leases, pkt)] == now
            + DECLINE_QUARANTINE_SECS,
        spec_assign_ip(cfg, later_leases, spec_decide(cfg, leases, quarantine, pkt, now).quarantine, other, later)
            != Some(declined_address(leases, pkt)),
{
    reveal(spec_decide);
    let declined = declined_address(leases, pkt);
    let q = spec_decide(cfg, leases, quarantine, pkt, now).quarantine;
    assert(q.dom().contains(declined));
    if spec_assign_ip(cfg, later_leases, q, other, later) == Some(declined) {
        lemma_assigned_address_is_free(cfg, later_leases, q, other, later, declined);
    }
}

/// Answering a packet never leaves two MACs holding unexpired leases on one
/// address, if none did before.
pub proof fn lemma_decide_keeps_addresses_distinct(
    cfg: DhcpConfig,
    leases: Map<Seq<u8>, LeaseView>,
    quarantine: Map<u32, u64>,
    pkt: DhcpPacket,
    now: u64,
)
    requires
        addresses_distinct(leases, now),
    ensures
        addresses_distinct(spec_decide(cfg, leases, quarantine, pkt, now).leases, now),
{
    reveal(spec_decide);
    let out = spec_decide(cfg, leases, quarantine, pkt, now);
    let mac = pkt.chaddr@;
    let ip = spec_assign_ip(cfg, leases, quarantine, mac, now);
    if static_ip(cfg.statics@, mac) is None && ip is Some {
        lemma_assigned_address_is_free(cfg, leases, quarantine, mac, now, ip.unwrap());
    }
    assert forall|a: Seq<u8>, b: Seq<u8>|
        #![trigger out.leases.dom().contains(a), out.leases.dom().contains(b)]
        out.leases.dom().contains(a) && out.leases.dom().contains(b) && a != b
            && out.leases[a].expires_at > now && out.leases[b].expires_at > now
        implies out.leases[a].ip != out.leases[b].ip by {
        if a != mac && b != mac {
            assert(leases.dom().contains(a) && leases.dom().contains(b));
        } else if a == mac {
            if out.leases != leases {
                assert(leases.dom().contains(b));
            }
        } else {
            if out.leases != leases {
                assert(leases.dom().contains(a));
            }
        }
    }
}

/// Does the client want a broadcast reply (flags bit 15)?
pub fn wants_broadcast(pkt: &DhcpPacket) -> (r: bool)
    ensures
        r == spec_wants_broadcast(pkt.flags),
{
    pkt.flags & 0x8000 != 0
}

/// Destination for an ACK (see [`spec_ack_dst`]).
pub fn ack_dst(pkt: &DhcpPacket) -> (r: ReplyDst)
    ensures
        r == spec_ack_dst(pkt.ciaddr.0, pkt.flags),
{
    if pkt.ciaddr.is_unspecified() || wants_broadcast(pkt) {
        ReplyDst::Broadcast
    } else {
        ReplyDst::Unicast(pkt.ciaddr)
    }
}

/// Decide how to answer one parsed packet, applying any lease change to
/// `store` in memory.
pub fn decide(cfg: &DhcpConfig, store: &mut LeaseStore, pkt: &DhcpPacket, now: u64) -> (d: Decision)
    requires
        cfg.subnet.prefix <= 32,
        cfg.dns@.len() * 4 <= 255,
        now + cfg.lease_time <= u64::MAX,
        now + DECLINE_QUARANTINE_SECS <= u64::MAX,
    ensures
        final(store).file_path() == old(store).file_path(),
        reply_view(d.reply) == spec_decide(*cfg, old(store)@, old(store).quarantined(), *pkt, now).reply,
        d.save_leases == spec_decide(*cfg, old(store)@, old(store).quarantined(), *pkt, now).save_leases,
        final(store)@ == spec_decide(*cfg, old(store)@, old(store).quarantined(), *pkt, now).leases,
        final(store).quarantined() == spec_decide(*cfg, old(store)@, old(store).quarantined(), *pkt, now).quarantine,
{
    proof {
        use_type_invariant(&*store);
    }
    proof {
        reveal(spec_decide);
    }
    if !pkt.giaddr.is_unspecified() {
        return Decision::silent();
    }
    let mtype = match pkt.options.msg_type() {
        Some(m) => m,
        None => return Decision::silent(),
    };
    let mac = pkt.chaddr;
    let is_static = cfg.static_for(mac).is_some();

    match mtype {
        DhcpMessageType::Discover => {
            match assign_ip(cfg, store, mac, now) {
                Some(ip) => Decision::reply(build_offer(pkt, cfg, ip), ReplyDst::Broadcast),
                None => Decision::silent(),
            }
        },
        DhcpMessageType::Request => {
            let sid = pkt.options.server_id();
            let selecting = sid.is_some();
            // SELECTING: option 54 names the chosen server; if it is not us,
            // another server owns this exchange.
            if let Some(s) = sid {
                if s != cfg.server_ip {
                    return Decision::silent();
                }
            }
            let requested = match pkt.options.requested_ip() {
                Some(r) => r,
                None => pkt.ciaddr,
            };
            // INIT-REBOOT (no option 54) from a client we know nothing about:
            // stay silent so a server that knows it can answer.
            let known = is_static || store.get(&mac).is_some();
            if !selecting && !known {
                return Decision::silent();
            }
            match assign_ip(cfg, store, mac, now) {
                Some(ip) => {
                    if requested.is_unspecified() || requested == ip {
                        let mut save_leases = false;
                        if !is_static {
                            store.purge_expired(now);
                            let hostname = pkt.options.hostname();
                            let lease = Lease {
                                mac,
                                ip,
                                hostname,
                                expires_at: now + cfg.lease_time as u64,
                                kind: LeaseKind::Dynamic,
                            };
                            store.insert(lease);
                            save_leases = true;
                        }
                        Decision {
                            reply: Some((build_ack(pkt, cfg, ip), ack_dst(pkt))),
                            save_leases,
                        }
                    } else {
                        Decision::reply(build_nak(pkt, cfg), ReplyDst::Broadcast)
                    }
                },
                None => Decision::reply(build_nak(pkt, cfg), ReplyDst::Broadcast),
            }
        },
        DhcpMessageType::Release => {
            let save_leases = !is_static && store.remove(&mac).is_some();
            Decision { reply: None, save_leases }
        },
        DhcpMessageType::Decline => {
            // The client reports the address is already in use: drop our
            // record and hold the address out of the pool for a while.
            let declined = match pkt.options.requested_ip() {
                Some(r) => r,
                None => match store.get(&mac) {
                    Some(l) => l.ip,
                    None => pkt.ciaddr,
                },
            };
            let save_leases = !is_static && store.remove(&mac).is_some();
            if !declined.is_unspecified() {
                store.quarantine(declined, now + DECLINE_QUARANTINE_SECS);
            }
            Decision { reply: None, save_leases }
        },
        DhcpMessageType::Inform => {
            // The reply is unicast to ciaddr, so a zero ciaddr is invalid.
            if pkt.ciaddr.is_unspecified() {
                return Decision::silent();
            }
            Decision::reply(build_inform_ack(pkt, cfg), ReplyDst::Unicast(pkt.ciaddr))
        },
        _ => Decision::silent(),
    }
}


/// The periodic sweep: when `now` has reached `next_purge`, drop expired
/// leases and ended quarantines and schedule the next sweep
/// [`PURGE_INTERVAL_SECS`] later. Returns (leases removed, quarantine entries
/// removed, next sweep time).
pub fn purge_tick(store: &mut LeaseStore, now: u64, next_purge: u64) -> (r: (usize, usize, u64))
    requires
        now + PURGE_INTERVAL_SECS <= u64::MAX,
    ensures
        final(store).file_path() == old(store).file_path(),
        now >= next_purge ==> {
            &&& final(store)@ == live_leases(old(store)@, now)
            &&& final(store).quarantined() == live_quarantine(old(store).quarantined(), now)
            &&& r.0 == old(store)@.dom().len() - final(store)@.dom().len()
            &&& r.1 == old(store).quarantined().dom().len() - final(store).quarantined().dom().len()
            &&& r.2 == now + PURGE_INTERVAL_SECS
        },
        now < next_purge ==> {
            &&& final(store)@ == old(store)@
            &&& final(store).quarantined() == old(store).quarantined()
            &&& r == (0usize, 0usize, next_purge)
        },
{
    proof {
        use_type_invariant(&*store);
    }
    if now >= next_purge {
        let leases = store.purge_expired(now);
        let quarantines = store.purge_quarantine(now);
        (leases, quarantines, now + PURGE_INTERVAL_SECS)
    } else {
        (0, 0, next_purge)
    }
}

}
