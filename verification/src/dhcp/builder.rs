//! Build DHCP replies (OFFER / ACK / NAK / INFORM-ACK) from a parsed request.
use vstd::prelude::*;

use super::message::{lemma_msg_code_roundtrip, msg_code, DhcpMessageType};
use super::options::{
    encode_options, ips_bytes, lemma_options_roundtrip, option_bytes, option_get, parse_options,
    spec_msg_type, spec_param_request_list, spec_server_id, writable_options, OptionsWriter, OPT_DNS,
    OPT_END, OPT_LEASE_TIME, OPT_MSG_TYPE, OPT_PAD, OPT_ROUTER, OPT_SERVER_ID, OPT_SUBNET_MASK,
};
use super::packet::{magic_cookie, magic_cookie_bytes, DhcpPacket, BOOTREPLY, HLEN_ETHERNET, HTYPE_ETHERNET};
use crate::config::DhcpConfig;
use crate::util::ip::{be32, lemma_be32_quad_of, Ipv4Addr};

verus! {

/// `n` zero bytes.
pub open spec fn zeros(n: nat) -> Seq<u8> {
    Seq::new(n, |i: int| 0u8)
}

/// The two bytes of `v`, most significant first.
pub open spec fn be16(v: u16) -> Seq<u8> {
    seq![(v / 0x100) as u8, (v % 0x100) as u8]
}

/// The fixed 240-byte BOOTP header and cookie of a reply: op BOOTREPLY,
/// Ethernet, the request's xid and flags echoed, `ciaddr` zero, `yiaddr`,
/// `siaddr` = the server, the request's `giaddr` and `chaddr` echoed,
/// `sname`/`file` zero, the magic cookie.
pub open spec fn reply_header(xid: u32, flags: u16, giaddr: u32, chaddr: Seq<u8>, server: u32, yiaddr: u32) -> Seq<u8> {
    seq![BOOTREPLY, HTYPE_ETHERNET, HLEN_ETHERNET, 0u8] + be32(xid) + zeros(2) + be16(flags) + zeros(4)
        + be32(yiaddr) + be32(server) + be32(giaddr) + chaddr + zeros(202) + magic_cookie()
}

/// Does the client want option `code`? Yes when it sent no (non-empty)
/// Parameter Request List, else only when the list names it.
pub open spec fn wants(prl: Option<Seq<u8>>, code: u8) -> bool {
    match prl {
        Some(l) => l.contains(code),
        None => true,
    }
}

/// The options of a reply, in order: message type and server identifier
/// always; for anything but a NAK also the lease time (when the reply grants
/// a lease), the subnet mask, the router and the DNS servers (each of the last
/// two only when configured and wanted).
pub open spec fn reply_options(
    req_opts: Seq<(u8, Seq<u8>)>,
    cfg: DhcpConfig,
    mt: DhcpMessageType,
    include_lease: bool,
) -> Seq<(u8, Seq<u8>)> {
    let base = seq![(OPT_MSG_TYPE, seq![msg_code(mt)]), (OPT_SERVER_ID, be32(cfg.server_ip.0))];
    if mt == DhcpMessageType::Nak {
        base
    } else {
        let prl = spec_param_request_list(req_opts);
        let lease = if include_lease {
            seq![(OPT_LEASE_TIME, be32(cfg.lease_time))]
        } else {
            Seq::empty()
        };
        let router = match cfg.router {
            Some(r) => if wants(prl, OPT_ROUTER) {
                seq![(OPT_ROUTER, be32(r.0))]
            } else {
                Seq::empty()
            },
            None => Seq::empty(),
        };
        let dns = if cfg.dns@.len() > 0 && wants(prl, OPT_DNS) {
            seq![(OPT_DNS, ips_bytes(cfg.dns@))]
        } else {
            Seq::empty()
        };
        base + lease + seq![(OPT_SUBNET_MASK, be32(cfg.subnet_mask.0))] + router + dns
    }
}

/// The bytes of a reply to `req`.
pub open spec fn reply_bytes(
    req: DhcpPacket,
    cfg: DhcpConfig,
    yiaddr: u32,
    mt: DhcpMessageType,
    include_lease: bool,
) -> Seq<u8> {
    reply_header(req.xid, req.flags, req.giaddr.0, req.chaddr@, cfg.server_ip.0, yiaddr)
        + encode_options(reply_options(req.options@, cfg, mt, include_lease)).push(OPT_END)
}

/// Appending one option extends the encoding by that option's bytes.
pub proof fn lemma_encode_push(items: Seq<(u8, Seq<u8>)>, x: (u8, Seq<u8>))
    ensures
        encode_options(items.push(x)) == encode_options(items) + option_bytes(x.0, x.1),
    decreases items.len(),
{
    if items.len() == 0 {
        assert(items.push(x).drop_first() =~= Seq::<(u8, Seq<u8>)>::empty());
        assert(encode_options(Seq::<(u8, Seq<u8>)>::empty()) =~= Seq::<u8>::empty());
        assert(items.push(x)[0] == x);
        assert(encode_options(items) =~= Seq::<u8>::empty());
        assert(encode_options(items.push(x)) =~= option_bytes(x.0, x.1));
    } else {
        lemma_encode_push(items.drop_first(), x);
        assert(items.push(x).drop_first() =~= items.drop_first().push(x));
        assert(encode_options(items.push(x)) =~= encode_options(items) + option_bytes(x.0, x.1));
    }
}

/// The bytes of addresses are four per address.
proof fn lemma_ips_bytes_len(ips: Seq<Ipv4Addr>)
    ensures
        ips_bytes(ips).len() == 4 * ips.len(),
    decreases ips.len(),
{
    if ips.len() > 0 {
        lemma_ips_bytes_len(ips.drop_last());
    }
}

/// The fixed part of every reply is 240 bytes long.
proof fn lemma_reply_header_len(xid: u32, flags: u16, giaddr: u32, chaddr: Seq<u8>, server: u32, yiaddr: u32)
    requires
        chaddr.len() == 6,
    ensures
        reply_header(xid, flags, giaddr, chaddr, server, yiaddr).len() == 240,
{
}

/// The options of a reply can be written and parsed back, and start with
/// the message type and the server identifier.
proof fn lemma_reply_items(req_opts: Seq<(u8, Seq<u8>)>, cfg: DhcpConfig, mt: DhcpMessageType, include_lease: bool)
    requires
        cfg.dns@.len() * 4 <= 255,
    ensures
        writable_options(reply_options(req_opts, cfg, mt, include_lease)),
        reply_options(req_opts, cfg, mt, include_lease).len() >= 2,
        reply_options(req_opts, cfg, mt, include_lease)[0] == (OPT_MSG_TYPE, seq![msg_code(mt)]),
        reply_options(req_opts, cfg, mt, include_lease)[1] == (OPT_SERVER_ID, be32(cfg.server_ip.0)),
{
    lemma_ips_bytes_len(cfg.dns@);
    let items = reply_options(req_opts, cfg, mt, include_lease);
    assert forall|k: int| #![trigger items[k]] 0 <= k < items.len() implies items[k].0 != OPT_PAD
        && items[k].0 != OPT_END && items[k].1.len() <= 255 by {
    }
}

/// The options area of every reply, after its 240-byte header, parses back
/// to the reply's options, so the client reads from it the message type the
/// reply was built as and this server's identifier.
pub proof fn lemma_reply_options_parse_back(
    req: DhcpPacket,
    cfg: DhcpConfig,
    yiaddr: u32,
    mt: DhcpMessageType,
    include_lease: bool,
)
    requires
        cfg.dns@.len() * 4 <= 255,
    ensures
        reply_bytes(req, cfg, yiaddr, mt, include_lease).len() >= 240,
        parse_options(reply_bytes(req, cfg, yiaddr, mt, include_lease).skip(240)) == reply_options(
            req.options@,
            cfg,
            mt,
            include_lease,
        ),
        spec_msg_type(parse_options(reply_bytes(req, cfg, yiaddr, mt, include_lease).skip(240))) == Some(mt),
        spec_server_id(parse_options(reply_bytes(req, cfg, yiaddr, mt, include_lease).skip(240))) == Some(
            cfg.server_ip.0,
        ),
{
    let items = reply_options(req.options@, cfg, mt, include_lease);
    let h = reply_header(req.xid, req.flags, req.giaddr.0, req.chaddr@, cfg.server_ip.0, yiaddr);
    lemma_reply_header_len(req.xid, req.flags, req.giaddr.0, req.chaddr@, cfg.server_ip.0, yiaddr);
    let e = encode_options(items).push(OPT_END);
    assert(reply_bytes(req, cfg, yiaddr, mt, include_lease) == h + e);
    assert((h + e).skip(240) =~= e);
    lemma_reply_items(req.options@, cfg, mt, include_lease);
    lemma_options_roundtrip(items);
    lemma_msg_code_roundtrip(mt, 0);
    assert(option_get(items, OPT_MSG_TYPE) == Some(seq![msg_code(mt)]));
    assert(items.drop_first()[0] == items[1]);
    assert(option_get(items.drop_first(), OPT_SERVER_ID) == Some(be32(cfg.server_ip.0)));
    assert(option_get(items, OPT_SERVER_ID) == Some(be32(cfg.server_ip.0)));
    lemma_be32_quad_of(cfg.server_ip.0);
}

/// Options without `code` in front do not change which value `code` has.
proof fn lemma_option_get_skip(a: Seq<(u8, Seq<u8>)>, b: Seq<(u8, Seq<u8>)>, code: u8)
    requires
        forall|i: int| 0 <= i < a.len() ==> #[trigger] a[i].0 != code,
    ensures
        option_get(a + b, code) == option_get(b, code),
    decreases a.len(),
{
    if a.len() > 0 {
        let t = a.drop_first();
        assert forall|i: int| 0 <= i < t.len() implies #[trigger] t[i].0 != code by {
            assert(t[i] == a[i + 1]);
        }
        lemma_option_get_skip(t, b, code);
        assert((a + b)[0] == a[0]);
        assert((a + b).drop_first() =~= t + b);
    } else {
        assert(a + b =~= b);
    }
}

/// A reply other than a NAK carries the configured router (option 3) and
/// DNS servers (option 6), each exactly when the client sent no parameter
/// request list or a list naming that option; read from the reply's bytes.
pub proof fn lemma_reply_carries_wanted_params(
    req: DhcpPacket,
    cfg: DhcpConfig,
    yiaddr: u32,
    mt: DhcpMessageType,
    include_lease: bool,
)
    requires
        cfg.dns@.len() * 4 <= 255,
        mt != DhcpMessageType::Nak,
    ensures
        ({
            let opts = parse_options(reply_bytes(req, cfg, yiaddr, mt, include_lease).skip(240));
            let prl = spec_param_request_list(req.options@);
            &&& option_get(opts, OPT_ROUTER) == match cfg.router {
                Some(r) => if prl is None || prl.unwrap().contains(OPT_ROUTER) {
                    Some(be32(r.0))
                } else {
                    None
                },
                None => None,
            }
            &&& option_get(opts, OPT_DNS) == if cfg.dns@.len() > 0 && (prl is None || prl.unwrap().contains(
                OPT_DNS,
            )) {
                Some(ips_bytes(cfg.dns@))
            } else {
                None
            }
        }),
{
    lemma_reply_options_parse_back(req, cfg, yiaddr, mt, include_lease);
    let prl = spec_param_request_list(req.options@);
    let base = seq![(OPT_MSG_TYPE, seq![msg_code(mt)]), (OPT_SERVER_ID, be32(cfg.server_ip.0))];
    let lease = if include_lease {
        seq![(OPT_LEASE_TIME, be32(cfg.lease_time))]
    } else {
        Seq::<(u8, Seq<u8>)>::empty()
    };
    let mask = seq![(OPT_SUBNET_MASK, be32(cfg.subnet_mask.0))];
    let router = match cfg.router {
        Some(r) => if wants(prl, OPT_ROUTER) {
            seq![(OPT_ROUTER, be32(r.0))]
        } else {
            Seq::<(u8, Seq<u8>)>::empty()
        },
        None => Seq::<(u8, Seq<u8>)>::empty(),
    };
    let dns = if cfg.dns@.len() > 0 && wants(prl, OPT_DNS) {
        seq![(OPT_DNS, ips_bytes(cfg.dns@))]
    } else {
        Seq::<(u8, Seq<u8>)>::empty()
    };
    let items = reply_options(req.options@, cfg, mt, include_lease);
    assert(items == base + lease + mask + router + dns);
    let front = base + lease + mask;
    assert forall|i: int| 0 <= i < front.len() implies #[trigger] front[i].0 != OPT_ROUTER && front[i].0 != OPT_DNS by {
        if i < 2 {
            assert(front[i] == base[i]);
        } else if i < 2 + lease.len() {
            assert(front[i] == lease[i - 2]);
        } else {
            assert(front[i] == mask[i - 2 - lease.len()]);
        }
    }
    assert(items =~= front + (router + dns));
    lemma_option_get_skip(front, router + dns, OPT_ROUTER);
    assert(items =~= (front + router) + dns);
    assert forall|i: int| 0 <= i < (front + router).len() implies #[trigger] (front + router)[i].0 != OPT_DNS by {
        if i < front.len() {
            assert((front + router)[i] == front[i]);
        } else {
            assert((front + router)[i] == router[i - front.len()]);
        }
    }
    lemma_option_get_skip(front + router, dns, OPT_DNS);
    if router.len() > 0 {
        assert((router + dns)[0] == router[0]);
    } else {
        assert(router + dns =~= dns);
        if dns.len() > 0 {
            assert(dns[0].0 == OPT_DNS);
            assert(dns.drop_first() =~= Seq::<(u8, Seq<u8>)>::empty());
        }
    }
    if dns.len() > 0 {
        assert(dns[0].0 == OPT_DNS);
    }
}

fn push_be32(p: &mut Vec<u8>, v: u32)
    ensures
        final(p)@ == old(p)@ + be32(v),
{
    let o = Ipv4Addr(v).octets();
    p.push(o[0]);
    p.push(o[1]);
    p.push(o[2]);
    p.push(o[3]);
    assert(p@ =~= old(p)@ + be32(v));
}

fn push_zeros(p: &mut Vec<u8>, n: usize)
    ensures
        final(p)@ == old(p)@ + zeros(n as nat),
{
    let ghost start = p@;
    let mut k: usize = 0;
    while k < n
        invariant
            k <= n,
            p@ == start + zeros(k as nat),
        decreases n - k,
    {
        p.push(0);
        k += 1;
        assert(p@ =~= start + zeros(k as nat));
    }
}

/// Fill the fixed BOOTP header of a reply, echoing the request's xid, flags,
/// giaddr and chaddr.
fn base_reply(req: &DhcpPacket, cfg: &DhcpConfig, yiaddr: Ipv4Addr) -> (p: Vec<u8>)
    ensures
        p@ == reply_header(req.xid, req.flags, req.giaddr.0, req.chaddr@, cfg.server_ip.0, yiaddr.0),
{
    let mut p: Vec<u8> = Vec::new();
    p.push(BOOTREPLY);
    p.push(HTYPE_ETHERNET);
    p.push(HLEN_ETHERNET);
    p.push(0);
    push_be32(&mut p, req.xid);
    push_zeros(&mut p, 2);
    p.push((req.flags / 0x100) as u8);
    p.push((req.flags % 0x100) as u8);
    push_zeros(&mut p, 4);
    push_be32(&mut p, yiaddr.0);
    push_be32(&mut p, cfg.server_ip.0);
    push_be32(&mut p, req.giaddr.0);
    let mac = req.chaddr.as_bytes();
    p.push(mac[0]);
    p.push(mac[1]);
    p.push(mac[2]);
    p.push(mac[3]);
    p.push(mac[4]);
    p.push(mac[5]);
    push_zeros(&mut p, 202);
    let cookie = magic_cookie_bytes();
    p.push(cookie[0]);
    p.push(cookie[1]);
    p.push(cookie[2]);
    p.push(cookie[3]);
    assert(p@ =~= reply_header(req.xid, req.flags, req.giaddr.0, req.chaddr@, cfg.server_ip.0, yiaddr.0));
    p
}

/// Does `list` contain `code`?
fn list_contains(list: &[u8], code: u8) -> (r: bool)
    ensures
        r == list@.contains(code),
{
    let mut k: usize = 0;
    while k < list.len()
        invariant
            k <= list.len(),
            forall|j: int| 0 <= j < k ==> list@[j] != code,
        decreases list.len() - k,
    {
        if list[k] == code {
            assert(list@[k as int] == code);
            return true;
        }
        k += 1;
    }
    false
}

fn build(
    req: &DhcpPacket,
    cfg: &DhcpConfig,
    yiaddr: Ipv4Addr,
    mt: DhcpMessageType,
    include_lease: bool,
) -> (r: Vec<u8>)
    requires
        mt == DhcpMessageType::Nak || cfg.dns@.len() * 4 <= 255,
    ensures
        r@ == reply_bytes(*req, *cfg, yiaddr.0, mt, include_lease),
{
    let mut packet = base_reply(req, cfg, yiaddr);
    let ghost items = reply_options(req.options@, *cfg, mt, include_lease);
    let ghost done: Seq<(u8, Seq<u8>)> = Seq::empty();

    let mut w = OptionsWriter::new();
    w.push_u8(OPT_MSG_TYPE, mt.to_u8());
    proof {
        lemma_encode_push(done, (OPT_MSG_TYPE, seq![msg_code(mt)]));
        done = done.push((OPT_MSG_TYPE, seq![msg_code(mt)]));
    }
    w.push_ipv4(OPT_SERVER_ID, cfg.server_ip);
    proof {
        lemma_encode_push(done, (OPT_SERVER_ID, be32(cfg.server_ip.0)));
        done = done.push((OPT_SERVER_ID, be32(cfg.server_ip.0)));
        assert(encode_options(Seq::<(u8, Seq<u8>)>::empty()) =~= Seq::<u8>::empty());
        assert(w@ == encode_options(done));
    }

    // NAK carries no configuration parameters.
    if mt != DhcpMessageType::Nak {
        let prl = req.options.param_request_list();
        let ghost sprl = spec_param_request_list(req.options@);
        if include_lease {
            w.push_u32(OPT_LEASE_TIME, cfg.lease_time);
            proof {
                lemma_encode_push(done, (OPT_LEASE_TIME, be32(cfg.lease_time)));
                done = done.push((OPT_LEASE_TIME, be32(cfg.lease_time)));
            }
        }
        w.push_ipv4(OPT_SUBNET_MASK, cfg.subnet_mask);
        proof {
            lemma_encode_push(done, (OPT_SUBNET_MASK, be32(cfg.subnet_mask.0)));
            done = done.push((OPT_SUBNET_MASK, be32(cfg.subnet_mask.0)));
        }
        if let Some(router) = cfg.router {
            let want = match prl {
                Some(list) => list_contains(list, OPT_ROUTER),
                None => true,
            };
            assert(want == wants(sprl, OPT_ROUTER));
            if want {
                w.push_ipv4(OPT_ROUTER, router);
                proof {
                    lemma_encode_push(done, (OPT_ROUTER, be32(router.0)));
                    done = done.push((OPT_ROUTER, be32(router.0)));
                }
            }
        }
        if cfg.dns.len() > 0 {
            let want = match prl {
                Some(list) => list_contains(list, OPT_DNS),
                None => true,
            };
            assert(want == wants(sprl, OPT_DNS));
            if want {
                w.push_ipv4_list(OPT_DNS, cfg.dns.as_slice());
                proof {
                    lemma_encode_push(done, (OPT_DNS, ips_bytes(cfg.dns@)));
                    done = done.push((OPT_DNS, ips_bytes(cfg.dns@)));
                }
            }
        }
    }
    assert(done =~= items);
    let opts = w.finish();
    let mut k: usize = 0;
    let ghost head = packet@;
    while k < opts.len()
        invariant
            k <= opts.len(),
            packet@ == head + opts@.take(k as int),
        decreases opts.len() - k,
    {
        packet.push(opts[k]);
        k += 1;
        assert(packet@ =~= head + opts@.take(k as int));
    }
    assert(opts@.take(opts.len() as int) =~= opts@);
    packet
}

/// A DHCPOFFER of `yiaddr`.
pub fn build_offer(req: &DhcpPacket, cfg: &DhcpConfig, yiaddr: Ipv4Addr) -> (r: Vec<u8>)
    requires
        cfg.dns@.len() * 4 <= 255,
    ensures
        r@ == reply_bytes(*req, *cfg, yiaddr.0, DhcpMessageType::Offer, true),
{
    build(req, cfg, yiaddr, DhcpMessageType::Offer, true)
}

/// A DHCPACK of `yiaddr`.
pub fn build_ack(req: &DhcpPacket, cfg: &DhcpConfig, yiaddr: Ipv4Addr) -> (r: Vec<u8>)
    requires
        cfg.dns@.len() * 4 <= 255,
    ensures
        r@ == reply_bytes(*req, *cfg, yiaddr.0, DhcpMessageType::Ack, true),
{
    build(req, cfg, yiaddr, DhcpMessageType::Ack, true)
}

/// A DHCPNAK: no address, no configuration parameters.
pub fn build_nak(req: &DhcpPacket, cfg: &DhcpConfig) -> (r: Vec<u8>)
    ensures
        r@ == reply_bytes(*req, *cfg, 0, DhcpMessageType::Nak, false),
{
    build(req, cfg, Ipv4Addr::unspecified(), DhcpMessageType::Nak, false)
}

/// A DHCPACK in reply to a DHCPINFORM: configuration parameters only, with
/// no yiaddr and no lease time (RFC 2131 §4.3.5).
pub fn build_inform_ack(req: &DhcpPacket, cfg: &DhcpConfig) -> (r: Vec<u8>)
    requires
        cfg.dns@.len() * 4 <= 255,
    ensures
        r@ == reply_bytes(*req, *cfg, 0, DhcpMessageType::Ack, false),
{
    build(req, cfg, Ipv4Addr::unspecified(), DhcpMessageType::Ack, false)
}

}
