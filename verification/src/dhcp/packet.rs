//! BOOTP/DHCP packet parsing.
//!
//! Layout (RFC 2131): a 236-byte fixed BOOTP header, a 4-byte magic cookie,
//! then variable-length options. Every read is bounds-checked; the parser
//! returns `Err` for anything malformed.
use vstd::prelude::*;

use super::options::{parse_options, Options};
use crate::util::ip::{quad, Ipv4Addr};
use crate::util::mac::MacAddr;

verus! {

pub const BOOTREQUEST: u8 = 1;
pub const BOOTREPLY: u8 = 2;
pub const HTYPE_ETHERNET: u8 = 1;
pub const HLEN_ETHERNET: u8 = 6;

/// Offset of the magic cookie: the end of the fixed BOOTP header.
pub const COOKIE_OFFSET: usize = 236;

/// Minimum valid packet length: fixed header + cookie.
pub const MIN_LEN: usize = 240;

/// The magic cookie `99, 130, 83, 99`.
pub open spec fn magic_cookie() -> Seq<u8> {
    seq![99u8, 130u8, 83u8, 99u8]
}

/// The magic cookie bytes.
pub fn magic_cookie_bytes() -> (r: [u8; 4])
    ensures
        r@ == magic_cookie(),
{
    let r = [99u8, 130u8, 83u8, 99u8];
    assert(r@ =~= magic_cookie());
    r
}

/// The big-endian 16-bit value at `off`.
pub open spec fn be16_at(b: Seq<u8>, off: int) -> u16 {
    (b[off] * 0x100 + b[off + 1]) as u16
}

/// The big-endian 32-bit value at `off`.
pub open spec fn be32_at(b: Seq<u8>, off: int) -> u32 {
    quad(b[off], b[off + 1], b[off + 2], b[off + 3])
}

/// Why `buf` is not a usable BOOTREQUEST, checked in this order, or `None`.
pub open spec fn packet_error(buf: Seq<u8>) -> Option<Seq<char>> {
    if buf.len() < MIN_LEN {
        Some("packet shorter than 240 bytes"@)
    } else if buf[0] != BOOTREQUEST {
        Some("op is not BOOTREQUEST"@)
    } else if buf[1] != HTYPE_ETHERNET {
        Some("htype is not Ethernet"@)
    } else if buf[2] != HLEN_ETHERNET {
        Some("hlen is not 6"@)
    } else if buf.subrange(COOKIE_OFFSET as int, MIN_LEN as int) != magic_cookie() {
        Some("invalid magic cookie"@)
    } else {
        None
    }
}

/// The fields of a client request we use. `op`/`htype`/`hlen` are checked
/// during parsing but not stored; `yiaddr`/`siaddr` are left out.
#[derive(Debug)]
pub struct DhcpPacket {
    pub xid: u32,
    pub flags: u16,
    pub ciaddr: Ipv4Addr,
    pub giaddr: Ipv4Addr,
    pub chaddr: MacAddr,
    pub options: Options,
}

impl DhcpPacket {
    /// `p` holds the fields of the well-formed packet `buf`.
    pub open spec fn parsed_from(p: DhcpPacket, buf: Seq<u8>) -> bool {
        &&& p.xid == be32_at(buf, 4)
        &&& p.flags == be16_at(buf, 10)
        &&& p.ciaddr.0 == be32_at(buf, 12)
        &&& p.giaddr.0 == be32_at(buf, 24)
        &&& p.chaddr@ == buf.subrange(28, 34)
        &&& p.options@ == parse_options(buf.skip(MIN_LEN as int))
    }

    /// Parse a datagram; `Err` names the first check that failed.
    pub fn parse(buf: &[u8]) -> (r: Result<DhcpPacket, &'static str>)
        ensures
            match r {
                Ok(p) => packet_error(buf@) is None && DhcpPacket::parsed_from(p, buf@),
                Err(e) => packet_error(buf@) == Some(e@),
            },
    {
        if buf.len() < MIN_LEN {
            return Err("packet shorter than 240 bytes");
        }
        let op = buf[0];
        let htype = buf[1];
        let hlen = buf[2];
        if op != BOOTREQUEST {
            return Err("op is not BOOTREQUEST");
        }
        if htype != HTYPE_ETHERNET {
            return Err("htype is not Ethernet");
        }
        if hlen != HLEN_ETHERNET {
            return Err("hlen is not 6");
        }
        if buf[236] != 99 || buf[237] != 130 || buf[238] != 83 || buf[239] != 99 {
            assert(buf@.subrange(236, 240) != magic_cookie()) by {
                if buf@.subrange(236, 240) == magic_cookie() {
                    assert(buf@.subrange(236, 240)[0] == buf@[236]);
                    assert(buf@.subrange(236, 240)[1] == buf@[237]);
                    assert(buf@.subrange(236, 240)[2] == buf@[238]);
                    assert(buf@.subrange(236, 240)[3] == buf@[239]);
                }
            }
            return Err("invalid magic cookie");
        }
        assert(buf@.subrange(236, 240) =~= magic_cookie());
        let xid = read_u32(buf, 4);
        let flags = (buf[10] as u16) * 0x100 + (buf[11] as u16);
        let ciaddr = Ipv4Addr(read_u32(buf, 12));
        let giaddr = Ipv4Addr(read_u32(buf, 24));
        let chaddr = MacAddr([buf[28], buf[29], buf[30], buf[31], buf[32], buf[33]]);
        assert(chaddr@ =~= buf@.subrange(28, 34));
        let mut rest: Vec<u8> = Vec::new();
        let mut k: usize = MIN_LEN;
        while k < buf.len()
            invariant
                MIN_LEN <= k <= buf.len(),
                rest@ == buf@.subrange(MIN_LEN as int, k as int),
            decreases buf.len() - k,
        {
            rest.push(buf[k]);
            k += 1;
            assert(rest@ =~= buf@.subrange(MIN_LEN as int, k as int));
        }
        assert(rest@ =~= buf@.skip(MIN_LEN as int));
        let options = Options::parse(&rest);
        Ok(DhcpPacket { xid, flags, ciaddr, giaddr, chaddr, options })
    }
}

/// The big-endian 32-bit value at `off`.
fn read_u32(buf: &[u8], off: usize) -> (r: u32)
    requires
        off + 4 <= buf@.len(),
    ensures
        r == be32_at(buf@, off as int),
{
    Ipv4Addr::new(buf[off], buf[off + 1], buf[off + 2], buf[off + 3]).0
}

}
