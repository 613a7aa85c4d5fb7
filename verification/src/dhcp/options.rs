//! DHCP options: defensive TLV parser and a small writer.
//!
//! The parser never reads outside the buffer: a truncated length byte or an
//! option claiming more bytes than remain simply ends parsing. Unknown options
//! are kept verbatim and ignored by callers.
use vstd::prelude::*;

use super::message::{msg_from_code, DhcpMessageType};
use crate::util::ip::{be32, quad, Ipv4Addr};
use crate::util::text::{is_ws, no_ws, string_of};

verus! {

pub const OPT_PAD: u8 = 0;
pub const OPT_SUBNET_MASK: u8 = 1;
pub const OPT_ROUTER: u8 = 3;
pub const OPT_DNS: u8 = 6;
pub const OPT_HOSTNAME: u8 = 12;
pub const OPT_REQUESTED_IP: u8 = 50;
pub const OPT_LEASE_TIME: u8 = 51;
pub const OPT_MSG_TYPE: u8 = 53;
pub const OPT_SERVER_ID: u8 = 54;
pub const OPT_PARAM_REQUEST_LIST: u8 = 55;
pub const OPT_END: u8 = 255;

/// The options found in `buf` from offset `i` on: Pad is skipped, End or a
/// malformed (truncated) option ends the walk.
pub open spec fn options_from(buf: Seq<u8>, i: int) -> Seq<(u8, Seq<u8>)>
    decreases buf.len() - i,
{
    if i < 0 || i >= buf.len() {
        Seq::empty()
    } else if buf[i] == OPT_PAD {
        options_from(buf, i + 1)
    } else if buf[i] == OPT_END {
        Seq::empty()
    } else if i + 1 >= buf.len() {
        Seq::empty()
    } else {
        let end = i + 2 + buf[i + 1];
        if end > buf.len() {
            Seq::empty()
        } else {
            seq![(buf[i], buf.subrange(i + 2, end))] + options_from(buf, end)
        }
    }
}

/// The options area `buf` parsed into `(code, value)` pairs, in order.
pub open spec fn parse_options(buf: Seq<u8>) -> Seq<(u8, Seq<u8>)> {
    options_from(buf, 0)
}

/// The value of the first option with `code`, if any.
pub open spec fn option_get(items: Seq<(u8, Seq<u8>)>, code: u8) -> Option<Seq<u8>>
    decreases items.len(),
{
    if items.len() == 0 {
        None
    } else if items[0].0 == code {
        Some(items[0].1)
    } else {
        option_get(items.drop_first(), code)
    }
}

/// The message type carried by option 53 (which must be exactly one byte).
pub open spec fn spec_msg_type(items: Seq<(u8, Seq<u8>)>) -> Option<DhcpMessageType> {
    match option_get(items, OPT_MSG_TYPE) {
        Some(d) => if d.len() == 1 {
            msg_from_code(d[0])
        } else {
            None
        },
        None => None,
    }
}

/// The address held by a four-byte option value.
pub open spec fn spec_ipv4(data: Option<Seq<u8>>) -> Option<u32> {
    match data {
        Some(d) => if d.len() == 4 {
            Some(quad(d[0], d[1], d[2], d[3]))
        } else {
            None
        },
        None => None,
    }
}

/// Option 50 (Requested IP Address).
pub open spec fn spec_requested_ip(items: Seq<(u8, Seq<u8>)>) -> Option<u32> {
    spec_ipv4(option_get(items, OPT_REQUESTED_IP))
}

/// Option 54 (Server Identifier).
pub open spec fn spec_server_id(items: Seq<(u8, Seq<u8>)>) -> Option<u32> {
    spec_ipv4(option_get(items, OPT_SERVER_ID))
}

/// Option 55 (Parameter Request List), unless absent or empty.
pub open spec fn spec_param_request_list(items: Seq<(u8, Seq<u8>)>) -> Option<Seq<u8>> {
    match option_get(items, OPT_PARAM_REQUEST_LIST) {
        Some(d) => if d.len() == 0 {
            None
        } else {
            Some(d)
        },
        None => None,
    }
}

/// Hostname-safe bytes: ASCII letters and digits, `-`, `.` and `_`.
pub open spec fn is_host_byte(b: u8) -> bool {
    (0x30 <= b <= 0x39) || (0x41 <= b <= 0x5a) || (0x61 <= b <= 0x7a) || b == 0x2d || b == 0x2e
        || b == 0x5f
}

/// The hostname-safe characters of `raw`, in order.
pub open spec fn sanitize_host(raw: Seq<u8>) -> Seq<char>
    decreases raw.len(),
{
    if raw.len() == 0 {
        Seq::empty()
    } else if is_host_byte(raw.last()) {
        sanitize_host(raw.drop_last()).push(raw.last() as char)
    } else {
        sanitize_host(raw.drop_last())
    }
}

/// Option 12 sanitized to hostname-safe characters; `None` if absent or
/// empty after sanitizing.
pub open spec fn spec_hostname(items: Seq<(u8, Seq<u8>)>) -> Option<Seq<char>> {
    match option_get(items, OPT_HOSTNAME) {
        Some(raw) => if sanitize_host(raw).len() == 0 {
            None
        } else {
            Some(sanitize_host(raw))
        },
        None => None,
    }
}

/// A hostname-safe character: an ASCII letter or digit, `-`, `.` or `_`.
pub open spec fn is_host_char(c: char) -> bool {
    let u = c as u32;
    (0x30 <= u <= 0x39) || (0x41 <= u <= 0x5a) || (0x61 <= u <= 0x7a) || u == 0x2d || u == 0x2e
        || u == 0x5f
}

/// Sanitizing keeps only hostname-safe characters, so a sanitized hostname
/// holds no whitespace.
pub proof fn lemma_sanitized_host_safe(raw: Seq<u8>)
    ensures
        forall|i: int| 0 <= i < sanitize_host(raw).len() ==> #[trigger] is_host_char(sanitize_host(raw)[i]),
        no_ws(sanitize_host(raw)),
    decreases raw.len(),
{
    let h = sanitize_host(raw);
    if raw.len() > 0 {
        let t = raw.drop_last();
        lemma_sanitized_host_safe(t);
        let g = sanitize_host(t);
        if is_host_byte(raw.last()) {
            assert forall|i: int| 0 <= i < h.len() implies #[trigger] is_host_char(h[i]) by {
                if i < g.len() {
                    assert(h[i] == g[i]);
                }
            }
        }
    }
    assert forall|i: int| 0 <= i < h.len() implies !is_ws(h[i]) by {
        assert(is_host_char(h[i]));
    }
}

/// The characters of the bytes `raw`, one per byte.
pub open spec fn byte_chars(raw: Seq<u8>) -> Seq<char> {
    raw.map_values(|b: u8| b as char)
}

/// Sanitizing keeps a hostname made only of hostname-safe characters as it
/// is.
pub proof fn lemma_safe_host_kept(raw: Seq<u8>)
    requires
        forall|i: int| 0 <= i < raw.len() ==> #[trigger] is_host_char(raw[i] as char),
    ensures
        sanitize_host(raw) == byte_chars(raw),
    decreases raw.len(),
{
    if raw.len() > 0 {
        let t = raw.drop_last();
        assert forall|i: int| 0 <= i < t.len() implies #[trigger] is_host_char(t[i] as char) by {
            assert(t[i] == raw[i]);
        }
        lemma_safe_host_kept(t);
        assert(is_host_char(raw[raw.len() - 1] as char));
        assert(is_host_byte(raw.last()));
        assert(byte_chars(raw) =~= byte_chars(t).push(raw.last() as char));
    } else {
        assert(byte_chars(raw) =~= Seq::<char>::empty());
    }
}

/// A client's hostname made only of ASCII letters, digits, `-`, `.` and `_`
/// is read exactly as sent.
pub proof fn lemma_safe_hostname_read(items: Seq<(u8, Seq<u8>)>, raw: Seq<u8>)
    requires
        option_get(items, OPT_HOSTNAME) == Some(raw),
        raw.len() > 0,
        forall|i: int| 0 <= i < raw.len() ==> #[trigger] is_host_char(raw[i] as char),
    ensures
        spec_hostname(items) == Some(byte_chars(raw)),
{
    lemma_safe_host_kept(raw);
}

/// Parsed DHCP options, in the order they appeared.
#[derive(Debug)]
pub struct Options {
    items: Vec<(u8, Vec<u8>)>,
}

impl View for Options {
    type V = Seq<(u8, Seq<u8>)>;

    closed spec fn view(&self) -> Seq<(u8, Seq<u8>)> {
        self.items@.map_values(|it: (u8, Vec<u8>)| (it.0, it.1@))
    }
}

impl Options {
    /// Parse the options area (everything after the magic cookie). Always
    /// succeeds — malformed trailing data is dropped.
    pub fn parse(buf: &[u8]) -> (r: Options)
        ensures
            r@ == parse_options(buf@),
    {
        let mut items: Vec<(u8, Vec<u8>)> = Vec::new();
        let mut i: usize = 0;
        while i < buf.len()
            invariant
                i <= buf.len(),
                items@.map_values(|it: (u8, Vec<u8>)| (it.0, it.1@)) + options_from(buf@, i as int)
                    == options_from(buf@, 0),
            decreases buf.len() - i,
        {
            let ghost before = items@.map_values(|it: (u8, Vec<u8>)| (it.0, it.1@));
            let code = buf[i];
            if code == OPT_PAD {
                i += 1;
                continue;
            }
            if code == OPT_END || i + 1 >= buf.len() || buf[i + 1] as usize > buf.len() - (i + 2) {
                // End, a missing length byte or an overlong value: stop here.
                assert(options_from(buf@, i as int) =~= Seq::<(u8, Seq<u8>)>::empty());
                assert(options_from(buf@, buf.len() as int) =~= Seq::<(u8, Seq<u8>)>::empty());
                i = buf.len();
                continue;
            }
            let len = buf[i + 1] as usize;
            let start = i + 2;
            let end = start + len;
            let mut data: Vec<u8> = Vec::new();
            let mut k = start;
            while k < end
                invariant
                    start <= k <= end <= buf.len(),
                    data@ == buf@.subrange(start as int, k as int),
                decreases end - k,
            {
                data.push(buf[k]);
                k += 1;
                assert(data@ =~= buf@.subrange(start as int, k as int));
            }
            items.push((code, data));
            assert(items@.map_values(|it: (u8, Vec<u8>)| (it.0, it.1@)) =~= before.push(
                (code, buf@.subrange(start as int, end as int)),
            ));
            assert(before.push((code, buf@.subrange(start as int, end as int))) + options_from(
                buf@,
                end as int,
            ) =~= before + options_from(buf@, i as int));
            i = end;
        }
        assert(options_from(buf@, i as int) =~= Seq::<(u8, Seq<u8>)>::empty());
        assert(items@.map_values(|it: (u8, Vec<u8>)| (it.0, it.1@)) =~= options_from(buf@, 0));
        Options { items }
    }

    /// The value of the first option with `code`.
    pub fn get(&self, code: u8) -> (r: Option<&[u8]>)
        ensures
            match r {
                Some(d) => option_get(self@, code) == Some(d@),
                None => option_get(self@, code) is None,
            },
    {
        let mut k: usize = 0;
        assert(self@.skip(0) =~= self@);
        while k < self.items.len()
            invariant
                k <= self.items.len(),
                option_get(self@, code) == option_get(self@.skip(k as int), code),
            decreases self.items.len() - k,
        {
            let ghost rest = self@.skip(k as int);
            assert(rest[0] == (self.items[k as int].0, self.items[k as int].1@));
            if self.items[k].0 == code {
                return Some(self.items[k].1.as_slice());
            }
            assert(rest.drop_first() =~= self@.skip(k + 1));
            k += 1;
        }
        None
    }

    /// Option 53 decoded, if present with length exactly 1 and a known code.
    pub fn msg_type(&self) -> (r: Option<DhcpMessageType>)
        ensures
            r == spec_msg_type(self@),
    {
        let d = match self.get(OPT_MSG_TYPE) {
            Some(d) => d,
            None => return None,
        };
        if d.len() != 1 {
            return None;
        }
        DhcpMessageType::from_u8(d[0])
    }

    /// Option 50 (Requested IP Address), if exactly four bytes.
    pub fn requested_ip(&self) -> (r: Option<Ipv4Addr>)
        ensures
            r matches Some(ip) ==> spec_requested_ip(self@) == Some(ip.0),
            r is None ==> spec_requested_ip(self@) is None,
    {
        ipv4(self.get(OPT_REQUESTED_IP))
    }

    /// Option 54 (Server Identifier), if exactly four bytes.
    pub fn server_id(&self) -> (r: Option<Ipv4Addr>)
        ensures
            r matches Some(ip) ==> spec_server_id(self@) == Some(ip.0),
            r is None ==> spec_server_id(self@) is None,
    {
        ipv4(self.get(OPT_SERVER_ID))
    }

    /// Option 55 (Parameter Request List): the option codes the client wants,
    /// in the order given. `None` when absent or empty.
    pub fn param_request_list(&self) -> (r: Option<&[u8]>)
        ensures
            match r {
                Some(d) => spec_param_request_list(self@) == Some(d@),
                None => spec_param_request_list(self@) is None,
            },
    {
        let d = match self.get(OPT_PARAM_REQUEST_LIST) {
            Some(d) => d,
            None => return None,
        };
        if d.len() == 0 {
            None
        } else {
            Some(d)
        }
    }

    /// Client-provided hostname (option 12), sanitized to hostname-safe
    /// characters. `None` if absent or empty after sanitizing.
    pub fn hostname(&self) -> (r: Option<String>)
        ensures
            match r {
                Some(h) => spec_hostname(self@) == Some(h@),
                None => spec_hostname(self@) is None,
            },
    {
        let raw = match self.get(OPT_HOSTNAME) {
            Some(d) => d,
            None => return None,
        };
        let mut out: Vec<char> = Vec::new();
        let mut i: usize = 0;
        assert(raw@.take(0) =~= Seq::<u8>::empty());
        while i < raw.len()
            invariant
                i <= raw.len(),
                out@ == sanitize_host(raw@.take(i as int)),
            decreases raw.len() - i,
        {
            let b = raw[i];
            assert(raw@.take(i + 1).drop_last() =~= raw@.take(i as int));
            if (0x30 <= b && b <= 0x39) || (0x41 <= b && b <= 0x5a) || (0x61 <= b && b <= 0x7a)
                || b == 0x2d || b == 0x2e || b == 0x5f {
                out.push(b as char);
            }
            i += 1;
        }
        assert(raw@.take(raw.len() as int) =~= raw@);
        if out.len() == 0 {
            None
        } else {
            Some(string_of(&out))
        }
    }
}

/// Decode a 4-byte IPv4 option value.
fn ipv4(data: Option<&[u8]>) -> (r: Option<Ipv4Addr>)
    ensures
        match data {
            Some(d) => if d@.len() == 4 {
                r == Some(Ipv4Addr(quad(d@[0], d@[1], d@[2], d@[3])))
            } else {
                r is None
            },
            None => r is None,
        },
{
    let d = match data {
        Some(d) => d,
        None => return None,
    };
    if d.len() != 4 {
        return None;
    }
    Some(Ipv4Addr::new(d[0], d[1], d[2], d[3]))
}

/// The bytes of one option: code, length, value.
pub open spec fn option_bytes(code: u8, data: Seq<u8>) -> Seq<u8> {
    seq![code, data.len() as u8] + data
}

/// The octets of `ips`, one address after another.
pub open spec fn ips_bytes(ips: Seq<Ipv4Addr>) -> Seq<u8>
    decreases ips.len(),
{
    if ips.len() == 0 {
        Seq::empty()
    } else {
        ips_bytes(ips.drop_last()) + be32(ips.last().0)
    }
}

/// Builds the options area of a reply, TLV by TLV.
pub struct OptionsWriter {
    buf: Vec<u8>,
}

impl View for OptionsWriter {
    type V = Seq<u8>;

    closed spec fn view(&self) -> Seq<u8> {
        self.buf@
    }
}

impl OptionsWriter {
    /// An empty writer.
    pub fn new() -> (w: OptionsWriter)
        ensures
            w@ == Seq::<u8>::empty(),
    {
        OptionsWriter { buf: Vec::new() }
    }

    /// Append one option. A DHCP option length is a single byte, so the value
    /// must not exceed 255 bytes.
    pub fn push(&mut self, code: u8, data: &[u8])
        requires
            data@.len() <= 255,
        ensures
            final(self)@ == old(self)@ + option_bytes(code, data@),
    {
        let ghost start = self.buf@;
        self.buf.push(code);
        self.buf.push(data.len() as u8);
        let mut k: usize = 0;
        while k < data.len()
            invariant
                k <= data.len() <= 255,
                self.buf@ == start + seq![code, data@.len() as u8] + data@.take(k as int),
            decreases data.len() - k,
        {
            self.buf.push(data[k]);
            k += 1;
            assert(self.buf@ =~= start + seq![code, data@.len() as u8] + data@.take(k as int));
        }
        assert(data@.take(data.len() as int) =~= data@);
        assert(self.buf@ =~= start + option_bytes(code, data@));
    }

    /// Append a one-byte option.
    pub fn push_u8(&mut self, code: u8, v: u8)
        ensures
            final(self)@ == old(self)@ + option_bytes(code, seq![v]),
    {
        let d = [v];
        assert(d@ =~= seq![v]);
        self.push(code, &d);
    }

    /// Append a four-byte big-endian integer option.
    pub fn push_u32(&mut self, code: u8, v: u32)
        ensures
            final(self)@ == old(self)@ + option_bytes(code, be32(v)),
    {
        let d = Ipv4Addr(v).octets();
        self.push(code, &d);
    }

    /// Append an address option.
    pub fn push_ipv4(&mut self, code: u8, ip: Ipv4Addr)
        ensures
            final(self)@ == old(self)@ + option_bytes(code, be32(ip.0)),
    {
        let d = ip.octets();
        self.push(code, &d);
    }

    /// Append an option holding a list of addresses; at most 63 fit.
    pub fn push_ipv4_list(&mut self, code: u8, ips: &[Ipv4Addr])
        requires
            ips@.len() * 4 <= 255,
        ensures
            final(self)@ == old(self)@ + option_bytes(code, ips_bytes(ips@)),
    {
        let mut data: Vec<u8> = Vec::new();
        let mut k: usize = 0;
        assert(ips@.take(0) =~= Seq::<Ipv4Addr>::empty());
        while k < ips.len()
            invariant
                k <= ips.len(),
                data@ == ips_bytes(ips@.take(k as int)),
                data@.len() == 4 * k,
            decreases ips.len() - k,
        {
            let o = ips[k].octets();
            data.push(o[0]);
            data.push(o[1]);
            data.push(o[2]);
            data.push(o[3]);
            assert(ips@.take(k + 1).drop_last() =~= ips@.take(k as int));
            k += 1;
            assert(data@ =~= ips_bytes(ips@.take(k as int)));
        }
        assert(ips@.take(ips.len() as int) =~= ips@);
        self.push(code, &data);
    }

    /// Append the End option and return the finished bytes.
    pub fn finish(self) -> (r: Vec<u8>)
        ensures
            r@ == self@.push(OPT_END),
    {
        let mut buf = self.buf;
        buf.push(OPT_END);
        buf
    }
}

impl Default for OptionsWriter {
    fn default() -> (w: Self)
        ensures
            w@ == Seq::<u8>::empty(),
    {
        Self::new()
    }
}


/// The bytes of the options `items`, one after another.
pub open spec fn encode_options(items: Seq<(u8, Seq<u8>)>) -> Seq<u8>
    decreases items.len(),
{
    if items.len() == 0 {
        Seq::empty()
    } else {
        option_bytes(items[0].0, items[0].1) + encode_options(items.drop_first())
    }
}

/// Options that a writer can emit and the parser keeps: not Pad, not End,
/// and a value that fits the one-byte length.
pub open spec fn writable_options(items: Seq<(u8, Seq<u8>)>) -> bool {
    forall|k: int|
        #![trigger items[k]]
        0 <= k < items.len() ==> items[k].0 != OPT_PAD && items[k].0 != OPT_END && items[k].1.len()
            <= 255
}

proof fn lemma_options_shift(p: Seq<u8>, t: Seq<u8>, j: int)
    requires
        0 <= j,
    ensures
        options_from(p + t, p.len() + j) == options_from(t, j),
    decreases t.len() - j,
{
    let b = p + t;
    let i = p.len() + j;
    if j < t.len() {
        assert(b[i] == t[j]);
        if t[j] == OPT_PAD {
            lemma_options_shift(p, t, j + 1);
        } else if t[j] != OPT_END && j + 1 < t.len() {
            assert(b[i + 1] == t[j + 1]);
            let end = j + 2 + t[j + 1];
            if end <= t.len() {
                assert(b.subrange(i + 2, i + 2 + t[j + 1]) =~= t.subrange(j + 2, end));
                lemma_options_shift(p, t, end);
            }
        }
    }
}

/// Options written one after another and closed by End parse back to the
/// same `(code, value)` list, in order.
pub proof fn lemma_options_roundtrip(items: Seq<(u8, Seq<u8>)>)
    requires
        writable_options(items),
    ensures
        parse_options(encode_options(items).push(OPT_END)) == items,
    decreases items.len(),
{
    if items.len() == 0 {
        assert(encode_options(items).push(OPT_END) =~= seq![OPT_END]);
        assert(parse_options(seq![OPT_END]) =~= Seq::<(u8, Seq<u8>)>::empty());
    } else {
        let c = items[0].0;
        let d = items[0].1;
        let tail = items.drop_first();
        assert(writable_options(tail)) by {
            assert forall|k: int| #![trigger tail[k]] 0 <= k < tail.len() implies tail[k].0 != OPT_PAD
                && tail[k].0 != OPT_END && tail[k].1.len() <= 255 by {
                assert(tail[k] == items[k + 1]);
            }
        }
        assert(items[0].0 != OPT_PAD && items[0].0 != OPT_END && items[0].1.len() <= 255);
        lemma_options_roundtrip(tail);
        let head = option_bytes(c, d);
        let rest = encode_options(tail).push(OPT_END);
        let b = encode_options(items).push(OPT_END);
        assert(b =~= head + rest);
        assert(b[0] == c);
        assert(b[1] == d.len() as u8);
        assert(b.subrange(2, 2 + d.len() as int) =~= d);
        lemma_options_shift(head, rest, 0);
        assert(parse_options(b) =~= seq![(c, d)] + tail);
        assert(seq![(c, d)] + tail =~= items);
    }
}

}
