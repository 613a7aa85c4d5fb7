//! IPv4 addresses and CIDR subnets.
use vstd::prelude::*;

use super::text::{
    is_dec_char, is_ws, lacks, lemma_dec, lemma_split_append, lemma_split_plain, lemma_trim_noop, no_ws,
    all_digits, chars_of, dec, digit_value, digits_value, parse_uint, parse_uint_chars, push_chars, push_dec,
    push_str, split, split_chars, split_once, split_once_chars, string_of, trim, trim_chars,
};

verus! {

/// An IPv4 address, held as its 32-bit value in host order: the first octet
/// of the dotted form is the most significant byte.
#[derive(Clone, Copy, PartialEq, Eq, Structural, Debug)]
pub struct Ipv4Addr(pub u32);

/// The four octets of `v`, most significant first (network order).
pub open spec fn be32(v: u32) -> Seq<u8> {
    seq![(v / 0x1000000) as u8, ((v / 0x10000) % 0x100) as u8, ((v / 0x100) % 0x100) as u8, (v % 0x100) as u8]
}

/// The 32-bit value of the octets `a.b.c.d`.
pub open spec fn quad(a: u8, b: u8, c: u8, d: u8) -> u32 {
    (a * 0x1000000 + b * 0x10000 + c * 0x100 + d) as u32
}

/// A dotted-decimal octet: one to three decimal digits, no leading zero
/// unless the octet is `0` itself, value at most 255.
pub open spec fn octet_ok(t: Seq<char>) -> bool {
    &&& 1 <= t.len() <= 3
    &&& all_digits(t, 10)
    &&& (t.len() == 1 || t[0] != '0')
    &&& digits_value(t, 10) <= 255
}

/// The address written `s` in dotted-decimal form (`a.b.c.d`), as the
/// standard library's IPv4 parser reads it, or `None`.
pub open spec fn parse_dotted(s: Seq<char>) -> Option<u32> {
    let p = split(s, '.');
    if p.len() == 4 && octet_ok(p[0]) && octet_ok(p[1]) && octet_ok(p[2]) && octet_ok(p[3]) {
        Some(
            quad(
                digits_value(p[0], 10) as u8,
                digits_value(p[1], 10) as u8,
                digits_value(p[2], 10) as u8,
                digits_value(p[3], 10) as u8,
            ),
        )
    } else {
        None
    }
}

/// The dotted-decimal text of the address `v` (its `Display` form).
pub open spec fn ip_text(v: u32) -> Seq<char> {
    let o = be32(v);
    dec(o[0] as nat) + seq!['.'] + dec(o[1] as nat) + seq!['.'] + dec(o[2] as nat) + seq!['.']
        + dec(o[3] as nat)
}

/// What [`parse_ipv4`] gives for the text `s`: the address of the trimmed
/// text, or the message `invalid IPv4 address '<s>'`.
pub open spec fn spec_parse_ipv4(s: Seq<char>) -> Result<u32, Seq<char>> {
    match parse_dotted(trim(s)) {
        Some(v) => Ok(v),
        None => Err("invalid IPv4 address '"@ + s + "'"@),
    }
}

impl Ipv4Addr {
    /// The address `a.b.c.d`.
    pub fn new(a: u8, b: u8, c: u8, d: u8) -> (r: Ipv4Addr)
        ensures
            r.0 == quad(a, b, c, d),
    {
        Ipv4Addr((a as u32) * 0x1000000 + (b as u32) * 0x10000 + (c as u32) * 0x100 + (d as u32))
    }

    /// The unspecified address `0.0.0.0`.
    pub fn unspecified() -> (r: Ipv4Addr)
        ensures
            r.0 == 0,
    {
        Ipv4Addr(0)
    }

    /// Is this `0.0.0.0`?
    pub fn is_unspecified(&self) -> (b: bool)
        ensures
            b == (self.0 == 0),
    {
        self.0 == 0
    }

    /// The four octets, most significant first.
    pub fn octets(&self) -> (r: [u8; 4])
        ensures
            r@ == be32(self.0),
    {
        let v = self.0;
        let r = [(v / 0x1000000) as u8, ((v / 0x10000) % 0x100) as u8, ((v / 0x100) % 0x100) as u8, (v % 0x100) as u8];
        assert(r@ =~= be32(v));
        r
    }

    /// Dotted-decimal text of this address.
    pub fn to_string(&self) -> (s: String)
        ensures
            s@ == ip_text(self.0),
    {
        let mut out: Vec<char> = Vec::new();
        push_ip(&mut out, *self);
        string_of(&out)
    }
}

/// Append the dotted-decimal text of `ip`.
pub fn push_ip(out: &mut Vec<char>, ip: Ipv4Addr)
    ensures
        final(out)@ == old(out)@ + ip_text(ip.0),
{
    let o = ip.octets();
    push_dec(out, o[0] as u64);
    out.push('.');
    push_dec(out, o[1] as u64);
    out.push('.');
    push_dec(out, o[2] as u64);
    out.push('.');
    push_dec(out, o[3] as u64);
    assert(out@ =~= old(out)@ + ip_text(ip.0));
}

/// The value of a dotted-decimal octet, or `None`.
fn parse_octet(t: &[char]) -> (r: Option<u8>)
    ensures
        match r {
            Some(v) => octet_ok(t@) && v as nat == digits_value(t@, 10),
            None => !octet_ok(t@),
        },
{
    if t.len() < 1 || t.len() > 3 || (t.len() > 1 && t[0] == '0') {
        return None;
    }
    if t[0] == '+' {
        assert(digit_value(t@[0], 10) is None);
        return None;
    }
    match parse_uint_chars(t, 10, 255) {
        Some(v) => Some(v as u8),
        None => None,
    }
}

/// Parse the dotted-decimal form `a.b.c.d` (no surrounding whitespace).
pub fn parse_dotted_chars(s: &[char]) -> (r: Option<Ipv4Addr>)
    ensures
        match r {
            Some(ip) => parse_dotted(s@) == Some(ip.0),
            None => parse_dotted(s@) is None,
        },
{
    let p = split_chars(s, '.');
    if p.len() != 4 {
        return None;
    }
    assert(p[0]@ == split(s@, '.')[0]);
    assert(p[1]@ == split(s@, '.')[1]);
    assert(p[2]@ == split(s@, '.')[2]);
    assert(p[3]@ == split(s@, '.')[3]);
    let a = match parse_octet(p[0].as_slice()) {
        Some(v) => v,
        None => return None,
    };
    let b = match parse_octet(p[1].as_slice()) {
        Some(v) => v,
        None => return None,
    };
    let c = match parse_octet(p[2].as_slice()) {
        Some(v) => v,
        None => return None,
    };
    let d = match parse_octet(p[3].as_slice()) {
        Some(v) => v,
        None => return None,
    };
    Some(Ipv4Addr::new(a, b, c, d))
}

/// Parse an IPv4 address after trimming surrounding whitespace, with a
/// message naming the text on failure.
pub fn parse_ipv4(s: &str) -> (r: Result<Ipv4Addr, String>)
    ensures
        match r {
            Ok(ip) => spec_parse_ipv4(s@) == Ok::<u32, Seq<char>>(ip.0),
            Err(e) => spec_parse_ipv4(s@) == Err::<u32, Seq<char>>(e@),
        },
{
    let cs = chars_of(s);
    parse_ipv4_chars(&cs)
}

/// [`parse_ipv4`] on characters.
pub fn parse_ipv4_chars(s: &[char]) -> (r: Result<Ipv4Addr, String>)
    ensures
        match r {
            Ok(ip) => spec_parse_ipv4(s@) == Ok::<u32, Seq<char>>(ip.0),
            Err(e) => spec_parse_ipv4(s@) == Err::<u32, Seq<char>>(e@),
        },
{
    let t = trim_chars(s);
    match parse_dotted_chars(&t) {
        Some(ip) => Ok(ip),
        None => {
            let mut out: Vec<char> = Vec::new();
            push_str(&mut out, "invalid IPv4 address '");
            push_chars(&mut out, s);
            push_str(&mut out, "'");
            Err(string_of(&out))
        },
    }
}

/// IPv4 address as host-order `u32`.
pub fn to_u32(ip: Ipv4Addr) -> (r: u32)
    ensures
        r == ip.0,
{
    ip.0
}

/// `u32` (host order) back to an IPv4 address.
pub fn from_u32(v: u32) -> (r: Ipv4Addr)
    ensures
        r.0 == v,
{
    Ipv4Addr(v)
}

/// The octets of an address make it up again.
proof fn lemma_be32_quad(v: u32)
    ensures
        quad(be32(v)[0], be32(v)[1], be32(v)[2], be32(v)[3]) == v,
        be32(v)[0] as nat == v / 0x1000000,
        be32(v)[1] as nat == (v / 0x10000) % 0x100,
        be32(v)[2] as nat == (v / 0x100) % 0x100,
        be32(v)[3] as nat == v % 0x100,
{
    assert(v == (v / 0x1000000) * 0x1000000 + ((v / 0x10000) % 0x100) * 0x10000 + ((v / 0x100) % 0x100)
        * 0x100 + v % 0x100) by (bit_vector);
    assert(v / 0x1000000 < 0x100) by (bit_vector);
}

/// The four octets of an address, read back as an address, give it again.
pub proof fn lemma_be32_quad_of(v: u32)
    ensures
        be32(v).len() == 4,
        quad(be32(v)[0], be32(v)[1], be32(v)[2], be32(v)[3]) == v,
{
    lemma_be32_quad(v);
}

/// An octet's decimal text is a valid dotted-decimal octet worth the octet.
proof fn lemma_octet_text(o: u8)
    ensures
        octet_ok(dec(o as nat)),
        digits_value(dec(o as nat), 10) == o as nat,
        lacks(dec(o as nat), '.'),
        no_ws(dec(o as nat)),
{
    lemma_dec(o as nat);
    let t = dec(o as nat);
    assert forall|i: int| 0 <= i < t.len() implies t[i] != '.' && !is_ws(t[i]) by {
        assert(is_dec_char(t[i]));
    }
}

/// The dotted-decimal text of an address reads back as that address, with
/// or without the surrounding trim.
pub proof fn lemma_ip_text_roundtrip(v: u32)
    ensures
        parse_dotted(ip_text(v)) == Some(v),
        spec_parse_ipv4(ip_text(v)) == Ok::<u32, Seq<char>>(v),
        ip_text(v).len() > 0,
        no_ws(ip_text(v)),
        lacks(ip_text(v), ':'),
        lacks(ip_text(v), '/'),
{
    let o = be32(v);
    lemma_be32_quad(v);
    lemma_octet_text(o[0]);
    lemma_octet_text(o[1]);
    lemma_octet_text(o[2]);
    lemma_octet_text(o[3]);
    let t0 = dec(o[0] as nat);
    let t1 = dec(o[1] as nat);
    let t2 = dec(o[2] as nat);
    let t3 = dec(o[3] as nat);
    let dot = seq!['.'];
    lemma_split_plain(t0, '.');
    lemma_split_append(t0, t1, '.');
    lemma_split_append(t0 + dot + t1, t2, '.');
    lemma_split_append(t0 + dot + t1 + dot + t2, t3, '.');
    let s = ip_text(v);
    assert(s == t0 + dot + t1 + dot + t2 + dot + t3);
    let p = split(s, '.');
    assert(p == seq![t0, t1, t2, t3]);
    assert(p[0] == t0 && p[1] == t1 && p[2] == t2 && p[3] == t3);
    assert forall|i: int| 0 <= i < s.len() implies !is_ws(s[i]) && s[i] != ':' && s[i] != '/' by {
        lemma_dec(o[0] as nat);
        lemma_dec(o[1] as nat);
        lemma_dec(o[2] as nat);
        lemma_dec(o[3] as nat);
        let k1 = t0.len() as int;
        let k2 = k1 + 1 + t1.len();
        let k3 = k2 + 1 + t2.len();
        if i < k1 {
            assert(s[i] == t0[i]);
            assert(is_dec_char(t0[i]));
        } else if i == k1 {
        } else if i < k2 {
            assert(s[i] == t1[i - k1 - 1]);
            assert(is_dec_char(t1[i - k1 - 1]));
        } else if i == k2 {
        } else if i < k3 {
            assert(s[i] == t2[i - k2 - 1]);
            assert(is_dec_char(t2[i - k2 - 1]));
        } else if i == k3 {
        } else {
            assert(s[i] == t3[i - k3 - 1]);
            assert(is_dec_char(t3[i - k3 - 1]));
        }
    }
    lemma_trim_noop(s);
}

/// The netmask with the `prefix` most significant bits set.
pub open spec fn prefix_mask(prefix: u8) -> u32 {
    if prefix == 0 {
        0
    } else {
        0xffff_ffffu32 << ((32 - prefix) as u32)
    }
}

/// A subnet in CIDR form, e.g. `192.168.10.0/24`.
#[derive(Clone, Copy, PartialEq, Eq, Structural, Debug)]
pub struct Cidr {
    pub addr: Ipv4Addr,
    pub prefix: u8,
}

impl Cidr {
    /// Network address of the subnet.
    pub open spec fn spec_network(self) -> u32 {
        self.addr.0 & prefix_mask(self.prefix)
    }

    /// Broadcast address of the subnet.
    pub open spec fn spec_broadcast(self) -> u32 {
        self.addr.0 | !prefix_mask(self.prefix)
    }

    /// Is `ip` inside the subnet?
    pub open spec fn spec_contains(self, ip: u32) -> bool {
        ip & prefix_mask(self.prefix) == self.spec_network()
    }

    /// Netmask as a `u32`. Prefix 0 yields 0.
    pub fn mask(&self) -> (m: u32)
        requires
            self.prefix <= 32,
        ensures
            m == prefix_mask(self.prefix),
    {
        if self.prefix == 0 {
            0
        } else {
            u32::MAX << (32 - self.prefix as u32)
        }
    }

    /// Network address (host bits cleared).
    pub fn network(&self) -> (r: Ipv4Addr)
        requires
            self.prefix <= 32,
        ensures
            r.0 == self.spec_network(),
    {
        from_u32(to_u32(self.addr) & self.mask())
    }

    /// Broadcast address (host bits set).
    pub fn broadcast(&self) -> (r: Ipv4Addr)
        requires
            self.prefix <= 32,
        ensures
            r.0 == self.spec_broadcast(),
    {
        from_u32(to_u32(self.addr) | !self.mask())
    }

    /// Netmask as an address, e.g. `255.255.255.0`.
    pub fn netmask(&self) -> (r: Ipv4Addr)
        requires
            self.prefix <= 32,
        ensures
            r.0 == prefix_mask(self.prefix),
    {
        from_u32(self.mask())
    }

    /// Is `ip` inside this subnet?
    pub fn contains(&self, ip: Ipv4Addr) -> (b: bool)
        requires
            self.prefix <= 32,
        ensures
            b == self.spec_contains(ip.0),
    {
        (to_u32(ip) & self.mask()) == to_u32(self.network())
    }
}

/// Masking with a run of high bits: the masked address is its own network,
/// and an address shares it exactly when it lies between the masked address
/// and the address with all low bits set.
proof fn lemma_high_mask(a: u32, ip: u32, m: u32, k: u32)
    by (bit_vector)
    requires
        k < 32,
        m == 0xffff_ffffu32 << k,
    ensures
        (a & m) & m == a & m,
        (a | !m) & m == a & m,
        (ip & m == a & m) <==> ((a & m) <= ip && ip <= (a | !m)),
{
}

/// A subnet contains its network and broadcast addresses, and exactly the
/// addresses from the one to the other.
pub proof fn lemma_cidr_range(c: Cidr, ip: u32)
    requires
        c.prefix <= 32,
    ensures
        c.spec_contains(c.spec_network()),
        c.spec_contains(c.spec_broadcast()),
        c.spec_network() <= c.spec_broadcast(),
        c.spec_contains(ip) <==> c.spec_network() <= ip <= c.spec_broadcast(),
{
    let a = c.addr.0;
    if c.prefix == 0 {
        assert((a & 0) & 0 == a & 0) by (bit_vector);
        assert((a | !0u32) & 0 == a & 0) by (bit_vector);
        assert(ip & 0 == a & 0) by (bit_vector);
        assert(a & 0 <= ip && ip <= (a | !0u32)) by (bit_vector);
        assert(a & 0 <= (a | !0u32)) by (bit_vector);
    } else {
        let k = (32 - c.prefix) as u32;
        lemma_high_mask(a, ip, prefix_mask(c.prefix), k);
        lemma_high_mask(a, a | !prefix_mask(c.prefix), prefix_mask(c.prefix), k);
        lemma_high_mask(a, a & prefix_mask(c.prefix), prefix_mask(c.prefix), k);
    }
}

/// What [`parse_cidr`] gives for the text `s`: the address and prefix, or
/// the message naming the text and what is wrong with it.
pub open spec fn spec_parse_cidr(s: Seq<char>) -> Result<(u32, u8), Seq<char>> {
    let head = "invalid CIDR '"@ + s + "'"@;
    match split_once(s, '/') {
        None => Err(head + ": missing /prefix"@),
        Some((a, p)) => match parse_dotted(trim(a)) {
            None => Err(head + ": bad address '"@ + a + "'"@),
            Some(addr) => match parse_uint(trim(p), 10, 255) {
                None => Err(head + ": bad prefix '"@ + p + "'"@),
                Some(prefix) => if prefix > 32 {
                    Err(head + ": prefix must be 0..=32"@)
                } else {
                    Ok((addr, prefix as u8))
                },
            },
        },
    }
}

/// Parse `a.b.c.d/p`.
pub fn parse_cidr(s: &str) -> (r: Result<Cidr, String>)
    ensures
        match r {
            Ok(c) => spec_parse_cidr(s@) == Ok::<(u32, u8), Seq<char>>((c.addr.0, c.prefix)),
            Err(e) => spec_parse_cidr(s@) == Err::<(u32, u8), Seq<char>>(e@),
        },
{
    let cs = chars_of(s);
    parse_cidr_chars(&cs)
}

/// [`parse_cidr`] on characters.
pub fn parse_cidr_chars(s: &[char]) -> (r: Result<Cidr, String>)
    ensures
        match r {
            Ok(c) => spec_parse_cidr(s@) == Ok::<(u32, u8), Seq<char>>((c.addr.0, c.prefix)),
            Err(e) => spec_parse_cidr(s@) == Err::<(u32, u8), Seq<char>>(e@),
        },
{
    let mut head: Vec<char> = Vec::new();
    push_str(&mut head, "invalid CIDR '");
    push_chars(&mut head, s);
    push_str(&mut head, "'");
    match split_once_chars(s, '/') {
        None => {
            push_str(&mut head, ": missing /prefix");
            Err(string_of(&head))
        },
        Some((a, p)) => {
            let ta = trim_chars(&a);
            match parse_dotted_chars(&ta) {
                None => {
                    push_str(&mut head, ": bad address '");
                    push_chars(&mut head, &a);
                    push_str(&mut head, "'");
                    Err(string_of(&head))
                },
                Some(addr) => {
                    let tp = trim_chars(&p);
                    match parse_uint_chars(&tp, 10, 255) {
                        None => {
                            push_str(&mut head, ": bad prefix '");
                            push_chars(&mut head, &p);
                            push_str(&mut head, "'");
                            Err(string_of(&head))
                        },
                        Some(prefix) => {
                            if prefix > 32 {
                                push_str(&mut head, ": prefix must be 0..=32");
                                Err(string_of(&head))
                            } else {
                                Ok(Cidr { addr, prefix: prefix as u8 })
                            }
                        },
                    }
                },
            }
        },
    }
}

impl core::str::FromStr for Ipv4Addr {
    type Err = String;

    fn from_str(s: &str) -> (r: Result<Ipv4Addr, String>)
        ensures
            match r {
                Ok(ip) => parse_dotted(s@) == Some(ip.0),
                Err(e) => parse_dotted(s@) is None && e@ == "invalid IPv4 address syntax"@,
            },
    {
        let cs = chars_of(s);
        match parse_dotted_chars(&cs) {
            Some(ip) => Ok(ip),
            None => Err("invalid IPv4 address syntax".to_owned()),
        }
    }
}

impl core::str::FromStr for Cidr {
    type Err = String;

    fn from_str(s: &str) -> (r: Result<Cidr, String>)
        ensures
            match r {
                Ok(c) => spec_parse_cidr(s@) == Ok::<(u32, u8), Seq<char>>((c.addr.0, c.prefix)),
                Err(e) => spec_parse_cidr(s@) == Err::<(u32, u8), Seq<char>>(e@),
            },
    {
        parse_cidr(s)
    }
}

}
