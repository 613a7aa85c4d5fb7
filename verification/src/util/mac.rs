//! Ethernet MAC address: parsing, formatting, value semantics.
use vstd::prelude::*;

use super::text::{
    is_ws, lemma_parse_hex2, lemma_split_append, lemma_split_plain, no_ws,
    chars_of, dec, hex2, parse_uint, parse_uint_chars, push_chars, push_dec, push_hex2,
    push_str, seqs, split, split_chars, string_of,
};

verus! {

/// A 6-byte Ethernet MAC address.
#[derive(Clone, Copy, Debug)]
pub struct MacAddr(pub [u8; 6]);

impl View for MacAddr {
    type V = Seq<u8>;

    open spec fn view(&self) -> Seq<u8> {
        self.0@
    }
}

impl PartialEq for MacAddr {
    fn eq(&self, other: &Self) -> (r: bool) {
        let r = self.0[0] == other.0[0] && self.0[1] == other.0[1] && self.0[2] == other.0[2]
            && self.0[3] == other.0[3] && self.0[4] == other.0[4] && self.0[5] == other.0[5];
        proof {
            if r {
                assert(self.0@ =~= other.0@);
            }
        }
        r
    }
}

impl Eq for MacAddr {

}

impl vstd::std_specs::cmp::PartialEqSpecImpl for MacAddr {
    open spec fn obeys_eq_spec() -> bool {
        true
    }

    open spec fn eq_spec(&self, other: &Self) -> bool {
        self.0@ == other.0@
    }
}

/// The `aa:bb:cc:dd:ee:ff` text of the bytes `m` (lowercase, two digits per
/// octet).
pub open spec fn mac_text(m: Seq<u8>) -> Seq<char> {
    hex2(m[0]) + seq![':'] + hex2(m[1]) + seq![':'] + hex2(m[2]) + seq![':'] + hex2(m[3])
        + seq![':'] + hex2(m[4]) + seq![':'] + hex2(m[5])
}

/// The result of reading the `:`-separated pieces `parts[i..]` of the text
/// `s` as MAC octets: the octets, or the message for the first problem met.
pub open spec fn mac_scan(s: Seq<char>, parts: Seq<Seq<char>>, i: int) -> Result<Seq<u8>, Seq<char>>
    decreases parts.len() - i,
{
    let head = "invalid MAC '"@ + s + "'"@;
    if i < 0 || i >= parts.len() {
        if parts.len() == 6 {
            Ok(Seq::<u8>::empty())
        } else {
            Err(head + ": expected 6 octets, got "@ + dec(parts.len()))
        }
    } else if i == 6 {
        Err(head + ": too many octets"@)
    } else {
        match parse_uint(parts[i], 16, 255) {
            None => Err(head + ": bad octet '"@ + parts[i] + "'"@),
            Some(v) => match mac_scan(s, parts, i + 1) {
                Ok(rest) => Ok(seq![v as u8] + rest),
                Err(e) => Err(e),
            },
        }
    }
}

/// What parsing the text `s` as a MAC address gives: `aa:bb:cc:dd:ee:ff`,
/// each octet hexadecimal in either case (as `u8::from_str_radix` reads it).
pub open spec fn spec_parse_mac(s: Seq<char>) -> Result<Seq<u8>, Seq<char>> {
    mac_scan(s, split(s, ':'), 0)
}

/// The text of a MAC address reads back as that address.
pub proof fn lemma_mac_text_roundtrip(m: Seq<u8>)
    requires
        m.len() == 6,
    ensures
        spec_parse_mac(mac_text(m)) == Ok::<Seq<u8>, Seq<char>>(m),
        mac_text(m).len() == 17,
        no_ws(mac_text(m)),
        mac_text(m)[0] != '#',
{
    let c = seq![':'];
    let h0 = hex2(m[0]);
    let h1 = hex2(m[1]);
    let h2 = hex2(m[2]);
    let h3 = hex2(m[3]);
    let h4 = hex2(m[4]);
    let h5 = hex2(m[5]);
    lemma_parse_hex2(m[0]);
    lemma_parse_hex2(m[1]);
    lemma_parse_hex2(m[2]);
    lemma_parse_hex2(m[3]);
    lemma_parse_hex2(m[4]);
    lemma_parse_hex2(m[5]);
    let s = mac_text(m);
    lemma_split_plain(h0, ':');
    lemma_split_append(h0, h1, ':');
    lemma_split_append(h0 + c + h1, h2, ':');
    lemma_split_append(h0 + c + h1 + c + h2, h3, ':');
    lemma_split_append(h0 + c + h1 + c + h2 + c + h3, h4, ':');
    lemma_split_append(h0 + c + h1 + c + h2 + c + h3 + c + h4, h5, ':');
    let parts = split(s, ':');
    assert(parts == seq![h0, h1, h2, h3, h4, h5]);
    assert(mac_scan(s, parts, 6) == Ok::<Seq<u8>, Seq<char>>(Seq::<u8>::empty()));
    assert(mac_scan(s, parts, 5) == Ok::<Seq<u8>, Seq<char>>(seq![m[5]] + Seq::<u8>::empty()));
    assert(mac_scan(s, parts, 4) == Ok::<Seq<u8>, Seq<char>>(seq![m[4]] + (seq![m[5]] + Seq::<u8>::empty())));
    assert(mac_scan(s, parts, 3) == Ok::<Seq<u8>, Seq<char>>(seq![m[3]] + (seq![m[4]] + (seq![m[5]] + Seq::<u8>::empty()))));
    assert(mac_scan(s, parts, 2) == Ok::<Seq<u8>, Seq<char>>(seq![m[2]] + (seq![m[3]] + (seq![m[4]] + (seq![m[5]] + Seq::<u8>::empty())))));
    assert(mac_scan(s, parts, 1) == Ok::<Seq<u8>, Seq<char>>(seq![m[1]] + (seq![m[2]] + (seq![m[3]] + (seq![m[4]] + (seq![m[5]] + Seq::<u8>::empty()))))));
    assert(mac_scan(s, parts, 0) == Ok::<Seq<u8>, Seq<char>>(seq![m[0]] + (seq![m[1]] + (seq![m[2]] + (seq![m[3]] + (seq![m[4]] + (seq![m[5]] + Seq::<u8>::empty())))))));
    assert(seq![m[0]] + (seq![m[1]] + (seq![m[2]] + (seq![m[3]] + (seq![m[4]] + (seq![m[5]] + Seq::<u8>::empty()))))) =~= m);
    assert forall|i: int| 0 <= i < s.len() implies !is_ws(s[i]) by {
        if i % 3 == 2 {
            assert(s[i] == ':');
        } else {
            let k = i / 3;
            let h = hex2(m[k]);
            assert(s[i] == h[i % 3]);
        }
    }
}

proof fn lemma_mac_scan_ok_len(s: Seq<char>, parts: Seq<Seq<char>>, i: int)
    requires
        0 <= i,
        mac_scan(s, parts, i) is Ok,
    ensures
        parts.len() == 6,
    decreases parts.len() - i,
{
    if i < parts.len() && i != 6 {
        lemma_mac_scan_ok_len(s, parts, i + 1);
    }
}

fn scan_octets(s: &[char], parts: &Vec<Vec<char>>, i: usize) -> (r: Result<Vec<u8>, String>)
    requires
        i <= parts.len(),
        i <= 6,
    ensures
        match r {
            Ok(v) => mac_scan(s@, seqs(parts@), i as int) == Ok::<Seq<u8>, Seq<char>>(v@)
                && v.len() == parts.len() - i,
            Err(e) => mac_scan(s@, seqs(parts@), i as int) == Err::<Seq<u8>, Seq<char>>(e@),
        },
    decreases parts.len() - i,
{
    let ghost ps = seqs(parts@);
    let mut head: Vec<char> = Vec::new();
    push_str(&mut head, "invalid MAC '");
    push_chars(&mut head, s);
    push_str(&mut head, "'");
    if i >= parts.len() {
        if parts.len() == 6 {
            Ok(Vec::new())
        } else {
            push_str(&mut head, ": expected 6 octets, got ");
            push_dec(&mut head, parts.len() as u64);
            Err(string_of(&head))
        }
    } else if i == 6 {
        push_str(&mut head, ": too many octets");
        Err(string_of(&head))
    } else {
        assert(ps[i as int] == parts[i as int]@);
        match parse_uint_chars(parts[i].as_slice(), 16, 255) {
            None => {
                push_str(&mut head, ": bad octet '");
                push_chars(&mut head, parts[i].as_slice());
                push_str(&mut head, "'");
                Err(string_of(&head))
            },
            Some(v) => {
                match scan_octets(s, parts, i + 1) {
                    Ok(rest) => {
                        let mut out: Vec<u8> = Vec::new();
                        out.push(v as u8);
                        let mut k: usize = 0;
                        while k < rest.len()
                            invariant
                                k <= rest.len(),
                                out@ == seq![v as u8] + rest@.take(k as int),
                            decreases rest.len() - k,
                        {
                            out.push(rest[k]);
                            k += 1;
                            assert(out@ =~= seq![v as u8] + rest@.take(k as int));
                        }
                        assert(rest@.take(rest.len() as int) =~= rest@);
                        Ok(out)
                    },
                    Err(e) => Err(e),
                }
            },
        }
    }
}

/// Parse `aa:bb:cc:dd:ee:ff` (lower or upper case hex).
pub fn parse_mac(s: &str) -> (r: Result<MacAddr, String>)
    ensures
        match r {
            Ok(m) => spec_parse_mac(s@) == Ok::<Seq<u8>, Seq<char>>(m@),
            Err(e) => spec_parse_mac(s@) == Err::<Seq<u8>, Seq<char>>(e@),
        },
{
    let cs = chars_of(s);
    parse_mac_chars(&cs)
}

/// [`parse_mac`] on characters.
pub fn parse_mac_chars(s: &[char]) -> (r: Result<MacAddr, String>)
    ensures
        match r {
            Ok(m) => spec_parse_mac(s@) == Ok::<Seq<u8>, Seq<char>>(m@),
            Err(e) => spec_parse_mac(s@) == Err::<Seq<u8>, Seq<char>>(e@),
        },
{
    let parts = split_chars(s, ':');
    match scan_octets(s, &parts, 0) {
        Ok(v) => {
            proof {
                lemma_mac_scan_ok_len(s@, seqs(parts@), 0);
            }
            let m = MacAddr([v[0], v[1], v[2], v[3], v[4], v[5]]);
            assert(m@ =~= v@);
            Ok(m)
        },
        Err(e) => Err(e),
    }
}

impl MacAddr {
    /// Build from a byte slice. Returns `None` unless the slice is exactly 6
    /// bytes long.
    pub fn from_bytes(bytes: &[u8]) -> (r: Option<MacAddr>)
        ensures
            match r {
                Some(m) => bytes@.len() == 6 && m@ == bytes@,
                None => bytes@.len() != 6,
            },
    {
        if bytes.len() != 6 {
            return None;
        }
        let m = MacAddr([bytes[0], bytes[1], bytes[2], bytes[3], bytes[4], bytes[5]]);
        assert(m@ =~= bytes@);
        Some(m)
    }

    /// The six bytes.
    pub fn as_bytes(&self) -> (r: &[u8; 6])
        ensures
            r@ == self@,
    {
        &self.0
    }

    /// The `aa:bb:cc:dd:ee:ff` text of this address.
    pub fn to_string(&self) -> (s: String)
        ensures
            s@ == mac_text(self@),
    {
        let mut out: Vec<char> = Vec::new();
        push_mac(&mut out, *self);
        string_of(&out)
    }
}

/// Append the `aa:bb:cc:dd:ee:ff` text of `m`.
pub fn push_mac(out: &mut Vec<char>, m: MacAddr)
    ensures
        final(out)@ == old(out)@ + mac_text(m@),
{
    push_hex2(out, m.0[0]);
    out.push(':');
    push_hex2(out, m.0[1]);
    out.push(':');
    push_hex2(out, m.0[2]);
    out.push(':');
    push_hex2(out, m.0[3]);
    out.push(':');
    push_hex2(out, m.0[4]);
    out.push(':');
    push_hex2(out, m.0[5]);
    assert(out@ =~= old(out)@ + mac_text(m@));
}

impl core::str::FromStr for MacAddr {
    type Err = String;

    fn from_str(s: &str) -> (r: Result<MacAddr, String>)
        ensures
            match r {
                Ok(m) => spec_parse_mac(s@) == Ok::<Seq<u8>, Seq<char>>(m@),
                Err(e) => spec_parse_mac(s@) == Err::<Seq<u8>, Seq<char>>(e@),
            },
    {
        parse_mac(s)
    }
}

}
