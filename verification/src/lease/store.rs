//! The in-memory store of dynamic leases and quarantined addresses, and the
//! line format of the lease file.
//!
//! File format is one lease per line: `MAC IP HOSTNAME EXPIRES_AT`, where
//! `HOSTNAME` is `-` when unknown and `EXPIRES_AT` is a Unix timestamp.
use vstd::prelude::*;

use super::model::{host_or_dash, Lease, LeaseKind, LeaseView};
use vstd::std_specs::iter::IteratorSpec;
use crate::util::ip::{ip_text, lemma_ip_text_roundtrip, parse_dotted, parse_dotted_chars, push_ip, Ipv4Addr};
use crate::util::mac::{lemma_mac_text_roundtrip, mac_text, parse_mac_chars, push_mac, spec_parse_mac, MacAddr};
use crate::util::text::{
    is_dec_char, is_ws, lacks, lemma_dec, lemma_no_ws_no_newline, lemma_parse_dec, lemma_spaced_lacks,
    lemma_split_extend, lemma_trim_noop, lemma_words_append, lemma_words_plain, no_ws, split,
    chars_of, dec, eq_str, lines, lines_of, parse_uint, parse_uint_chars, push_chars, push_dec,
    push_str, seqs, string_of, trim, trim_chars, words, words_of,
};

verus! {

/// The views of the leases `s`.
pub open spec fn views(s: Seq<Lease>) -> Seq<LeaseView> {
    s.map_values(|l: Lease| l@)
}

/// Quarantine entries as plain values.
pub open spec fn qviews(s: Seq<(Ipv4Addr, u64)>) -> Seq<(u32, u64)> {
    s.map_values(|e: (Ipv4Addr, u64)| (e.0.0, e.1))
}

/// The leases of `s` keyed by MAC; a later entry for a MAC replaces an
/// earlier one.
pub open spec fn lease_map(s: Seq<LeaseView>) -> Map<Seq<u8>, LeaseView>
    decreases s.len(),
{
    if s.len() == 0 {
        Map::empty()
    } else {
        lease_map(s.drop_last()).insert(s.last().mac, s.last())
    }
}

/// No MAC occurs twice in `s`.
pub open spec fn unique_macs(s: Seq<LeaseView>) -> bool {
    forall|i: int, j: int|
        0 <= i < s.len() && 0 <= j < s.len() && i != j ==> #[trigger] s[i].mac != #[trigger] s[j].mac
}

/// The quarantine entries of `q` keyed by address; a later entry replaces an
/// earlier one.
pub open spec fn quarantine_map(q: Seq<(u32, u64)>) -> Map<u32, u64>
    decreases q.len(),
{
    if q.len() == 0 {
        Map::empty()
    } else {
        quarantine_map(q.drop_last()).insert(q.last().0, q.last().1)
    }
}

/// No address occurs twice in `q`.
pub open spec fn unique_ips(q: Seq<(u32, u64)>) -> bool {
    forall|i: int, j: int|
        0 <= i < q.len() && 0 <= j < q.len() && i != j ==> #[trigger] q[i].0 != #[trigger] q[j].0
}

/// The leases of `m` that are still live at `now` (expiry strictly after).
pub open spec fn live_leases(m: Map<Seq<u8>, LeaseView>, now: u64) -> Map<Seq<u8>, LeaseView> {
    Map::new(|k: Seq<u8>| m.dom().contains(k) && m[k].expires_at > now, |k: Seq<u8>| m[k])
}

/// The quarantine entries of `q` still in force at `now`.
pub open spec fn live_quarantine(q: Map<u32, u64>, now: u64) -> Map<u32, u64> {
    Map::new(|k: u32| q.dom().contains(k) && q[k] > now, |k: u32| q[k])
}

proof fn lemma_lease_map_lookup(s: Seq<LeaseView>, k: int)
    requires
        unique_macs(s),
        0 <= k < s.len(),
    ensures
        lease_map(s).dom().contains(s[k].mac),
        lease_map(s)[s[k].mac] == s[k],
    decreases s.len(),
{
    if k < s.len() - 1 {
        let t = s.drop_last();
        assert(unique_macs(t)) by {
            assert forall|i: int, j: int|
                0 <= i < t.len() && 0 <= j < t.len() && i != j implies #[trigger] t[i].mac
                != #[trigger] t[j].mac by {
                assert(t[i] == s[i] && t[j] == s[j]);
            }
        }
        assert(t[k] == s[k]);
        lemma_lease_map_lookup(t, k);
        assert(s[k].mac != s[s.len() - 1].mac);
    }
}

proof fn lemma_lease_map_dom(s: Seq<LeaseView>, m: Seq<u8>)
    requires
        lease_map(s).dom().contains(m),
    ensures
        exists|k: int| 0 <= k < s.len() && #[trigger] s[k].mac == m,
    decreases s.len(),
{
    if s.len() > 0 && s.last().mac != m {
        lemma_lease_map_dom(s.drop_last(), m);
        let k = choose|k: int| 0 <= k < s.drop_last().len() && #[trigger] s.drop_last()[k].mac == m;
        assert(s[k] == s.drop_last()[k]);
    } else if s.len() > 0 {
        assert(s[s.len() - 1].mac == m);
    }
}

proof fn lemma_lease_map_len(s: Seq<LeaseView>)
    requires
        unique_macs(s),
    ensures
        lease_map(s).dom().finite(),
        lease_map(s).dom().len() == s.len(),
    decreases s.len(),
{
    if s.len() > 0 {
        let t = s.drop_last();
        assert(unique_macs(t)) by {
            assert forall|i: int, j: int|
                0 <= i < t.len() && 0 <= j < t.len() && i != j implies #[trigger] t[i].mac
                != #[trigger] t[j].mac by {
                assert(t[i] == s[i] && t[j] == s[j]);
            }
        }
        lemma_lease_map_len(t);
        if lease_map(t).dom().contains(s.last().mac) {
            lemma_lease_map_dom(t, s.last().mac);
            let k = choose|k: int| 0 <= k < t.len() && #[trigger] t[k].mac == s.last().mac;
            assert(s[k] == t[k]);
        }
    }
}

/// Characterises the map of a duplicate-free sequence by its entries.
proof fn lemma_lease_map_ext(s: Seq<LeaseView>, m: Map<Seq<u8>, LeaseView>)
    requires
        unique_macs(s),
        forall|k: int| 0 <= k < s.len() ==> #[trigger] m.dom().contains(s[k].mac) && m[s[k].mac]
            == s[k],
        forall|x: Seq<u8>| #[trigger] m.dom().contains(x) ==> exists|k: int| 0 <= k < s.len() && #[trigger] s[k].mac == x,
    ensures
        lease_map(s) == m,
{
    assert forall|x: Seq<u8>| #[trigger] lease_map(s).dom().contains(x) <==> m.dom().contains(x) by {
        if lease_map(s).dom().contains(x) {
            lemma_lease_map_dom(s, x);
            let k = choose|k: int| 0 <= k < s.len() && #[trigger] s[k].mac == x;
            assert(m.dom().contains(s[k].mac));
        }
        if m.dom().contains(x) {
            let k = choose|k: int| 0 <= k < s.len() && #[trigger] s[k].mac == x;
            lemma_lease_map_lookup(s, k);
        }
    }
    assert forall|x: Seq<u8>| #[trigger] lease_map(s).dom().contains(x) implies lease_map(s)[x]
        == m[x] by {
        lemma_lease_map_dom(s, x);
        let k = choose|k: int| 0 <= k < s.len() && #[trigger] s[k].mac == x;
        lemma_lease_map_lookup(s, k);
        assert(m.dom().contains(s[k].mac));
    }
    assert(lease_map(s) =~= m);
}

proof fn lemma_quarantine_lookup(q: Seq<(u32, u64)>, k: int)
    requires
        unique_ips(q),
        0 <= k < q.len(),
    ensures
        quarantine_map(q).dom().contains(q[k].0),
        quarantine_map(q)[q[k].0] == q[k].1,
    decreases q.len(),
{
    if k < q.len() - 1 {
        let t = q.drop_last();
        assert(unique_ips(t)) by {
            assert forall|i: int, j: int|
                0 <= i < t.len() && 0 <= j < t.len() && i != j implies #[trigger] t[i].0
                != #[trigger] t[j].0 by {
                assert(t[i] == q[i] && t[j] == q[j]);
            }
        }
        assert(t[k] == q[k]);
        lemma_quarantine_lookup(t, k);
        assert(q[k].0 != q[q.len() - 1].0);
    }
}

proof fn lemma_quarantine_dom(q: Seq<(u32, u64)>, ip: u32)
    requires
        quarantine_map(q).dom().contains(ip),
    ensures
        exists|k: int| 0 <= k < q.len() && #[trigger] q[k].0 == ip,
    decreases q.len(),
{
    if q.len() > 0 && q.last().0 != ip {
        lemma_quarantine_dom(q.drop_last(), ip);
        let k = choose|k: int| 0 <= k < q.drop_last().len() && #[trigger] q.drop_last()[k].0 == ip;
        assert(q[k] == q.drop_last()[k]);
    } else if q.len() > 0 {
        assert(q[q.len() - 1].0 == ip);
    }
}

proof fn lemma_quarantine_len(q: Seq<(u32, u64)>)
    requires
        unique_ips(q),
    ensures
        quarantine_map(q).dom().finite(),
        quarantine_map(q).dom().len() == q.len(),
    decreases q.len(),
{
    if q.len() > 0 {
        let t = q.drop_last();
        assert(unique_ips(t)) by {
            assert forall|i: int, j: int|
                0 <= i < t.len() && 0 <= j < t.len() && i != j implies #[trigger] t[i].0
                != #[trigger] t[j].0 by {
                assert(t[i] == q[i] && t[j] == q[j]);
            }
        }
        lemma_quarantine_len(t);
        if quarantine_map(t).dom().contains(q.last().0) {
            lemma_quarantine_dom(t, q.last().0);
            let k = choose|k: int| 0 <= k < t.len() && #[trigger] t[k].0 == q.last().0;
            assert(q[k] == t[k]);
        }
    }
}

proof fn lemma_quarantine_ext(q: Seq<(u32, u64)>, m: Map<u32, u64>)
    requires
        unique_ips(q),
        forall|k: int| 0 <= k < q.len() ==> #[trigger] m.dom().contains(q[k].0) && m[q[k].0] == q[k].1,
        forall|x: u32| #[trigger] m.dom().contains(x) ==> exists|k: int| 0 <= k < q.len() && #[trigger] q[k].0 == x,
    ensures
        quarantine_map(q) == m,
{
    assert forall|x: u32| #[trigger] quarantine_map(q).dom().contains(x) <==> m.dom().contains(x) by {
        if quarantine_map(q).dom().contains(x) {
            lemma_quarantine_dom(q, x);
            let k = choose|k: int| 0 <= k < q.len() && #[trigger] q[k].0 == x;
            assert(m.dom().contains(q[k].0));
        }
        if m.dom().contains(x) {
            let k = choose|k: int| 0 <= k < q.len() && #[trigger] q[k].0 == x;
            lemma_quarantine_lookup(q, k);
        }
    }
    assert forall|x: u32| #[trigger] quarantine_map(q).dom().contains(x) implies quarantine_map(q)[x]
        == m[x] by {
        lemma_quarantine_dom(q, x);
        let k = choose|k: int| 0 <= k < q.len() && #[trigger] q[k].0 == x;
        lemma_quarantine_lookup(q, k);
        assert(m.dom().contains(q[k].0));
    }
    assert(quarantine_map(q) =~= m);
}

proof fn lemma_take_step(s: Seq<LeaseView>, i: int)
    requires
        0 <= i < s.len(),
    ensures
        lease_map(s.take(i + 1)) == lease_map(s.take(i)).insert(s[i].mac, s[i]),
{
    assert(s.take(i + 1).drop_last() =~= s.take(i));
}

proof fn lemma_not_in_prefix(s: Seq<LeaseView>, i: int)
    requires
        unique_macs(s),
        0 <= i < s.len(),
    ensures
        !lease_map(s.take(i)).dom().contains(s[i].mac),
{
    if lease_map(s.take(i)).dom().contains(s[i].mac) {
        lemma_lease_map_dom(s.take(i), s[i].mac);
        let k = choose|k: int| 0 <= k < s.take(i).len() && #[trigger] s.take(i)[k].mac == s[i].mac;
        assert(s[k] == s.take(i)[k]);
    }
}

proof fn lemma_live_step(m: Map<Seq<u8>, LeaseView>, k: Seq<u8>, v: LeaseView, now: u64)
    requires
        !m.dom().contains(k),
        v.mac == k,
    ensures
        live_leases(m.insert(k, v), now) == (if v.expires_at > now {
            live_leases(m, now).insert(k, v)
        } else {
            live_leases(m, now)
        }),
{
    if v.expires_at > now {
        assert(live_leases(m.insert(k, v), now) =~= live_leases(m, now).insert(k, v));
    } else {
        assert(live_leases(m.insert(k, v), now) =~= live_leases(m, now));
    }
}

proof fn lemma_unique_push(s: Seq<LeaseView>, x: LeaseView)
    requires
        unique_macs(s),
        !lease_map(s).dom().contains(x.mac),
    ensures
        unique_macs(s.push(x)),
{
    let t = s.push(x);
    assert forall|i: int, j: int|
        0 <= i < t.len() && 0 <= j < t.len() && i != j implies #[trigger] t[i].mac != #[trigger] t[j].mac by {
        if i < s.len() && j < s.len() {
            assert(t[i] == s[i] && t[j] == s[j]);
        } else if i < s.len() {
            lemma_lease_map_lookup(s, i);
            assert(t[i] == s[i]);
        } else {
            lemma_lease_map_lookup(s, j);
            assert(t[j] == s[j]);
        }
    }
}

proof fn lemma_qtake_step(s: Seq<(u32, u64)>, i: int)
    requires
        0 <= i < s.len(),
    ensures
        quarantine_map(s.take(i + 1)) == quarantine_map(s.take(i)).insert(s[i].0, s[i].1),
{
    assert(s.take(i + 1).drop_last() =~= s.take(i));
}

proof fn lemma_q_not_in_prefix(s: Seq<(u32, u64)>, i: int)
    requires
        unique_ips(s),
        0 <= i < s.len(),
    ensures
        !quarantine_map(s.take(i)).dom().contains(s[i].0),
{
    if quarantine_map(s.take(i)).dom().contains(s[i].0) {
        lemma_quarantine_dom(s.take(i), s[i].0);
        let k = choose|k: int| 0 <= k < s.take(i).len() && #[trigger] s.take(i)[k].0 == s[i].0;
        assert(s[k] == s.take(i)[k]);
    }
}

proof fn lemma_live_q_step(m: Map<u32, u64>, k: u32, v: u64, now: u64)
    requires
        !m.dom().contains(k),
    ensures
        live_quarantine(m.insert(k, v), now) == (if v > now {
            live_quarantine(m, now).insert(k, v)
        } else {
            live_quarantine(m, now)
        }),
{
    if v > now {
        assert(live_quarantine(m.insert(k, v), now) =~= live_quarantine(m, now).insert(k, v));
    } else {
        assert(live_quarantine(m.insert(k, v), now) =~= live_quarantine(m, now));
    }
}

proof fn lemma_unique_q_push(s: Seq<(u32, u64)>, x: (u32, u64))
    requires
        unique_ips(s),
        !quarantine_map(s).dom().contains(x.0),
    ensures
        unique_ips(s.push(x)),
{
    let t = s.push(x);
    assert forall|i: int, j: int|
        0 <= i < t.len() && 0 <= j < t.len() && i != j implies #[trigger] t[i].0 != #[trigger] t[j].0 by {
        if i < s.len() && j < s.len() {
            assert(t[i] == s[i] && t[j] == s[j]);
        } else if i < s.len() {
            lemma_quarantine_lookup(s, i);
            assert(t[i] == s[i]);
        } else {
            lemma_quarantine_lookup(s, j);
            assert(t[j] == s[j]);
        }
    }
}

/// The lease store: dynamic leases keyed by MAC, plus addresses held out of
/// the pool after a `DHCPDECLINE` (in memory only).
pub struct LeaseStore {
    path: String,
    leases: Vec<Lease>,
    quarantine: Vec<(Ipv4Addr, u64)>,
}

impl LeaseStore {
    /// The leases in storage order.
    pub closed spec fn seq(&self) -> Seq<LeaseView> {
        views(self.leases@)
    }

    /// Quarantined addresses and the time until which each is held.
    pub closed spec fn quarantined(&self) -> Map<u32, u64> {
        quarantine_map(qviews(self.quarantine@))
    }

    /// The path of the lease file this store belongs to.
    pub closed spec fn file_path(&self) -> Seq<char> {
        self.path@
    }

    closed spec fn qseq(&self) -> Seq<(u32, u64)> {
        qviews(self.quarantine@)
    }

    /// The store's internal invariant: one lease per MAC and one quarantine
    /// entry per address.
    #[verifier::type_invariant]
    pub closed spec fn wf(&self) -> bool {
        unique_macs(self.seq()) && unique_ips(self.qseq())
    }

    /// The store's leases keyed by MAC, with the facts that tie them to the
    /// storage order: one entry per MAC, found at its position.
    pub proof fn lemma_view(&self)
        requires
            self.wf(),
        ensures
            unique_macs(self.seq()),
            self@ == lease_map(self.seq()),
            self@.dom().finite(),
            self@.dom().len() == self.seq().len(),
            forall|k: int|
                0 <= k < self.seq().len() ==> #[trigger] self@.dom().contains(self.seq()[k].mac)
                    && self@[self.seq()[k].mac] == self.seq()[k],
            forall|m: Seq<u8>|
                #[trigger] self@.dom().contains(m) ==> exists|k: int|
                    0 <= k < self.seq().len() && #[trigger] self.seq()[k].mac == m,
    {
        lemma_lease_map_len(self.seq());
        assert forall|k: int| 0 <= k < self.seq().len() implies #[trigger] self@.dom().contains(
            self.seq()[k].mac,
        ) && self@[self.seq()[k].mac] == self.seq()[k] by {
            lemma_lease_map_lookup(self.seq(), k);
        }
        assert forall|m: Seq<u8>| #[trigger] self@.dom().contains(m) implies exists|k: int|
            0 <= k < self.seq().len() && #[trigger] self.seq()[k].mac == m by {
            lemma_lease_map_dom(self.seq(), m);
        }
    }
}

impl View for LeaseStore {
    type V = Map<Seq<u8>, LeaseView>;

    open spec fn view(&self) -> Map<Seq<u8>, LeaseView> {
        lease_map(self.seq())
    }
}

impl LeaseStore {
    /// An empty store for the lease file at `path`.
    pub fn new(path: &str) -> (r: LeaseStore)
        ensures
            r@ == Map::<Seq<u8>, LeaseView>::empty(),
            r.seq().len() == 0,
            r.quarantined() == Map::<u32, u64>::empty(),
            r.file_path() == path@,
            r.wf(),
    {
        let r = LeaseStore { path: path.to_owned(), leases: Vec::new(), quarantine: Vec::new() };
        assert(r.seq() =~= Seq::<LeaseView>::empty());
        assert(r.qseq() =~= Seq::<(u32, u64)>::empty());
        r
    }

    /// The path of the lease file.
    pub fn path(&self) -> (r: &str)
        ensures
            r@ == self.file_path(),
    {
        self.path.as_str()
    }

    /// Number of leases.
    pub fn len(&self) -> (r: usize)
        ensures
            r == self.seq().len(),
            r == self@.dom().len(),
    {
        proof {
            use_type_invariant(self);
        }
        proof {
            self.lemma_view();
        }
        self.leases.len()
    }

    /// The leases in storage order.
    pub fn leases(&self) -> (r: &[Lease])
        ensures
            r@.map_values(|l: Lease| l@) == self.seq(),
    {
        self.leases.as_slice()
    }

    /// Iterate all leases (in storage order).
    pub fn iter(&self) -> (r: std::slice::Iter<'_, Lease>)
        ensures
            r.remaining().map_values(|l: &Lease| l@) == self.seq(),
    {
        let r = self.leases.iter();
        assert(r.remaining().map_values(|l: &Lease| l@) =~= self.seq());
        r
    }

    /// Position of the lease for `mac`, if any.
    fn find(&self, mac: MacAddr) -> (r: Option<usize>)
        requires
            self.wf(),
        ensures
            match r {
                Some(k) => k < self.seq().len() && self.seq()[k as int].mac == mac@,
                None => forall|k: int| 0 <= k < self.seq().len() ==> #[trigger] self.seq()[k].mac != mac@,
            },
    {
        let mut k: usize = 0;
        while k < self.leases.len()
            invariant
                k <= self.leases.len(),
                forall|j: int| 0 <= j < k ==> #[trigger] self.seq()[j].mac != mac@,
            decreases self.leases.len() - k,
        {
            assert(self.seq()[k as int] == self.leases@[k as int]@);
            if self.leases[k].mac == mac {
                return Some(k);
            }
            k += 1;
        }
        None
    }

    /// The lease for `mac`, if any.
    pub fn get(&self, mac: &MacAddr) -> (r: Option<&Lease>)
        ensures
            match r {
                Some(l) => self@.dom().contains(mac@) && self@[mac@] == l@,
                None => !self@.dom().contains(mac@),
            },
    {
        proof {
            use_type_invariant(self);
        }
        proof {
            self.lemma_view();
        }
        match self.find(*mac) {
            Some(k) => {
                assert(self.seq()[k as int] == self.leases@[k as int]@);
                Some(&self.leases[k])
            },
            None => None,
        }
    }

    /// Add or replace the lease for `lease.mac`.
    pub fn insert(&mut self, lease: Lease)
        ensures
            final(self)@ == old(self)@.insert(lease.mac@, lease@),
            final(self).quarantined() == old(self).quarantined(),
            final(self).file_path() == old(self).file_path(),
    {
        proof {
            use_type_invariant(&*self);
        }
        let ghost old_seq = self.seq();
        let ghost lv = lease@;
        match self.find(lease.mac) {
            Some(k) => {
                let ghost new_seq = old_seq.update(k as int, lv);
                proof {
                    assert forall|i: int, j: int|
                        0 <= i < new_seq.len() && 0 <= j < new_seq.len() && i != j implies #[trigger] new_seq[i].mac
                        != #[trigger] new_seq[j].mac by {
                        if i != k && j != k {
                            assert(old_seq[i].mac != old_seq[j].mac);
                        } else if i == k {
                            assert(old_seq[k as int].mac != old_seq[j].mac);
                        } else {
                            assert(old_seq[i].mac != old_seq[k as int].mac);
                        }
                    }
                    let target = lease_map(old_seq).insert(lv.mac, lv);
                    assert forall|i: int| 0 <= i < new_seq.len() implies #[trigger] target.dom().contains(
                        new_seq[i].mac,
                    ) && target[new_seq[i].mac] == new_seq[i] by {
                        if i != k {
                            lemma_lease_map_lookup(old_seq, i);
                        }
                    }
                    assert forall|x: Seq<u8>| #[trigger] target.dom().contains(x) implies exists|i: int|
                        0 <= i < new_seq.len() && #[trigger] new_seq[i].mac == x by {
                        if x != lv.mac {
                            lemma_lease_map_dom(old_seq, x);
                            let i = choose|i: int| 0 <= i < old_seq.len() && #[trigger] old_seq[i].mac == x;
                            assert(new_seq[i].mac == x);
                        } else {
                            assert(new_seq[k as int].mac == x);
                        }
                    }
                    lemma_lease_map_ext(new_seq, target);
                }
                let mut v: Vec<Lease> = Vec::new();
                std::mem::swap(&mut v, &mut self.leases);
                v.set(k, lease);
                assert(views(v@) =~= new_seq);
                self.leases = v;
                assert(self.seq() =~= new_seq);
            },
            None => {
                let mut v: Vec<Lease> = Vec::new();
                std::mem::swap(&mut v, &mut self.leases);
                v.push(lease);
                assert(views(v@) =~= old_seq.push(lv));
                assert(views(v@).drop_last() =~= old_seq);
                self.leases = v;
                assert(self.seq() =~= old_seq.push(lv));
                assert(self.seq().drop_last() =~= old_seq);
            },
        }
    }

    /// Remove and return the lease for `mac`.
    pub fn remove(&mut self, mac: &MacAddr) -> (r: Option<Lease>)
        ensures
            final(self)@ == old(self)@.remove(mac@),
            match r {
                Some(l) => old(self)@.dom().contains(mac@) && old(self)@[mac@] == l@,
                None => !old(self)@.dom().contains(mac@),
            },
            final(self).quarantined() == old(self).quarantined(),
            final(self).file_path() == old(self).file_path(),
    {
        proof {
            use_type_invariant(&*self);
        }
        proof {
            self.lemma_view();
        }
        let ghost old_seq = self.seq();
        match self.find(*mac) {
            Some(k) => {
                let ghost new_seq = old_seq.remove(k as int);
                proof {
                    assert forall|i: int, j: int|
                        0 <= i < new_seq.len() && 0 <= j < new_seq.len() && i != j implies #[trigger] new_seq[i].mac
                        != #[trigger] new_seq[j].mac by {
                        let oi = if i < k { i } else { i + 1 };
                        let oj = if j < k { j } else { j + 1 };
                        assert(new_seq[i] == old_seq[oi] && new_seq[j] == old_seq[oj]);
                    }
                    let target = lease_map(old_seq).remove(mac@);
                    assert forall|i: int| 0 <= i < new_seq.len() implies #[trigger] target.dom().contains(
                        new_seq[i].mac,
                    ) && target[new_seq[i].mac] == new_seq[i] by {
                        let oi = if i < k { i } else { i + 1 };
                        assert(new_seq[i] == old_seq[oi]);
                        lemma_lease_map_lookup(old_seq, oi);
                        assert(old_seq[oi].mac != old_seq[k as int].mac);
                    }
                    assert forall|x: Seq<u8>| #[trigger] target.dom().contains(x) implies exists|i: int|
                        0 <= i < new_seq.len() && #[trigger] new_seq[i].mac == x by {
                        lemma_lease_map_dom(old_seq, x);
                        let i = choose|i: int| 0 <= i < old_seq.len() && #[trigger] old_seq[i].mac == x;
                        assert(i != k);
                        let ni = if i < k { i } else { i - 1 };
                        assert(new_seq[ni] == old_seq[i]);
                    }
                    lemma_lease_map_ext(new_seq, target);
                    lemma_lease_map_lookup(old_seq, k as int);
                }
                let mut v: Vec<Lease> = Vec::new();
                std::mem::swap(&mut v, &mut self.leases);
                let l = v.remove(k);
                assert(views(v@) =~= new_seq);
                self.leases = v;
                assert(self.seq() =~= new_seq);
                Some(l)
            },
            None => {
                assert(lease_map(old_seq).remove(mac@) =~= lease_map(old_seq));
                None
            },
        }
    }

    /// Drop dynamic leases that expired at or before `now`, returning how many
    /// were removed.
    pub fn purge_expired(&mut self, now: u64) -> (r: usize)
        ensures
            final(self)@ == live_leases(old(self)@, now),
            r == old(self)@.dom().len() - final(self)@.dom().len(),
            final(self).quarantined() == old(self).quarantined(),
            final(self).file_path() == old(self).file_path(),
    {
        proof {
            use_type_invariant(&*self);
        }
        let ghost old_seq = self.seq();
        let mut kept: Vec<Lease> = Vec::new();
        let mut removed: usize = 0;
        let mut i: usize = 0;
        assert(old_seq.take(0) =~= Seq::<LeaseView>::empty());
        assert(live_leases(lease_map(old_seq.take(0)), now) =~= lease_map(views(kept@)));
        while i < self.leases.len()
            invariant
                i <= self.leases.len(),
                old_seq == self.seq(),
                unique_macs(old_seq),
                removed + kept@.len() == i,
                unique_macs(views(kept@)),
                lease_map(views(kept@)) == live_leases(lease_map(old_seq.take(i as int)), now),
            decreases self.leases.len() - i,
        {
            let ghost kv = views(kept@);
            let ghost v = old_seq[i as int];
            assert(v == self.leases@[i as int]@);
            proof {
                lemma_take_step(old_seq, i as int);
                lemma_not_in_prefix(old_seq, i as int);
                lemma_live_step(lease_map(old_seq.take(i as int)), v.mac, v, now);
            }
            if self.leases[i].expires_at > now {
                let l = self.leases[i].duplicate();
                kept.push(l);
                proof {
                    assert(views(kept@) =~= kv.push(v));
                    assert(views(kept@).drop_last() =~= kv);
                    lemma_unique_push(kv, v);
                }
            } else {
                removed += 1;
            }
            i += 1;
        }
        proof {
            assert(old_seq.take(i as int) =~= old_seq);
            lemma_lease_map_len(views(kept@));
            lemma_lease_map_len(old_seq);
        }
        self.leases = kept;
        removed
    }

    /// Position of the quarantine entry for `ip`, if any.
    fn find_quarantine(&self, ip: Ipv4Addr) -> (r: Option<usize>)
        ensures
            match r {
                Some(k) => k < self.qseq().len() && self.qseq()[k as int].0 == ip.0,
                None => forall|k: int| 0 <= k < self.qseq().len() ==> #[trigger] self.qseq()[k].0 != ip.0,
            },
    {
        let mut k: usize = 0;
        while k < self.quarantine.len()
            invariant
                k <= self.quarantine.len(),
                forall|j: int| 0 <= j < k ==> #[trigger] self.qseq()[j].0 != ip.0,
            decreases self.quarantine.len() - k,
        {
            assert(self.qseq()[k as int] == (self.quarantine@[k as int].0.0, self.quarantine@[k as int].1));
            if self.quarantine[k].0 == ip {
                return Some(k);
            }
            k += 1;
        }
        None
    }

    /// Hold `ip` out of the pool until `until`.
    pub fn quarantine(&mut self, ip: Ipv4Addr, until: u64)
        ensures
            final(self).quarantined() == old(self).quarantined().insert(ip.0, until),
            final(self)@ == old(self)@,
            final(self).seq() == old(self).seq(),
            final(self).file_path() == old(self).file_path(),
    {
        proof {
            use_type_invariant(&*self);
        }
        let ghost old_q = self.qseq();
        match self.find_quarantine(ip) {
            Some(k) => {
                let ghost new_q = old_q.update(k as int, (ip.0, until));
                proof {
                    assert forall|i: int, j: int|
                        0 <= i < new_q.len() && 0 <= j < new_q.len() && i != j implies #[trigger] new_q[i].0
                        != #[trigger] new_q[j].0 by {
                        if i != k && j != k {
                            assert(old_q[i].0 != old_q[j].0);
                        } else if i == k {
                            assert(old_q[k as int].0 != old_q[j].0);
                        } else {
                            assert(old_q[i].0 != old_q[k as int].0);
                        }
                    }
                    let target = quarantine_map(old_q).insert(ip.0, until);
                    assert forall|i: int| 0 <= i < new_q.len() implies #[trigger] target.dom().contains(
                        new_q[i].0,
                    ) && target[new_q[i].0] == new_q[i].1 by {
                        if i != k {
                            lemma_quarantine_lookup(old_q, i);
                        }
                    }
                    assert forall|x: u32| #[trigger] target.dom().contains(x) implies exists|i: int|
                        0 <= i < new_q.len() && #[trigger] new_q[i].0 == x by {
                        if x != ip.0 {
                            lemma_quarantine_dom(old_q, x);
                            let i = choose|i: int| 0 <= i < old_q.len() && #[trigger] old_q[i].0 == x;
                            assert(new_q[i].0 == x);
                        } else {
                            assert(new_q[k as int].0 == x);
                        }
                    }
                    lemma_quarantine_ext(new_q, target);
                }
                let mut v: Vec<(Ipv4Addr, u64)> = Vec::new();
                std::mem::swap(&mut v, &mut self.quarantine);
                v.set(k, (ip, until));
                assert(qviews(v@) =~= new_q);
                self.quarantine = v;
                assert(self.qseq() =~= new_q);
            },
            None => {
                let mut v: Vec<(Ipv4Addr, u64)> = Vec::new();
                std::mem::swap(&mut v, &mut self.quarantine);
                v.push((ip, until));
                assert(qviews(v@) =~= old_q.push((ip.0, until)));
                assert(qviews(v@).drop_last() =~= old_q);
                self.quarantine = v;
                assert(self.qseq() =~= old_q.push((ip.0, until)));
                assert(self.qseq().drop_last() =~= old_q);
            },
        }
    }

    /// Is `ip` held out of the pool at `now`?
    pub fn is_quarantined(&self, ip: Ipv4Addr, now: u64) -> (r: bool)
        ensures
            r == (self.quarantined().dom().contains(ip.0) && self.quarantined()[ip.0] > now),
    {
        proof {
            use_type_invariant(self);
        }
        let ghost q = self.qseq();
        let mut k: usize = 0;
        while k < self.quarantine.len()
            invariant
                k <= self.quarantine.len(),
                q == self.qseq(),
                unique_ips(q),
                forall|j: int| 0 <= j < k ==> #[trigger] q[j].0 != ip.0,
            decreases self.quarantine.len() - k,
        {
            assert(q[k as int] == (self.quarantine@[k as int].0.0, self.quarantine@[k as int].1));
            if self.quarantine[k].0 == ip {
                proof {
                    lemma_quarantine_lookup(q, k as int);
                }
                return self.quarantine[k].1 > now;
            }
            k += 1;
        }
        proof {
            if quarantine_map(q).dom().contains(ip.0) {
                lemma_quarantine_dom(q, ip.0);
            }
        }
        false
    }

    /// Drop quarantine entries that ended at or before `now`, returning how
    /// many were removed.
    pub fn purge_quarantine(&mut self, now: u64) -> (r: usize)
        ensures
            final(self).quarantined() == live_quarantine(old(self).quarantined(), now),
            r == old(self).quarantined().dom().len() - final(self).quarantined().dom().len(),
            final(self)@ == old(self)@,
            final(self).seq() == old(self).seq(),
            final(self).file_path() == old(self).file_path(),
    {
        proof {
            use_type_invariant(&*self);
        }
        let ghost old_q = self.qseq();
        let mut kept: Vec<(Ipv4Addr, u64)> = Vec::new();
        let mut removed: usize = 0;
        let mut i: usize = 0;
        assert(old_q.take(0) =~= Seq::<(u32, u64)>::empty());
        assert(live_quarantine(quarantine_map(old_q.take(0)), now) =~= quarantine_map(qviews(kept@)));
        while i < self.quarantine.len()
            invariant
                i <= self.quarantine.len(),
                old_q == self.qseq(),
                unique_ips(old_q),
                removed + kept@.len() == i,
                unique_ips(qviews(kept@)),
                quarantine_map(qviews(kept@)) == live_quarantine(quarantine_map(old_q.take(i as int)), now),
            decreases self.quarantine.len() - i,
        {
            let ghost kv = qviews(kept@);
            let e = self.quarantine[i];
            let ghost v = old_q[i as int];
            assert(v == (e.0.0, e.1));
            proof {
                lemma_qtake_step(old_q, i as int);
                lemma_q_not_in_prefix(old_q, i as int);
                lemma_live_q_step(quarantine_map(old_q.take(i as int)), v.0, v.1, now);
            }
            if e.1 > now {
                kept.push(e);
                proof {
                    assert(qviews(kept@) =~= kv.push(v));
                    assert(qviews(kept@).drop_last() =~= kv);
                    lemma_unique_q_push(kv, v);
                }
            } else {
                removed += 1;
            }
            i += 1;
        }
        proof {
            assert(old_q.take(i as int) =~= old_q);
            lemma_quarantine_len(qviews(kept@));
            lemma_quarantine_len(old_q);
        }
        self.quarantine = kept;
        removed
    }
}


/// The lease written on one line `MAC IP HOSTNAME EXPIRES_AT` (further
/// words ignored), or `None` for any malformed field. A hostname of `-`
/// means none.
pub open spec fn spec_parse_line(line: Seq<char>) -> Option<LeaseView> {
    let w = words(line);
    if w.len() < 4 {
        None
    } else {
        match spec_parse_mac(w[0]) {
            Err(_) => None,
            Ok(mac) => match parse_dotted(w[1]) {
                None => None,
                Some(ip) => match parse_uint(w[3], 10, 0xffff_ffff_ffff_ffff) {
                    None => None,
                    Some(t) => Some(
                        LeaseView {
                            mac,
                            ip,
                            hostname: if w[2] == "-"@ {
                                None
                            } else {
                                Some(w[2])
                            },
                            expires_at: t as u64,
                            kind: LeaseKind::Dynamic,
                        },
                    ),
                },
            },
        }
    }
}

/// The lease-file line of `l`, newline included.
pub open spec fn format_line(l: LeaseView) -> Seq<char> {
    mac_text(l.mac) + seq![' '] + ip_text(l.ip) + seq![' '] + host_or_dash(l.hostname) + seq![' ']
        + dec(l.expires_at as nat) + seq!['\n']
}

/// The lease-file text of `s`: one line per lease, in order.
pub open spec fn file_text(s: Seq<LeaseView>) -> Seq<char>
    decreases s.len(),
{
    if s.len() == 0 {
        Seq::empty()
    } else {
        file_text(s.drop_last()) + format_line(s.last())
    }
}

/// `s` with `x` inserted after the last element whose address is not
/// greater than `x`'s.
pub open spec fn insert_by_ip(s: Seq<LeaseView>, x: LeaseView) -> Seq<LeaseView>
    decreases s.len(),
{
    if s.len() == 0 {
        seq![x]
    } else if s.last().ip <= x.ip {
        s.push(x)
    } else {
        insert_by_ip(s.drop_last(), x).push(s.last())
    }
}

/// `s` stably sorted by address.
pub open spec fn sort_by_ip(s: Seq<LeaseView>) -> Seq<LeaseView>
    decreases s.len(),
{
    if s.len() == 0 {
        Seq::empty()
    } else {
        insert_by_ip(sort_by_ip(s.drop_last()), s.last())
    }
}

/// Addresses never decrease along `s`.
pub open spec fn sorted_by_ip(s: Seq<LeaseView>) -> bool {
    forall|i: int, j: int| 0 <= i <= j < s.len() ==> #[trigger] s[i].ip <= #[trigger] s[j].ip
}

/// The map `m` after loading the lease-file lines `ls`: blank and `#` lines
/// skipped, malformed lines skipped, a later line for a MAC replacing an
/// earlier one.
pub open spec fn load_lines(m: Map<Seq<u8>, LeaseView>, ls: Seq<Seq<char>>) -> Map<Seq<u8>, LeaseView>
    decreases ls.len(),
{
    if ls.len() == 0 {
        m
    } else {
        let prev = load_lines(m, ls.drop_last());
        let line = trim(ls.last());
        if line.len() == 0 || line[0] == '#' {
            prev
        } else {
            match spec_parse_line(line) {
                Some(l) => prev.insert(l.mac, l),
                None => prev,
            }
        }
    }
}

/// The malformed lines among `ls`: line number (from 1) and trimmed text.
pub open spec fn malformed_lines(ls: Seq<Seq<char>>) -> Seq<(nat, Seq<char>)>
    decreases ls.len(),
{
    if ls.len() == 0 {
        Seq::empty()
    } else {
        let prev = malformed_lines(ls.drop_last());
        let line = trim(ls.last());
        if line.len() == 0 || line[0] == '#' {
            prev
        } else {
            match spec_parse_line(line) {
                Some(_) => prev,
                None => prev.push((ls.len(), line)),
            }
        }
    }
}

/// Parse one lease line.
pub fn parse_line(line: &str) -> (r: Option<Lease>)
    ensures
        match r {
            Some(l) => spec_parse_line(line@) == Some(l@),
            None => spec_parse_line(line@) is None,
        },
{
    let cs = chars_of(line);
    parse_line_chars(&cs)
}

/// [`parse_line`] on characters.
pub fn parse_line_chars(line: &[char]) -> (r: Option<Lease>)
    ensures
        match r {
            Some(l) => spec_parse_line(line@) == Some(l@),
            None => spec_parse_line(line@) is None,
        },
{
    let w = words_of(line);
    let ghost sw = words(line@);
    if w.len() < 4 {
        return None;
    }
    assert(w[0]@ == sw[0] && w[1]@ == sw[1] && w[2]@ == sw[2] && w[3]@ == sw[3]);
    let mac = match parse_mac_chars(&w[0]) {
        Ok(m) => m,
        Err(_) => return None,
    };
    let ip = match parse_dotted_chars(&w[1]) {
        Some(ip) => ip,
        None => return None,
    };
    let expires_at = match parse_uint_chars(&w[3], 10, 0xffff_ffff_ffff_ffff) {
        Some(t) => t,
        None => return None,
    };
    let hostname = if eq_str(&w[2], "-") {
        None
    } else {
        Some(string_of(&w[2]))
    };
    Some(Lease { mac, ip, hostname, expires_at, kind: LeaseKind::Dynamic })
}

/// Append the lease-file line of `l`.
fn push_line(out: &mut Vec<char>, l: &Lease)
    ensures
        final(out)@ == old(out)@ + format_line(l@),
{
    push_mac(out, l.mac);
    out.push(' ');
    push_ip(out, l.ip);
    out.push(' ');
    push_str(out, l.hostname_str());
    out.push(' ');
    push_dec(out, l.expires_at);
    out.push('\n');
    assert(out@ =~= old(out)@ + format_line(l@));
}

/// The views of a vector of lease references.
pub open spec fn ref_views(v: Seq<&Lease>) -> Seq<LeaseView> {
    v.map_values(|l: &Lease| l@)
}

pub proof fn lemma_insert_by_ip_split(s: Seq<LeaseView>, x: LeaseView, j: int)
    requires
        0 <= j <= s.len(),
        forall|k: int| j <= k < s.len() ==> #[trigger] s[k].ip > x.ip,
        j == 0 || s[j - 1].ip <= x.ip,
    ensures
        insert_by_ip(s, x) == s.take(j).push(x) + s.skip(j),
    decreases s.len(),
{
    if s.len() == j {
        assert(s.skip(j) =~= Seq::<LeaseView>::empty());
        assert(s.take(j) =~= s);
        if j == 0 {
            assert(s.take(j).push(x) =~= seq![x]);
        }
        assert(insert_by_ip(s, x) =~= s.take(j).push(x) + s.skip(j));
    } else {
        let t = s.drop_last();
        lemma_insert_by_ip_split(t, x, j);
        assert(t.take(j) =~= s.take(j));
        assert(t.skip(j).push(s.last()) =~= s.skip(j));
        assert(insert_by_ip(s, x) =~= s.take(j).push(x) + s.skip(j));
    }
}

impl LeaseStore {
    /// All dynamic leases, stably sorted by IP for stable output.
    pub fn sorted(&self) -> (r: Vec<&Lease>)
        ensures
            ref_views(r@) == sort_by_ip(self.seq()),
    {
        let mut out: Vec<&Lease> = Vec::new();
        let ghost s = self.seq();
        let mut i: usize = 0;
        assert(s.take(0) =~= Seq::<LeaseView>::empty());
        assert(ref_views(out@) =~= sort_by_ip(s.take(0)));
        while i < self.leases.len()
            invariant
                i <= self.leases.len(),
                s == self.seq(),
                ref_views(out@) == sort_by_ip(s.take(i as int)),
            decreases self.leases.len() - i,
        {
            let x = &self.leases[i];
            assert(s[i as int] == x@);
            let ghost before = ref_views(out@);
            let mut j = out.len();
            while j > 0 && out[j - 1].ip.0 > x.ip.0
                invariant
                    j <= out.len(),
                    before == ref_views(out@),
                    forall|k: int| j <= k < before.len() ==> #[trigger] before[k].ip > x.ip.0,
                decreases j,
            {
                assert(before[j - 1] == out[j - 1]@);
                j -= 1;
            }
            if j > 0 {
                assert(before[j - 1] == out[j - 1]@);
            }
            proof {
                lemma_insert_by_ip_split(before, x@, j as int);
            }
            out.insert(j, x);
            assert(ref_views(out@) =~= before.take(j as int).push(x@) + before.skip(j as int));
            assert(s.take(i + 1).drop_last() =~= s.take(i as int));
            i += 1;
        }
        assert(s.take(self.leases.len() as int) =~= s);
        out
    }

    /// The lease-file text of the store: one line per lease, sorted by IP.
    pub fn file_contents(&self) -> (r: String)
        ensures
            r@ == file_text(sort_by_ip(self.seq())),
    {
        let sorted = self.sorted();
        let ghost sv = ref_views(sorted@);
        let mut out: Vec<char> = Vec::new();
        let mut k: usize = 0;
        assert(sv.take(0) =~= Seq::<LeaseView>::empty());
        while k < sorted.len()
            invariant
                k <= sorted.len(),
                sv == ref_views(sorted@),
                out@ == file_text(sv.take(k as int)),
            decreases sorted.len() - k,
        {
            push_line(&mut out, sorted[k]);
            assert(sv.take(k + 1).drop_last() =~= sv.take(k as int));
            assert(sv[k as int] == sorted[k as int]@);
            k += 1;
        }
        assert(sv.take(sorted.len() as int) =~= sv);
        string_of(&out)
    }

    /// Load lease-file text into the store, returning the malformed lines
    /// (line number from 1, trimmed text) so the caller can report them.
    pub fn load_text(&mut self, text: &str) -> (r: Vec<(usize, String)>)
        ensures
            final(self)@ == load_lines(old(self)@, lines(text@)),
            r@.map_values(|e: (usize, String)| (e.0 as nat, e.1@)) == malformed_lines(lines(text@)),
            final(self).quarantined() == old(self).quarantined(),
            final(self).file_path() == old(self).file_path(),
    {
        proof {
            use_type_invariant(&*self);
        }
        let cs = chars_of(text);
        let ls = lines_of(&cs);
        let ghost sl = lines(text@);
        let ghost m0 = self@;
        let mut bad: Vec<(usize, String)> = Vec::new();
        let mut i: usize = 0;
        assert(sl.take(0) =~= Seq::<Seq<char>>::empty());
        assert(bad@.map_values(|e: (usize, String)| (e.0 as nat, e.1@)) =~= malformed_lines(sl.take(0)));
        while i < ls.len()
            invariant
                i <= ls.len(),
                seqs(ls@) == sl,
                sl == lines(text@),
                m0 == old(self)@,
                self@ == load_lines(m0, sl.take(i as int)),
                bad@.map_values(|e: (usize, String)| (e.0 as nat, e.1@)) == malformed_lines(sl.take(i as int)),
                self.quarantined() == old(self).quarantined(),
                self.file_path() == old(self).file_path(),
            decreases ls.len() - i,
        {
            assert(sl.take(i + 1).drop_last() =~= sl.take(i as int));
            assert(sl.take(i + 1).last() == ls[i as int]@);
            let ghost before = bad@.map_values(|e: (usize, String)| (e.0 as nat, e.1@));
            let line = trim_chars(&ls[i]);
            if line.len() == 0 || line[0] == '#' {
            } else {
                match parse_line_chars(&line) {
                    Some(lease) => {
                        self.insert(lease);
                    },
                    None => {
                        bad.push((i + 1, string_of(&line)));
                        assert(bad@.map_values(|e: (usize, String)| (e.0 as nat, e.1@)) =~= before.push(((i + 1) as nat, line@)));
                    },
                }
            }
            i += 1;
        }
        assert(sl.take(ls.len() as int) =~= sl);
        bad
    }
}


/// A lease the file format carries exactly but for its kind: a six-byte
/// MAC and a hostname that is absent or a non-empty word other than `-`.
pub open spec fn storable(l: LeaseView) -> bool {
    &&& l.mac.len() == 6
    &&& match l.hostname {
        None => true,
        Some(h) => h.len() > 0 && no_ws(h) && h != "-"@,
    }
}

/// `l` as a lease read from the file: the same lease, of kind dynamic.
pub open spec fn as_dynamic(l: LeaseView) -> LeaseView {
    LeaseView { kind: LeaseKind::Dynamic, ..l }
}

/// The leases of `m`, each as read from the file (kind dynamic).
pub open spec fn dynamic_map(m: Map<Seq<u8>, LeaseView>) -> Map<Seq<u8>, LeaseView> {
    m.map_values(|l: LeaseView| as_dynamic(l))
}

/// The line of `l` in the lease file, without its newline.
pub open spec fn line_body(l: LeaseView) -> Seq<char> {
    mac_text(l.mac) + seq![' '] + ip_text(l.ip) + seq![' '] + host_or_dash(l.hostname) + seq![' ']
        + dec(l.expires_at as nat)
}

/// The line of a storable lease reads back as that lease, of kind dynamic,
/// and loading keeps it: it is its own trim, does not start a comment and
/// holds no line break.
pub proof fn lemma_line_roundtrip(l: LeaseView)
    requires
        storable(l),
    ensures
        spec_parse_line(line_body(l)) == Some(as_dynamic(l)),
        trim(line_body(l)) == line_body(l),
        line_body(l).len() > 0,
        line_body(l)[0] != '#',
        lacks(line_body(l), '\n'),
        format_line(l) == line_body(l) + seq!['\n'],
{
    let a = mac_text(l.mac);
    let b = ip_text(l.ip);
    let c = host_or_dash(l.hostname);
    let d = dec(l.expires_at as nat);
    let sp = seq![' '];
    lemma_mac_text_roundtrip(l.mac);
    lemma_ip_text_roundtrip(l.ip);
    lemma_dec(l.expires_at as nat);
    lemma_parse_dec(l.expires_at as nat, 0xffff_ffff_ffff_ffff);
    reveal_strlit("-");
    assert(c.len() > 0 && no_ws(c)) by {
        if l.hostname is None {
            assert(c == "-"@);
            assert(!is_ws(c[0]));
        }
    }
    assert(no_ws(d)) by {
        assert forall|i: int| 0 <= i < d.len() implies !is_ws(d[i]) by {
            assert(is_dec_char(d[i]));
        }
    }
    lemma_words_plain(a);
    lemma_words_append(a, b);
    lemma_words_append(a + sp + b, c);
    lemma_words_append(a + sp + b + sp + c, d);
    let body = line_body(l);
    let w = words(body);
    assert(w == seq![a, b, c, d]);
    assert(w[0] == a && w[1] == b && w[2] == c && w[3] == d);
    assert(spec_parse_line(body) == Some(as_dynamic(l))) by {
        match l.hostname {
            None => {},
            Some(h) => {
                assert(c == h);
            },
        }
    }
    assert(body[0] == a[0]);
    assert(body.last() == d.last());
    assert(is_dec_char(d[d.len() - 1]));
    lemma_trim_noop(body);
    lemma_no_ws_no_newline(a);
    lemma_no_ws_no_newline(b);
    lemma_no_ws_no_newline(c);
    lemma_no_ws_no_newline(d);
    lemma_spaced_lacks(a, b, '\n');
    lemma_spaced_lacks(a + sp + b, c, '\n');
    lemma_spaced_lacks(a + sp + b + sp + c, d, '\n');
    assert(format_line(l) =~= body + seq!['\n']);
}

/// The lines of the lease-file text of storable leases.
pub open spec fn line_bodies(s: Seq<LeaseView>) -> Seq<Seq<char>> {
    s.map_values(|l: LeaseView| line_body(l))
}

/// Splitting the text of storable leases at line breaks gives their lines
/// and an empty remainder.
proof fn lemma_file_split(s: Seq<LeaseView>)
    requires
        forall|i: int| 0 <= i < s.len() ==> storable(#[trigger] s[i]),
    ensures
        split(file_text(s), '\n') == line_bodies(s).push(Seq::<char>::empty()),
    decreases s.len(),
{
    if s.len() == 0 {
        assert(line_bodies(s).push(Seq::<char>::empty()) =~= seq![Seq::<char>::empty()]);
    } else {
        let t = s.drop_last();
        let x = s.last();
        assert forall|i: int| 0 <= i < t.len() implies storable(#[trigger] t[i]) by {
            assert(t[i] == s[i]);
        }
        lemma_file_split(t);
        assert(storable(s[s.len() - 1]));
        assert(lacks(line_body(x), '\n') && format_line(x) == line_body(x) + seq!['\n']) by {
            lemma_line_roundtrip(x);
        }
        let p = file_text(t);
        let q = p + line_body(x);
        lemma_split_extend(p, line_body(x), '\n');
        assert(file_text(s) =~= q.push('\n'));
        assert(q.push('\n').drop_last() =~= q);
        assert(Seq::<char>::empty() + line_body(x) =~= line_body(x));
        assert(line_bodies(t).push(Seq::<char>::empty()).update(t.len() as int, Seq::<char>::empty() + line_body(x))
            =~= line_bodies(t).push(line_body(x)));
        assert(line_bodies(t).push(line_body(x)) =~= line_bodies(s));
    }
}

/// The lines of the lease-file text of storable leases are their lines.
proof fn lemma_file_lines(s: Seq<LeaseView>)
    requires
        forall|i: int| 0 <= i < s.len() ==> storable(#[trigger] s[i]),
    ensures
        lines(file_text(s)) == line_bodies(s),
{
    lemma_file_split(s);
    assert(line_bodies(s).push(Seq::<char>::empty()).drop_last() =~= line_bodies(s));
}

/// Loading the lines of storable leases inserts them in order, each of kind
/// dynamic, and none is malformed.
proof fn lemma_load_bodies(s: Seq<LeaseView>)
    requires
        forall|i: int| 0 <= i < s.len() ==> storable(#[trigger] s[i]),
    ensures
        load_lines(Map::empty(), line_bodies(s)) == dynamic_map(lease_map(s)),
        malformed_lines(line_bodies(s)) == Seq::<(nat, Seq<char>)>::empty(),
    decreases s.len(),
{
    if s.len() > 0 {
        let t = s.drop_last();
        assert forall|i: int| 0 <= i < t.len() implies storable(#[trigger] t[i]) by {
            assert(t[i] == s[i]);
        }
        lemma_load_bodies(t);
        assert(storable(s[s.len() - 1]));
        lemma_line_roundtrip(s.last());
        assert(line_bodies(s).drop_last() =~= line_bodies(t));
        assert(line_bodies(s).last() == line_body(s.last()));
        let x = s.last();
        assert(dynamic_map(lease_map(t)).insert(x.mac, as_dynamic(x)) =~= dynamic_map(lease_map(t).insert(x.mac, x)));
    } else {
        assert(dynamic_map(lease_map(s)) =~= Map::<Seq<u8>, LeaseView>::empty());
    }
}

/// Inserting a lease whose MAC is new adds exactly that entry.
proof fn lemma_insert_by_ip_map(t: Seq<LeaseView>, x: LeaseView)
    requires
        !lease_map(t).dom().contains(x.mac),
    ensures
        lease_map(insert_by_ip(t, x)) == lease_map(t).insert(x.mac, x),
    decreases t.len(),
{
    if t.len() > 0 && t.last().ip > x.ip {
        let u = t.drop_last();
        let l = t.last();
        lemma_insert_by_ip_map(u, x);
        assert(insert_by_ip(t, x).drop_last() =~= insert_by_ip(u, x));
        assert(lease_map(u).insert(x.mac, x).insert(l.mac, l) =~= lease_map(u).insert(l.mac, l).insert(x.mac, x));
    } else if t.len() > 0 {
        assert(insert_by_ip(t, x).drop_last() =~= t);
    } else {
        assert(seq![x].drop_last() =~= t);
    }
}

/// Sorting by address keeps the leases of each MAC.
proof fn lemma_sort_by_ip_map(s: Seq<LeaseView>)
    requires
        unique_macs(s),
    ensures
        lease_map(sort_by_ip(s)) == lease_map(s),
    decreases s.len(),
{
    if s.len() > 0 {
        let t = s.drop_last();
        let x = s.last();
        assert(unique_macs(t)) by {
            assert forall|i: int, j: int|
                0 <= i < t.len() && 0 <= j < t.len() && i != j implies #[trigger] t[i].mac
                != #[trigger] t[j].mac by {
                assert(t[i] == s[i] && t[j] == s[j]);
            }
        }
        lemma_sort_by_ip_map(t);
        if lease_map(t).dom().contains(x.mac) {
            lemma_lease_map_dom(t, x.mac);
            let k = choose|k: int| 0 <= k < t.len() && #[trigger] t[k].mac == x.mac;
            assert(s[k].mac == s[s.len() - 1].mac);
        }
        lemma_insert_by_ip_map(sort_by_ip(t), x);
    }
}

/// Inserting a storable lease into storable leases keeps them storable.
proof fn lemma_insert_by_ip_storable(t: Seq<LeaseView>, x: LeaseView)
    requires
        forall|i: int| 0 <= i < t.len() ==> storable(#[trigger] t[i]),
        storable(x),
    ensures
        forall|i: int| 0 <= i < insert_by_ip(t, x).len() ==> storable(#[trigger] insert_by_ip(t, x)[i]),
    decreases t.len(),
{
    if t.len() > 0 && t.last().ip > x.ip {
        let u = t.drop_last();
        assert forall|i: int| 0 <= i < u.len() implies storable(#[trigger] u[i]) by {
            assert(u[i] == t[i]);
        }
        lemma_insert_by_ip_storable(u, x);
        let r = insert_by_ip(t, x);
        assert forall|i: int| 0 <= i < r.len() implies storable(#[trigger] r[i]) by {
            if i < r.len() - 1 {
                assert(r[i] == insert_by_ip(u, x)[i]);
            } else {
                assert(r[i] == t[t.len() - 1]);
            }
        }
    } else if t.len() > 0 {
        let r = insert_by_ip(t, x);
        assert forall|i: int| 0 <= i < r.len() implies storable(#[trigger] r[i]) by {
            if i < t.len() {
                assert(r[i] == t[i]);
            }
        }
    }
}

/// Sorting storable leases gives storable leases.
proof fn lemma_sort_by_ip_storable(s: Seq<LeaseView>)
    requires
        forall|i: int| 0 <= i < s.len() ==> storable(#[trigger] s[i]),
    ensures
        forall|i: int| 0 <= i < sort_by_ip(s).len() ==> storable(#[trigger] sort_by_ip(s)[i]),
    decreases s.len(),
{
    if s.len() > 0 {
        let t = s.drop_last();
        assert forall|i: int| 0 <= i < t.len() implies storable(#[trigger] t[i]) by {
            assert(t[i] == s[i]);
        }
        lemma_sort_by_ip_storable(t);
        assert(storable(s[s.len() - 1]));
        lemma_insert_by_ip_storable(sort_by_ip(t), s.last());
    }
}

/// What a store writes to its lease file loads back into an empty store as
/// the same leases, each of kind dynamic, with no line reported malformed,
/// when every lease is storable; a store of dynamic leases loads back as it
/// was.
pub proof fn lemma_saved_leases_load_back(store: LeaseStore)
    requires
        store.wf(),
        forall|m: Seq<u8>| #[trigger] store@.dom().contains(m) ==> storable(store@[m]),
    ensures
        load_lines(Map::empty(), lines(file_text(sort_by_ip(store.seq())))) == dynamic_map(store@),
        (forall|m: Seq<u8>| #[trigger] store@.dom().contains(m) ==> store@[m].kind == LeaseKind::Dynamic)
            ==> load_lines(Map::empty(), lines(file_text(sort_by_ip(store.seq())))) == store@,
        malformed_lines(lines(file_text(sort_by_ip(store.seq())))) == Seq::<(nat, Seq<char>)>::empty(),
{
    store.lemma_view();
    let s = store.seq();
    assert forall|i: int| 0 <= i < s.len() implies storable(#[trigger] s[i]) by {
        assert(store@.dom().contains(s[i].mac));
    }
    lemma_sort_by_ip_storable(s);
    lemma_file_lines(sort_by_ip(s));
    lemma_load_bodies(sort_by_ip(s));
    lemma_sort_by_ip_map(s);
    if forall|m: Seq<u8>| #[trigger] store@.dom().contains(m) ==> store@[m].kind == LeaseKind::Dynamic {
        assert(dynamic_map(store@) =~= store@);
    }
}

/// Inserting keeps every address at most `b` when all were, and adds one
/// lease.
proof fn lemma_insert_by_ip_bounded(t: Seq<LeaseView>, x: LeaseView, b: u32)
    requires
        forall|i: int| 0 <= i < t.len() ==> #[trigger] t[i].ip <= b,
        x.ip <= b,
    ensures
        insert_by_ip(t, x).len() == t.len() + 1,
        forall|i: int| 0 <= i < insert_by_ip(t, x).len() ==> #[trigger] insert_by_ip(t, x)[i].ip <= b,
    decreases t.len(),
{
    if t.len() > 0 && t.last().ip > x.ip {
        let u = t.drop_last();
        assert forall|i: int| 0 <= i < u.len() implies #[trigger] u[i].ip <= b by {
            assert(u[i] == t[i]);
        }
        lemma_insert_by_ip_bounded(u, x, b);
        let r = insert_by_ip(t, x);
        assert forall|i: int| 0 <= i < r.len() implies #[trigger] r[i].ip <= b by {
            if i < r.len() - 1 {
                assert(r[i] == insert_by_ip(u, x)[i]);
            } else {
                assert(r[i] == t[t.len() - 1]);
            }
        }
    } else if t.len() > 0 {
        let r = insert_by_ip(t, x);
        assert forall|i: int| 0 <= i < r.len() implies #[trigger] r[i].ip <= b by {
            if i < t.len() {
                assert(r[i] == t[i]);
            }
        }
    }
}

/// Inserting into address-ordered leases keeps them in order.
proof fn lemma_insert_by_ip_sorted(t: Seq<LeaseView>, x: LeaseView)
    requires
        sorted_by_ip(t),
    ensures
        sorted_by_ip(insert_by_ip(t, x)),
        insert_by_ip(t, x).len() == t.len() + 1,
    decreases t.len(),
{
    let r = insert_by_ip(t, x);
    if t.len() == 0 {
    } else if t.last().ip <= x.ip {
        assert forall|i: int, j: int| 0 <= i <= j < r.len() implies #[trigger] r[i].ip <= #[trigger] r[j].ip by {
            if j < t.len() {
                assert(r[i] == t[i] && r[j] == t[j]);
            } else if i < t.len() {
                assert(r[i] == t[i]);
                assert(t[i].ip <= t[t.len() - 1].ip);
            }
        }
    } else {
        let u = t.drop_last();
        let l = t.last();
        assert(sorted_by_ip(u)) by {
            assert forall|i: int, j: int| 0 <= i <= j < u.len() implies #[trigger] u[i].ip <= #[trigger] u[j].ip by {
                assert(u[i] == t[i] && u[j] == t[j]);
            }
        }
        lemma_insert_by_ip_sorted(u, x);
        assert forall|i: int| 0 <= i < u.len() implies #[trigger] u[i].ip <= l.ip by {
            assert(u[i] == t[i]);
            assert(t[i].ip <= t[t.len() - 1].ip);
        }
        lemma_insert_by_ip_bounded(u, x, l.ip);
        let v = insert_by_ip(u, x);
        assert forall|i: int, j: int| 0 <= i <= j < r.len() implies #[trigger] r[i].ip <= #[trigger] r[j].ip by {
            if j < v.len() {
                assert(r[i] == v[i] && r[j] == v[j]);
            } else if i < v.len() {
                assert(r[i] == v[i]);
                assert(r[j] == l);
            }
        }
    }
}

/// Sorting puts the leases in address order and keeps their number.
pub proof fn lemma_sort_by_ip_sorted(s: Seq<LeaseView>)
    ensures
        sorted_by_ip(sort_by_ip(s)),
        sort_by_ip(s).len() == s.len(),
    decreases s.len(),
{
    if s.len() > 0 {
        lemma_sort_by_ip_sorted(s.drop_last());
        lemma_insert_by_ip_sorted(sort_by_ip(s.drop_last()), s.last());
    }
}
}
