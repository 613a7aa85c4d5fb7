//! Lease data model.
use vstd::prelude::*;

use crate::util::ip::Ipv4Addr;
use crate::util::mac::MacAddr;

verus! {

/// How a lease was produced.
#[derive(Clone, Copy, Debug, PartialEq, Eq, Structural)]
pub enum LeaseKind {
    /// Allocated from the pool; persisted to the lease file.
    Dynamic,
    /// Fixed MAC -> IP binding from config; never written to the lease file.
    Static,
}

/// The label of a kind, as printed in the lease table.
pub open spec fn kind_label(k: LeaseKind) -> Seq<char> {
    match k {
        LeaseKind::Dynamic => "dynamic"@,
        LeaseKind::Static => "static"@,
    }
}

impl LeaseKind {
    /// `"dynamic"` or `"static"`.
    pub fn label(self) -> (r: &'static str)
        ensures
            r@ == kind_label(self),
    {
        match self {
            LeaseKind::Dynamic => "dynamic",
            LeaseKind::Static => "static",
        }
    }
}

/// A single MAC -> IP assignment.
#[derive(Clone, Debug)]
pub struct Lease {
    pub mac: MacAddr,
    pub ip: Ipv4Addr,
    pub hostname: Option<String>,
    /// Unix timestamp at which a dynamic lease expires. For static leases this
    /// field is unused (set to 0).
    pub expires_at: u64,
    pub kind: LeaseKind,
}

/// A lease as plain values.
pub struct LeaseView {
    pub mac: Seq<u8>,
    pub ip: u32,
    pub hostname: Option<Seq<char>>,
    pub expires_at: u64,
    pub kind: LeaseKind,
}

/// The view of an optional string.
pub open spec fn opt_str(h: Option<String>) -> Option<Seq<char>> {
    match h {
        Some(s) => Some(s@),
        None => None,
    }
}

impl View for Lease {
    type V = LeaseView;

    open spec fn view(&self) -> LeaseView {
        LeaseView {
            mac: self.mac@,
            ip: self.ip.0,
            hostname: opt_str(self.hostname),
            expires_at: self.expires_at,
            kind: self.kind,
        }
    }
}

/// The hostname column: the hostname, or `-` if unknown.
pub open spec fn host_or_dash(h: Option<Seq<char>>) -> Seq<char> {
    match h {
        Some(s) => s,
        None => "-"@,
    }
}

impl Lease {
    /// The hostname, or `-` if unknown.
    pub fn hostname_str(&self) -> (r: &str)
        ensures
            r@ == host_or_dash(self@.hostname),
    {
        match &self.hostname {
            Some(h) => h.as_str(),
            None => "-",
        }
    }

    /// A copy of this lease.
    pub fn duplicate(&self) -> (r: Lease)
        ensures
            r@ == self@,
    {
        let hostname = match &self.hostname {
            Some(h) => Some(h.clone()),
            None => None,
        };
        Lease { mac: self.mac, ip: self.ip, hostname, expires_at: self.expires_at, kind: self.kind }
    }
}

}
