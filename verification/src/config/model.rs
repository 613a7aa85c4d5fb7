//! Configuration data model.
use vstd::prelude::*;

use crate::util::ip::{Cidr, Ipv4Addr};
use crate::util::mac::MacAddr;

verus! {

/// A fixed MAC -> IP binding read from the config file.
#[derive(Clone, Debug)]
pub struct StaticLease {
    pub name: String,
    pub mac: MacAddr,
    pub ip: Ipv4Addr,
}

/// Fully parsed and (after `validate`) sane server configuration.
#[derive(Clone, Debug)]
pub struct DhcpConfig {
    pub interface: String,
    pub server_ip: Ipv4Addr,
    pub subnet: Cidr,
    pub subnet_mask: Ipv4Addr,
    pub pool_start: Ipv4Addr,
    pub pool_end: Ipv4Addr,
    /// Default gateway (DHCP option 3). Optional.
    pub router: Option<Ipv4Addr>,
    /// DNS servers (DHCP option 6). May be empty.
    pub dns: Vec<Ipv4Addr>,
    /// Lease duration in seconds (DHCP option 51).
    pub lease_time: u32,
    /// Path to the dynamic lease database.
    pub lease_file: String,
    /// When binding the socket to `interface` fails, keep serving on `0.0.0.0`
    /// instead of aborting. Default `false` (fail-fast).
    pub allow_unbound: bool,
    pub statics: Vec<StaticLease>,
}

/// Position of the first binding for `mac` in `statics`, or `statics.len()`
/// when there is none.
pub open spec fn static_pos(statics: Seq<StaticLease>, mac: Seq<u8>) -> int
    decreases statics.len(),
{
    if statics.len() == 0 {
        0
    } else if statics[0].mac@ == mac {
        0
    } else {
        1 + static_pos(statics.drop_first(), mac)
    }
}

/// The IP of the first static binding for `mac`, if any.
pub open spec fn static_ip(statics: Seq<StaticLease>, mac: Seq<u8>) -> Option<u32> {
    let k = static_pos(statics, mac);
    if k < statics.len() {
        Some(statics[k].ip.0)
    } else {
        None
    }
}

/// Some static binding uses the address `ip`.
pub open spec fn is_static_ip(statics: Seq<StaticLease>, ip: u32) -> bool {
    exists|k: int| 0 <= k < statics.len() && #[trigger] statics[k].ip.0 == ip
}

/// `static_pos` is the first match.
pub proof fn lemma_static_pos(statics: Seq<StaticLease>, mac: Seq<u8>)
    ensures
        0 <= static_pos(statics, mac) <= statics.len(),
        static_pos(statics, mac) < statics.len() ==> statics[static_pos(statics, mac)].mac@
            == mac,
        forall|j: int|
            0 <= j < static_pos(statics, mac) ==> #[trigger] statics[j].mac@ != mac,
    decreases statics.len(),
{
    if statics.len() > 0 && statics[0].mac@ != mac {
        let t = statics.drop_first();
        lemma_static_pos(t, mac);
        assert forall|j: int| 0 <= j < static_pos(statics, mac) implies #[trigger] statics[j].mac@
            != mac by {
            if j > 0 {
                assert(statics[j] == t[j - 1]);
            }
        }
    }
}

impl DhcpConfig {
    /// Static lease matching `mac`, if any (the first one).
    pub fn static_for(&self, mac: MacAddr) -> (r: Option<&StaticLease>)
        ensures
            match r {
                Some(s) => static_pos(self.statics@, mac@) < self.statics@.len() && *s
                    == self.statics@[static_pos(self.statics@, mac@)],
                None => static_pos(self.statics@, mac@) == self.statics@.len(),
            },
    {
        proof {
            lemma_static_pos(self.statics@, mac@);
        }
        let mut k: usize = 0;
        while k < self.statics.len()
            invariant
                k <= self.statics.len(),
                k <= static_pos(self.statics@, mac@),
                forall|j: int| 0 <= j < k ==> #[trigger] self.statics@[j].mac@ != mac@,
            decreases self.statics.len() - k,
        {
            proof {
                lemma_static_pos(self.statics@, mac@);
            }
            if self.statics[k].mac == mac {
                assert(self.statics@[k as int].mac@ == mac@);
                return Some(&self.statics[k]);
            }
            k += 1;
        }
        proof {
            lemma_static_pos(self.statics@, mac@);
        }
        None
    }
}

}
