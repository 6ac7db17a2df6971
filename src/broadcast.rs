use vstd::prelude::*;

use crate::ipv4::Ip4;

verus! {

pub const MDNS_PORT: u16 = 5353;

pub const SSDP_PORT: u16 = 1900;

pub const LLMNR_PORT: u16 = 5355;

/// The link-local discovery protocols, told apart by UDP port.
#[derive(Clone, Copy, Debug, PartialEq, Eq, Structural)]
pub enum BroadcastProtocol {
    /// UDP 5353.
    Mdns,
    /// UDP 1900.
    Ssdp,
    /// UDP 5355.
    Lmnr,
    Other(u16),
}

impl BroadcastProtocol {
    pub open spec fn spec_from_port(port: u16) -> BroadcastProtocol {
        if port == MDNS_PORT {
            BroadcastProtocol::Mdns
        } else if port == SSDP_PORT {
            BroadcastProtocol::Ssdp
        } else if port == LLMNR_PORT {
            BroadcastProtocol::Lmnr
        } else {
            BroadcastProtocol::Other(port)
        }
    }

    pub open spec fn spec_port(self) -> u16 {
        match self {
            BroadcastProtocol::Mdns => MDNS_PORT,
            BroadcastProtocol::Ssdp => SSDP_PORT,
            BroadcastProtocol::Lmnr => LLMNR_PORT,
            BroadcastProtocol::Other(p) => p,
        }
    }

    pub fn from_port(port: u16) -> (r: BroadcastProtocol)
        ensures
            r == Self::spec_from_port(port),
            r.spec_port() == port,
    {
        if port == MDNS_PORT {
            BroadcastProtocol::Mdns
        } else if port == SSDP_PORT {
            BroadcastProtocol::Ssdp
        } else if port == LLMNR_PORT {
            BroadcastProtocol::Lmnr
        } else {
            BroadcastProtocol::Other(port)
        }
    }

    pub fn port(&self) -> (r: u16)
        ensures
            r == self.spec_port(),
    {
        match self {
            BroadcastProtocol::Mdns => MDNS_PORT,
            BroadcastProtocol::Ssdp => SSDP_PORT,
            BroadcastProtocol::Lmnr => LLMNR_PORT,
            BroadcastProtocol::Other(p) => *p,
        }
    }
}

/// The multicast group the reflector joins for a port: mDNS on
/// 224.0.0.251, SSDP on 239.255.255.250; other ports are not reflected.
pub open spec fn spec_group_for_port(port: u16) -> Option<Ip4> {
    if port == MDNS_PORT {
        Some(Ip4 { a: 224, b: 0, c: 0, d: 251 })
    } else if port == SSDP_PORT {
        Some(Ip4 { a: 239, b: 255, c: 255, d: 250 })
    } else {
        None
    }
}

/// The reflection rules: which local multicast traffic crosses the overlay,
/// and where overlay discovery traffic is replayed.
pub struct BroadcastReflector;

impl BroadcastReflector {
    /// The multicast group for `port`, if it is reflected.
    pub fn group_for_port(port: u16) -> (r: Option<Ip4>)
        ensures
            r == spec_group_for_port(port),
    {
        if port == MDNS_PORT {
            Some(Ip4::new(224, 0, 0, 251))
        } else if port == SSDP_PORT {
            Some(Ip4::new(239, 255, 255, 250))
        } else {
            None
        }
    }

    /// Where a datagram for `port` that came over the overlay is replayed on
    /// the local link: the group and the port; `None` for other ports.
    pub fn replay_target(port: u16) -> (r: Option<(Ip4, u16)>)
        ensures
            match spec_group_for_port(port) {
                Some(g) => r == Some((g, port)),
                None => r is None,
            },
    {
        match Self::group_for_port(port) {
            Some(g) => Some((g, port)),
            None => None,
        }
    }
}

} // verus!
