//! DHCP message types (option 53, RFC 2132 §9.6).
use vstd::prelude::*;

verus! {

/// The value of option 53.
#[derive(Clone, Copy, PartialEq, Eq, Structural, Debug)]
pub enum DhcpMessageType {
    Discover,
    Offer,
    Request,
    Decline,
    Ack,
    Nak,
    Release,
    Inform,
}

/// The wire code of a message type.
pub open spec fn msg_code(t: DhcpMessageType) -> u8 {
    match t {
        DhcpMessageType::Discover => 1,
        DhcpMessageType::Offer => 2,
        DhcpMessageType::Request => 3,
        DhcpMessageType::Decline => 4,
        DhcpMessageType::Ack => 5,
        DhcpMessageType::Nak => 6,
        DhcpMessageType::Release => 7,
        DhcpMessageType::Inform => 8,
    }
}

/// The message type with wire code `v`, if there is one.
pub open spec fn msg_from_code(v: u8) -> Option<DhcpMessageType> {
    if v == 1 {
        Some(DhcpMessageType::Discover)
    } else if v == 2 {
        Some(DhcpMessageType::Offer)
    } else if v == 3 {
        Some(DhcpMessageType::Request)
    } else if v == 4 {
        Some(DhcpMessageType::Decline)
    } else if v == 5 {
        Some(DhcpMessageType::Ack)
    } else if v == 6 {
        Some(DhcpMessageType::Nak)
    } else if v == 7 {
        Some(DhcpMessageType::Release)
    } else if v == 8 {
        Some(DhcpMessageType::Inform)
    } else {
        None
    }
}

impl DhcpMessageType {
    /// Decode option 53; `None` for any code outside 1..=8.
    pub fn from_u8(v: u8) -> (r: Option<DhcpMessageType>)
        ensures
            r == msg_from_code(v),
    {
        match v {
            1 => Some(DhcpMessageType::Discover),
            2 => Some(DhcpMessageType::Offer),
            3 => Some(DhcpMessageType::Request),
            4 => Some(DhcpMessageType::Decline),
            5 => Some(DhcpMessageType::Ack),
            6 => Some(DhcpMessageType::Nak),
            7 => Some(DhcpMessageType::Release),
            8 => Some(DhcpMessageType::Inform),
            _ => None,
        }
    }

    /// The wire code.
    pub fn to_u8(self) -> (r: u8)
        ensures
            r == msg_code(self),
    {
        match self {
            DhcpMessageType::Discover => 1,
            DhcpMessageType::Offer => 2,
            DhcpMessageType::Request => 3,
            DhcpMessageType::Decline => 4,
            DhcpMessageType::Ack => 5,
            DhcpMessageType::Nak => 6,
            DhcpMessageType::Release => 7,
            DhcpMessageType::Inform => 8,
        }
    }
}

/// Encoding a message type and decoding the code gives the type back, and
/// exactly the codes 1..=8 decode.
pub proof fn lemma_msg_code_roundtrip(t: DhcpMessageType, v: u8)
    ensures
        msg_from_code(msg_code(t)) == Some(t),
        1 <= msg_code(t) <= 8,
        msg_from_code(v) is Some <==> 1 <= v <= 8,
        msg_from_code(v) matches Some(u) ==> msg_code(u) == v,
{
}

}
