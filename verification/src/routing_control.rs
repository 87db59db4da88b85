use crate::types::UserId;
use vstd::prelude::*;

verus! {

/// Control packets for the routing protocol (AODV-inspired).
#[derive(Debug, Clone, PartialEq)]
pub enum RoutingControl {
    /// Route Request: broadcast when a node needs a route to `destination`.
    Rreq {
        origin: UserId,
        destination: UserId,
        /// Unique per-origin request ID to match replies.
        request_id: u32,
        hop_count: u8,
    },
    /// Route Reply: unicast back to the originator of a matching request.
    Rrep { origin: UserId, destination: UserId, hop_count: u8 },
    /// Route Error: notifies that given destinations are unreachable.
    Rerr { unreachable: Vec<UserId> },
}

/// What a control packet says, as a mathematical value.
pub enum ControlPacket {
    RouteRequest { origin: UserId, destination: UserId, request_id: u32, hop_count: u8 },
    RouteReply { origin: UserId, destination: UserId, hop_count: u8 },
    RouteError { unreachable: Seq<UserId> },
}

impl ControlPacket {
    /// The number that marks the variant on the wire.
    pub open spec fn tag(self) -> u32 {
        match self {
            ControlPacket::RouteRequest { .. } => 0,
            ControlPacket::RouteReply { .. } => 1,
            ControlPacket::RouteError { .. } => 2,
        }
    }

    /// Whether the packet can be held in memory and written to the wire: the
    /// count of unreachable destinations fits in 64 bits.
    pub open spec fn fits(self) -> bool {
        match self {
            ControlPacket::RouteError { unreachable } => unreachable.len() <= u64::MAX,
            _ => true,
        }
    }
}

impl View for RoutingControl {
    type V = ControlPacket;

    open spec fn view(&self) -> ControlPacket {
        match *self {
            RoutingControl::Rreq {
                origin,
                destination,
                request_id,
                hop_count,
            } => ControlPacket::RouteRequest { origin, destination, request_id, hop_count },
            RoutingControl::Rrep { origin, destination, hop_count } => ControlPacket::RouteReply {
                origin,
                destination,
                hop_count,
            },
            RoutingControl::Rerr { unreachable } => ControlPacket::RouteError {
                unreachable: unreachable@,
            },
        }
    }
}

impl RoutingControl {
    /// The number that marks the packet's variant on the wire.
    pub fn tag(&self) -> (t: u32)
        ensures
            t == self@.tag(),
    {
        match self {
            RoutingControl::Rreq { .. } => 0,
            RoutingControl::Rrep { .. } => 1,
            RoutingControl::Rerr { .. } => 2,
        }
    }
}

} // verus!
