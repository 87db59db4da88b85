use crate::types::PeerId;
use vstd::prelude::*;

verus! {

/// Bytes that a transport can carry in one piece when it has no limit of
/// its own: the common Ethernet size.
pub const MOCK_MTU: usize = 1500;

/// What a transport reports to those who subscribed to it.
#[derive(Debug, Clone)]
pub enum TransportEvent {
    PeerConnected(PeerId),
    PeerDisconnected(PeerId),
    DataReceived { peer: PeerId, data: Vec<u8> },
    Error(String),
}

impl TransportEvent {
    /// Whether the event reports that `data` was received from `peer`.
    pub open spec fn is_delivery(self, peer: PeerId, data: Seq<u8>) -> bool {
        self matches TransportEvent::DataReceived { peer: from, data: bytes } && from == peer
            && bytes@ == data
    }

    /// The event that reports `data` as received from `peer`: what a
    /// loopback transport emits when data is sent to `peer`.
    pub fn delivery(peer: PeerId, data: Vec<u8>) -> (event: TransportEvent)
        ensures
            event.is_delivery(peer, data@),
    {
        TransportEvent::DataReceived { peer, data }
    }
}

/// The events that a loopback transport emits for a broadcast: for each
/// peer, in the order of `peers`, one report of `data` received from it.
pub fn broadcast_events(peers: &Vec<PeerId>, data: &Vec<u8>) -> (events: Vec<TransportEvent>)
    ensures
        events@.len() == peers@.len(),
        forall|i: int| 0 <= i < peers@.len() ==> (#[trigger] events@[i]).is_delivery(
            peers@[i],
            data@,
        ),
{
    let mut events: Vec<TransportEvent> = Vec::new();
    let mut i: usize = 0;
    while i < peers.len()
        invariant
            i <= peers@.len(),
            events@.len() == i,
            forall|j: int| 0 <= j < i ==> (#[trigger] events@[j]).is_delivery(peers@[j], data@),
        decreases peers@.len() - i,
    {
        let mut copy: Vec<u8> = Vec::new();
        crate::wire::put(&mut copy, data.as_slice());
        assert(copy@ =~= data@);
        events.push(TransportEvent::delivery(peers[i], copy));
        i += 1;
    }
    events
}

} // verus!
