use disaster_mesh::transport::{broadcast_events, TransportEvent, MOCK_MTU};
use disaster_mesh::types::PeerId;

#[test]
fn a_broadcast_reports_the_data_once_for_each_peer() {
    let peers = vec![PeerId([1; 32]), PeerId([2; 32]), PeerId([3; 32])];
    let data = vec![9u8, 8, 7];
    let events = broadcast_events(&peers, &data);
    assert_eq!(events.len(), 3);
    for (event, peer) in events.iter().zip(peers.iter()) {
        match event {
            TransportEvent::DataReceived { peer: from, data: bytes } => {
                assert_eq!(from, peer);
                assert_eq!(bytes, &data);
            }
            other => panic!("unexpected event {:?}", other),
        }
    }
    assert!(broadcast_events(&vec![], &data).is_empty());
}

#[test]
fn a_delivery_names_the_peer_and_carries_the_data() {
    let event = TransportEvent::delivery(PeerId([4; 32]), vec![1, 2]);
    assert!(matches!(
        event,
        TransportEvent::DataReceived { peer, data } if peer == PeerId([4; 32]) && data == vec![1, 2]
    ));
    assert_eq!(MOCK_MTU, 1500);
}
